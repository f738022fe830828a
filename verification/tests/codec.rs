//! Round trips and failure cases of the framed packet codec.

use mirror::image::CHANNEL_ONE;
use mirror::image::Image;
use mirror::image::Pixel;
use mirror::packet::MirrorPacket;
use mirror::packet::PacketError;
use mirror::packet::PeerAddr;
use mirror::packet::decode_packet;
use mirror::packet::encode_packet;
use mirror::packet::frame_len;
use mirror::packet::frame_packet;
use mirror::render_backend::TileRenderWork;

fn tile_with(value: Pixel, w: usize, h: usize) -> Image {
    let mut t = Image::new((w, h));
    for y in 0..h {
        for x in 0..w {
            t.set(x, y, value);
        }
    }
    t
}

#[test]
fn hello_unnamed_round_trip() {
    let p = MirrorPacket::Hello(None, 2020);
    let bytes = encode_packet(&p);
    match decode_packet(&bytes) {
        Ok(MirrorPacket::Hello(name, port)) => {
            assert_eq!(name, None);
            assert_eq!(port, 2020);
        }
        other => panic!("unexpected decode: {:?}", other),
    }
}

#[test]
fn hello_named_round_trip() {
    let p = MirrorPacket::Hello(Some(String::from("node-a \u{263a}")), 65535);
    let bytes = encode_packet(&p);
    match decode_packet(&bytes) {
        Ok(MirrorPacket::Hello(name, port)) => {
            assert_eq!(name.as_deref(), Some("node-a \u{263a}"));
            assert_eq!(port, 65535);
        }
        other => panic!("unexpected decode: {:?}", other),
    }
}

#[test]
fn gossip_round_trip() {
    let addrs = vec![
        PeerAddr::V4 { ip: 0x7f000001, port: 2020 },
        PeerAddr::V6 { ip: 1, port: 2021 },
        PeerAddr::V4 { ip: 0xc0a80101, port: 9 },
    ];
    let p = MirrorPacket::GossipPeers(addrs.clone());
    let bytes = encode_packet(&p);
    match decode_packet(&bytes) {
        Ok(MirrorPacket::GossipPeers(got)) => assert_eq!(got, addrs),
        other => panic!("unexpected decode: {:?}", other),
    }
}

#[test]
fn sync_scene_round_trip() {
    let scene = vec![0u8, 1, 2, 3, 250, 251, 252, 253, 254, 255];
    let p = MirrorPacket::SyncScene(scene.clone());
    let bytes = encode_packet(&p);
    match decode_packet(&bytes) {
        Ok(MirrorPacket::SyncScene(got)) => assert_eq!(got, scene),
        other => panic!("unexpected decode: {:?}", other),
    }
}

#[test]
fn request_round_trip() {
    let tiles = vec![
        TileRenderWork { begin_pos: (0, 0), tile_size: (64, 64) },
        TileRenderWork { begin_pos: (64, 0), tile_size: (36, 64) },
    ];
    let p = MirrorPacket::RenderTileRequest {
        tiles: tiles.clone(),
        image_size: (100, 64),
        samples_per_pixel: 7,
    };
    let bytes = encode_packet(&p);
    match decode_packet(&bytes) {
        Ok(MirrorPacket::RenderTileRequest { tiles: t2, image_size, samples_per_pixel }) => {
            assert_eq!(t2, tiles);
            assert_eq!(image_size, (100, 64));
            assert_eq!(samples_per_pixel, 7);
        }
        other => panic!("unexpected decode: {:?}", other),
    }
}

#[test]
fn response_round_trip() {
    let value = Pixel { r: 1000, g: 0, b: CHANNEL_ONE };
    let t = tile_with(value, 3, 2);
    let p = MirrorPacket::RenderTileResponse { tiles: vec![t], render_time: 123456789012345 };
    let bytes = encode_packet(&p);
    match decode_packet(&bytes) {
        Ok(MirrorPacket::RenderTileResponse { tiles, render_time }) => {
            assert_eq!(render_time, 123456789012345);
            assert_eq!(tiles.len(), 1);
            assert_eq!(tiles[0].size(), (3, 2));
            for y in 0..2 {
                for x in 0..3 {
                    assert_eq!(tiles[0].get(x, y), value);
                }
            }
        }
        other => panic!("unexpected decode: {:?}", other),
    }
}

#[test]
fn frame_has_length_prefix() {
    let p = MirrorPacket::Hello(None, 2020);
    let payload = encode_packet(&p);
    let frame = frame_packet(&p).expect("framing a small packet succeeds");
    assert_eq!(frame.len(), payload.len() + 4);
    let n = frame_len(&frame[..4]).expect("prefix present") as usize;
    assert_eq!(n, payload.len());
    assert_eq!(&frame[4..], &payload[..]);
    // The prefix is big-endian.
    assert_eq!(frame[0], 0);
    assert_eq!(frame[1], 0);
    assert_eq!(
        ((frame[2] as usize) << 8) | frame[3] as usize,
        payload.len()
    );
}

#[test]
fn hello_wire_layout() {
    // Tag, then the optional name (absent), then the port big-endian.
    let p = MirrorPacket::Hello(None, 0x1234);
    let bytes = encode_packet(&p);
    assert_eq!(bytes, vec![0u8, 0u8, 0x12, 0x34]);
}

#[test]
fn decode_rejects_empty() {
    assert!(matches!(decode_packet(&[]), Err(PacketError::Decode)));
}

#[test]
fn decode_rejects_unknown_tag() {
    assert!(matches!(decode_packet(&[9u8, 0, 0]), Err(PacketError::Decode)));
}

#[test]
fn decode_rejects_truncated() {
    let p = MirrorPacket::Hello(Some(String::from("abc")), 7);
    let mut bytes = encode_packet(&p);
    bytes.pop();
    assert!(matches!(decode_packet(&bytes), Err(PacketError::Decode)));
}

#[test]
fn decode_rejects_trailing_garbage() {
    let p = MirrorPacket::Hello(None, 7);
    let mut bytes = encode_packet(&p);
    bytes.push(0);
    assert!(matches!(decode_packet(&bytes), Err(PacketError::Decode)));
}

#[test]
fn decode_rejects_out_of_range_channel() {
    // A 1x1 tile whose red channel exceeds CHANNEL_ONE.
    let t = tile_with(Pixel { r: 0, g: 0, b: 0 }, 1, 1);
    let p = MirrorPacket::RenderTileResponse { tiles: vec![t], render_time: 0 };
    let mut bytes = encode_packet(&p);
    // The pixel's red channel starts after tag, count, width and height.
    let off = 1 + 8 + 8 + 8;
    bytes[off] = 0xff;
    bytes[off + 1] = 0xff;
    bytes[off + 2] = 0xff;
    bytes[off + 3] = 0xff;
    assert!(matches!(decode_packet(&bytes), Err(PacketError::Decode)));
}

#[test]
fn decode_rejects_invalid_name_utf8() {
    let p = MirrorPacket::Hello(Some(String::from("ab")), 7);
    let mut bytes = encode_packet(&p);
    // Corrupt the first name byte into an invalid UTF-8 lead byte.
    bytes[10] = 0xff;
    assert!(matches!(decode_packet(&bytes), Err(PacketError::Decode)));
}
