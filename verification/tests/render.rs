//! The tile partition, the progressive accumulator and the render
//! bookkeeping.

use mirror::RenderInfo;
use mirror::TileRenderWork;
use mirror::accum_image::AccumulatedImage;
use mirror::accum_image::SampleSum;
use mirror::image::CHANNEL_ONE;
use mirror::image::Image;
use mirror::image::Pixel;
use mirror::render_backend::RemoteWorker;
use mirror::render_backend::apply_render_results;
use mirror::render_backend::frame_large_enough;
use mirror::render_backend::num_local_workers;
use mirror::render_backend::partition_tiles;
use mirror::packet::MirrorPacket;
use mirror::packet::decode_packet;
use mirror::packet::encode_packet;
use mirror::render_backend::should_close_work_queue;

fn tile_with(value: Pixel, w: usize, h: usize) -> Image {
    let mut t = Image::new((w, h));
    for y in 0..h {
        for x in 0..w {
            t.set(x, y, value);
        }
    }
    t
}

fn constant_tiles_for(image_size: (usize, usize), value: Pixel) -> Vec<Image> {
    partition_tiles(image_size)
        .iter()
        .map(|w| tile_with(value, w.tile_size.0, w.tile_size.1))
        .collect()
}

#[test]
fn partition_256_is_16_tiles() {
    let tiles = partition_tiles((256, 256));
    assert_eq!(tiles.len(), 16);
    assert_eq!(tiles[0], TileRenderWork { begin_pos: (0, 0), tile_size: (64, 64) });
    assert_eq!(tiles[5], TileRenderWork { begin_pos: (64, 64), tile_size: (64, 64) });
    for t in tiles.iter() {
        assert_eq!(t.tile_size, (64, 64));
    }
}

#[test]
fn partition_truncates_border_tiles() {
    let tiles = partition_tiles((100, 100));
    assert_eq!(tiles.len(), 4);
    assert_eq!(tiles[0], TileRenderWork { begin_pos: (0, 0), tile_size: (64, 64) });
    assert_eq!(tiles[1], TileRenderWork { begin_pos: (64, 0), tile_size: (36, 64) });
    assert_eq!(tiles[2], TileRenderWork { begin_pos: (0, 64), tile_size: (64, 36) });
    assert_eq!(tiles[3], TileRenderWork { begin_pos: (64, 64), tile_size: (36, 36) });
}

#[test]
fn partition_single_tile() {
    let tiles = partition_tiles((64, 64));
    assert_eq!(tiles.len(), 1);
    assert_eq!(tiles[0], TileRenderWork { begin_pos: (0, 0), tile_size: (64, 64) });
}

#[test]
fn partition_covers_every_pixel_once() {
    let tiles = partition_tiles((130, 70));
    for (x, y) in [(0usize, 0usize), (63, 63), (64, 0), (128, 69), (129, 64)] {
        let covering = tiles
            .iter()
            .filter(|t| {
                t.begin_pos.0 <= x
                    && x < t.begin_pos.0 + t.tile_size.0
                    && t.begin_pos.1 <= y
                    && y < t.begin_pos.1 + t.tile_size.1
            })
            .count();
        assert_eq!(covering, 1, "pixel ({x},{y})");
    }
}

#[test]
fn small_frames_are_rejected() {
    assert!(!frame_large_enough((63, 256)));
    assert!(!frame_large_enough((256, 63)));
    assert!(frame_large_enough((64, 64)));
}

#[test]
fn worker_counts() {
    // Half the cores at most are ceded to remote dispatch.
    assert_eq!(num_local_workers(8, 0), 8);
    assert_eq!(num_local_workers(8, 3), 5);
    assert_eq!(num_local_workers(8, 100), 4);
    assert_eq!(num_local_workers(1, 5), 1);
    assert_eq!(num_local_workers(0, 0), 1);
}

#[test]
fn queue_closes_on_final_decrement() {
    assert!(!should_close_work_queue(10, 8));
    assert!(should_close_work_queue(8, 8));
    assert!(should_close_work_queue(3, 8));
}

#[test]
fn clear_resets_pixels_and_count() {
    let mut img = AccumulatedImage::new((64, 64));
    let grey = Pixel { r: 5140, g: 5140, b: 5140 };
    let tiles = constant_tiles_for((64, 64), Pixel { r: 100, g: 200, b: 300 });
    apply_render_results(&mut img, &tiles, 3);
    assert_eq!(img.times_sampled(), 3);
    img.clear(grey);
    assert_eq!(img.times_sampled(), 0);
    assert_eq!(img.get(0, 0), SampleSum { r: 5140, g: 5140, b: 5140 });
    assert_eq!(img.get(63, 63), SampleSum { r: 5140, g: 5140, b: 5140 });
}

#[test]
fn single_pass_render() {
    // A 256x256 frame renders in exactly 16 tiles; one pass of one sample
    // moves the count from 0 to 1 and writes the tile averages verbatim.
    let mut img = AccumulatedImage::new((256, 256));
    let value = Pixel { r: 1000, g: 2000, b: 3000 };
    let tiles = constant_tiles_for((256, 256), value);
    assert_eq!(tiles.len(), 16);
    apply_render_results(&mut img, &tiles, 1);
    assert_eq!(img.times_sampled(), 1);
    assert_eq!(img.get(0, 0), SampleSum { r: 1000, g: 2000, b: 3000 });
    assert_eq!(img.get(255, 255), SampleSum { r: 1000, g: 2000, b: 3000 });
    let info = RenderInfo::from_pass(1, 20);
    assert_eq!(info.last_samples, 1);
}

#[test]
fn first_pass_discards_cleared_colour() {
    let mut img = AccumulatedImage::new((64, 64));
    img.clear(Pixel { r: 5140, g: 5140, b: 5140 });
    let tiles = constant_tiles_for((64, 64), Pixel { r: 400, g: 0, b: 0 });
    apply_render_results(&mut img, &tiles, 2);
    assert_eq!(img.times_sampled(), 2);
    // Two samples of average 400: sum 800, no trace of the grey fill.
    assert_eq!(img.get(10, 10), SampleSum { r: 800, g: 0, b: 0 });
}

#[test]
fn progressive_accumulation_is_the_mean() {
    // Five passes of one sample each: the count climbs by one each time
    // and the final value is the exact mean of the five pass averages.
    let mut img = AccumulatedImage::new((64, 64));
    let values = [100u32, 200, 300, 400, 500];
    for (i, v) in values.iter().enumerate() {
        let tiles = constant_tiles_for((64, 64), Pixel { r: *v, g: 0, b: 0 });
        apply_render_results(&mut img, &tiles, 1);
        assert_eq!(img.times_sampled(), i + 1);
    }
    // The represented value is sum / (5 * CHANNEL_ONE): exactly the mean
    // (100+200+300+400+500)/5 = 300 in channel units.
    assert_eq!(img.times_sampled(), 5);
    assert_eq!(img.get(32, 32), SampleSum { r: 1500, g: 0, b: 0 });
}

#[test]
fn weighted_merge_of_two_passes() {
    // A pass of 3 samples at 1/4 brightness then one of 1 sample at full
    // brightness: out = 3/4 * 1/4 + 1/4 * 1 = 7/16, held exactly as the
    // sum 3*(C/4) + 1*C over 4*C.
    let mut img = AccumulatedImage::new((64, 64));
    let quarter = CHANNEL_ONE / 4;
    let t1 = constant_tiles_for((64, 64), Pixel { r: quarter, g: 0, b: 0 });
    apply_render_results(&mut img, &t1, 3);
    let t2 = constant_tiles_for((64, 64), Pixel { r: CHANNEL_ONE, g: 0, b: 0 });
    apply_render_results(&mut img, &t2, 1);
    assert_eq!(img.times_sampled(), 4);
    let expect = 3 * (quarter as u64) + CHANNEL_ONE as u64;
    assert_eq!(img.get(0, 0), SampleSum { r: expect, g: 0, b: 0 });
    // 7/16 of 4*C over 4*C: cross-check the fraction.
    assert_eq!(expect * 16, 7 * 4 * CHANNEL_ONE as u64);
}

#[test]
fn gamma_bytes_are_exact() {
    let mut img = AccumulatedImage::new((64, 64));
    let tiles = constant_tiles_for(
        (64, 64),
        Pixel { r: CHANNEL_ONE, g: CHANNEL_ONE / 4, b: 0 },
    );
    apply_render_results(&mut img, &tiles, 1);
    let bytes = img.to_bytes();
    assert_eq!(bytes.len(), 64 * 64 * 3);
    // Full brightness maps to 255, quarter brightness to floor(255*0.5),
    // black to 0.
    assert_eq!(bytes[0], 255);
    assert_eq!(bytes[1], 127);
    assert_eq!(bytes[2], 0);
}

#[test]
fn resize_reallocates_and_resets() {
    let mut img = AccumulatedImage::new((64, 64));
    let tiles = constant_tiles_for((64, 64), Pixel { r: 7, g: 7, b: 7 });
    apply_render_results(&mut img, &tiles, 1);
    img.resize((128, 96));
    assert_eq!(img.size(), (128, 96));
    assert_eq!(img.times_sampled(), 0);
    assert_eq!(img.get(100, 90), SampleSum { r: 0, g: 0, b: 0 });
}

#[test]
fn render_info_merge_recomputes_totals() {
    let mut total = RenderInfo::default();
    total.merge(&RenderInfo::from_pass(2, 100));
    total.merge(&RenderInfo::from_pass(3, 50));
    assert_eq!(total.total_samples, 5);
    assert_eq!(total.total_time, 150);
    assert_eq!(total.total_avg_time_per_sample, 30);
    assert_eq!(total.last_samples, 3);
    assert_eq!(total.last_time, 50);
    assert_eq!(total.last_avg_time_per_sample, 16);
}

#[test]
fn remote_worker_pairs_response_positionally() {
    let mut w = RemoteWorker::new();
    w.push_work(TileRenderWork { begin_pos: (0, 0), tile_size: (2, 2) });
    w.push_work(TileRenderWork { begin_pos: (64, 0), tile_size: (2, 2) });
    assert_eq!(w.batch_len(), 2);
    assert!(!w.batch_is_full());
    let a = tile_with(Pixel { r: 1, g: 1, b: 1 }, 2, 2);
    let b = tile_with(Pixel { r: 2, g: 2, b: 2 }, 2, 2);
    let completed = w.accept_response(vec![a, b]);
    assert_eq!(completed, 2);
    assert_eq!(w.batch_len(), 0);
    let results = w.into_results();
    assert_eq!(results.len(), 2);
    assert_eq!(results[0].0, (0, 0));
    assert_eq!(results[0].1.get(0, 0).r, 1);
    assert_eq!(results[1].0, (64, 0));
    assert_eq!(results[1].1.get(0, 0).r, 2);
}

#[test]
fn failed_batch_is_requeued_not_lost() {
    let mut w = RemoteWorker::new();
    let w1 = TileRenderWork { begin_pos: (0, 0), tile_size: (64, 64) };
    let w2 = TileRenderWork { begin_pos: (64, 0), tile_size: (64, 64) };
    w.push_work(w1);
    w.push_work(w2);
    let requeue = w.take_failed_batch();
    assert_eq!(requeue, vec![w1, w2]);
    assert_eq!(w.batch_len(), 0);
    assert_eq!(w.into_results().len(), 0);
}

#[test]
fn set_overwrites_one_pixel() {
    let mut img = AccumulatedImage::new((64, 64));
    let tiles = constant_tiles_for((64, 64), Pixel { r: 40, g: 40, b: 40 });
    apply_render_results(&mut img, &tiles, 2);
    img.set(5, 6, Pixel { r: CHANNEL_ONE, g: 0, b: 0 });
    // The written pixel now represents full red: its sums are the
    // channels times the two accumulated samples.
    assert_eq!(img.get(5, 6), SampleSum { r: 2 * CHANNEL_ONE as u64, g: 0, b: 0 });
    assert_eq!(img.get(5, 7), SampleSum { r: 80, g: 80, b: 80 });
    assert_eq!(img.times_sampled(), 2);
}

#[test]
fn remote_render_through_the_codec() {
    // A full remote pass in miniature: the initiator batches the whole
    // partition of a 128x128 frame, the request crosses the codec, the
    // peer replies positionally, and the spliced result matches what the
    // same tiles produce locally.
    let image_size = (128usize, 128usize);
    let works = partition_tiles(image_size);
    assert_eq!(works.len(), 4);

    let mut worker = RemoteWorker::new();
    for w in works.iter() {
        worker.push_work(*w);
    }
    let request = MirrorPacket::RenderTileRequest {
        tiles: works.clone(),
        image_size,
        samples_per_pixel: 2,
    };
    let wire = encode_packet(&request);

    // The peer decodes the request and renders each tile in order.
    let reply_wire = match decode_packet(&wire) {
        Ok(MirrorPacket::RenderTileRequest { tiles, .. }) => {
            let rendered: Vec<Image> = tiles
                .iter()
                .enumerate()
                .map(|(i, w)| {
                    tile_with(
                        Pixel { r: 100 * (i as u32 + 1), g: 0, b: 0 },
                        w.tile_size.0,
                        w.tile_size.1,
                    )
                })
                .collect();
            encode_packet(&MirrorPacket::RenderTileResponse { tiles: rendered, render_time: 5 })
        }
        other => panic!("unexpected decode: {:?}", other),
    };

    // The initiator pairs the reply with its batch and splices.
    let mut img = AccumulatedImage::new(image_size);
    match decode_packet(&reply_wire) {
        Ok(MirrorPacket::RenderTileResponse { tiles, render_time }) => {
            assert_eq!(render_time, 5);
            let completed = worker.accept_response(tiles);
            assert_eq!(completed, 4);
            for (pos, tile) in worker.into_results() {
                img.insert_tile_by(&tile, pos, 2);
            }
            img.advance_times_sampled(2);
        }
        other => panic!("unexpected decode: {:?}", other),
    }

    // Tile 0 covers (0,0), tile 3 covers (127,127); two samples each.
    assert_eq!(img.times_sampled(), 2);
    assert_eq!(img.get(0, 0), SampleSum { r: 200, g: 0, b: 0 });
    assert_eq!(img.get(127, 127), SampleSum { r: 800, g: 0, b: 0 });
}

#[test]
fn image_insert_tile_overwrites_rectangle() {
    let mut img = Image::new((8, 8));
    let tile = tile_with(Pixel { r: 9, g: 8, b: 7 }, 3, 2);
    img.insert_tile(&tile, (4, 5));
    assert_eq!(img.get(4, 5), Pixel { r: 9, g: 8, b: 7 });
    assert_eq!(img.get(6, 6), Pixel { r: 9, g: 8, b: 7 });
    assert_eq!(img.get(3, 5), Pixel { r: 0, g: 0, b: 0 });
    assert_eq!(img.get(4, 7), Pixel { r: 0, g: 0, b: 0 });
}

#[test]
fn pixel_set_clamps_channels() {
    let mut img = Image::new((2, 2));
    img.set(1, 1, Pixel { r: CHANNEL_ONE + 5, g: CHANNEL_ONE, b: 3 });
    assert_eq!(img.get(1, 1), Pixel { r: CHANNEL_ONE, g: CHANNEL_ONE, b: 3 });
}

#[test]
fn batch_fills_at_eight() {
    let mut w = RemoteWorker::new();
    for i in 0..8 {
        assert!(!w.batch_is_full());
        w.push_work(TileRenderWork { begin_pos: (i * 64, 0), tile_size: (64, 64) });
    }
    assert!(w.batch_is_full());
}
