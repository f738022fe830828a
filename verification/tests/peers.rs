//! The peer table, the connector decision and the session state machine.

use mirror::config::Config;
use mirror::image::Pixel;
use mirror::image::Image;
use mirror::packet::MirrorPacket;
use mirror::packet::PeerAddr;
use mirror::peer::Peer;
use mirror::peer::PeerTable;
use mirror::peer::RegisterOutcome;
use mirror::peer::Session;
use mirror::peer::SessionAction;
use mirror::peer::should_dial;

fn v4(ip: u32, port: u16) -> PeerAddr {
    PeerAddr::V4 { ip, port }
}

const LOCALHOST: u32 = 0x7f000001;

#[test]
fn register_refuses_self() {
    let mut t = PeerTable::new(v4(LOCALHOST, 2020));
    match t.register(v4(LOCALHOST, 2020), Peer { name: None }) {
        RegisterOutcome::RefusedSelf => {}
        _ => panic!("a peer announcing our own listen-address must be refused"),
    }
    assert_eq!(t.len(), 0);
}

#[test]
fn register_refuses_duplicate() {
    let mut t = PeerTable::new(v4(LOCALHOST, 2020));
    let b = v4(LOCALHOST, 2021);
    match t.register(b, Peer { name: None }) {
        RegisterOutcome::Registered(gossip) => assert_eq!(gossip, vec![]),
        _ => panic!("first registration must succeed"),
    }
    match t.register(b, Peer { name: Some(String::from("again")) }) {
        RegisterOutcome::RefusedDuplicate => {}
        _ => panic!("a second connection for a connected peer must be refused"),
    }
    assert_eq!(t.len(), 1);
}

#[test]
fn register_gossips_earlier_peers() {
    let mut t = PeerTable::new(v4(LOCALHOST, 2020));
    let b = v4(LOCALHOST, 2021);
    let c = v4(LOCALHOST, 2022);
    t.register(b, Peer { name: None });
    match t.register(c, Peer { name: None }) {
        RegisterOutcome::Registered(gossip) => assert_eq!(gossip, vec![b]),
        _ => panic!("registration must succeed"),
    }
    assert_eq!(t.keys(), vec![b, c]);
}

#[test]
fn dial_decision_skips_self_and_connected() {
    let mut t = PeerTable::new(v4(LOCALHOST, 2020));
    let b = v4(LOCALHOST, 2021);
    t.register(b, Peer { name: None });
    assert!(!should_dial(&t, &v4(LOCALHOST, 2020)));
    assert!(!should_dial(&t, &b));
    assert!(should_dial(&t, &v4(LOCALHOST, 2022)));
}

#[test]
fn remove_drops_only_that_peer() {
    let mut t = PeerTable::new(v4(LOCALHOST, 2020));
    let b = v4(LOCALHOST, 2021);
    let c = v4(LOCALHOST, 2022);
    t.register(b, Peer { name: None });
    t.register(c, Peer { name: None });
    t.remove(&b);
    assert_eq!(t.len(), 1);
    assert!(!t.contains(&b));
    assert!(t.contains(&c));
    t.remove(&b);
    assert_eq!(t.len(), 1);
}

#[test]
fn handshake_rejects_non_hello_first_packet() {
    let mut t = PeerTable::new(v4(LOCALHOST, 2020));
    let mut s = Session::new();
    let action = s.handshake(&mut t, v4(LOCALHOST, 50000), MirrorPacket::SyncScene(vec![1]));
    assert!(matches!(action, SessionAction::Close));
    assert_eq!(t.len(), 0);
}

#[test]
fn handshake_rejects_self_connection() {
    let mut t = PeerTable::new(v4(LOCALHOST, 2020));
    let mut s = Session::new();
    // The peer dialed from an ephemeral port but announces our own
    // listen-port on the same address: that is ourselves.
    let action = s.handshake(&mut t, v4(LOCALHOST, 50000), MirrorPacket::Hello(None, 2020));
    assert!(matches!(action, SessionAction::Close));
    assert_eq!(t.len(), 0);
}

#[test]
fn handshake_registers_and_gossips() {
    let mut t = PeerTable::new(v4(LOCALHOST, 2020));
    t.register(v4(LOCALHOST, 2022), Peer { name: None });
    let mut s = Session::new();
    let action = s.handshake(
        &mut t,
        v4(LOCALHOST, 50000),
        MirrorPacket::Hello(Some(String::from("b")), 2021),
    );
    match action {
        SessionAction::SendGossip(gossip) => assert_eq!(gossip, vec![v4(LOCALHOST, 2022)]),
        _ => panic!("fresh handshake must gossip the other peers"),
    }
    assert!(t.contains(&v4(LOCALHOST, 2021)));
    assert_eq!(s.peer_addr(), Some(v4(LOCALHOST, 2021)));
}

#[test]
fn unsynced_render_request_is_dropped() {
    let mut t = PeerTable::new(v4(LOCALHOST, 2020));
    let mut s = Session::new();
    s.handshake(&mut t, v4(LOCALHOST, 50000), MirrorPacket::Hello(None, 2021));
    let action = s.on_packet(MirrorPacket::RenderTileRequest {
        tiles: vec![],
        image_size: (256, 256),
        samples_per_pixel: 1,
    });
    assert!(matches!(action, SessionAction::WarnIgnore));
    // The session stays up: a later sync makes requests serviceable.
    let action = s.on_packet(MirrorPacket::SyncScene(vec![9, 9, 9]));
    assert!(matches!(action, SessionAction::Continue));
    let action = s.on_packet(MirrorPacket::RenderTileRequest {
        tiles: vec![],
        image_size: (256, 256),
        samples_per_pixel: 1,
    });
    match action {
        SessionAction::Render { scene, tiles, image_size, samples_per_pixel } => {
            assert_eq!(scene, vec![9, 9, 9]);
            assert_eq!(tiles, vec![]);
            assert_eq!(image_size, (256, 256));
            assert_eq!(samples_per_pixel, 1);
        }
        _ => panic!("a synced session must serve render requests"),
    }
}

#[test]
fn late_hello_is_ignored() {
    let mut t = PeerTable::new(v4(LOCALHOST, 2020));
    let mut s = Session::new();
    s.handshake(&mut t, v4(LOCALHOST, 50000), MirrorPacket::Hello(None, 2021));
    let action = s.on_packet(MirrorPacket::Hello(None, 4));
    assert!(matches!(action, SessionAction::WarnIgnore));
}

#[test]
fn gossip_becomes_dial_candidates() {
    let mut t = PeerTable::new(v4(LOCALHOST, 2020));
    let mut s = Session::new();
    s.handshake(&mut t, v4(LOCALHOST, 50000), MirrorPacket::Hello(None, 2021));
    let addrs = vec![v4(LOCALHOST, 2022), v4(LOCALHOST, 2023)];
    let action = s.on_packet(MirrorPacket::GossipPeers(addrs.clone()));
    match action {
        SessionAction::Connect(got) => assert_eq!(got, addrs),
        _ => panic!("gossip must be handed to the connector"),
    }
}

#[test]
fn response_routes_to_worker_queue() {
    let mut t = PeerTable::new(v4(LOCALHOST, 2020));
    let mut s = Session::new();
    s.handshake(&mut t, v4(LOCALHOST, 50000), MirrorPacket::Hello(None, 2021));
    let mut tile = Image::new((2, 2));
    tile.set(0, 0, Pixel { r: 3, g: 2, b: 1 });
    let action = s.on_packet(MirrorPacket::RenderTileResponse {
        tiles: vec![tile],
        render_time: 17,
    });
    match action {
        SessionAction::PushResponse { tiles, render_time } => {
            assert_eq!(render_time, 17);
            assert_eq!(tiles.len(), 1);
            assert_eq!(tiles[0].get(0, 0), Pixel { r: 3, g: 2, b: 1 });
        }
        _ => panic!("responses must reach the awaiting worker"),
    }
}

#[test]
fn session_end_removes_peer() {
    let mut t = PeerTable::new(v4(LOCALHOST, 2020));
    let mut s = Session::new();
    s.handshake(&mut t, v4(LOCALHOST, 50000), MirrorPacket::Hello(None, 2021));
    assert_eq!(t.len(), 1);
    s.finish(&mut t);
    assert_eq!(t.len(), 0);
    assert!(!t.contains(&v4(LOCALHOST, 2021)));
}

/// One simulated node: its table and, per connection, a session.
struct Node {
    addr: PeerAddr,
    table: PeerTable,
}

impl Node {
    fn new(port: u16) -> Node {
        Node { addr: v4(LOCALHOST, port), table: PeerTable::new(v4(LOCALHOST, port)) }
    }

    fn port(&self) -> u16 {
        match self.addr {
            PeerAddr::V4 { port, .. } => port,
            PeerAddr::V6 { port, .. } => port,
        }
    }
}

/// Establish a connection both ways: each side handshakes with the
/// other's Hello and the gossip both sides emit is returned as new dial
/// candidates for the dialing side.
fn connect(a: &mut Node, b: &mut Node) -> Vec<PeerAddr> {
    let mut sa = Session::new();
    let mut sb = Session::new();
    let act_a = sa.handshake(
        &mut a.table,
        v4(LOCALHOST, 60000),
        MirrorPacket::Hello(None, b.port()),
    );
    let act_b = sb.handshake(
        &mut b.table,
        v4(LOCALHOST, 60001),
        MirrorPacket::Hello(None, a.port()),
    );
    let mut candidates = Vec::new();
    // Gossip sent to the new peer arrives at that peer's session, which
    // turns it into dial candidates.
    if let SessionAction::SendGossip(g) = act_a {
        candidates.extend(g);
    }
    if let SessionAction::SendGossip(g) = act_b {
        candidates.extend(g);
    }
    candidates
}

#[test]
fn gossip_builds_a_full_mesh() {
    // B and C each bootstrap from A only; gossip must connect B and C to
    // each other, with no self-entries and no duplicates anywhere.
    let mut a = Node::new(2020);
    let mut b = Node::new(2021);
    let mut c = Node::new(2022);

    let mut dials_b = connect(&mut a, &mut b);
    dials_b.retain(|d| should_dial(&b.table, d));
    assert_eq!(dials_b, vec![]);

    let mut dials_c = connect(&mut a, &mut c);
    dials_c.retain(|d| should_dial(&c.table, d));
    // A gossiped B's address to C.
    assert_eq!(dials_c, vec![v4(LOCALHOST, 2021)]);
    for d in dials_c {
        if d == v4(LOCALHOST, 2021) {
            connect(&mut c, &mut b);
        }
    }

    for node in [&a, &b, &c] {
        assert_eq!(node.table.len(), 2);
        assert!(!node.table.contains(&node.addr));
    }
    assert!(a.table.contains(&b.addr) && a.table.contains(&c.addr));
    assert!(b.table.contains(&a.addr) && b.table.contains(&c.addr));
    assert!(c.table.contains(&a.addr) && c.table.contains(&b.addr));
}

#[test]
fn v6_peers_mix_with_v4() {
    let own = PeerAddr::V6 { ip: 1, port: 2020 };
    let mut t = PeerTable::new(own);
    let b = PeerAddr::V6 { ip: 2, port: 2021 };
    t.register(b, Peer { name: None });
    t.register(v4(LOCALHOST, 2021), Peer { name: None });
    assert_eq!(t.len(), 2);
    assert!(!should_dial(&t, &own));
    assert!(!should_dial(&t, &b));
    assert!(should_dial(&t, &PeerAddr::V6 { ip: 3, port: 2021 }));
}

#[test]
fn handshake_derives_listen_address_for_v6() {
    let mut t = PeerTable::new(PeerAddr::V6 { ip: 1, port: 2020 });
    let mut s = Session::new();
    let remote = PeerAddr::V6 { ip: 9, port: 55555 };
    s.handshake(&mut t, remote, MirrorPacket::Hello(None, 2022));
    assert_eq!(s.peer_addr(), Some(PeerAddr::V6 { ip: 9, port: 2022 }));
    assert!(t.contains(&PeerAddr::V6 { ip: 9, port: 2022 }));
}

#[test]
fn default_config() {
    let c = Config::default();
    assert_eq!(c.host, PeerAddr::V4 { ip: 0, port: 2020 });
    assert!(c.bootstrap_peers.is_empty());
}
