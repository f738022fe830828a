//! The peer table and the per-connection session rules.
//!
//! A peer is identified by its listen-address: the address it answers
//! dials on, not the ephemeral address of the socket it arrived over.  The
//! table maps listen-addresses to peer records and maintains two
//! invariants: it never holds this node's own listen-address, and it holds
//! at most one entry per address.  The I/O layer keeps one session task
//! per connection; `Session` is that task's decision core, a state machine
//! from inbound packets to the actions the task must perform.  The sockets
//! and queues themselves live with the I/O layer, which is also
//! responsible for calling `register` and `remove` in step with session
//! lifetimes.

use vstd::prelude::*;

use crate::image::Tile;
use crate::packet::MirrorPacket;
use crate::packet::PeerAddr;
use crate::render_backend::TileRenderWork;

verus! {

/// What the table records about a connected peer: its optional display
/// name.  The socket write-half and the response queue are owned by the
/// I/O layer, keyed by the same listen-address.
pub struct Peer {
    pub name: Option<String>,
}

/// Mapping from peer listen-address to peer record, owned by the node.
pub struct PeerTable {
    own_addr: PeerAddr,
    entries: Vec<(PeerAddr, Peer)>,
}

/// What `register` decided, under one critical section: the peer was added
/// and the given addresses (everyone already in the table) must be
/// gossiped to it, or the connection must be refused.
pub enum RegisterOutcome {
    Registered(Vec<PeerAddr>),
    RefusedSelf,
    RefusedDuplicate,
}

impl PeerTable {
    /// This node's own listen-address, which the table refuses to hold.
    pub closed spec fn spec_own(self) -> PeerAddr {
        self.own_addr
    }

    /// The listen-addresses in the table, in insertion order.
    pub closed spec fn spec_addrs(self) -> Seq<PeerAddr> {
        self.entries@.map_values(|e: (PeerAddr, Peer)| e.0)
    }

    pub open spec fn spec_contains(self, a: PeerAddr) -> bool {
        self.spec_addrs().contains(a)
    }

    /// Table invariant: no entry equals the own listen-address, and no
    /// address appears twice.
    pub open spec fn wf(self) -> bool {
        &&& forall|i: int, j: int|
            0 <= i < j < self.spec_addrs().len() ==> self.spec_addrs()[i] != self.spec_addrs()[j]
        &&& forall|i: int|
            0 <= i < self.spec_addrs().len() ==> #[trigger] self.spec_addrs()[i] != self.spec_own()
    }

    /// An empty table for the node listening on `own_addr`.
    pub fn new(own_addr: PeerAddr) -> (t: PeerTable)
        ensures
            t.wf(),
            t.spec_own() == own_addr,
            t.spec_addrs().len() == 0,
    {
        let t = PeerTable { own_addr, entries: Vec::new() };
        proof {
            assert(t.spec_addrs() =~= Seq::<PeerAddr>::empty());
        }
        t
    }

    /// How many peers are connected.
    pub fn len(&self) -> (n: usize)
        ensures
            n == self.spec_addrs().len(),
    {
        self.entries.len()
    }

    /// Whether a peer with this listen-address is connected.
    pub fn contains(&self, a: &PeerAddr) -> (r: bool)
        ensures
            r == self.spec_contains(*a),
    {
        let n = self.entries.len();
        let mut i: usize = 0;
        while i < n
            invariant
                n == self.entries@.len(),
                i <= n,
                forall|j: int| 0 <= j < i ==> #[trigger] self.spec_addrs()[j] != *a,
            decreases n - i,
        {
            let e = &self.entries[i];
            if e.0 == *a {
                proof {
                    assert(self.spec_addrs()[i as int] == *a);
                }
                return true;
            }
            proof {
                assert(self.spec_addrs()[i as int] == self.entries@[i as int].0);
            }
            i = i + 1;
        }
        proof {
            if self.spec_contains(*a) {
                let k = choose|k: int|
                    0 <= k < self.spec_addrs().len() && self.spec_addrs()[k] == *a;
                assert(self.spec_addrs()[k] != *a);
            }
        }
        false
    }

    /// The connected listen-addresses, in insertion order.
    pub fn keys(&self) -> (r: Vec<PeerAddr>)
        ensures
            r@ == self.spec_addrs(),
    {
        let n = self.entries.len();
        let mut r: Vec<PeerAddr> = Vec::new();
        let mut i: usize = 0;
        while i < n
            invariant
                n == self.entries@.len(),
                i <= n,
                r@.len() == i,
                forall|j: int| 0 <= j < i ==> #[trigger] r@[j] == self.spec_addrs()[j],
            decreases n - i,
        {
            let e = &self.entries[i];
            r.push(e.0);
            i = i + 1;
        }
        proof {
            assert(r@ =~= self.spec_addrs());
        }
        r
    }

    /// The register step of the handshake, to be run under the table's
    /// write lock: refuse the peer if its listen-address is this node's
    /// own or already present; otherwise add it and return the snapshot
    /// of the other connected addresses, which the caller must gossip to
    /// the new peer.
    pub fn register(&mut self, addr: PeerAddr, peer: Peer) -> (r: RegisterOutcome)
        requires
            old(self).wf(),
        ensures
            final(self).wf(),
            final(self).spec_own() == old(self).spec_own(),
            match r {
                RegisterOutcome::Registered(gossip) => {
                    &&& addr != old(self).spec_own()
                    &&& !old(self).spec_contains(addr)
                    &&& final(self).spec_addrs() == old(self).spec_addrs().push(addr)
                    &&& gossip@ == old(self).spec_addrs()
                },
                RegisterOutcome::RefusedSelf => {
                    &&& addr == old(self).spec_own()
                    &&& final(self).spec_addrs() == old(self).spec_addrs()
                },
                RegisterOutcome::RefusedDuplicate => {
                    &&& addr != old(self).spec_own()
                    &&& old(self).spec_contains(addr)
                    &&& final(self).spec_addrs() == old(self).spec_addrs()
                },
            },
    {
        if addr == self.own_addr {
            return RegisterOutcome::RefusedSelf;
        }
        if self.contains(&addr) {
            return RegisterOutcome::RefusedDuplicate;
        }
        let gossip = self.keys();
        let ghost before = self.spec_addrs();
        self.entries.push((addr, peer));
        proof {
            assert(self.spec_addrs() =~= before.push(addr));
            assert forall|i: int, j: int|
                0 <= i < j < self.spec_addrs().len() implies self.spec_addrs()[i]
                != self.spec_addrs()[j] by {
                if j == self.spec_addrs().len() - 1 {
                    assert(before.contains(before[i]));
                }
            }
        }
        RegisterOutcome::Registered(gossip)
    }

    /// Drop the peer with this listen-address, if it is present: the
    /// closing step of a session.
    pub fn remove(&mut self, addr: &PeerAddr)
        requires
            old(self).wf(),
        ensures
            final(self).wf(),
            final(self).spec_own() == old(self).spec_own(),
            !final(self).spec_contains(*addr),
            forall|a: PeerAddr| a != *addr ==> final(self).spec_contains(a) == old(
                self,
            ).spec_contains(a),
            final(self).spec_addrs().len() == old(self).spec_addrs().len() - (if old(
                self,
            ).spec_contains(*addr) {
                1int
            } else {
                0int
            }),
    {
        let n = self.entries.len();
        let mut i: usize = 0;
        while i < n
            invariant
                *self == *old(self),
                old(self).wf(),
                n == self.entries@.len(),
                i <= n,
                forall|j: int| 0 <= j < i ==> #[trigger] self.spec_addrs()[j] != *addr,
            decreases n - i,
        {
            let e = &self.entries[i];
            if e.0 == *addr {
                proof {
                    assert(self.spec_addrs()[i as int] == *addr);
                }
                let ghost before = self.spec_addrs();
                self.entries.remove(i);
                proof {
                    assert(self.spec_addrs() =~= before.remove(i as int));
                    lemma_remove_unique(before, i as int, *addr, old(self).spec_own());
                    assert forall|a: PeerAddr| a != *addr implies self.spec_contains(a) == old(
                        self,
                    ).spec_contains(a) by {
                        lemma_remove_contains(before, i as int, a);
                    }
                }
                return ;
            }
            proof {
                assert(self.spec_addrs()[i as int] == self.entries@[i as int].0);
            }
            i = i + 1;
        }
        proof {
            if self.spec_contains(*addr) {
                let k = choose|k: int|
                    0 <= k < self.spec_addrs().len() && self.spec_addrs()[k] == *addr;
                assert(self.spec_addrs()[k] != *addr);
            }
        }
    }
}

/// Removing the only occurrence of an address from a duplicate-free list
/// keeps the list duplicate-free, free of the own address, and free of the
/// removed address.
proof fn lemma_remove_unique(s: Seq<PeerAddr>, i: int, addr: PeerAddr, own: PeerAddr)
    requires
        0 <= i < s.len(),
        s[i] == addr,
        forall|x: int, y: int| 0 <= x < y < s.len() ==> s[x] != s[y],
        forall|x: int| 0 <= x < s.len() ==> #[trigger] s[x] != own,
    ensures
        forall|x: int, y: int| 0 <= x < y < s.remove(i).len() ==> s.remove(i)[x] != s.remove(i)[y],
        forall|x: int| 0 <= x < s.remove(i).len() ==> #[trigger] s.remove(i)[x] != own,
        !s.remove(i).contains(addr),
{
    let t = s.remove(i);
    assert forall|x: int| 0 <= x < t.len() implies #[trigger] t[x] != addr by {
        if x < i {
            assert(t[x] == s[x]);
        } else {
            assert(t[x] == s[x + 1]);
        }
    }
    if t.contains(addr) {
        let k = choose|k: int| 0 <= k < t.len() && t[k] == addr;
        assert(t[k] != addr);
    }
}

/// Removing one element changes membership of no other value.
proof fn lemma_remove_contains(s: Seq<PeerAddr>, i: int, a: PeerAddr)
    requires
        0 <= i < s.len(),
        a != s[i],
    ensures
        s.remove(i).contains(a) == s.contains(a),
{
    let t = s.remove(i);
    if s.contains(a) {
        let k = choose|k: int| 0 <= k < s.len() && s[k] == a;
        if k < i {
            assert(t[k] == a);
        } else {
            assert(t[k - 1] == a);
        }
        assert(t.contains(a));
    }
    if t.contains(a) {
        let k = choose|k: int| 0 <= k < t.len() && t[k] == a;
        if k < i {
            assert(s[k] == a);
        } else {
            assert(s[k + 1] == a);
        }
        assert(s.contains(a));
    }
}

/// Whether the connector should dial a candidate address: yes exactly when
/// it is neither this node's own listen-address nor already connected.
/// Bootstrap peers and gossiped peers both pass through this test, which
/// keeps the mesh free of self-connections and duplicate dials.
pub fn should_dial(table: &PeerTable, candidate: &PeerAddr) -> (r: bool)
    ensures
        r == (*candidate != table.spec_own() && !table.spec_contains(*candidate)),
{
    let own = table.own_addr_value();
    if *candidate == own {
        false
    } else if table.contains(candidate) {
        false
    } else {
        true
    }
}

impl PeerTable {
    /// This node's own listen-address.
    pub fn own_addr_value(&self) -> (r: PeerAddr)
        ensures
            r == self.spec_own(),
    {
        self.own_addr
    }

    /// The listen-address a peer announces: the remote socket's address
    /// with the port replaced by the peer's advertised listen-port.
    pub fn listen_addr_of(remote: PeerAddr, listen_port: u16) -> (r: PeerAddr)
        ensures
            r == (match remote {
                PeerAddr::V4 { ip, port: _ } => PeerAddr::V4 { ip, port: listen_port },
                PeerAddr::V6 { ip, port: _ } => PeerAddr::V6 { ip, port: listen_port },
            }),
    {
        match remote {
            PeerAddr::V4 { ip, port: _ } => PeerAddr::V4 { ip, port: listen_port },
            PeerAddr::V6 { ip, port: _ } => PeerAddr::V6 { ip, port: listen_port },
        }
    }
}

/// Copy a byte buffer.
fn clone_bytes(v: &Vec<u8>) -> (r: Vec<u8>)
    ensures
        r@ == v@,
{
    let n = v.len();
    let mut r: Vec<u8> = Vec::new();
    let mut i: usize = 0;
    while i < n
        invariant
            n == v@.len(),
            i <= n,
            r@ =~= v@.take(i as int),
        decreases n - i,
    {
        r.push(v[i]);
        proof {
            assert(r@ =~= v@.take(i as int + 1));
        }
        i = i + 1;
    }
    proof {
        assert(v@.take(n as int) =~= v@);
    }
    r
}

/// Where a session stands in its life.  The byte stream already exists
/// when a session is created; `Greeting` lasts until the peer's own
/// `Hello` arrives and the register step decides, `Running` is the normal
/// packet loop, and `Closed` sessions only await teardown.
#[derive(Debug, Clone, Copy, PartialEq, Eq, Structural)]
pub enum SessionPhase {
    Greeting,
    Running,
    Closed,
}

/// What the I/O layer must do after handing a packet to the session.
pub enum SessionAction {
    /// Write a `GossipPeers` with these addresses to this peer.
    SendGossip(Vec<PeerAddr>),
    /// Hand these addresses to the connector as dial candidates.
    Connect(Vec<PeerAddr>),
    /// Render the requested tiles against the synced scene and reply with
    /// a positionally aligned `RenderTileResponse`.
    Render {
        scene: Vec<u8>,
        tiles: Vec<TileRenderWork>,
        image_size: (usize, usize),
        samples_per_pixel: usize,
    },
    /// Push this reply onto the peer's response queue for the remote
    /// worker awaiting it.
    PushResponse { tiles: Vec<Tile>, render_time: u128 },
    /// Log a warning and carry on; the packet is dropped.
    WarnIgnore,
    /// Nothing outward; the session only updated its own state.
    Continue,
    /// Tear the session down.
    Close,
}

/// The decision core of one peer connection: a state machine from inbound
/// packets to actions, holding the per-session scene and, once registered,
/// the peer's listen-address.
pub struct Session {
    phase: SessionPhase,
    scene: Option<Vec<u8>>,
    peer_addr: Option<PeerAddr>,
}

impl Session {
    pub closed spec fn spec_phase(self) -> SessionPhase {
        self.phase
    }

    /// The serialized scene this peer has synced, if any.
    pub closed spec fn spec_scene(self) -> Option<Seq<u8>> {
        match self.scene {
            Option::None => Option::None,
            Option::Some(b) => Option::Some(b@),
        }
    }

    /// The peer's listen-address, known once the handshake registered it.
    pub closed spec fn spec_peer_addr(self) -> Option<PeerAddr> {
        self.peer_addr
    }

    /// A fresh session on a just-established byte stream.  The caller has
    /// already sent its own `Hello` and now awaits the peer's.
    pub fn new() -> (s: Session)
        ensures
            s.spec_phase() == SessionPhase::Greeting,
            s.spec_scene() is None,
            s.spec_peer_addr() is None,
    {
        Session { phase: SessionPhase::Greeting, scene: None, peer_addr: None }
    }

    /// The peer's listen-address, once registered.
    pub fn peer_addr(&self) -> (r: Option<PeerAddr>)
        ensures
            r == self.spec_peer_addr(),
    {
        self.peer_addr
    }

    /// The handshake decision, to be run under the peer table's write
    /// lock.  `remote` is the socket's remote address.  Exactly one of
    /// three things happens: a first packet other than `Hello` is a
    /// protocol violation and closes the session; a `Hello` whose derived
    /// listen-address is this node's own or already in the table is
    /// refused and closes the session, leaving the table unchanged; any
    /// other `Hello` registers the peer and yields the gossip that must be
    /// sent to it.
    pub fn handshake(
        &mut self,
        table: &mut PeerTable,
        remote: PeerAddr,
        first: MirrorPacket,
    ) -> (r: SessionAction)
        requires
            old(self).spec_phase() == SessionPhase::Greeting,
            old(table).wf(),
        ensures
            final(table).wf(),
            final(table).spec_own() == old(table).spec_own(),
            match first {
                MirrorPacket::Hello(_, listen_port) => {
                    let la = match remote {
                        PeerAddr::V4 { ip, port: _ } => PeerAddr::V4 { ip, port: listen_port },
                        PeerAddr::V6 { ip, port: _ } => PeerAddr::V6 { ip, port: listen_port },
                    };
                    if la == old(table).spec_own() || old(table).spec_contains(la) {
                        &&& r is Close
                        &&& final(self).spec_phase() == SessionPhase::Closed
                        &&& final(table).spec_addrs() == old(table).spec_addrs()
                    } else {
                        &&& (r matches SessionAction::SendGossip(g) && g@ == old(
                            table,
                        ).spec_addrs())
                        &&& final(self).spec_phase() == SessionPhase::Running
                        &&& final(self).spec_peer_addr() == Option::Some(la)
                        &&& final(self).spec_scene() == old(self).spec_scene()
                        &&& final(table).spec_addrs() == old(table).spec_addrs().push(la)
                    }
                },
                _ => {
                    &&& r is Close
                    &&& final(self).spec_phase() == SessionPhase::Closed
                    &&& final(table).spec_addrs() == old(table).spec_addrs()
                },
            },
    {
        match first {
            MirrorPacket::Hello(name, listen_port) => {
                let la = PeerTable::listen_addr_of(remote, listen_port);
                match table.register(la, Peer { name }) {
                    RegisterOutcome::Registered(gossip) => {
                        self.phase = SessionPhase::Running;
                        self.peer_addr = Some(la);
                        SessionAction::SendGossip(gossip)
                    },
                    RegisterOutcome::RefusedSelf => {
                        self.phase = SessionPhase::Closed;
                        SessionAction::Close
                    },
                    RegisterOutcome::RefusedDuplicate => {
                        self.phase = SessionPhase::Closed;
                        SessionAction::Close
                    },
                }
            },
            _ => {
                self.phase = SessionPhase::Closed;
                SessionAction::Close
            },
        }
    }

    /// Handle one inbound packet of a running session, in arrival order:
    /// a late `Hello` is ignored with a warning; gossip becomes dial
    /// candidates; a synced scene replaces any previous one; a render
    /// request is served against the synced scene, or dropped with a
    /// warning if no scene was ever synced; a render response is routed to
    /// the worker awaiting it.
    pub fn on_packet(&mut self, p: MirrorPacket) -> (r: SessionAction)
        requires
            old(self).spec_phase() == SessionPhase::Running,
        ensures
            final(self).spec_phase() == SessionPhase::Running,
            final(self).spec_peer_addr() == old(self).spec_peer_addr(),
            match p {
                MirrorPacket::Hello(_, _) => r is WarnIgnore && final(self).spec_scene() == old(
                    self,
                ).spec_scene(),
                MirrorPacket::GossipPeers(l) => (r matches SessionAction::Connect(c) && c@ == l@)
                    && final(self).spec_scene() == old(self).spec_scene(),
                MirrorPacket::SyncScene(b) => r is Continue && final(self).spec_scene()
                    == Option::Some(b@),
                MirrorPacket::RenderTileRequest { tiles, image_size, samples_per_pixel } => {
                    &&& final(self).spec_scene() == old(self).spec_scene()
                    &&& if old(self).spec_scene() is None {
                        r is WarnIgnore
                    } else {
                        r matches SessionAction::Render {
                            scene,
                            tiles: t2,
                            image_size: is2,
                            samples_per_pixel: s2,
                        } && old(self).spec_scene() == Option::Some(scene@) && t2@ == tiles@ && is2
                            == image_size && s2 == samples_per_pixel
                    }
                },
                MirrorPacket::RenderTileResponse { tiles, render_time } => (r matches
                    SessionAction::PushResponse { tiles: t2, render_time: rt2 } && t2@ == tiles@
                    && rt2 == render_time) && final(self).spec_scene() == old(self).spec_scene(),
            },
    {
        match p {
            MirrorPacket::Hello(_, _) => SessionAction::WarnIgnore,
            MirrorPacket::GossipPeers(l) => SessionAction::Connect(l),
            MirrorPacket::SyncScene(b) => {
                self.scene = Some(b);
                SessionAction::Continue
            },
            MirrorPacket::RenderTileRequest { tiles, image_size, samples_per_pixel } => {
                match &self.scene {
                    Option::None => SessionAction::WarnIgnore,
                    Option::Some(sc) => {
                        let scene = clone_bytes(sc);
                        SessionAction::Render { scene, tiles, image_size, samples_per_pixel }
                    },
                }
            },
            MirrorPacket::RenderTileResponse { tiles, render_time } => {
                SessionAction::PushResponse { tiles, render_time }
            },
        }
    }

    /// The stream ended or failed: the session is over, and its peer, if
    /// it was registered, leaves the table.  Any worker blocked on the
    /// peer's response queue will observe the closed queue and requeue its
    /// batch.
    pub fn finish(&mut self, table: &mut PeerTable)
        requires
            old(table).wf(),
        ensures
            final(self).spec_phase() == SessionPhase::Closed,
            final(table).wf(),
            final(table).spec_own() == old(table).spec_own(),
            match old(self).spec_peer_addr() {
                Option::Some(la) => {
                    &&& !final(table).spec_contains(la)
                    &&& forall|a: PeerAddr| a != la ==> final(table).spec_contains(a) == old(
                        table,
                    ).spec_contains(a)
                },
                Option::None => final(table).spec_addrs() == old(table).spec_addrs(),
            },
    {
        self.phase = SessionPhase::Closed;
        match &self.peer_addr {
            Option::Some(la) => {
                let a = *la;
                table.remove(&a);
            },
            Option::None => {},
        }
    }
}

} // verus!
