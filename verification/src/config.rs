//! Node configuration: where to listen and whom to dial at start-up.
//!
//! The configuration file itself is plain text handled by the I/O layer;
//! this type holds the two values the core needs.

use vstd::prelude::*;

use crate::packet::PeerAddr;

verus! {

/// The listen-address of this node and the peers dialed at start-up.
pub struct Config {
    pub host: PeerAddr,
    pub bootstrap_peers: Vec<PeerAddr>,
}

impl Default for Config {
    /// The default configuration: listen on every interface at port 2020,
    /// dial nobody.
    fn default() -> (c: Config)
        ensures
            c.host == (PeerAddr::V4 { ip: 0, port: 2020 }),
            c.bootstrap_peers@.len() == 0,
    {
        Config { host: PeerAddr::V4 { ip: 0, port: 2020 }, bootstrap_peers: Vec::new() }
    }
}

} // verus!
