use vstd::prelude::*;

verus! {

/// A peer of the swarm: an IPv4 address and a port.
#[derive(Debug, Clone, Copy, PartialEq, Eq)]
pub struct Peer {
    pub ip: [u8; 4],
    pub port: u16,
}

/// `p` is the peer that the six compact bytes `v` describe: four address
/// octets, then the port big-endian.
pub open spec fn is_compact_peer(p: Peer, v: Seq<u8>) -> bool {
    &&& p.ip@ == v.subrange(0, 4)
    &&& p.port == v[4] * 256 + v[5]
}

impl Peer {
    /// Reads a peer from its compact form (the first six bytes of `v`).
    pub fn from_bytes(v: &[u8]) -> (p: Peer)
        requires
            v@.len() >= 6,
        ensures
            is_compact_peer(p, v@),
    {
        let ip = [v[0], v[1], v[2], v[3]];
        let port = v[4] as u16 * 256 + v[5] as u16;
        assert(ip@ =~= v@.subrange(0, 4));
        Peer { ip, port }
    }
}

} // verus!
