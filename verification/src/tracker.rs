use vstd::prelude::*;
use crate::peer::{Peer, is_compact_peer};

verus! {

/// What a tracker answered: how long to wait before asking again, and the
/// peers it knows of.
#[derive(Default, Debug, PartialEq, Eq)]
pub struct TrackerResponse {
    pub interval: u32,
    pub peers: Vec<Peer>,
}

impl TrackerResponse {
    /// Builds a response from the tracker's interval and its compact peer
    /// list: one peer per six bytes, trailing bytes ignored.
    pub fn from_compact_peers(interval: u32, peers: &[u8]) -> (res: TrackerResponse)
        ensures
            res.interval == interval,
            res.peers@.len() == peers@.len() / 6,
            forall|i: int|
                0 <= i < peers@.len() / 6 ==> is_compact_peer(
                    #[trigger] res.peers@[i],
                    peers@.subrange(6 * i, 6 * i + 6),
                ),
    {
        let n = peers.len();
        let count = n / 6;
        let mut parsed_peers: Vec<Peer> = Vec::new();
        let mut i: usize = 0;
        while i < count
            invariant
                n == peers@.len(),
                count == peers@.len() / 6,
                i <= count,
                parsed_peers@.len() == i,
                forall|j: int|
                    0 <= j < i ==> is_compact_peer(
                        #[trigger] parsed_peers@[j],
                        peers@.subrange(6 * j, 6 * j + 6),
                    ),
            decreases count - i,
        {
            assert(i * 6 + 6 <= peers@.len() && 6 * i == i * 6) by (nonlinear_arith)
                requires
                    i < count,
                    count == peers@.len() / 6,
            ;
            let offset = i * 6;
            let peer = Peer::from_bytes(&peers[offset..offset + 6]);
            parsed_peers.push(peer);
            i = i + 1;
        }
        TrackerResponse { interval, peers: parsed_peers }
    }
}

} // verus!
