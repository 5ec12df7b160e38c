use vstd::prelude::*;
use vstd::string::StringSliceAdditionalSpecFns;
use crate::utils::{PEER_ID, PROTOCOL};

verus! {

/// The handshake that opens a connection to a peer: the length of the
/// protocol name, the name, eight reserved zero bytes, the torrent's info
/// hash and our peer id.
pub open spec fn handshake_bytes(info_hash: Seq<u8>) -> Seq<u8> {
    seq![PROTOCOL.len() as u8] + PROTOCOL.spec_bytes() + Seq::new(8, |i: int| 0u8)
        + info_hash + PEER_ID.spec_bytes()
}

/// Builds the handshake for the torrent with `info_hash`.
pub fn handshake_message(info_hash: &[u8]) -> (message: Vec<u8>)
    ensures
        message@ == handshake_bytes(info_hash@),
        message@.len() == 48 + info_hash@.len(),
        message@[0] == 19,
        message@.subrange(28, 28 + info_hash@.len() as int) == info_hash@,
{
    let mut message: Vec<u8> = Vec::new();
    message.push(PROTOCOL.len() as u8);
    message.extend_from_slice(PROTOCOL.as_bytes());
    assert(message@ =~= seq![PROTOCOL.len() as u8] + PROTOCOL.spec_bytes() + Seq::new(0, |i: int| 0u8));
    let mut k: usize = 0;
    while k < 8
        invariant
            k <= 8,
            message@ == seq![PROTOCOL.len() as u8] + PROTOCOL.spec_bytes() + Seq::new(
                k as nat,
                |i: int| 0u8,
            ),
        decreases 8 - k,
    {
        message.push(0u8);
        k = k + 1;
        assert(message@ =~= seq![PROTOCOL.len() as u8] + PROTOCOL.spec_bytes() + Seq::new(
            k as nat,
            |i: int| 0u8,
        ));
    }
    message.extend_from_slice(info_hash);
    message.extend_from_slice(PEER_ID.as_bytes());
    assert(message@ =~= handshake_bytes(info_hash@));
    proof {
        lemma_handshake_layout(info_hash@);
    }
    message
}

/// The layout of the handshake: byte 0 is 19, bytes 1..20 spell
/// "BitTorrent protocol", bytes 20..28 are zero, the info hash follows in
/// its own byte order, and our 20-byte peer id ends the message.
pub proof fn lemma_handshake_layout(info_hash: Seq<u8>)
    ensures
        ({
            let d = handshake_bytes(info_hash);
            let n = info_hash.len() as int;
            &&& d.len() == 48 + n
            &&& d[0] == 19
            &&& d.subrange(1, 20) == seq![
                66u8, 105, 116, 84, 111, 114, 114, 101, 110, 116, 32, 112, 114, 111, 116, 111, 99, 111, 108,
            ]
            &&& forall|j: int| 20 <= j < 28 ==> d[j] == 0
            &&& d.subrange(28, 28 + n) == info_hash
            &&& forall|j: int| 0 <= j < n ==> #[trigger] d[28 + j] == info_hash[j]
            &&& d.subrange(28 + n, 48 + n) == seq![
                45u8, 84, 82, 50, 57, 52, 48, 45, 107, 57, 104, 106, 48, 119, 102, 101, 106, 53, 99, 104,
            ]
        }),
{
    broadcast use vstd::string::is_ascii_spec_bytes;

    reveal_strlit("BitTorrent protocol");
    reveal_strlit("-TR2940-k9hj0wfej5ch");
    let p = PROTOCOL.spec_bytes();
    let q = PEER_ID.spec_bytes();
    assert(vstd::string::is_ascii(PROTOCOL));
    assert(vstd::string::is_ascii(PEER_ID));
    assert(p =~= seq![
        66u8, 105, 116, 84, 111, 114, 114, 101, 110, 116, 32, 112, 114, 111, 116, 111, 99, 111, 108,
    ]);
    assert(q =~= seq![
        45u8, 84, 82, 50, 57, 52, 48, 45, 107, 57, 104, 106, 48, 119, 102, 101, 106, 53, 99, 104,
    ]);
    let d = handshake_bytes(info_hash);
    let n = info_hash.len() as int;
    assert(d.subrange(1, 20) =~= p);
    assert(d.subrange(28, 28 + n) =~= info_hash);
    assert(d.subrange(28 + n, 48 + n) =~= q);
}

} // verus!
