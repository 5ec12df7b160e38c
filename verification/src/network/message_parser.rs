use vstd::prelude::*;
use crate::utils::{be_bytes, be_u32, lemma_big_endian_roundtrip, lemma_byte_bit, byte_bits, convert_u8_to_bits, parse_big_endian, u32_to_big_endian};

verus! {

/// A message of the peer wire protocol, without its length prefix.
#[derive(Debug, PartialEq, Eq)]
pub enum Message {
    Choke,
    UnChoke,
    Interested,
    NotInterested,
    Have(u32),
    Bitfield(Vec<bool>),
    Request(u32, u32, u32),
    Piece(u32, u32, Vec<u8>),
    Cancel(u32),
}

/// The mathematical content of a [`Message`].
pub enum MessageView {
    Choke,
    UnChoke,
    Interested,
    NotInterested,
    Have(u32),
    Bitfield(Seq<bool>),
    Request(u32, u32, u32),
    Piece(u32, u32, Seq<u8>),
    Cancel(u32),
}

impl View for Message {
    type V = MessageView;

    open spec fn view(&self) -> MessageView {
        match self {
            Message::Choke => MessageView::Choke,
            Message::UnChoke => MessageView::UnChoke,
            Message::Interested => MessageView::Interested,
            Message::NotInterested => MessageView::NotInterested,
            Message::Have(i) => MessageView::Have(*i),
            Message::Bitfield(b) => MessageView::Bitfield(b@),
            Message::Request(i, o, l) => MessageView::Request(*i, *o, *l),
            Message::Piece(i, o, d) => MessageView::Piece(*i, *o, d@),
            Message::Cancel(i) => MessageView::Cancel(*i),
        }
    }
}

/// The bits of a bitfield payload: byte `k` gives bits `8k .. 8k + 8`,
/// least significant bit first.
pub open spec fn payload_bits(payload: Seq<u8>) -> Seq<bool> {
    Seq::new(8 * payload.len(), |i: int| byte_bits(payload[i / 8])[i % 8])
}

/// The id byte and payload of `data` form a message that can be decoded:
/// the id is one of the nine known ids and the payload holds the fixed-size
/// fields of that message.
pub open spec fn is_decodable(data: Seq<u8>) -> bool {
    &&& data.len() >= 1
    &&& data[0] <= 8
    &&& data[0] == 4 ==> data.len() >= 5
    &&& data[0] == 6 ==> data.len() >= 13
    &&& data[0] == 7 ==> data.len() >= 9
    &&& data[0] == 8 ==> data.len() >= 5
}

/// The message that `data` (id byte, then payload) decodes to.
pub open spec fn decode_message(data: Seq<u8>) -> MessageView
    recommends
        is_decodable(data),
{
    let payload = data.subrange(1, data.len() as int);
    if data[0] == 0 {
        MessageView::Choke
    } else if data[0] == 1 {
        MessageView::UnChoke
    } else if data[0] == 2 {
        MessageView::Interested
    } else if data[0] == 3 {
        MessageView::NotInterested
    } else if data[0] == 4 {
        MessageView::Have(be_u32(payload) as u32)
    } else if data[0] == 5 {
        MessageView::Bitfield(payload_bits(payload))
    } else if data[0] == 6 {
        MessageView::Request(
            be_u32(payload) as u32,
            be_u32(payload.subrange(4, 8)) as u32,
            be_u32(payload.subrange(8, 12)) as u32,
        )
    } else if data[0] == 7 {
        MessageView::Piece(
            be_u32(payload) as u32,
            be_u32(payload.subrange(4, 8)) as u32,
            payload.subrange(8, payload.len() as int),
        )
    } else {
        MessageView::Cancel(be_u32(payload) as u32)
    }
}

/// The bytes of a request message: id 6, then index, offset and length,
/// each big-endian.
pub open spec fn encode_request(index: u32, offset: u32, length: u32) -> Seq<u8> {
    seq![6u8] + be_bytes(index) + be_bytes(offset) + be_bytes(length)
}

/// Decodes the bits of a bitfield payload.
fn bitfield_from_payload(payload: &[u8]) -> (bits: Vec<bool>)
    ensures
        bits@ == payload_bits(payload@),
{
    let mut bits: Vec<bool> = Vec::new();
    let mut k: usize = 0;
    while k < payload.len()
        invariant
            k <= payload@.len(),
            bits@.len() == 8 * k,
            forall|i: int| 0 <= i < 8 * k ==> bits@[i] == byte_bits(payload@[i / 8])[i % 8],
        decreases payload@.len() - k,
    {
        let mut byte_flags = convert_u8_to_bits(&payload[k]);
        let ghost before = bits@;
        bits.append(&mut byte_flags);
        assert forall|i: int| 0 <= i < 8 * (k + 1) implies bits@[i] == byte_bits(payload@[i / 8])[i % 8] by {
            if i >= 8 * k {
                assert(i / 8 == k && i % 8 == i - 8 * k) by (nonlinear_arith)
                    requires
                        8 * k <= i < 8 * (k + 1),
                ;
            }
        }
        k = k + 1;
    }
    bits
}

impl Message {
    /// Checks that `data` can be decoded by [`Message::from_bytes`].
    pub fn is_decodable(data: &[u8]) -> (ok: bool)
        ensures
            ok == is_decodable(data@),
    {
        if data.len() == 0 {
            return false;
        }
        let id = data[0];
        let n = data.len();
        if id == 4 || id == 8 {
            n >= 5
        } else if id == 6 {
            n >= 13
        } else if id == 7 {
            n >= 9
        } else {
            id <= 8
        }
    }

    /// Decodes a message from its id byte followed by its payload.
    pub fn from_bytes(data: Vec<u8>) -> (msg: Message)
        requires
            is_decodable(data@),
        ensures
            msg@ == decode_message(data@),
    {
        let id = data[0];
        let payload = data.as_slice().split_at(1).1;
        assert(payload@ == data@.subrange(1, data@.len() as int));
        if id == 0 {
            Message::Choke
        } else if id == 1 {
            Message::UnChoke
        } else if id == 2 {
            Message::Interested
        } else if id == 3 {
            Message::NotInterested
        } else if id == 4 {
            Message::Have(parse_big_endian(payload))
        } else if id == 5 {
            Message::Bitfield(bitfield_from_payload(payload))
        } else if id == 6 {
            let index = parse_big_endian(payload);
            let offset = parse_big_endian(&payload[4..8]);
            let length = parse_big_endian(&payload[8..12]);
            Message::Request(index, offset, length)
        } else if id == 7 {
            let index = parse_big_endian(payload);
            let offset = parse_big_endian(&payload[4..8]);
            let block = vstd::slice::slice_to_vec(&payload[8..payload.len()]);
            Message::Piece(index, offset, block)
        } else {
            Message::Cancel(parse_big_endian(payload))
        }
    }

    /// Encodes a request message: its id byte followed by its payload.
    pub fn to_bytes(&self) -> (data: Vec<u8>)
        requires
            self is Request,
        ensures
            self@ matches MessageView::Request(i, o, l) && data@ == encode_request(i, o, l),
            data@.len() == 13,
            data@[0] == 6,
            self@ matches MessageView::Request(i, o, l) && {
                &&& data@[1] * 0x100_0000 + data@[2] * 0x1_0000 + data@[3] * 0x100 + data@[4] == i
                &&& data@[5] * 0x100_0000 + data@[6] * 0x1_0000 + data@[7] * 0x100 + data@[8] == o
                &&& data@[9] * 0x100_0000 + data@[10] * 0x1_0000 + data@[11] * 0x100 + data@[12] == l
            },
    {
        match self {
            Message::Request(piece_index, offset, length) => {
                let mut data: Vec<u8> = Vec::new();
                data.push(6u8);
                let mut a = u32_to_big_endian(piece_index);
                let mut b = u32_to_big_endian(offset);
                let mut c = u32_to_big_endian(length);
                data.append(&mut a);
                data.append(&mut b);
                data.append(&mut c);
                assert(data@ =~= encode_request(*piece_index, *offset, *length));
                proof {
                    lemma_request_layout(*piece_index, *offset, *length);
                }
                data
            },
            _ => {
                assert(false);
                Vec::new()
            },
        }
    }
}

/// Decoding the bytes of an encoded request gives back the same request.
pub proof fn lemma_request_roundtrip(index: u32, offset: u32, length: u32)
    ensures
        is_decodable(encode_request(index, offset, length)),
        decode_message(encode_request(index, offset, length)) == MessageView::Request(index, offset, length),
{
    let data = encode_request(index, offset, length);
    let payload = data.subrange(1, data.len() as int);
    lemma_big_endian_roundtrip(index);
    lemma_big_endian_roundtrip(offset);
    lemma_big_endian_roundtrip(length);
    assert(payload.subrange(0, 4) =~= be_bytes(index));
    assert(payload.subrange(4, 8) =~= be_bytes(offset));
    assert(payload.subrange(8, 12) =~= be_bytes(length));
    assert(be_u32(payload) == be_u32(payload.subrange(0, 4)));
}

/// The wire layout of a request: 13 bytes, the id 6, then the index, the
/// offset and the length, each as four bytes with the most significant
/// first.
pub proof fn lemma_request_layout(index: u32, offset: u32, length: u32)
    ensures
        ({
            let d = encode_request(index, offset, length);
            &&& d.len() == 13
            &&& d[0] == 6
            &&& d[1] * 0x100_0000 + d[2] * 0x1_0000 + d[3] * 0x100 + d[4] == index
            &&& d[5] * 0x100_0000 + d[6] * 0x1_0000 + d[7] * 0x100 + d[8] == offset
            &&& d[9] * 0x100_0000 + d[10] * 0x1_0000 + d[11] * 0x100 + d[12] == length
        }),
{
    let d = encode_request(index, offset, length);
    lemma_big_endian_roundtrip(index);
    lemma_big_endian_roundtrip(offset);
    lemma_big_endian_roundtrip(length);
    assert(d.subrange(1, 5) =~= be_bytes(index));
    assert(d.subrange(5, 9) =~= be_bytes(offset));
    assert(d.subrange(9, 13) =~= be_bytes(length));
    assert(d[1] == be_bytes(index)[0] && d[2] == be_bytes(index)[1] && d[3] == be_bytes(index)[2] && d[4]
        == be_bytes(index)[3]);
    assert(d[5] == be_bytes(offset)[0] && d[6] == be_bytes(offset)[1] && d[7] == be_bytes(offset)[2] && d[8]
        == be_bytes(offset)[3]);
    assert(d[9] == be_bytes(length)[0] && d[10] == be_bytes(length)[1] && d[11] == be_bytes(length)[2]
        && d[12] == be_bytes(length)[3]);
}

/// What each decodable byte string decodes to, byte by byte: the id byte
/// picks the message, every integer field is four bytes with the most
/// significant first (index at bytes 1..5, offset at 5..9, length at
/// 9..13), a piece's block is everything after byte 9, and a bitfield has
/// eight flags per payload byte, flag `i` being bit `i % 8` of payload
/// byte `i / 8`.
pub proof fn lemma_decode_layout(data: Seq<u8>)
    requires
        is_decodable(data),
    ensures
        data[0] == 0 ==> decode_message(data) == MessageView::Choke,
        data[0] == 1 ==> decode_message(data) == MessageView::UnChoke,
        data[0] == 2 ==> decode_message(data) == MessageView::Interested,
        data[0] == 3 ==> decode_message(data) == MessageView::NotInterested,
        data[0] == 4 ==> decode_message(data) == MessageView::Have(
            (data[1] * 0x100_0000 + data[2] * 0x1_0000 + data[3] * 0x100 + data[4]) as u32,
        ),
        data[0] == 5 ==> (decode_message(data) matches MessageView::Bitfield(bits) && bits.len() == 8 * (
        data.len() - 1) && forall|i: int|
            0 <= i < bits.len() ==> #[trigger] bits[i] == ((data[1 + i / 8] >> ((i % 8) as u8)) & 1u8
                == 1u8)),
        data[0] == 6 ==> decode_message(data) == MessageView::Request(
            (data[1] * 0x100_0000 + data[2] * 0x1_0000 + data[3] * 0x100 + data[4]) as u32,
            (data[5] * 0x100_0000 + data[6] * 0x1_0000 + data[7] * 0x100 + data[8]) as u32,
            (data[9] * 0x100_0000 + data[10] * 0x1_0000 + data[11] * 0x100 + data[12]) as u32,
        ),
        data[0] == 7 ==> decode_message(data) == MessageView::Piece(
            (data[1] * 0x100_0000 + data[2] * 0x1_0000 + data[3] * 0x100 + data[4]) as u32,
            (data[5] * 0x100_0000 + data[6] * 0x1_0000 + data[7] * 0x100 + data[8]) as u32,
            data.subrange(9, data.len() as int),
        ),
        data[0] == 8 ==> decode_message(data) == MessageView::Cancel(
            (data[1] * 0x100_0000 + data[2] * 0x1_0000 + data[3] * 0x100 + data[4]) as u32,
        ),
{
    let payload = data.subrange(1, data.len() as int);
    if data[0] == 5 {
        let bits = payload_bits(payload);
        assert forall|i: int| 0 <= i < bits.len() implies #[trigger] bits[i] == ((data[1 + i / 8] >> ((i
            % 8) as u8)) & 1u8 == 1u8) by {
            assert(0 <= i / 8 < payload.len() && 0 <= i % 8 < 8) by (nonlinear_arith)
                requires
                    0 <= i < 8 * payload.len(),
            ;
            lemma_byte_bit(payload[i / 8], i % 8);
        }
    }
    if data[0] == 6 || data[0] == 7 {
        assert(payload.subrange(4, 8)[0] == data[5]);
        assert(payload.subrange(4, 8)[3] == data[8]);
    }
    if data[0] == 6 {
        assert(payload.subrange(8, 12)[0] == data[9]);
        assert(payload.subrange(8, 12)[3] == data[12]);
    }
    if data[0] == 7 {
        assert(payload.subrange(8, payload.len() as int) =~= data.subrange(9, data.len() as int));
    }
}

} // verus!
