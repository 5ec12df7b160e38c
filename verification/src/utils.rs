use vstd::prelude::*;
use byteorder::{BigEndian, ReadBytesExt, WriteBytesExt};
use std::io::Cursor;
use crate::torrent_meta::TorrentMetadata;

verus! {

/// The peer id this client announces itself with.
pub const PEER_ID: &'static str = "-TR2940-k9hj0wfej5ch";

/// The protocol name sent in the handshake.
pub const PROTOCOL: &'static str = "BitTorrent protocol";

/// The value of four bytes read as a big-endian unsigned integer.
pub open spec fn be_u32(bytes: Seq<u8>) -> int
    recommends
        bytes.len() >= 4,
{
    bytes[0] * 0x100_0000 + bytes[1] * 0x1_0000 + bytes[2] * 0x100 + bytes[3]
}

/// The four big-endian bytes of `n`, most significant first.
pub open spec fn be_bytes(n: u32) -> Seq<u8> {
    seq![
        (n / 0x100_0000) as u8,
        ((n / 0x1_0000) % 0x100) as u8,
        ((n / 0x100) % 0x100) as u8,
        (n % 0x100) as u8,
    ]
}

/// The eight flags of a byte, least significant bit first.
pub open spec fn byte_bits(b: u8) -> Seq<bool> {
    seq![
        b & 1u8 != 0,
        b & 2u8 != 0,
        b & 4u8 != 0,
        b & 8u8 != 0,
        b & 16u8 != 0,
        b & 32u8 != 0,
        b & 64u8 != 0,
        b & 128u8 != 0,
    ]
}

/// Reads a big-endian `u32` from the first four bytes through
/// `byteorder::ReadBytesExt::read_u32::<BigEndian>` on a cursor.
/// Claimed: with at least four bytes the read succeeds, and the value is
/// `b0 * 2^24 + b1 * 2^16 + b2 * 2^8 + b3` (byteorder's `BigEndian::read_u32`
/// is `u32::from_be_bytes` of the first four bytes).
#[verifier::external_body]
fn read_u32_be(bytes: &[u8]) -> (n: u32)
    requires
        bytes@.len() >= 4,
    ensures
        n == be_u32(bytes@),
{
    let mut cursor = Cursor::new(bytes);
    cursor.read_u32::<BigEndian>().unwrap()
}

/// Writes `n` to a fresh vector through
/// `byteorder::WriteBytesExt::write_u32::<BigEndian>`.
/// Claimed: writing to a `Vec<u8>` cannot fail, and the vector then holds
/// exactly the four bytes of `n.to_be_bytes()`.
#[verifier::external_body]
fn write_u32_be(n: u32) -> (bytes: Vec<u8>)
    ensures
        bytes@ == be_bytes(n),
{
    let mut bytes: Vec<u8> = Vec::new();
    bytes.write_u32::<BigEndian>(n).unwrap();
    bytes
}

/// Reads the first four bytes of `num` as a big-endian integer.
pub fn parse_big_endian(num: &[u8]) -> (n: u32)
    requires
        num@.len() >= 4,
    ensures
        n == be_u32(num@),
{
    read_u32_be(num)
}

/// The big-endian encoding of `integer`.
pub fn u32_to_big_endian(integer: &u32) -> (bytes: Vec<u8>)
    ensures
        bytes@ == be_bytes(*integer),
        bytes@.len() == 4,
{
    write_u32_be(*integer)
}

/// Splits a byte into its eight bits, least significant first.
pub fn convert_u8_to_bits(data_byte: &u8) -> (bits: Vec<bool>)
    ensures
        bits@ == byte_bits(*data_byte),
        bits@.len() == 8,
        forall|j: int| 0 <= j < 8 ==> #[trigger] bits@[j] == ((*data_byte >> (j as u8)) & 1u8 == 1u8),
{
    let b = *data_byte;
    let mut bits: Vec<bool> = Vec::new();
    bits.push(b & 1u8 != 0);
    bits.push(b & 2u8 != 0);
    bits.push(b & 4u8 != 0);
    bits.push(b & 8u8 != 0);
    bits.push(b & 16u8 != 0);
    bits.push(b & 32u8 != 0);
    bits.push(b & 64u8 != 0);
    bits.push(b & 128u8 != 0);
    assert(bits@ =~= byte_bits(b));
    proof {
        assert forall|j: int| 0 <= j < 8 implies #[trigger] bits@[j] == ((b >> (j as u8)) & 1u8 == 1u8) by {
            lemma_byte_bit(b, j);
        }
    }
    bits
}

/// The character of a decimal digit.
pub open spec fn digit_char(d: int) -> char {
    (48 + d) as char
}

/// The decimal digits of `n`, most significant first, without leading zeros.
pub open spec fn decimal_digits(n: nat) -> Seq<char>
    decreases n,
{
    if n < 10 {
        seq![digit_char(n as int)]
    } else {
        decimal_digits(n / 10).push(digit_char((n % 10) as int))
    }
}

/// The decimal form of `x`, with a leading `-` when it is negative.
pub open spec fn decimal(x: int) -> Seq<char> {
    if x < 0 {
        seq!['-'] + decimal_digits((-x) as nat)
    } else {
        decimal_digits(x as nat)
    }
}

/// The upper-case hexadecimal digit of `d` (below 16).
pub open spec fn hex_digit(d: int) -> char {
    if d < 10 {
        (48 + d) as char
    } else {
        (55 + d) as char
    }
}

/// `%` and the two upper-case hexadecimal digits of `b`.
pub open spec fn percent_escape(b: u8) -> Seq<char> {
    seq!['%', hex_digit((b / 16) as int), hex_digit((b % 16) as int)]
}

/// The bytes escaped in a tracker query: controls, non-ASCII bytes, space,
/// `"`, `#`, `<` and `>`.
pub open spec fn needs_escape(b: u8) -> bool {
    b < 0x20 || b >= 0x7f || b == 0x20 || b == 0x22 || b == 0x23 || b == 0x3c || b == 0x3e
}

/// A byte as it stands in a tracker query.
pub open spec fn query_byte(b: u8) -> Seq<char> {
    if needs_escape(b) {
        percent_escape(b)
    } else {
        seq![b as char]
    }
}

/// The percent-encoding of `bytes` for a tracker query.
pub open spec fn query_encode(bytes: Seq<u8>) -> Seq<char>
    decreases bytes.len(),
{
    if bytes.len() == 0 {
        seq![]
    } else {
        query_encode(bytes.drop_last()) + query_byte(bytes.last())
    }
}

/// `key=value`.
pub open spec fn key_value(p: (Seq<char>, Seq<char>)) -> Seq<char> {
    p.0 + seq!['='] + p.1
}

/// The pairs joined as `k1=v1&k2=v2&...`.
pub open spec fn query_string(params: Seq<(Seq<char>, Seq<char>)>) -> Seq<char>
    decreases params.len(),
{
    if params.len() == 0 {
        seq![]
    } else if params.len() == 1 {
        key_value(params[0])
    } else {
        query_string(params.drop_last()) + seq!['&'] + key_value(params.last())
    }
}

/// The string contents of key-value pairs.
pub open spec fn pair_views(params: Seq<(&str, &str)>) -> Seq<(Seq<char>, Seq<char>)> {
    params.map_values(|p: (&str, &str)| (p.0@, p.1@))
}

/// The parameters of the announce request for a torrent with `info_hash`
/// and `left` bytes to download, listening on `port`.
pub open spec fn announce_params(info_hash: Seq<u8>, port: u16, left: i64) -> Seq<(Seq<char>, Seq<char>)> {
    seq![
        ("info_hash"@, query_encode(info_hash)),
        ("peer_id"@, PEER_ID@),
        ("port"@, decimal(port as int)),
        ("uploaded"@, decimal(0)),
        ("downloaded"@, decimal(0)),
        ("left"@, decimal(left as int)),
        ("compact"@, decimal(1)),
        ("event"@, "started"@),
    ]
}

/// Formats `x` in decimal with `<i64 as ToString>::to_string`.
/// Claimed: the result is the decimal form of `x` (no leading zeros, `-`
/// before a negative number), as `Display` for integers documents.
#[verifier::external_body]
fn decimal_string(x: i64) -> (s: String)
    ensures
        s@ == decimal(x as int),
{
    x.to_string()
}

/// The escape of one byte, from `percent_encoding::percent_encode_byte`.
/// Claimed: `%` followed by the two upper-case hexadecimal digits of `b`.
#[verifier::external_body]
fn escape_byte(b: u8) -> (s: &'static str)
    ensures
        s@ == percent_escape(b),
{
    percent_encoding::percent_encode_byte(b)
}

/// Appends a character with `String::push`.
/// Claimed: the string gains `c` at its end.
#[verifier::external_body]
fn push_char(s: &mut String, c: char)
    ensures
        final(s)@ == old(s)@.push(c),
{
    s.push(c)
}

/// Percent-encodes `bytes` for a tracker query.
fn encode_query_bytes(bytes: &[u8]) -> (s: String)
    ensures
        s@ == query_encode(bytes@),
{
    let mut s = String::new();
    let mut i: usize = 0;
    while i < bytes.len()
        invariant
            i <= bytes@.len(),
            s@ == query_encode(bytes@.take(i as int)),
        decreases bytes@.len() - i,
    {
        let b = bytes[i];
        assert(bytes@.take(i + 1).drop_last() =~= bytes@.take(i as int));
        if b < 0x20 || b >= 0x7f || b == 0x20 || b == 0x22 || b == 0x23 || b == 0x3c || b == 0x3e {
            s.append(escape_byte(b));
        } else {
            push_char(&mut s, b as char);
        }
        i = i + 1;
    }
    assert(bytes@.take(bytes@.len() as int) =~= bytes@);
    s
}

/// Joins the pairs as `k1=v1&k2=v2&...`.
pub fn parameterize(parameters: Vec<(&str, &str)>) -> (query: String)
    ensures
        query@ == query_string(pair_views(parameters@)),
{
    let ghost views = pair_views(parameters@);
    let mut query = String::new();
    let mut i: usize = 0;
    proof {
        reveal_strlit("&");
        reveal_strlit("=");
    }
    while i < parameters.len()
        invariant
            i <= parameters@.len(),
            views == pair_views(parameters@),
            views.len() == parameters@.len(),
            "&"@ == seq!['&'],
            "="@ == seq!['='],
            query@ == query_string(views.take(i as int)),
        decreases parameters@.len() - i,
    {
        let pair = parameters[i];
        assert(views.take(i + 1).drop_last() =~= views.take(i as int));
        assert(views[i as int] == (pair.0@, pair.1@));
        if i > 0 {
            query.append("&");
        } else {
            assert(views.take(0) =~= Seq::<(Seq<char>, Seq<char>)>::empty());
        }
        query.append(pair.0);
        query.append("=");
        query.append(pair.1);
        i = i + 1;
    }
    assert(views.take(views.len() as int) =~= views);
    query
}

/// The announce URL for a torrent: its tracker's address, `?`, then the
/// announce parameters (see [`announce_params`]).
pub fn get_formatted_url(metadata: &TorrentMetadata, port: &u16) -> (url: String)
    requires
        metadata.info.length is Some,
        metadata.announce is Some,
    ensures
        url@ == metadata.announce->0@ + seq!['?'] + query_string(
            announce_params(metadata.info_hash@, *port, metadata.info.length->0),
        ),
{
    let peer_id = PEER_ID;
    let uploaded = decimal_string(0);
    let downloaded = decimal_string(0);
    let left = decimal_string(metadata.info.length.unwrap());
    let port_str = decimal_string(*port as i64);
    let compact = decimal_string(1);
    let base_url = metadata.announce.as_ref().unwrap();
    let percent_encoded_hash = encode_query_bytes(metadata.info_hash.as_slice());

    let mut params: Vec<(&str, &str)> = Vec::new();
    params.push(("info_hash", percent_encoded_hash.as_str()));
    params.push(("peer_id", peer_id));
    params.push(("port", port_str.as_str()));
    params.push(("uploaded", uploaded.as_str()));
    params.push(("downloaded", downloaded.as_str()));
    params.push(("left", left.as_str()));
    params.push(("compact", compact.as_str()));
    params.push(("event", "started"));
    assert(pair_views(params@) =~= announce_params(
        metadata.info_hash@,
        *port,
        metadata.info.length->0,
    ));

    let query_params = parameterize(params);
    let mut url = String::new();
    url.append(base_url.as_str());
    proof {
        reveal_strlit("?");
    }
    url.append("?");
    url.append(query_params.as_str());
    url
}


/// The value of an upper-case hexadecimal digit, or -1 for any other
/// character.
pub open spec fn hex_value(c: char) -> int {
    if '0' <= c <= '9' {
        c as int - 48
    } else if 'A' <= c <= 'F' {
        c as int - 55
    } else {
        -1
    }
}

/// How each byte stands in a tracker query: a control byte (below 0x20),
/// DEL, any non-ASCII byte (0x80 and up), space, `"`, `#`, `<` and `>`
/// become `%` and two upper-case hexadecimal digits that read back as the
/// byte; every other byte stands as its own ASCII character.
pub proof fn lemma_query_byte(b: u8)
    ensures
        (b < 0x20 || b >= 0x7f || b == 0x20 || b == 0x22 || b == 0x23 || b == 0x3c || b == 0x3e) ==> {
            let q = query_byte(b);
            &&& q.len() == 3
            &&& q[0] == '%'
            &&& 0 <= hex_value(q[1]) && 0 <= hex_value(q[2])
            &&& 16 * hex_value(q[1]) + hex_value(q[2]) == b
        },
        !(b < 0x20 || b >= 0x7f || b == 0x20 || b == 0x22 || b == 0x23 || b == 0x3c || b == 0x3e)
            ==> query_byte(b) == seq![b as char] && (b as char) as int == b && b < 0x7f,
{
}

/// The query encoding of a byte string is the encodings of its bytes, in
/// order: encoding a concatenation concatenates the encodings.
pub proof fn lemma_query_encode_concat(s: Seq<u8>, t: Seq<u8>)
    ensures
        query_encode(s + t) == query_encode(s) + query_encode(t),
        query_encode(seq![]) == Seq::<char>::empty(),
        t.len() == 1 ==> query_encode(t) == query_byte(t[0]),
    decreases t.len(),
{
    if t.len() == 0 {
        assert(s + t =~= s);
    } else {
        let t0 = t.drop_last();
        lemma_query_encode_concat(s, t0);
        assert((s + t).drop_last() =~= s + t0);
        assert(query_encode(s + t) == query_encode(s + t0) + query_byte(t.last()));
        assert(query_encode(t) == query_encode(t0) + query_byte(t.last()));
        if t.len() == 1 {
            assert(t0 =~= Seq::<u8>::empty());
        }
    }
}

/// Flag `j` (below 8) of a byte is bit `j` of it, counting from the least
/// significant bit.
pub proof fn lemma_byte_bit(b: u8, j: int)
    requires
        0 <= j < 8,
    ensures
        byte_bits(b)[j] == ((b >> (j as u8)) & 1u8 == 1u8),
{
    if j == 0 {
        assert((b & 1u8 != 0) == ((b >> 0u8) & 1u8 == 1u8)) by (bit_vector);
    } else if j == 1 {
        assert((b & 2u8 != 0) == ((b >> 1u8) & 1u8 == 1u8)) by (bit_vector);
    } else if j == 2 {
        assert((b & 4u8 != 0) == ((b >> 2u8) & 1u8 == 1u8)) by (bit_vector);
    } else if j == 3 {
        assert((b & 8u8 != 0) == ((b >> 3u8) & 1u8 == 1u8)) by (bit_vector);
    } else if j == 4 {
        assert((b & 16u8 != 0) == ((b >> 4u8) & 1u8 == 1u8)) by (bit_vector);
    } else if j == 5 {
        assert((b & 32u8 != 0) == ((b >> 5u8) & 1u8 == 1u8)) by (bit_vector);
    } else if j == 6 {
        assert((b & 64u8 != 0) == ((b >> 6u8) & 1u8 == 1u8)) by (bit_vector);
    } else {
        assert((b & 128u8 != 0) == ((b >> 7u8) & 1u8 == 1u8)) by (bit_vector);
    }
}

/// The number that a string of decimal digits reads as.
pub open spec fn digits_value(s: Seq<char>) -> int
    decreases s.len(),
{
    if s.len() == 0 {
        0
    } else {
        digits_value(s.drop_last()) * 10 + (s.last() as int - 48)
    }
}

/// The decimal form of a natural number is a non-empty string of the digits
/// `0`..`9` that reads back as the number, without a leading zero.
pub proof fn lemma_decimal_digits(n: nat)
    ensures
        decimal_digits(n).len() >= 1,
        forall|i: int| 0 <= i < decimal_digits(n).len() ==> '0' <= #[trigger] decimal_digits(n)[i] <= '9',
        digits_value(decimal_digits(n)) == n,
        n > 0 ==> decimal_digits(n)[0] != '0',
    decreases n,
{
    if n >= 10 {
        lemma_decimal_digits(n / 10);
        let s = decimal_digits(n);
        let p = decimal_digits(n / 10);
        assert(s == p.push(digit_char((n % 10) as int)));
        assert(s.drop_last() =~= p);
        assert((n / 10) * 10 + n % 10 == n) by (nonlinear_arith);
        assert(digit_char((n % 10) as int) as int == 48 + n % 10);
        assert(s.last() == digit_char((n % 10) as int));
        assert(digits_value(s) == digits_value(p) * 10 + (s.last() as int - 48));
        assert forall|i: int| 0 <= i < s.len() implies '0' <= #[trigger] s[i] <= '9' by {
            if i < p.len() {
                assert(s[i] == p[i]);
            }
        }
    } else {
        let s = decimal_digits(n);
        assert(s.drop_last() =~= Seq::<char>::empty());
        assert(digit_char(n as int) as int == 48 + n);
        assert(digits_value(s) == digits_value(s.drop_last()) * 10 + (s.last() as int - 48));
    }
}

/// The decimal form of an integer: `-` and the digits of its magnitude when
/// it is negative, its digits otherwise.
pub proof fn lemma_decimal(x: int)
    ensures
        x >= 0 ==> digits_value(decimal(x)) == x && decimal(x)[0] != '-',
        x < 0 ==> decimal(x)[0] == '-' && digits_value(decimal(x).drop_first()) == -x,
{
    if x >= 0 {
        lemma_decimal_digits(x as nat);
    } else {
        lemma_decimal_digits((-x) as nat);
        assert(decimal(x).drop_first() =~= decimal_digits((-x) as nat));
    }
}

/// Joining pairs: one pair stands as `key=value`, and the query of two
/// non-empty lists of pairs is the two queries with `&` between them.
pub proof fn lemma_query_string_concat(
    ps: Seq<(Seq<char>, Seq<char>)>,
    qs: Seq<(Seq<char>, Seq<char>)>,
)
    requires
        ps.len() >= 1,
    ensures
        query_string(seq![ps[0]]) == ps[0].0 + seq!['='] + ps[0].1,
        qs.len() >= 1 ==> query_string(ps + qs) == query_string(ps) + seq!['&'] + query_string(qs),
        query_string(Seq::<(Seq<char>, Seq<char>)>::empty()) == Seq::<char>::empty(),
    decreases qs.len(),
{
    if qs.len() == 1 {
        assert((ps + qs).drop_last() =~= ps);
        assert((ps + qs).last() == qs[0]);
    } else if qs.len() > 1 {
        let q0 = qs.drop_last();
        lemma_query_string_concat(ps, q0);
        assert((ps + qs).drop_last() =~= ps + q0);
        assert((ps + qs).last() == qs.last());
        assert(query_string(qs) == query_string(q0) + seq!['&'] + key_value(qs.last()));
        assert(query_string(ps + qs) == query_string(ps + q0) + seq!['&'] + key_value(qs.last()));
        assert(query_string(ps) + seq!['&'] + query_string(qs) =~= query_string(ps) + seq!['&']
            + query_string(q0) + seq!['&'] + key_value(qs.last()));
    }
}

/// Reading back the big-endian encoding of a `u32` gives the same `u32`.
pub proof fn lemma_big_endian_roundtrip(n: u32)
    ensures
        be_u32(be_bytes(n)) == n,
        be_bytes(n).len() == 4,
{
    let b = be_bytes(n);
    assert(b[0] * 0x100_0000 + b[1] * 0x1_0000 + b[2] * 0x100 + b[3] == n) by (nonlinear_arith)
        requires
            b[0] == (n / 0x100_0000) as u8,
            b[1] == ((n / 0x1_0000) % 0x100) as u8,
            b[2] == ((n / 0x100) % 0x100) as u8,
            b[3] == (n % 0x100) as u8,
    ;
}

} // verus!
