use bittorrent::torrent_meta::TorrentMetadata;
use bittorrent::utils::{
    convert_u8_to_bits, get_formatted_url, parameterize, parse_big_endian, u32_to_big_endian, PEER_ID,
    PROTOCOL,
};

#[test]
fn parse_big_endian_reads_four_bytes() {
    assert_eq!(parse_big_endian(&[0, 0, 1, 2]), 258);
    assert_eq!(parse_big_endian(&[0x12, 0x34, 0x56, 0x78]), 0x1234_5678);
    assert_eq!(parse_big_endian(&[0xff, 0xff, 0xff, 0xff]), u32::MAX);
}

#[test]
fn parse_big_endian_ignores_trailing_bytes() {
    assert_eq!(parse_big_endian(&[0, 0, 0, 5, 9, 9]), 5);
}

#[test]
fn u32_to_big_endian_bytes() {
    assert_eq!(u32_to_big_endian(&0x0102_0304), vec![1, 2, 3, 4]);
    assert_eq!(u32_to_big_endian(&0), vec![0, 0, 0, 0]);
    assert_eq!(u32_to_big_endian(&16384), vec![0, 0, 0x40, 0]);
}

#[test]
fn big_endian_roundtrip() {
    for n in [0u32, 1, 255, 256, 16384, 0xdead_beef, u32::MAX] {
        assert_eq!(parse_big_endian(&u32_to_big_endian(&n)), n);
    }
}

#[test]
fn bits_are_least_significant_first() {
    assert_eq!(
        convert_u8_to_bits(&0b1000_0101),
        vec![true, false, true, false, false, false, false, true]
    );
    assert_eq!(convert_u8_to_bits(&0), vec![false; 8]);
    assert_eq!(convert_u8_to_bits(&0xff), vec![true; 8]);
}

#[test]
fn parameterize_joins_pairs() {
    assert_eq!(parameterize(vec![("a", "1"), ("b", "2")]), "a=1&b=2");
    assert_eq!(parameterize(vec![("only", "x")]), "only=x");
    assert_eq!(parameterize(vec![]), "");
    assert_eq!(parameterize(vec![("k", ""), ("", "v"), ("x", "y")]), "k=&=v&x=y");
}

fn metadata(announce: &str, length: i64, info_hash: Vec<u8>) -> TorrentMetadata {
    let mut meta = TorrentMetadata::default();
    meta.announce = Some(announce.to_string());
    meta.info.length = Some(length);
    meta.info_hash = info_hash;
    meta
}

#[test]
fn formatted_url_for_announce() {
    let meta = metadata("http://tracker.example/announce", 1024, vec![0x00, b'A', b' ', 0xff, b'~', b'"', b'#', b'<', b'>', 0x7f]);
    let url = get_formatted_url(&meta, &6881);
    assert_eq!(
        url,
        "http://tracker.example/announce?info_hash=%00A%20%FF~%22%23%3C%3E%7F\
         &peer_id=-TR2940-k9hj0wfej5ch&port=6881&uploaded=0&downloaded=0&left=1024&compact=1&event=started"
    );
}

#[test]
fn formatted_url_negative_length_and_zero_port() {
    let meta = metadata("udp://t", -5, vec![]);
    let url = get_formatted_url(&meta, &0);
    assert_eq!(
        url,
        "udp://t?info_hash=&peer_id=-TR2940-k9hj0wfej5ch&port=0&uploaded=0&downloaded=0&left=-5&compact=1&event=started"
    );
}

#[test]
fn formatted_url_keeps_unreserved_bytes() {
    let meta = metadata("http://t/a", 0, b"az09-_.%&=".to_vec());
    let url = get_formatted_url(&meta, &65535);
    assert!(url.starts_with("http://t/a?info_hash=az09-_.%&=&peer_id="));
    assert!(url.contains("&port=65535&"));
}

#[test]
fn constants() {
    assert_eq!(PEER_ID.len(), 20);
    assert_eq!(PROTOCOL, "BitTorrent protocol");
}
