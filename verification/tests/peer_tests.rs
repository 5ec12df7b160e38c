use bittorrent::network::peer_connection::handshake_message;
use bittorrent::peer::Peer;
use bittorrent::torrent_meta::create_info_hash;
use bittorrent::tracker::TrackerResponse;

#[test]
fn peer_from_compact_bytes() {
    let p = Peer::from_bytes(&[127, 0, 0, 1, 0x1a, 0xe1]);
    assert_eq!(p.ip, [127, 0, 0, 1]);
    assert_eq!(p.port, 6881);
    let q = Peer::from_bytes(&[1, 2, 3, 4, 0xff, 0xff, 9]);
    assert_eq!(q.ip, [1, 2, 3, 4]);
    assert_eq!(q.port, 65535);
}

#[test]
fn tracker_response_from_compact_peers() {
    let bytes = [10, 0, 0, 1, 0, 80, 192, 168, 1, 2, 0x1a, 0xe1, 7];
    let res = TrackerResponse::from_compact_peers(1800, &bytes);
    assert_eq!(res.interval, 1800);
    assert_eq!(
        res.peers,
        vec![Peer { ip: [10, 0, 0, 1], port: 80 }, Peer { ip: [192, 168, 1, 2], port: 6881 }]
    );
    let none = TrackerResponse::from_compact_peers(0, &[1, 2, 3]);
    assert!(none.peers.is_empty());
}

#[test]
fn handshake_layout() {
    let hash = [7u8; 20];
    let msg = handshake_message(&hash);
    assert_eq!(msg.len(), 68);
    assert_eq!(msg[0], 19);
    assert_eq!(&msg[1..20], b"BitTorrent protocol");
    assert_eq!(&msg[20..28], &[0u8; 8]);
    assert_eq!(&msg[28..48], &hash);
    assert_eq!(&msg[48..68], b"-TR2940-k9hj0wfej5ch");
}

#[test]
fn info_hash_is_sha1() {
    let h = create_info_hash(b"abc");
    assert_eq!(
        h,
        vec![
            0xa9, 0x99, 0x3e, 0x36, 0x47, 0x06, 0x81, 0x6a, 0xba, 0x3e, 0x25, 0x71, 0x78, 0x50, 0xc2,
            0x6c, 0x9c, 0xd0, 0xd8, 0x9d
        ]
    );
    let e = create_info_hash(b"");
    assert_eq!(e.len(), 20);
    assert_eq!(e[0], 0xda);
    assert_eq!(e[19], 0x09);
}
