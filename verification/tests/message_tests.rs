use bittorrent::network::message_parser::Message;

#[test]
fn decodes_messages_without_payload() {
    assert_eq!(Message::from_bytes(vec![0]), Message::Choke);
    assert_eq!(Message::from_bytes(vec![1]), Message::UnChoke);
    assert_eq!(Message::from_bytes(vec![2]), Message::Interested);
    assert_eq!(Message::from_bytes(vec![3, 9, 9]), Message::NotInterested);
}

#[test]
fn decodes_have_and_cancel() {
    assert_eq!(Message::from_bytes(vec![4, 0, 0, 1, 0]), Message::Have(256));
    assert_eq!(Message::from_bytes(vec![8, 0, 0, 0, 7, 1, 2]), Message::Cancel(7));
}

#[test]
fn decodes_bitfield() {
    assert_eq!(
        Message::from_bytes(vec![5, 0b0000_0011, 0b1000_0000]),
        Message::Bitfield(vec![
            true, true, false, false, false, false, false, false, false, false, false, false, false,
            false, false, true
        ])
    );
    assert_eq!(Message::from_bytes(vec![5]), Message::Bitfield(vec![]));
}

#[test]
fn decodes_request() {
    assert_eq!(
        Message::from_bytes(vec![6, 0, 0, 0, 1, 0, 0, 0x40, 0, 0, 0, 0x40, 0]),
        Message::Request(1, 16384, 16384)
    );
}

#[test]
fn decodes_piece() {
    assert_eq!(
        Message::from_bytes(vec![7, 0, 0, 0, 2, 0, 0, 0, 3, 10, 20, 30]),
        Message::Piece(2, 3, vec![10, 20, 30])
    );
    assert_eq!(Message::from_bytes(vec![7, 0, 0, 0, 2, 0, 0, 0, 3]), Message::Piece(2, 3, vec![]));
}

#[test]
fn encodes_request() {
    assert_eq!(
        Message::Request(1, 16384, 16384).to_bytes(),
        vec![6, 0, 0, 0, 1, 0, 0, 0x40, 0, 0, 0, 0x40, 0]
    );
}

#[test]
fn request_roundtrip() {
    for (i, o, l) in [(0u32, 0u32, 0u32), (7, 32768, 16384), (u32::MAX, 1, u32::MAX)] {
        let bytes = Message::Request(i, o, l).to_bytes();
        assert!(Message::is_decodable(&bytes));
        assert_eq!(Message::from_bytes(bytes), Message::Request(i, o, l));
    }
}

#[test]
fn decodability() {
    assert!(!Message::is_decodable(&[]));
    assert!(!Message::is_decodable(&[9]));
    assert!(!Message::is_decodable(&[255, 0, 0, 0, 0]));
    assert!(!Message::is_decodable(&[4, 0, 0, 0]));
    assert!(Message::is_decodable(&[4, 0, 0, 0, 0]));
    assert!(!Message::is_decodable(&[6, 0, 0, 0, 0, 0, 0, 0, 0, 0, 0, 0]));
    assert!(!Message::is_decodable(&[7, 0, 0, 0, 0, 0, 0, 0]));
    assert!(Message::is_decodable(&[7, 0, 0, 0, 0, 0, 0, 0, 0]));
    assert!(!Message::is_decodable(&[8, 0]));
    assert!(Message::is_decodable(&[5]));
    assert!(Message::is_decodable(&[0]));
}
