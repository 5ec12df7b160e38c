use bittorrent::network::message_parser::Message;
use bittorrent::peer::Peer;
use bittorrent::storage::piece::BLOCK_SIZE;
use bittorrent::torrent_handler::{request_action, PeerAction, PeerState, TorrentState};
use bittorrent::torrent_meta::TorrentMetadata;
use bittorrent::tracker::TrackerResponse;

fn state(num_pieces: usize, piece_length: i64) -> TorrentState {
    let mut meta = TorrentMetadata::default();
    meta.info.piece_length = piece_length;
    meta.info.pieces = (0..num_pieces * 20).map(|i| i as u8).collect();
    TorrentState::create(meta, TrackerResponse::default())
}

fn peer() -> Peer {
    Peer { ip: [10, 0, 0, 1], port: 6881 }
}

#[test]
fn create_makes_one_piece_per_hash() {
    let ts = state(3, 2 * BLOCK_SIZE as i64);
    assert_eq!(ts.pieces.len(), 3);
    assert!(ts.peers.is_empty());
    for (i, p) in ts.pieces.iter().enumerate() {
        assert_eq!(p.index, i as u32);
        assert_eq!(p.piece_length, 2 * BLOCK_SIZE);
        assert!(!p.is_complete());
    }
}

#[test]
fn trailing_hash_bytes_are_ignored() {
    let mut meta = TorrentMetadata::default();
    meta.info.piece_length = BLOCK_SIZE as i64;
    meta.info.pieces = vec![0; 45];
    let ts = TorrentState::create(meta, TrackerResponse::default());
    assert_eq!(ts.pieces.len(), 2);
}

#[test]
fn block_requests_follow_downloads() {
    let mut ts = state(2, 2 * BLOCK_SIZE as i64);
    assert!(ts.can_request());
    assert_eq!(ts.get_block_request(), Some((0, 0, BLOCK_SIZE)));
    ts.store_data(0, 0, vec![1; BLOCK_SIZE as usize]);
    assert_eq!(ts.get_block_request(), Some((0, BLOCK_SIZE, BLOCK_SIZE)));
    ts.store_data(0, BLOCK_SIZE as u32, vec![1; BLOCK_SIZE as usize]);
    assert_eq!(ts.get_block_request(), Some((1, 0, BLOCK_SIZE)));
    ts.store_data(1, 0, vec![1; BLOCK_SIZE as usize]);
    ts.store_data(1, BLOCK_SIZE as u32, vec![1; BLOCK_SIZE as usize]);
    assert_eq!(ts.get_block_request(), None);
    assert_eq!(request_action(&ts), PeerAction::Stop);
}

#[test]
fn pieces_without_blocks_cannot_be_requested() {
    let ts = state(1, 100);
    assert!(!ts.can_request());
    let empty = state(0, 100);
    assert!(empty.can_request());
    assert_eq!(empty.get_block_request(), None);
}

#[test]
fn new_peer_is_choked() {
    let p = PeerState::new(peer(), 4, 3);
    assert_eq!(p.peer_id, 4);
    assert_eq!(p.peer, peer());
    assert_eq!(p.have, vec![false, false, false]);
    assert!(p.choked);
    assert!(!p.interested);
}

#[test]
fn choke_and_unchoke() {
    let mut ts = state(1, BLOCK_SIZE as i64);
    let mut p = PeerState::new(peer(), 0, 1);
    assert_eq!(p.handle_message(&mut ts, Message::UnChoke), PeerAction::RequestNext);
    assert!(!p.choked);
    assert_eq!(
        request_action(&ts),
        PeerAction::Send(Message::Request(0, 0, BLOCK_SIZE as u32))
    );
    assert_eq!(p.handle_message(&mut ts, Message::Choke), PeerAction::Continue);
    assert!(p.choked);
}

#[test]
fn have_and_bitfield_update_the_peer() {
    let mut ts = state(2, BLOCK_SIZE as i64);
    let mut p = PeerState::new(peer(), 0, 2);
    assert!(p.can_handle(&ts, &Message::Have(1)));
    assert!(!p.can_handle(&ts, &Message::Have(2)));
    assert_eq!(p.handle_message(&mut ts, Message::Have(1)), PeerAction::Continue);
    assert_eq!(p.have, vec![false, true]);
    assert_eq!(
        p.handle_message(&mut ts, Message::Bitfield(vec![true; 8])),
        PeerAction::Send(Message::Interested)
    );
    assert_eq!(p.have, vec![true; 8]);
}

#[test]
fn piece_is_stored_and_next_block_requested_when_unchoked() {
    let mut ts = state(1, 2 * BLOCK_SIZE as i64);
    let mut p = PeerState::new(peer(), 0, 1);
    let block = Message::Piece(0, 0, vec![5; BLOCK_SIZE as usize]);
    assert!(p.can_handle(&ts, &block));
    assert_eq!(p.handle_message(&mut ts, block), PeerAction::Continue);
    assert_eq!(ts.get_block_request(), Some((0, BLOCK_SIZE, BLOCK_SIZE)));
    p.handle_message(&mut ts, Message::UnChoke);
    let next = Message::Piece(0, BLOCK_SIZE as u32, vec![6; BLOCK_SIZE as usize]);
    assert_eq!(p.handle_message(&mut ts, next), PeerAction::RequestNext);
    assert!(ts.pieces[0].is_complete());
    assert_eq!(request_action(&ts), PeerAction::Stop);
}

#[test]
fn out_of_range_pieces_are_refused() {
    let ts = state(1, 2 * BLOCK_SIZE as i64);
    let p = PeerState::new(peer(), 0, 1);
    assert!(!p.can_handle(&ts, &Message::Piece(1, 0, vec![])));
    assert!(!p.can_handle(&ts, &Message::Piece(0, 2 * BLOCK_SIZE as u32, vec![0; BLOCK_SIZE as usize])));
    assert!(p.can_handle(&ts, &Message::Piece(0, 2 * BLOCK_SIZE as u32, vec![0; 3])));
    assert!(p.can_handle(&ts, &Message::Cancel(99)));
}

#[test]
fn other_messages_change_nothing() {
    let mut ts = state(1, BLOCK_SIZE as i64);
    let mut p = PeerState::new(peer(), 0, 1);
    for m in [Message::Interested, Message::NotInterested, Message::Request(0, 0, 1), Message::Cancel(0)] {
        assert_eq!(p.handle_message(&mut ts, m), PeerAction::Continue);
        assert!(p.choked);
        assert_eq!(p.have, vec![false]);
    }
    assert_eq!(ts.get_block_request(), Some((0, 0, BLOCK_SIZE)));
}
