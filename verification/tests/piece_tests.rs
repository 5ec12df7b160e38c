use bittorrent::storage::piece::{Piece, BLOCK_SIZE};

fn block(fill: u8) -> Vec<u8> {
    vec![fill; BLOCK_SIZE as usize]
}

#[test]
fn new_piece_requests_first_block() {
    let piece = Piece::new(2 * BLOCK_SIZE, 3, vec![1; 20]);
    assert!(!piece.is_complete());
    assert_eq!(piece.num_blocks(), 2);
    assert_eq!(piece.piece_length, 2 * BLOCK_SIZE);
    assert_eq!(piece.index, 3);
    assert_eq!(piece.get_next_block_request(), (3, 0, BLOCK_SIZE));
}

#[test]
fn partial_trailing_block_is_not_counted() {
    let piece = Piece::new(2 * BLOCK_SIZE + 100, 0, vec![]);
    assert_eq!(piece.num_blocks(), 2);
    let small = Piece::new(BLOCK_SIZE - 1, 0, vec![]);
    assert_eq!(small.num_blocks(), 0);
}

#[test]
fn storing_blocks_advances_and_completes() {
    let mut piece = Piece::new(3 * BLOCK_SIZE, 9, vec![]);
    piece.store_data(BLOCK_SIZE, block(1));
    assert!(!piece.is_complete());
    assert_eq!(piece.get_next_block_request(), (9, 0, BLOCK_SIZE));
    piece.store_data(0, block(2));
    assert_eq!(piece.get_next_block_request(), (9, 2 * BLOCK_SIZE, BLOCK_SIZE));
    piece.store_data(2 * BLOCK_SIZE + 5, block(3));
    assert!(piece.is_complete());
}

#[test]
fn short_data_is_ignored() {
    let mut piece = Piece::new(BLOCK_SIZE, 0, vec![]);
    piece.store_data(0, vec![1, 2, 3]);
    assert!(!piece.is_complete());
    assert_eq!(piece.get_next_block_request(), (0, 0, BLOCK_SIZE));
    piece.store_data(0, block(7));
    assert!(piece.is_complete());
}

#[test]
fn storing_a_block_twice_keeps_it_downloaded() {
    let mut piece = Piece::new(2 * BLOCK_SIZE, 1, vec![]);
    piece.store_data(0, block(1));
    piece.store_data(0, block(2));
    assert!(!piece.is_complete());
    assert_eq!(piece.get_next_block_request(), (1, BLOCK_SIZE, BLOCK_SIZE));
}

#[test]
fn piece_without_blocks_completes_on_any_short_store() {
    let mut piece = Piece::new(10, 0, vec![]);
    assert!(!piece.is_complete());
    piece.store_data(0, vec![]);
    assert!(piece.is_complete());
}

#[test]
fn complete_piece_stays_complete() {
    let mut piece = Piece::new(BLOCK_SIZE, 2, vec![]);
    piece.store_data(0, block(1));
    assert!(piece.is_complete());
    piece.store_data(0, vec![1]);
    assert!(piece.is_complete());
    piece.store_data(100, block(2));
    assert!(piece.is_complete());
    assert_eq!(piece.num_blocks(), 1);
}
