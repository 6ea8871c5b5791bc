use torrent_rs::bitfield::Bitfield;
use torrent_rs::piece_manager::PieceManager;

fn bits(pieces: &[u32], bytes: usize) -> Bitfield {
    Bitfield::from_pieces(bytes, &pieces.to_vec())
}

#[test]
fn rarest_first_order() {
    let mut pm = PieceManager::new(3, 16384);
    pm.add_peer(&bits(&[0, 1, 2], 1));
    pm.add_peer(&bits(&[1, 2], 1));
    pm.add_peer(&bits(&[2], 1));
    assert_eq!(pm.next_piece(), Some(0));
    assert_eq!(pm.next_piece(), Some(1));
    assert_eq!(pm.next_piece(), Some(2));
    assert_eq!(pm.next_piece(), None);
}

#[test]
fn equal_availability_goes_by_index() {
    let mut pm = PieceManager::new(4, 16384);
    pm.add_peer(&bits(&[3, 1, 2], 1));
    assert_eq!(pm.next_piece(), Some(1));
    assert_eq!(pm.next_piece(), Some(2));
    assert_eq!(pm.next_piece(), Some(3));
}

#[test]
fn completed_piece_is_never_offered_again() {
    let mut pm = PieceManager::new(2, 16384);
    pm.add_peer(&bits(&[0, 1], 1));
    let p = pm.next_piece().unwrap();
    assert_eq!(p, 0);
    pm.mark_completed(p);
    pm.add_peer(&bits(&[0, 1], 1));
    assert_eq!(pm.next_piece(), Some(1));
    pm.mark_failed(1);
    assert_eq!(pm.next_piece(), Some(1));
    assert_eq!(pm.next_piece(), None);
    assert_eq!(pm.progress(), (1, 2));
    assert!(!pm.is_complete());
    pm.mark_completed(1);
    assert!(pm.is_complete());
}

#[test]
fn two_requests_get_distinct_pieces() {
    let mut pm = PieceManager::new(2, 16384);
    pm.add_peer(&bits(&[0, 1], 1));
    let a = pm.next_piece().unwrap();
    let b = pm.next_piece().unwrap();
    assert_ne!(a, b);
}

#[test]
fn failed_piece_returns_to_pool() {
    let mut pm = PieceManager::new(1, 16384);
    pm.add_peer(&bits(&[0], 1));
    assert_eq!(pm.next_piece(), Some(0));
    assert_eq!(pm.next_piece(), None);
    pm.mark_failed(0);
    assert_eq!(pm.next_piece(), Some(0));
}

#[test]
fn departed_peer_no_longer_counts() {
    let mut pm = PieceManager::new(2, 16384);
    let a = bits(&[0], 1);
    let b = bits(&[1], 1);
    pm.add_peer(&a);
    pm.add_peer(&b);
    pm.add_peer(&bits(&[1], 1));
    pm.remove_peer(&a);
    assert_eq!(pm.next_piece(), Some(1));
    assert_eq!(pm.next_piece(), None);
    // Removing a peer twice does not go below zero.
    pm.remove_peer(&a);
    pm.add_peer(&a);
    assert_eq!(pm.next_piece(), Some(0));
}

#[test]
fn sizes_are_kept() {
    let pm = PieceManager::new(12, 262144);
    assert_eq!(pm.piece_size(), 262144);
    assert_eq!(pm.total_pieces(), 12);
    assert_eq!(pm.progress(), (0, 12));
}

#[test]
fn empty_torrent_is_complete() {
    let pm = PieceManager::new(0, 16384);
    assert!(pm.is_complete());
}
