use torrent_rs::bitfield::Bitfield;
use torrent_rs::block_manager::BlockManager;
use torrent_rs::message::PeerMessage;
use torrent_rs::peer_state::PeerState;
use torrent_rs::piece::BLOCK_SIZE;
use torrent_rs::piece_manager::PieceManager;
use torrent_rs::integrity::PieceVerdict;
use torrent_rs::session::{settle_piece, PeerSession};
use torrent_rs::stats::DownloadStats;

// Two pieces of 20000 bytes and a last one of 5000.
fn setup() -> (PeerSession, PieceManager, BlockManager) {
    (
        PeerSession::new(5, 45000, 20000, 3),
        PieceManager::new(3, 20000),
        BlockManager::new(),
    )
}

#[test]
fn peer_state_starts_choked() {
    let mut s = PeerState::new();
    assert!(s.is_choked());
    assert!(!s.is_interested());
    s.unchoke();
    assert!(!s.is_choked());
    s.choke();
    assert!(s.is_choked());
    s.set_interested(true);
    assert!(s.is_interested());
}

#[test]
fn unchoke_fills_pipeline_from_rarest_piece() {
    let (mut session, mut pm, mut bm) = setup();
    let bf = Bitfield::from_bytes(vec![0b1110_0000]);
    session.on_bitfield(&bf, &mut pm);
    assert!(session.state.is_interested());
    let action = session.handle_message(PeerMessage::Unchoke, &mut pm, &mut bm);
    assert_eq!(session.assigned_piece, Some(0));
    assert_eq!(action.requests.len(), 2);
    assert_eq!(action.requests[0].offset, 0);
    assert_eq!(action.requests[0].length, BLOCK_SIZE);
    assert_eq!(action.requests[1].offset, BLOCK_SIZE);
    assert_eq!(action.requests[1].length, 20000 - BLOCK_SIZE);
    assert_eq!(session.pending_requests, action.requests);
}

#[test]
fn completed_piece_goes_to_verifier_and_next_piece_starts() {
    let (mut session, mut pm, mut bm) = setup();
    session.on_bitfield(&Bitfield::from_bytes(vec![0b1110_0000]), &mut pm);
    let first = session.handle_message(PeerMessage::Unchoke, &mut pm, &mut bm);
    let a = first.requests[0];
    let b = first.requests[1];
    let r1 = session.handle_message(
        PeerMessage::Piece { index: a.piece_index, begin: a.offset, block: vec![1; a.length as usize] },
        &mut pm,
        &mut bm,
    );
    assert_eq!(r1.downloaded, a.length as u64);
    assert!(r1.completed.is_none());
    let r2 = session.handle_message(
        PeerMessage::Piece { index: b.piece_index, begin: b.offset, block: vec![2; b.length as usize] },
        &mut pm,
        &mut bm,
    );
    assert_eq!(r2.downloaded, b.length as u64);
    let done = r2.completed.unwrap();
    assert_eq!(done.index, 0);
    assert_eq!(done.data.len(), 20000);
    assert_eq!(done.data[0], 1);
    assert_eq!(done.data[19999], 2);
    // The session moved on to the next piece.
    assert_eq!(session.assigned_piece, Some(1));
    assert_eq!(r2.requests.len(), 2);
    assert!(r2.requests.iter().all(|r| r.piece_index == 1));
    assert!(bm.piece_blocks(0).is_none());
}

#[test]
fn last_piece_is_requested_with_its_short_length() {
    let (mut session, mut pm, mut bm) = setup();
    session.on_bitfield(&Bitfield::from_bytes(vec![0b0010_0000]), &mut pm);
    let action = session.handle_message(PeerMessage::Unchoke, &mut pm, &mut bm);
    assert_eq!(session.assigned_piece, Some(2));
    assert_eq!(action.requests.len(), 1);
    assert_eq!(action.requests[0].length, 5000);
    assert_eq!(session.get_piece_size(2), 5000);
    assert_eq!(session.get_piece_size(0), 20000);
}

#[test]
fn choke_clears_pipeline_and_blocks_new_requests() {
    let (mut session, mut pm, mut bm) = setup();
    session.on_bitfield(&Bitfield::from_bytes(vec![0b1110_0000]), &mut pm);
    let first = session.handle_message(PeerMessage::Unchoke, &mut pm, &mut bm);
    let choke = session.handle_message(PeerMessage::Choke, &mut pm, &mut bm);
    assert!(choke.requests.is_empty());
    assert!(session.pending_requests.is_empty());
    assert!(session.state.is_choked());
    let a = first.requests[0];
    let r = session.handle_message(
        PeerMessage::Piece { index: a.piece_index, begin: a.offset, block: vec![0; a.length as usize] },
        &mut pm,
        &mut bm,
    );
    assert!(r.requests.is_empty());
    assert_eq!(r.downloaded, a.length as u64);
}

#[test]
fn other_messages_change_nothing() {
    let (mut session, mut pm, mut bm) = setup();
    for m in vec![
        PeerMessage::KeepAlive,
        PeerMessage::Have(1),
        PeerMessage::Interested,
        PeerMessage::NotInterested,
        PeerMessage::Request { index: 0, begin: 0, length: 1 },
        PeerMessage::Cancel { index: 0, begin: 0, length: 1 },
        PeerMessage::Bitfield(vec![0xFF]),
        PeerMessage::Port(1),
    ] {
        let r = session.handle_message(m, &mut pm, &mut bm);
        assert!(r.requests.is_empty() && r.completed.is_none() && r.downloaded == 0);
    }
    assert_eq!(session.assigned_piece, None);
    assert_eq!(pm.next_piece(), None);
}

#[test]
fn disconnect_releases_assignment_and_availability() {
    let (mut session, mut pm, mut bm) = setup();
    let bf = Bitfield::from_bytes(vec![0b1000_0000]);
    session.on_bitfield(&bf, &mut pm);
    session.handle_message(PeerMessage::Unchoke, &mut pm, &mut bm);
    assert_eq!(session.assigned_piece, Some(0));
    session.on_disconnect(Some(&bf), &mut pm);
    assert_eq!(session.assigned_piece, None);
    // Nobody holds piece 0 any more.
    assert_eq!(pm.next_piece(), None);
    pm.add_peer(&bf);
    assert_eq!(pm.next_piece(), Some(0));
}

#[test]
fn downloaded_bytes_equal_stored_bytes() {
    let (mut session, mut pm, mut bm) = setup();
    session.on_bitfield(&Bitfield::from_bytes(vec![0b1000_0000]), &mut pm);
    let first = session.handle_message(PeerMessage::Unchoke, &mut pm, &mut bm);
    let a = first.requests[0];
    let r = session.handle_message(
        PeerMessage::Piece { index: 0, begin: a.offset, block: vec![5; a.length as usize] },
        &mut pm,
        &mut bm,
    );
    let stored: usize = bm
        .piece_blocks(0)
        .unwrap()
        .iter()
        .map(|s| s.as_ref().map(|b| b.len()).unwrap_or(0))
        .sum();
    assert_eq!(r.downloaded as usize, stored);
}

#[test]
fn settling_judged_pieces() {
    let mut pm = PieceManager::new(2, 16384);
    let mut stats = DownloadStats::new(2);
    pm.add_peer(&Bitfield::from_bytes(vec![0xC0]));
    assert_eq!(pm.next_piece(), Some(0));
    assert_eq!(pm.next_piece(), Some(1));
    settle_piece(&mut pm, &mut stats, 0, PieceVerdict::Corrupt, false);
    assert_eq!(pm.next_piece(), Some(0));
    settle_piece(&mut pm, &mut stats, 0, PieceVerdict::Verified, false);
    assert_eq!(pm.progress(), (0, 2));
    assert_eq!(pm.next_piece(), Some(0));
    settle_piece(&mut pm, &mut stats, 0, PieceVerdict::Verified, true);
    settle_piece(&mut pm, &mut stats, 7, PieceVerdict::OutOfRange, false);
    assert_eq!(pm.progress(), (1, 2));
    assert_eq!(stats.pieces_completed(), 1);
    assert_eq!(pm.next_piece(), None);
}

#[test]
fn pipeline_never_exceeds_its_depth() {
    // A piece of three blocks, a pipeline two requests deep.
    let mut session = PeerSession::new(2, 3 * 16384, 3 * 16384, 1);
    let mut pm = PieceManager::new(1, 3 * 16384);
    let mut bm = BlockManager::new();
    session.on_bitfield(&Bitfield::from_bytes(vec![0x80]), &mut pm);
    let first = session.handle_message(PeerMessage::Unchoke, &mut pm, &mut bm);
    assert_eq!(first.requests.len(), 2);
    assert_eq!(bm.piece_blocks(0).unwrap().len(), 3);
    let again = session.request_more_blocks(&mut pm, &mut bm);
    assert!(again.is_empty());
    assert_eq!(session.pending_requests.len(), 2);
    let a = first.requests[0];
    let r = session.handle_message(
        PeerMessage::Piece { index: 0, begin: a.offset, block: vec![0; a.length as usize] },
        &mut pm,
        &mut bm,
    );
    assert_eq!(r.requests.len(), 1);
    assert_eq!(r.requests[0].offset, 2 * 16384);
    assert_eq!(session.pending_requests.len(), 2);
}
