use sha1::{Digest, Sha1};
use torrent_rs::integrity::{digest_matches, judge_piece, split_piece_hashes, verify_piece, PieceVerdict};
use torrent_rs::torrent::info_hash_of;

#[test]
fn test_verify_piece_valid() {
    let data = b"Hello, World!";
    let mut hasher = Sha1::new();
    hasher.update(data);
    let expected: [u8; 20] = hasher.finalize().into();

    assert!(verify_piece(data, &expected));
}

#[test]
fn test_verify_piece_invalid() {
    let data = b"Hello, World!";
    let wrong_hash = [0u8; 20];

    assert!(!verify_piece(data, &wrong_hash));
}

#[test]
fn test_verify_piece_empty() {
    let data = b"";
    let mut hasher = Sha1::new();
    hasher.update(data);
    let expected: [u8; 20] = hasher.finalize().into();

    assert!(verify_piece(data, &expected));
}

fn hex20(s: &str) -> [u8; 20] {
    let mut out = [0u8; 20];
    for i in 0..20 {
        out[i] = u8::from_str_radix(&s[2 * i..2 * i + 2], 16).unwrap();
    }
    out
}

#[test]
fn known_digest_of_hello_world() {
    let expected = hex20("0a0a9f2a6772942557ab5355d76af442f8f65e01");
    assert!(verify_piece(b"Hello, World!", &expected));
    assert_eq!(info_hash_of(b"Hello, World!"), expected);
    assert!(!verify_piece(b"Hello, World?", &expected));
}

#[test]
fn digests_compare_bytewise() {
    assert!(digest_matches(&[3; 20], &[3; 20]));
    let mut other = [3u8; 20];
    other[19] = 4;
    assert!(!digest_matches(&[3; 20], &other));
}

#[test]
fn verdicts_for_completed_pieces() {
    let good = hex20("0a0a9f2a6772942557ab5355d76af442f8f65e01");
    let hashes = vec![good, [0u8; 20]];
    assert_eq!(judge_piece(&hashes, 0, b"Hello, World!"), PieceVerdict::Verified);
    assert_eq!(judge_piece(&hashes, 1, b"Hello, World!"), PieceVerdict::Corrupt);
    assert_eq!(judge_piece(&hashes, 2, b"Hello, World!"), PieceVerdict::OutOfRange);
}

#[test]
fn piece_hash_string_splits_in_twenties() {
    let mut bytes = vec![1u8; 20];
    bytes.extend_from_slice(&[2u8; 20]);
    let hashes = split_piece_hashes(&bytes).unwrap();
    assert_eq!(hashes, vec![[1u8; 20], [2u8; 20]]);
    assert!(split_piece_hashes(&bytes[..39]).is_none());
    assert_eq!(split_piece_hashes(&[]), Some(vec![]));
}
