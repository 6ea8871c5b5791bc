use torrent_rs::bitfield::Bitfield;

#[test]
fn bitfield_bits_are_most_significant_first() {
    let bf = Bitfield::from_bytes(vec![0xAA, 0xF0]);
    assert!(bf.has_piece(0));
    assert!(!bf.has_piece(1));
    assert!(bf.has_piece(8));
    assert!(bf.has_piece(11));
    assert!(!bf.has_piece(12));
    assert!(!bf.has_piece(16));
    assert!(!bf.has_piece(usize::MAX));
    assert_eq!(bf.len(), 16);
}

#[test]
fn iterator_walks_marked_pieces_from_zero() {
    let bf = Bitfield::from_bytes(vec![0xAA, 0xF0]);
    let mut it = bf.iter();
    let mut seen = Vec::new();
    while let Some(p) = it.next() {
        seen.push(p);
    }
    assert_eq!(seen, vec![0, 2, 4, 6, 8, 9, 10, 11]);
    assert_eq!(it.next(), None);
}

#[test]
fn marked_pieces_write_back_to_the_same_bytes() {
    let source = vec![0xAAu8, 0xF0, 0x01];
    let bf = Bitfield::from_bytes(source.clone());
    let mut pieces = Vec::new();
    for i in 0..bf.len() {
        if bf.has_piece(i) {
            pieces.push(i as u32);
        }
    }
    let again = Bitfield::from_pieces(source.len(), &pieces);
    assert_eq!(again.data, source);
}

#[test]
fn from_pieces_drops_what_does_not_fit() {
    let bf = Bitfield::from_pieces(1, &vec![0, 7, 8, 100]);
    assert_eq!(bf.data, vec![0x81]);
}
