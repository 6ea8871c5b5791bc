use torrent_rs::tracker::{
    compact_peers_bytes, parse_compact_peers, peer_id_char, urlencode_bytes, BadPeersLength, PeerAddr,
    TrackerRequest,
};

#[test]
fn peer_id_has_prefix_and_alphanumerics() {
    let id = TrackerRequest::generate_peer_id();
    assert_eq!(id.len(), 20);
    assert!(id.starts_with("-TR0001-"));
    assert!(id[8..].chars().all(|c| c.is_ascii_alphanumeric()));
}

#[test]
fn first_announce_request() {
    let r = TrackerRequest::build_request(1048576, "-TR0001-abcdefghijkl".to_string());
    assert_eq!(r.port, 6889);
    assert_eq!(r.uploaded, 0);
    assert_eq!(r.downloaded, 0);
    assert_eq!(r.left, 1048576);
    assert_eq!(r.compact, 1);
    assert_eq!(r.peer_id, "-TR0001-abcdefghijkl");
}

#[test]
fn info_hash_is_percent_encoded() {
    assert_eq!(urlencode_bytes(&[0x1B, 0xD0, 0x88, 0x0A]), "%1B%D0%88%0A");
    assert_eq!(urlencode_bytes(&[]), "");
}

#[test]
fn compact_peers_parse() {
    let bytes = [192, 0, 2, 123, 0x1A, 0xE1, 127, 0, 0, 1, 0x1A, 0xE9];
    let peers = parse_compact_peers(&bytes).unwrap();
    assert_eq!(
        peers,
        vec![
            PeerAddr { ip: [192, 0, 2, 123], port: 6881 },
            PeerAddr { ip: [127, 0, 0, 1], port: 6889 },
        ]
    );
    assert_eq!(compact_peers_bytes(&peers), bytes.to_vec());
    assert_eq!(parse_compact_peers(&bytes[..7]), Err(BadPeersLength(7)));
}

#[test]
fn peer_id_characters_by_class() {
    assert_eq!(peer_id_char(0, 0), b'A');
    assert_eq!(peer_id_char(0, 25), b'Z');
    assert_eq!(peer_id_char(1, 3), b'd');
    assert_eq!(peer_id_char(2, 9), b'9');
}
