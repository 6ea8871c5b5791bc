use torrent_rs::handshake::{
    check_handshake_response, protocol_identifier, HandshakeError, HandshakeMessage,
    HANDSHAKE_MESSAGE_LENGTH, PROTOCOL_IDENTIFIER_LENGTH,
};

#[test]
fn handshake_test_handshake_message_serialization() {
    let message = HandshakeMessage {
        length: PROTOCOL_IDENTIFIER_LENGTH,
        pstr: protocol_identifier(),
        reserved: [0; 8],
        info_hash: [1; 20],
        peer_id: [2; 20],
    };

    let bytes = message.to_bytes();
    assert_eq!(bytes.len(), HANDSHAKE_MESSAGE_LENGTH);
    assert_eq!(bytes[0], PROTOCOL_IDENTIFIER_LENGTH);
    assert_eq!(&bytes[1..20], b"BitTorrent protocol");
    assert_eq!(&bytes[20..28], &[0; 8]);
    assert_eq!(&bytes[28..48], &[1; 20]);
    assert_eq!(&bytes[48..68], &[2; 20]);
}

#[test]
fn matching_response_gives_remote_peer_id() {
    let ours = HandshakeMessage::new([5; 20], [6; 20]).to_bytes();
    let mut theirs = HandshakeMessage::new([5; 20], [9; 20]).to_bytes();
    assert_eq!(ours.len(), 68);
    assert_eq!(check_handshake_response(&theirs, &[5; 20]), Ok(vec![9u8; 20]));
    theirs[30] = 0;
    assert_eq!(
        check_handshake_response(&theirs, &[5; 20]),
        Err(HandshakeError::InfoHashMismatch)
    );
    theirs[3] = b'X';
    assert_eq!(
        check_handshake_response(&theirs, &[5; 20]),
        Err(HandshakeError::ProtocolMismatch)
    );
    assert_eq!(
        check_handshake_response(&theirs[..67], &[5; 20]),
        Err(HandshakeError::ShortResponse)
    );
}
