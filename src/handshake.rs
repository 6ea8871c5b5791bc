use vstd::prelude::*;

verus! {

/// The length of the protocol tag.
pub const PROTOCOL_IDENTIFIER_LENGTH: u8 = 19;

/// The length of a handshake on the wire.
pub const HANDSHAKE_MESSAGE_LENGTH: usize = 68;

/// The protocol tag, "BitTorrent protocol".
pub open spec fn protocol_tag() -> Seq<u8> {
    seq![
        66u8, 105u8, 116u8, 84u8, 111u8, 114u8, 114u8, 101u8, 110u8, 116u8, 32u8, 112u8, 114u8,
        111u8, 116u8, 111u8, 99u8, 111u8, 108u8,
    ]
}

/// The bytes "BitTorrent protocol".
pub fn protocol_identifier() -> (r: [u8; 19])
    ensures
        r@ == protocol_tag(),
{
    let r = [66, 105, 116, 84, 111, 114, 114, 101, 110, 116, 32, 112, 114, 111, 116, 111, 99, 111, 108];
    assert(r@ =~= protocol_tag());
    r
}

/// The opening message of a peer connection.
#[derive(Copy, Clone)]
pub struct HandshakeMessage {
    pub length: u8,
    pub pstr: [u8; 19],
    pub reserved: [u8; 8],
    pub info_hash: [u8; 20],
    pub peer_id: [u8; 20],
}

/// A handshake on the wire: its fields one after the other.
pub open spec fn handshake_bytes(m: HandshakeMessage) -> Seq<u8> {
    seq![m.length] + m.pstr@ + m.reserved@ + m.info_hash@ + m.peer_id@
}

/// Why a peer's handshake was refused.
#[derive(Debug, Clone, Copy, PartialEq, Eq, Structural)]
pub enum HandshakeError {
    /// Fewer than 68 bytes came back.
    ShortResponse,
    /// Bytes 1 to 19 are not the protocol tag.
    ProtocolMismatch,
    /// Bytes 28 to 47 are not the torrent's info hash.
    InfoHashMismatch,
}

fn push_array(out: &mut Vec<u8>, bytes: &[u8])
    ensures
        final(out)@ == old(out)@ + bytes@,
{
    let mut i: usize = 0;
    while i < bytes.len()
        invariant
            i <= bytes@.len(),
            out@ == old(out)@ + bytes@.subrange(0, i as int),
        decreases bytes@.len() - i,
    {
        out.push(bytes[i]);
        i = i + 1;
        assert(out@ =~= old(out)@ + bytes@.subrange(0, i as int));
    }
    assert(bytes@.subrange(0, i as int) =~= bytes@);
}

/// Whether `s[start..start + t.len()]` is `t`.
fn same_bytes(s: &[u8], start: usize, t: &[u8]) -> (r: bool)
    requires
        start + t@.len() <= s@.len(),
    ensures
        r == (s@.subrange(start as int, start + t@.len()) == t@),
{
    let n = s.len();
    let mut i: usize = 0;
    while i < t.len()
        invariant
            n == s@.len(),
            i <= t@.len(),
            start + t@.len() <= s@.len(),
            forall|j: int| 0 <= j < i ==> s@[start + j] == t@[j],
        decreases t@.len() - i,
    {
        if s[start + i] != t[i] {
            assert(s@.subrange(start as int, start + t@.len())[i as int] != t@[i as int]);
            return false;
        }
        i = i + 1;
    }
    assert(s@.subrange(start as int, start + t@.len()) =~= t@);
    true
}

impl HandshakeMessage {
    /// The handshake this client sends: the protocol tag, no reserved bits,
    /// the torrent's info hash and our peer id.
    pub fn new(info_hash: [u8; 20], peer_id: [u8; 20]) -> (r: HandshakeMessage)
        ensures
            r.length == PROTOCOL_IDENTIFIER_LENGTH,
            r.pstr@ == protocol_tag(),
            r.reserved@ == seq![0u8; 8],
            r.info_hash == info_hash,
            r.peer_id == peer_id,
    {
        let r = HandshakeMessage {
            length: PROTOCOL_IDENTIFIER_LENGTH,
            pstr: protocol_identifier(),
            reserved: [0; 8],
            info_hash,
            peer_id,
        };
        assert(r.reserved@ =~= seq![0u8; 8]);
        r
    }

    /// The 68 bytes of the handshake.
    pub fn to_bytes(&self) -> (r: Vec<u8>)
        ensures
            r@ == handshake_bytes(*self),
            r@.len() == HANDSHAKE_MESSAGE_LENGTH,
    {
        let mut bytes: Vec<u8> = Vec::new();
        bytes.push(self.length);
        push_array(&mut bytes, &self.pstr);
        push_array(&mut bytes, &self.reserved);
        push_array(&mut bytes, &self.info_hash);
        push_array(&mut bytes, &self.peer_id);
        assert(bytes@ =~= handshake_bytes(*self));
        bytes
    }
}

/// Checks a peer's handshake against ours: it must hold 68 bytes, the
/// protocol tag at bytes 1 to 19 and our info hash at bytes 28 to 47. On
/// success, gives the remote peer id, bytes 48 to 67.
pub fn check_handshake_response(response: &[u8], info_hash: &[u8; 20]) -> (r: Result<
    Vec<u8>,
    HandshakeError,
>)
    ensures
        response@.len() < 68 ==> r == Err::<Vec<u8>, HandshakeError>(HandshakeError::ShortResponse),
        response@.len() >= 68 && response@.subrange(1, 20) != protocol_tag() ==> r == Err::<
            Vec<u8>,
            HandshakeError,
        >(HandshakeError::ProtocolMismatch),
        response@.len() >= 68 && response@.subrange(1, 20) == protocol_tag() && response@.subrange(
            28,
            48,
        ) != info_hash@ ==> r == Err::<Vec<u8>, HandshakeError>(HandshakeError::InfoHashMismatch),
        response@.len() >= 68 && response@.subrange(1, 20) == protocol_tag() && response@.subrange(
            28,
            48,
        ) == info_hash@ ==> r is Ok && r->Ok_0@ == response@.subrange(48, 68),
{
    if response.len() < HANDSHAKE_MESSAGE_LENGTH {
        return Err(HandshakeError::ShortResponse);
    }
    let tag = protocol_identifier();
    if !same_bytes(response, 1, &tag) {
        return Err(HandshakeError::ProtocolMismatch);
    }
    if !same_bytes(response, 28, info_hash) {
        return Err(HandshakeError::InfoHashMismatch);
    }
    let mut peer_id: Vec<u8> = Vec::new();
    let mut i: usize = 48;
    while i < 68
        invariant
            48 <= i <= 68,
            response@.len() >= 68,
            peer_id@ == response@.subrange(48, i as int),
        decreases 68 - i,
    {
        peer_id.push(response[i]);
        i = i + 1;
        assert(peer_id@ =~= response@.subrange(48, i as int));
    }
    Ok(peer_id)
}

} // verus!
