use vstd::prelude::*;

verus! {

/// The largest frame body accepted: one block and the header of a `Piece`.
pub const MAX_MESSAGE_SIZE: u32 = 16397;

/// A message of the peer wire protocol.
#[derive(Debug, PartialEq)]
pub enum PeerMessage {
    KeepAlive,
    Choke,
    Unchoke,
    Interested,
    NotInterested,
    Have(u32),
    Bitfield(Vec<u8>),
    Request { index: u32, begin: u32, length: u32 },
    Piece { index: u32, begin: u32, block: Vec<u8> },
    Cancel { index: u32, begin: u32, length: u32 },
    Port(u16),
}

/// Why a frame could not be decoded.
#[derive(Debug, Clone, Copy, PartialEq, Eq, Structural)]
pub enum ProtocolError {
    /// The length prefix is over `MAX_MESSAGE_SIZE`.
    FrameTooLarge(u32),
    /// The id byte names no message.
    UnknownId(u8),
    /// The length does not fit the message that the id names.
    BadLength { id: u8, length: u32 },
}

impl ProtocolError {
    /// A sentence that says what went wrong.
    pub fn describe(&self) -> (r: String)
        ensures
            self is FrameTooLarge ==> r@ == "Message length exceeds maximum allowed size"@,
            self is UnknownId ==> r@ == "Unknown message ID"@,
            self is BadLength ==> r@ == "Message length does not match its ID"@,
    {
        match self {
            ProtocolError::FrameTooLarge(_) => "Message length exceeds maximum allowed size".to_owned(),
            ProtocolError::UnknownId(_) => "Unknown message ID".to_owned(),
            ProtocolError::BadLength { .. } => "Message length does not match its ID".to_owned(),
        }
    }
}

/// The four big-endian bytes of `x`.
pub open spec fn be32(x: int) -> Seq<u8> {
    seq![
        (x / 0x1000000) as u8,
        ((x / 0x10000) % 0x100) as u8,
        ((x / 0x100) % 0x100) as u8,
        (x % 0x100) as u8,
    ]
}

/// The two big-endian bytes of `x`.
pub open spec fn be16(x: int) -> Seq<u8> {
    seq![(x / 0x100) as u8, (x % 0x100) as u8]
}

/// The big-endian number in the four bytes of `s` from `k` on.
pub open spec fn u32_at(s: Seq<u8>, k: int) -> int {
    s[k] * 0x1000000 + s[k + 1] * 0x10000 + s[k + 2] * 0x100 + s[k + 3]
}

/// The id byte of each message; a keep-alive has none.
pub open spec fn id_of(m: PeerMessage) -> Option<u8> {
    match m {
        PeerMessage::KeepAlive => None,
        PeerMessage::Choke => Some(0u8),
        PeerMessage::Unchoke => Some(1u8),
        PeerMessage::Interested => Some(2u8),
        PeerMessage::NotInterested => Some(3u8),
        PeerMessage::Have(_) => Some(4u8),
        PeerMessage::Bitfield(_) => Some(5u8),
        PeerMessage::Request { .. } => Some(6u8),
        PeerMessage::Piece { .. } => Some(7u8),
        PeerMessage::Cancel { .. } => Some(8u8),
        PeerMessage::Port(_) => Some(9u8),
    }
}

/// The body of a message: its id, then its payload.
pub open spec fn body_of(m: PeerMessage) -> Seq<u8> {
    match m {
        PeerMessage::KeepAlive => Seq::empty(),
        PeerMessage::Choke => seq![0u8],
        PeerMessage::Unchoke => seq![1u8],
        PeerMessage::Interested => seq![2u8],
        PeerMessage::NotInterested => seq![3u8],
        PeerMessage::Have(i) => seq![4u8] + be32(i as int),
        PeerMessage::Bitfield(b) => seq![5u8] + b@,
        PeerMessage::Request { index, begin, length } => seq![6u8] + be32(index as int) + be32(
            begin as int,
        ) + be32(length as int),
        PeerMessage::Piece { index, begin, block } => seq![7u8] + be32(index as int) + be32(
            begin as int,
        ) + block@,
        PeerMessage::Cancel { index, begin, length } => seq![8u8] + be32(index as int) + be32(
            begin as int,
        ) + be32(length as int),
        PeerMessage::Port(p) => seq![9u8] + be16(p as int),
    }
}

/// A message on the wire: the length of its body, big-endian, then the body.
pub open spec fn frame_of(m: PeerMessage) -> Seq<u8> {
    be32(body_of(m).len() as int) + body_of(m)
}

/// Whether the length of a message fits in its four-byte prefix.
pub open spec fn encodable(m: PeerMessage) -> bool {
    body_of(m).len() <= u32::MAX
}

/// Whether two messages are the same: the same variant, with the same
/// numbers and the same bytes.
pub open spec fn same_message(a: PeerMessage, b: PeerMessage) -> bool {
    match (a, b) {
        (PeerMessage::Bitfield(x), PeerMessage::Bitfield(y)) => x@ == y@,
        (
            PeerMessage::Piece { index: i, begin: g, block: x },
            PeerMessage::Piece { index: j, begin: h, block: y },
        ) => i == j && g == h && x@ == y@,
        (PeerMessage::Bitfield(_), _) => false,
        (PeerMessage::Piece { .. }, _) => false,
        _ => a == b,
    }
}

/// Whether a body of `length` bytes suits the message with id `id`.
pub open spec fn length_fits(id: u8, length: int) -> bool {
    if id <= 3 {
        length == 1
    } else if id == 4 {
        length == 5
    } else if id == 5 {
        length >= 1
    } else if id == 6 || id == 8 {
        length == 13
    } else if id == 7 {
        length >= 9
    } else {
        length == 3
    }
}

impl PeerMessage {
    pub fn message_id(&self) -> (r: Option<u8>)
        ensures
            r == id_of(*self),
    {
        match self {
            PeerMessage::KeepAlive => None,
            PeerMessage::Choke => Some(0),
            PeerMessage::Unchoke => Some(1),
            PeerMessage::Interested => Some(2),
            PeerMessage::NotInterested => Some(3),
            PeerMessage::Have(_) => Some(4),
            PeerMessage::Bitfield(_) => Some(5),
            PeerMessage::Request { .. } => Some(6),
            PeerMessage::Piece { .. } => Some(7),
            PeerMessage::Cancel { .. } => Some(8),
            PeerMessage::Port(_) => Some(9),
        }
    }
}

} // verus!
