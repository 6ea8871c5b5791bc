use vstd::prelude::*;

use crate::message::{
    be16, be32, body_of, encodable, id_of, frame_of, length_fits, same_message, u32_at, PeerMessage,
    ProtocolError, MAX_MESSAGE_SIZE,
};

verus! {

/// Four bytes read back give the number they were written from.
pub proof fn lemma_be32_round_trip(x: int)
    requires
        0 <= x <= u32::MAX,
    ensures
        u32_at(be32(x), 0) == x,
{
    let b0 = x / 0x1000000;
    let b1 = (x / 0x10000) % 0x100;
    let b2 = (x / 0x100) % 0x100;
    let b3 = x % 0x100;
    assert(b0 < 0x100);
    assert(b0 * 0x1000000 + b1 * 0x10000 + b2 * 0x100 + b3 == x) by (nonlinear_arith)
        requires
            b0 == x / 0x1000000,
            b1 == (x / 0x10000) % 0x100,
            b2 == (x / 0x100) % 0x100,
            b3 == x % 0x100,
            0 <= x,
    {
    }
}

/// A number read from four bytes writes back as those bytes.
pub proof fn lemma_bytes_round_trip(s: Seq<u8>, k: int)
    requires
        0 <= k,
        k + 4 <= s.len(),
    ensures
        0 <= u32_at(s, k) <= u32::MAX,
        be32(u32_at(s, k)) == s.subrange(k, k + 4),
{
    let b0 = s[k] as int;
    let b1 = s[k + 1] as int;
    let b2 = s[k + 2] as int;
    let b3 = s[k + 3] as int;
    let x = u32_at(s, k);
    assert(x == b0 * 0x1000000 + b1 * 0x10000 + b2 * 0x100 + b3);
    assert(x / 0x1000000 == b0 && (x / 0x10000) % 0x100 == b1 && (x / 0x100) % 0x100 == b2 && x
        % 0x100 == b3 && x <= u32::MAX) by (nonlinear_arith)
        requires
            x == b0 * 0x1000000 + b1 * 0x10000 + b2 * 0x100 + b3,
            0 <= b0 < 0x100,
            0 <= b1 < 0x100,
            0 <= b2 < 0x100,
            0 <= b3 < 0x100,
    {
    }
    assert(be32(x) =~= s.subrange(k, k + 4));
}

fn push_be32(out: &mut Vec<u8>, x: u32)
    ensures
        final(out)@ == old(out)@ + be32(x as int),
{
    out.push((x / 0x1000000) as u8);
    out.push(((x / 0x10000) % 0x100) as u8);
    out.push(((x / 0x100) % 0x100) as u8);
    out.push((x % 0x100) as u8);
    assert(final(out)@ =~= old(out)@ + be32(x as int));
}

fn push_all(out: &mut Vec<u8>, bytes: &Vec<u8>)
    ensures
        final(out)@ == old(out)@ + bytes@,
{
    let mut i: usize = 0;
    while i < bytes.len()
        invariant
            i <= bytes@.len(),
            out@ == old(out)@ + bytes@.subrange(0, i as int),
        decreases bytes@.len() - i,
    {
        out.push(bytes[i]);
        i = i + 1;
        assert(out@ =~= old(out)@ + bytes@.subrange(0, i as int));
    }
    assert(bytes@.subrange(0, i as int) =~= bytes@);
}

/// The frame of a message: its length prefix, id and payload.
pub fn encode(message: &PeerMessage) -> (r: Vec<u8>)
    requires
        encodable(*message),
    ensures
        r@ == frame_of(*message),
{
    let mut out: Vec<u8> = Vec::new();
    match message {
        PeerMessage::KeepAlive => {
            push_be32(&mut out, 0);
        },
        PeerMessage::Choke => {
            push_be32(&mut out, 1);
            out.push(0);
        },
        PeerMessage::Unchoke => {
            push_be32(&mut out, 1);
            out.push(1);
        },
        PeerMessage::Interested => {
            push_be32(&mut out, 1);
            out.push(2);
        },
        PeerMessage::NotInterested => {
            push_be32(&mut out, 1);
            out.push(3);
        },
        PeerMessage::Have(i) => {
            push_be32(&mut out, 5);
            out.push(4);
            push_be32(&mut out, *i);
        },
        PeerMessage::Bitfield(b) => {
            push_be32(&mut out, (b.len() + 1) as u32);
            out.push(5);
            push_all(&mut out, b);
        },
        PeerMessage::Request { index, begin, length } => {
            push_be32(&mut out, 13);
            out.push(6);
            push_be32(&mut out, *index);
            push_be32(&mut out, *begin);
            push_be32(&mut out, *length);
        },
        PeerMessage::Piece { index, begin, block } => {
            push_be32(&mut out, (block.len() + 9) as u32);
            out.push(7);
            push_be32(&mut out, *index);
            push_be32(&mut out, *begin);
            push_all(&mut out, block);
        },
        PeerMessage::Cancel { index, begin, length } => {
            push_be32(&mut out, 13);
            out.push(8);
            push_be32(&mut out, *index);
            push_be32(&mut out, *begin);
            push_be32(&mut out, *length);
        },
        PeerMessage::Port(p) => {
            push_be32(&mut out, 3);
            out.push(9);
            out.push((*p / 0x100) as u8);
            out.push((*p % 0x100) as u8);
        },
    }
    assert(out@ =~= frame_of(*message));
    out
}

fn read_u32(src: &[u8], k: usize) -> (r: u32)
    requires
        k + 4 <= src@.len(),
    ensures
        r == u32_at(src@, k as int),
{
    (src[k] as u32) * 0x1000000 + (src[k + 1] as u32) * 0x10000 + (src[k + 2] as u32) * 0x100
        + (src[k + 3] as u32)
}

fn copy_range(src: &[u8], start: usize, end: usize) -> (r: Vec<u8>)
    requires
        start <= end <= src@.len(),
    ensures
        r@ == src@.subrange(start as int, end as int),
{
    let mut out: Vec<u8> = Vec::new();
    let mut i = start;
    while i < end
        invariant
            start <= i <= end,
            end <= src@.len(),
            out@ == src@.subrange(start as int, i as int),
        decreases end - i,
    {
        out.push(src[i]);
        i = i + 1;
        assert(out@ =~= src@.subrange(start as int, i as int));
    }
    out
}

/// The length prefix of a buffer that holds one.
pub open spec fn prefix_len(buf: Seq<u8>) -> int {
    u32_at(buf, 0)
}

/// Whether `buf` begins with a whole frame that decodes: a keep-alive, or a
/// known id whose length fits it, within the size limit.
pub open spec fn starts_with_frame(buf: Seq<u8>) -> bool {
    &&& buf.len() >= 4
    &&& prefix_len(buf) <= MAX_MESSAGE_SIZE
    &&& buf.len() >= 4 + prefix_len(buf)
    &&& prefix_len(buf) > 0 ==> buf[4] <= 9 && length_fits(buf[4], prefix_len(buf))
}

/// Decodes the frame at the start of `src`. `Ok(None)` asks for more bytes;
/// `Ok(Some((m, n)))` gives the message and the `n` bytes its frame took.
/// The length prefix is checked against the limit before anything else is
/// read, and nothing is taken from `src`.
pub fn decode_frame(src: &[u8]) -> (r: Result<Option<(PeerMessage, usize)>, ProtocolError>)
    ensures
        src@.len() < 4 ==> r == Ok::<Option<(PeerMessage, usize)>, ProtocolError>(None),
        src@.len() >= 4 && prefix_len(src@) > MAX_MESSAGE_SIZE ==> r == Err::<
            Option<(PeerMessage, usize)>,
            ProtocolError,
        >(ProtocolError::FrameTooLarge(prefix_len(src@) as u32)),
        src@.len() >= 4 && prefix_len(src@) <= MAX_MESSAGE_SIZE && src@.len() < 4 + prefix_len(
            src@,
        ) ==> r == Ok::<Option<(PeerMessage, usize)>, ProtocolError>(None),
        src@.len() >= 4 && 0 < prefix_len(src@) <= MAX_MESSAGE_SIZE && src@.len() >= 4
            + prefix_len(src@) && src@[4] > 9 ==> r == Err::<
            Option<(PeerMessage, usize)>,
            ProtocolError,
        >(ProtocolError::UnknownId(src@[4])),
        src@.len() >= 4 && 0 < prefix_len(src@) <= MAX_MESSAGE_SIZE && src@.len() >= 4
            + prefix_len(src@) && src@[4] <= 9 && !length_fits(src@[4], prefix_len(src@)) ==> r
            == Err::<Option<(PeerMessage, usize)>, ProtocolError>(
            ProtocolError::BadLength { id: src@[4], length: prefix_len(src@) as u32 },
        ),
        starts_with_frame(src@) ==> match r {
            Ok(Some((m, n))) => n == 4 + prefix_len(src@) && frame_of(m) == src@.subrange(
                0,
                n as int,
            ),
            _ => false,
        },
{
    if src.len() < 4 {
        return Ok(None);
    }
    let length = read_u32(src, 0);
    proof {
        lemma_bytes_round_trip(src@, 0);
    }
    if length == 0 {
        assert(frame_of(PeerMessage::KeepAlive) =~= src@.subrange(0, 4));
        return Ok(Some((PeerMessage::KeepAlive, 4)));
    }
    if length > MAX_MESSAGE_SIZE {
        return Err(ProtocolError::FrameTooLarge(length));
    }
    let total = 4 + length as usize;
    if src.len() < total {
        return Ok(None);
    }
    let id = src[4];
    if id > 9 {
        return Err(ProtocolError::UnknownId(id));
    }
    let fits = if id <= 3 {
        length == 1
    } else if id == 4 {
        length == 5
    } else if id == 5 {
        true
    } else if id == 6 || id == 8 {
        length == 13
    } else if id == 7 {
        length >= 9
    } else {
        length == 3
    };
    if !fits {
        return Err(ProtocolError::BadLength { id, length });
    }
    let ghost frame = src@.subrange(0, total as int);
    let message = if id == 0 {
        PeerMessage::Choke
    } else if id == 1 {
        PeerMessage::Unchoke
    } else if id == 2 {
        PeerMessage::Interested
    } else if id == 3 {
        PeerMessage::NotInterested
    } else if id == 4 {
        let index = read_u32(src, 5);
        proof {
            lemma_bytes_round_trip(src@, 5);
        }
        PeerMessage::Have(index)
    } else if id == 5 {
        PeerMessage::Bitfield(copy_range(src, 5, total))
    } else if id == 7 {
        let index = read_u32(src, 5);
        let begin = read_u32(src, 9);
        proof {
            lemma_bytes_round_trip(src@, 5);
            lemma_bytes_round_trip(src@, 9);
        }
        PeerMessage::Piece { index, begin, block: copy_range(src, 13, total) }
    } else if id == 6 || id == 8 {
        let index = read_u32(src, 5);
        let begin = read_u32(src, 9);
        let len = read_u32(src, 13);
        proof {
            lemma_bytes_round_trip(src@, 5);
            lemma_bytes_round_trip(src@, 9);
            lemma_bytes_round_trip(src@, 13);
        }
        if id == 6 {
            PeerMessage::Request { index, begin, length: len }
        } else {
            PeerMessage::Cancel { index, begin, length: len }
        }
    } else {
        let port = (src[5] as u16) * 0x100 + (src[6] as u16);
        PeerMessage::Port(port)
    };
    assert(body_of(message).len() == length);
    assert(frame_of(message) =~= frame);
    Ok(Some((message, total)))
}

/// Decoding gives back what encoding wrote: the frame of a message within
/// the size limit, followed by any bytes, begins with a whole frame exactly
/// as long as the message's own, and a message whose frame is the same is the
/// same message.
pub proof fn lemma_codec_round_trip(m: PeerMessage, other: PeerMessage, rest: Seq<u8>)
    requires
        body_of(m).len() <= MAX_MESSAGE_SIZE,
    ensures
        starts_with_frame(frame_of(m) + rest),
        4 + prefix_len(frame_of(m) + rest) == frame_of(m).len(),
        frame_of(other) == frame_of(m) ==> same_message(other, m),
{
    let buf = frame_of(m) + rest;
    let body = body_of(m);
    lemma_be32_round_trip(body.len() as int);
    assert(buf.subrange(0, 4) =~= be32(body.len() as int));
    assert(prefix_len(buf) == u32_at(be32(body.len() as int), 0));
    assert(prefix_len(buf) == body.len());
    if body.len() > 0 {
        assert(buf[4] == body[0]);
    }
    if frame_of(other) == frame_of(m) {
        let ob = body_of(other);
        lemma_be32_round_trip(ob.len() as int);
        assert(frame_of(other).subrange(0, 4) =~= be32(ob.len() as int));
        assert(frame_of(m).subrange(0, 4) =~= be32(body.len() as int));
        assert(ob.len() == body.len());
        assert(ob =~= frame_of(other).subrange(4, frame_of(other).len() as int));
        assert(body =~= frame_of(m).subrange(4, frame_of(m).len() as int));
        assert(ob == body);
        lemma_bodies_agree(other, m);
    }
}

proof fn lemma_be32_at(s: Seq<u8>, k: int, x: int)
    requires
        0 <= x <= u32::MAX,
        0 <= k,
        k + 4 <= s.len(),
        s.subrange(k, k + 4) == be32(x),
    ensures
        u32_at(s, k) == x,
{
    lemma_be32_round_trip(x);
    assert(s[k] == be32(x)[0] && s[k + 1] == be32(x)[1] && s[k + 2] == be32(x)[2] && s[k + 3]
        == be32(x)[3]);
}

proof fn lemma_word_agrees(s: Seq<u8>, t: Seq<u8>, k: int, x: u32, y: u32)
    requires
        s == t,
        0 <= k,
        k + 4 <= s.len(),
        s.subrange(k, k + 4) == be32(x as int),
        t.subrange(k, k + 4) == be32(y as int),
    ensures
        x == y,
{
    lemma_be32_at(s, k, x as int);
    lemma_be32_at(s, k, y as int);
}

proof fn lemma_port_agrees(p: u16, q: u16)
    requires
        be16(p as int) == be16(q as int),
    ensures
        p == q,
{
    let (a, b) = (p as int / 0x100, p as int % 0x100);
    let (c, d) = (q as int / 0x100, q as int % 0x100);
    assert(be16(p as int)[0] == be16(q as int)[0] && be16(p as int)[1] == be16(q as int)[1]);
    assert(a == c && b == d);
}

proof fn lemma_ids_agree(a: PeerMessage, b: PeerMessage)
    requires
        body_of(a) == body_of(b),
    ensures
        id_of(a) == id_of(b),
{
    let s = body_of(a);
    if a is KeepAlive || b is KeepAlive {
        assert(s.len() == 0 <==> a is KeepAlive);
        assert(body_of(b).len() == 0 <==> b is KeepAlive);
    } else {
        assert(id_of(a) == Some(s[0]));
        assert(id_of(b) == Some(body_of(b)[0]));
    }
}

proof fn lemma_bodies_agree(a: PeerMessage, b: PeerMessage)
    requires
        body_of(a) == body_of(b),
    ensures
        same_message(a, b),
{
    lemma_ids_agree(a, b);
    match a {
        PeerMessage::Have(_) => lemma_have_agrees(a, b),
        PeerMessage::Bitfield(_) => lemma_bitfield_agrees(a, b),
        PeerMessage::Request { .. } => lemma_request_agrees(a, b),
        PeerMessage::Cancel { .. } => lemma_cancel_agrees(a, b),
        PeerMessage::Piece { .. } => lemma_piece_agrees(a, b),
        PeerMessage::Port(_) => lemma_port_message_agrees(a, b),
        _ => {},
    }
}

proof fn lemma_have_agrees(a: PeerMessage, b: PeerMessage)
    requires
        body_of(a) == body_of(b),
        a is Have,
        b is Have,
    ensures
        same_message(a, b),
{
    let (s, t) = (body_of(a), body_of(b));
    let (i, j) = (a->Have_0, b->Have_0);
    assert(s.subrange(1, 5) =~= be32(i as int));
    assert(t.subrange(1, 5) =~= be32(j as int));
    lemma_word_agrees(s, t, 1, i, j);
}

proof fn lemma_bitfield_agrees(a: PeerMessage, b: PeerMessage)
    requires
        body_of(a) == body_of(b),
        a is Bitfield,
        b is Bitfield,
    ensures
        same_message(a, b),
{
    let (s, t) = (body_of(a), body_of(b));
    assert(a->Bitfield_0@ =~= s.subrange(1, s.len() as int));
    assert(b->Bitfield_0@ =~= t.subrange(1, t.len() as int));
}

proof fn lemma_request_agrees(a: PeerMessage, b: PeerMessage)
    requires
        body_of(a) == body_of(b),
        a is Request,
        b is Request,
    ensures
        same_message(a, b),
{
    let (s, t) = (body_of(a), body_of(b));
    assert(s.subrange(1, 13) =~= be32(a->Request_index as int) + be32(a->Request_begin as int)
        + be32(a->Request_length as int));
    assert(t.subrange(1, 13) =~= be32(b->Request_index as int) + be32(b->Request_begin as int)
        + be32(b->Request_length as int));
    lemma_three_words(
        s,
        t,
        a->Request_index,
        a->Request_begin,
        a->Request_length,
        b->Request_index,
        b->Request_begin,
        b->Request_length,
    );
}

proof fn lemma_cancel_agrees(a: PeerMessage, b: PeerMessage)
    requires
        body_of(a) == body_of(b),
        a is Cancel,
        b is Cancel,
    ensures
        same_message(a, b),
{
    let (s, t) = (body_of(a), body_of(b));
    assert(s.subrange(1, 13) =~= be32(a->Cancel_index as int) + be32(a->Cancel_begin as int)
        + be32(a->Cancel_length as int));
    assert(t.subrange(1, 13) =~= be32(b->Cancel_index as int) + be32(b->Cancel_begin as int)
        + be32(b->Cancel_length as int));
    lemma_three_words(
        s,
        t,
        a->Cancel_index,
        a->Cancel_begin,
        a->Cancel_length,
        b->Cancel_index,
        b->Cancel_begin,
        b->Cancel_length,
    );
}

proof fn lemma_piece_agrees(a: PeerMessage, b: PeerMessage)
    requires
        body_of(a) == body_of(b),
        a is Piece,
        b is Piece,
    ensures
        same_message(a, b),
{
    let (s, t) = (body_of(a), body_of(b));
    let (i, g, x) = (a->Piece_index, a->Piece_begin, a->Piece_block);
    let (j, h, y) = (b->Piece_index, b->Piece_begin, b->Piece_block);
    assert(s.subrange(1, 5) =~= be32(i as int));
    assert(t.subrange(1, 5) =~= be32(j as int));
    assert(s.subrange(5, 9) =~= be32(g as int));
    assert(t.subrange(5, 9) =~= be32(h as int));
    lemma_word_agrees(s, t, 1, i, j);
    lemma_word_agrees(s, t, 5, g, h);
    assert(x@ =~= s.subrange(9, s.len() as int));
    assert(y@ =~= t.subrange(9, t.len() as int));
}

proof fn lemma_port_message_agrees(a: PeerMessage, b: PeerMessage)
    requires
        body_of(a) == body_of(b),
        a is Port,
        b is Port,
    ensures
        same_message(a, b),
{
    let (s, t) = (body_of(a), body_of(b));
    assert(s.subrange(1, 3) =~= be16(a->Port_0 as int));
    assert(t.subrange(1, 3) =~= be16(b->Port_0 as int));
    lemma_port_agrees(a->Port_0, b->Port_0);
}

proof fn lemma_three_words(s: Seq<u8>, t: Seq<u8>, i: u32, g: u32, l: u32, j: u32, h: u32, n: u32)
    requires
        s == t,
        s.len() == 13,
        s.subrange(1, 13) == be32(i as int) + be32(g as int) + be32(l as int),
        t.subrange(1, 13) == be32(j as int) + be32(h as int) + be32(n as int),
    ensures
        i == j && g == h && l == n,
{
    assert(s.subrange(1, 5) =~= s.subrange(1, 13).subrange(0, 4));
    assert(s.subrange(5, 9) =~= s.subrange(1, 13).subrange(4, 8));
    assert(s.subrange(9, 13) =~= s.subrange(1, 13).subrange(8, 12));
    assert(s.subrange(1, 13).subrange(0, 4) =~= be32(i as int));
    assert(s.subrange(1, 13).subrange(4, 8) =~= be32(g as int));
    assert(s.subrange(1, 13).subrange(8, 12) =~= be32(l as int));
    assert(t.subrange(1, 13).subrange(0, 4) =~= be32(j as int));
    assert(t.subrange(1, 13).subrange(4, 8) =~= be32(h as int));
    assert(t.subrange(1, 13).subrange(8, 12) =~= be32(n as int));
    lemma_word_agrees(s, t, 1, i, j);
    lemma_word_agrees(s, t, 5, g, h);
    lemma_word_agrees(s, t, 9, l, n);
}

} // verus!
