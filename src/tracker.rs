use rand::Rng;
use vstd::prelude::*;

verus! {

/// The characters of bytes that are all ASCII.
pub open spec fn ascii_chars(b: Seq<u8>) -> Seq<char> {
    b.map_values(|x: u8| x as char)
}

pub open spec fn is_ascii_bytes(b: Seq<u8>) -> bool {
    forall|i: int| 0 <= i < b.len() ==> #[trigger] b[i] < 128
}

/// Relies on String::from_utf8: ASCII bytes are valid UTF-8, and the string
/// holds one character per byte, the same code point.
#[verifier::external_body]
fn ascii_string(bytes: Vec<u8>) -> (r: String)
    requires
        is_ascii_bytes(bytes@),
    ensures
        r@ == ascii_chars(bytes@),
{
    String::from_utf8(bytes).unwrap_or_default()
}

/// Relies on rand's `thread_rng().gen_range(0..n)`: a number below `n`,
/// drawn at random; `gen_range` panics on an empty range, which `n > 0`
/// rules out.
#[verifier::external_body]
fn random_below(n: u32) -> (r: u32)
    requires
        n > 0,
    ensures
        r < n,
{
    rand::thread_rng().gen_range(0..n)
}

/// The prefix of our peer id, "-TR0001-".
pub open spec fn peer_id_prefix() -> Seq<u8> {
    seq![45u8, 84u8, 82u8, 48u8, 48u8, 48u8, 49u8, 45u8]
}

/// A digit or an ASCII letter.
pub open spec fn is_alphanumeric(c: u8) -> bool {
    (48 <= c <= 57) || (65 <= c <= 90) || (97 <= c <= 122)
}

/// The uppercase hexadecimal digit of `n`, below 16.
pub open spec fn hex_digit(n: int) -> u8 {
    if n < 10 {
        (48 + n) as u8
    } else {
        (55 + n) as u8
    }
}

/// Each byte written as `%` and two uppercase hexadecimal digits.
pub open spec fn percent_encoded(b: Seq<u8>) -> Seq<u8> {
    Seq::new(
        (3 * b.len()) as nat,
        |i: int|
            if i % 3 == 0 {
                37u8
            } else if i % 3 == 1 {
                hex_digit((b[i / 3] / 16) as int)
            } else {
                hex_digit((b[i / 3] % 16) as int)
            },
    )
}

/// The peer-id character for a draw: class 0 gives the uppercase letter
/// `x`, class 1 the lowercase letter `x`, class 2 the digit `x`.
pub fn peer_id_char(class: u32, x: u32) -> (r: u8)
    requires
        class < 3,
        class < 2 ==> x < 26,
        class == 2 ==> x < 10,
    ensures
        r == if class == 0 {
            65 + x
        } else if class == 1 {
            97 + x
        } else {
            48 + x
        },
        is_alphanumeric(r),
{
    if class == 0 {
        65 + x as u8
    } else if class == 1 {
        97 + x as u8
    } else {
        48 + x as u8
    }
}

/// The query parameters of an announce, apart from the info hash.
#[derive(Debug, Clone)]
pub struct TrackerRequest {
    /// Our 20-character peer id.
    pub peer_id: String,
    /// The port we listen on.
    pub port: u16,
    /// Bytes uploaded so far.
    pub uploaded: usize,
    /// Bytes downloaded so far.
    pub downloaded: usize,
    /// Bytes left to download.
    pub left: usize,
    /// 1: ask for the compact peer list.
    pub compact: u8,
}

impl TrackerRequest {
    /// The first announce of a download of `total_length` bytes: nothing
    /// transferred yet, everything left, compact peer list.
    pub fn build_request(total_length: usize, peer_id: String) -> (r: TrackerRequest)
        ensures
            r.peer_id == peer_id,
            r.port == 6889,
            r.uploaded == 0,
            r.downloaded == 0,
            r.left == total_length,
            r.compact == 1,
    {
        TrackerRequest { peer_id, port: 6889, uploaded: 0, downloaded: 0, left: total_length, compact: 1 }
    }

    /// A fresh peer id: "-TR0001-" and twelve random letters and digits.
    pub fn generate_peer_id() -> (r: String)
        ensures
            exists|b: Seq<u8>|
                {
                    &&& r@ == ascii_chars(b)
                    &&& b.len() == 20
                    &&& b.subrange(0, 8) == peer_id_prefix()
                    &&& forall|i: int| 8 <= i < 20 ==> is_alphanumeric(#[trigger] b[i])
                },
    {
        let mut bytes: Vec<u8> = Vec::new();
        bytes.push(45);
        bytes.push(84);
        bytes.push(82);
        bytes.push(48);
        bytes.push(48);
        bytes.push(48);
        bytes.push(49);
        bytes.push(45);
        assert(bytes@ =~= peer_id_prefix());
        let mut k: usize = 8;
        while k < 20
            invariant
                8 <= k <= 20,
                bytes@.len() == k,
                bytes@.subrange(0, 8) == peer_id_prefix(),
                forall|i: int| 8 <= i < k ==> is_alphanumeric(#[trigger] bytes@[i]),
            decreases 20 - k,
        {
            let class = random_below(3);
            let x = random_below(if class == 2 {
                10
            } else {
                26
            });
            let c = peer_id_char(class, x);
            let ghost before = bytes@;
            bytes.push(c);
            assert(bytes@.subrange(0, 8) =~= before.subrange(0, 8));
            k = k + 1;
        }
        let ghost b = bytes@;
        assert(is_ascii_bytes(b));
        ascii_string(bytes)
    }
}

/// The info hash as the tracker wants it in a URL: every byte as `%XX`.
pub fn urlencode_bytes(bytes: &[u8]) -> (r: String)
    requires
        3 * bytes@.len() <= usize::MAX,
    ensures
        r@ == ascii_chars(percent_encoded(bytes@)),
{
    let mut out: Vec<u8> = Vec::new();
    let mut i: usize = 0;
    while i < bytes.len()
        invariant
            i <= bytes@.len(),
            out@ == percent_encoded(bytes@.subrange(0, i as int)),
        decreases bytes@.len() - i,
    {
        let b = bytes[i];
        let hi = b / 16;
        let lo = b % 16;
        out.push(37);
        out.push(if hi < 10 { 48 + hi } else { 55 + hi });
        out.push(if lo < 10 { 48 + lo } else { 55 + lo });
        i = i + 1;
        assert(out@ =~= percent_encoded(bytes@.subrange(0, i as int)));
    }
    assert(bytes@.subrange(0, i as int) =~= bytes@);
    assert(is_ascii_bytes(out@));
    ascii_string(out)
}

/// A peer's IPv4 address and port.
#[derive(Debug, Clone, Copy, PartialEq, Eq)]
pub struct PeerAddr {
    pub ip: [u8; 4],
    pub port: u16,
}

/// A compact peer list whose length is not a multiple of six.
#[derive(Debug, Clone, Copy, PartialEq, Eq, Structural)]
pub struct BadPeersLength(pub usize);

/// Reads a compact peer list: six bytes per peer, the address and then the
/// port, both big-endian.
pub fn parse_compact_peers(bytes: &[u8]) -> (r: Result<Vec<PeerAddr>, BadPeersLength>)
    ensures
        bytes@.len() % 6 != 0 ==> r == Err::<Vec<PeerAddr>, BadPeersLength>(
            BadPeersLength(bytes@.len() as usize),
        ),
        bytes@.len() % 6 == 0 ==> r is Ok && r->Ok_0@.len() == bytes@.len() / 6 && forall|k: int|
            0 <= k < r->Ok_0@.len() ==> {
                &&& (#[trigger] r->Ok_0@[k]).ip@ == bytes@.subrange(6 * k, 6 * k + 4)
                &&& r->Ok_0@[k].port == bytes@[6 * k + 4] * 256 + bytes@[6 * k + 5]
            },
{
    let n = bytes.len();
    if n % 6 != 0 {
        return Err(BadPeersLength(n));
    }
    let mut peers: Vec<PeerAddr> = Vec::new();
    let mut k: usize = 0;
    while k < n / 6
        invariant
            n == bytes@.len(),
            n % 6 == 0,
            k <= n / 6,
            peers@.len() == k,
            forall|j: int|
                0 <= j < k ==> {
                    &&& (#[trigger] peers@[j]).ip@ == bytes@.subrange(6 * j, 6 * j + 4)
                    &&& peers@[j].port == bytes@[6 * j + 4] * 256 + bytes@[6 * j + 5]
                },
        decreases n / 6 - k,
    {
        let s = 6 * k;
        let ip = [bytes[s], bytes[s + 1], bytes[s + 2], bytes[s + 3]];
        let port = (bytes[s + 4] as u16) * 256 + (bytes[s + 5] as u16);
        assert(ip@ =~= bytes@.subrange(6 * k, 6 * k + 4));
        peers.push(PeerAddr { ip, port });
        k = k + 1;
    }
    Ok(peers)
}

/// Writes a compact peer list: for each peer its address and its port,
/// big-endian.
pub fn compact_peers_bytes(peers: &Vec<PeerAddr>) -> (r: Vec<u8>)
    requires
        6 * peers@.len() <= usize::MAX,
    ensures
        r@.len() == 6 * peers@.len(),
        forall|k: int|
            0 <= k < peers@.len() ==> {
                &&& r@.subrange(6 * k, 6 * k + 4) == (#[trigger] peers@[k]).ip@
                &&& r@[6 * k + 4] == peers@[k].port / 256
                &&& r@[6 * k + 5] == peers@[k].port % 256
            },
{
    let mut out: Vec<u8> = Vec::new();
    let mut k: usize = 0;
    while k < peers.len()
        invariant
            k <= peers@.len(),
            out@.len() == 6 * k,
            forall|j: int|
                0 <= j < k ==> {
                    &&& out@.subrange(6 * j, 6 * j + 4) == (#[trigger] peers@[j]).ip@
                    &&& out@[6 * j + 4] == peers@[j].port / 256
                    &&& out@[6 * j + 5] == peers@[j].port % 256
                },
        decreases peers@.len() - k,
    {
        let p = peers[k];
        let ghost before = out@;
        out.push(p.ip[0]);
        out.push(p.ip[1]);
        out.push(p.ip[2]);
        out.push(p.ip[3]);
        out.push((p.port / 256) as u8);
        out.push((p.port % 256) as u8);
        proof {
            assert(out@.subrange(6 * k, 6 * k + 4) =~= p.ip@);
            assert forall|j: int| 0 <= j < k implies out@.subrange(6 * j, 6 * j + 4) == (
            #[trigger] peers@[j]).ip@ && out@[6 * j + 4] == peers@[j].port / 256 && out@[6 * j
                + 5] == peers@[j].port % 256 by {
                assert(out@.subrange(6 * j, 6 * j + 4) =~= before.subrange(6 * j, 6 * j + 4));
                assert(out@[6 * j + 4] == before[6 * j + 4]);
                assert(out@[6 * j + 5] == before[6 * j + 5]);
            }
        }
        k = k + 1;
    }
    out
}

} // verus!
