use sha1::Digest;
use vstd::prelude::*;

verus! {

/// The SHA-1 digest of a byte string.
pub uninterp spec fn sha1_of(data: Seq<u8>) -> Seq<u8>;

/// Relies on sha1::Sha1, through digest's `Digest::digest`: the 20-byte
/// SHA-1 of the bytes, which depends on the bytes alone.
#[verifier::external_body]
pub(crate) fn sha1_digest(data: &[u8]) -> (r: [u8; 20])
    ensures
        r@ == sha1_of(data@),
{
    let out: [u8; 20] = sha1::Sha1::digest(data).into();
    out
}

/// Whether a computed digest is the expected one.
pub fn digest_matches(digest: &[u8; 20], expected: &[u8; 20]) -> (r: bool)
    ensures
        r == (digest@ == expected@),
{
    let mut i: usize = 0;
    while i < 20
        invariant
            i <= 20,
            forall|j: int| 0 <= j < i ==> digest@[j] == expected@[j],
        decreases 20 - i,
    {
        if digest[i] != expected[i] {
            return false;
        }
        i = i + 1;
    }
    assert(digest@ =~= expected@);
    true
}

/// Whether the SHA-1 of a piece's bytes is the hash that the torrent gives
/// for it.
pub fn verify_piece(data: &[u8], expected_hash: &[u8; 20]) -> (r: bool)
    ensures
        r == (sha1_of(data@) == expected_hash@),
{
    let actual = sha1_digest(data);
    digest_matches(&actual, expected_hash)
}

/// What becomes of a completed piece handed to the verifier.
#[derive(Debug, Clone, Copy, PartialEq, Eq, Structural)]
pub enum PieceVerdict {
    /// The index names no piece of the torrent: the piece is dropped.
    OutOfRange,
    /// The bytes do not hash to the expected value: the piece goes back to
    /// the pool.
    Corrupt,
    /// The bytes hash to the expected value: they may be written.
    Verified,
}

/// Judges a completed piece against the torrent's piece hashes. Only bytes
/// whose SHA-1 is the expected hash are ever judged fit to write.
pub fn judge_piece(piece_hashes: &Vec<[u8; 20]>, index: u32, data: &[u8]) -> (r: PieceVerdict)
    ensures
        index >= piece_hashes@.len() ==> r == PieceVerdict::OutOfRange,
        index < piece_hashes@.len() ==> (r == PieceVerdict::Verified <==> sha1_of(data@)
            == piece_hashes@[index as int]@),
        index < piece_hashes@.len() ==> (r == PieceVerdict::Corrupt <==> sha1_of(data@)
            != piece_hashes@[index as int]@),
{
    let i = index as usize;
    if i >= piece_hashes.len() {
        return PieceVerdict::OutOfRange;
    }
    if verify_piece(data, &piece_hashes[i]) {
        PieceVerdict::Verified
    } else {
        PieceVerdict::Corrupt
    }
}

/// Splits the `pieces` string of a metainfo file into 20-byte hashes;
/// `None` where its length is not a multiple of 20.
pub fn split_piece_hashes(pieces: &[u8]) -> (r: Option<Vec<[u8; 20]>>)
    ensures
        pieces@.len() % 20 != 0 ==> r is None,
        pieces@.len() % 20 == 0 ==> r is Some && r->Some_0@.len() == pieces@.len() / 20 && forall|
            k: int,
        |
            0 <= k < r->Some_0@.len() ==> (#[trigger] r->Some_0@[k])@ == pieces@.subrange(
                20 * k,
                20 * k + 20,
            ),
{
    let n = pieces.len();
    if n % 20 != 0 {
        return None;
    }
    let mut out: Vec<[u8; 20]> = Vec::new();
    let mut k: usize = 0;
    while k < n / 20
        invariant
            n == pieces@.len(),
            n % 20 == 0,
            k <= n / 20,
            out@.len() == k,
            forall|j: int|
                0 <= j < k ==> (#[trigger] out@[j])@ == pieces@.subrange(20 * j, 20 * j + 20),
        decreases n / 20 - k,
    {
        let mut h = [0u8; 20];
        let mut i: usize = 0;
        while i < 20
            invariant
                n == pieces@.len(),
                k < n / 20,
                i <= 20,
                forall|j: int| 0 <= j < i ==> h@[j] == pieces@[20 * k + j],
            decreases 20 - i,
        {
            h[i] = pieces[20 * k + i];
            i = i + 1;
        }
        assert(h@ =~= pieces@.subrange(20 * k, 20 * k + 20));
        out.push(h);
        k = k + 1;
    }
    Some(out)
}

} // verus!
