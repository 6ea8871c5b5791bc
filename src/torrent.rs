use vstd::prelude::*;

use crate::integrity::{sha1_digest, sha1_of};
use crate::tracker::{ascii_chars, percent_encoded, urlencode_bytes};

verus! {

/// One file of a multi-file torrent.
#[derive(Debug, Clone)]
pub struct File {
    /// The length of the file, in bytes.
    pub length: usize,
    /// Directory names and, last, the file name.
    pub path: Vec<String>,
}

/// A torrent holds one file of `length` bytes, or a list of files that
/// follow each other in the torrent's byte stream.
#[derive(Debug, Clone)]
pub enum Keys {
    SingleFile { length: usize },
    MultiFile { files: Vec<File> },
}

/// The `info` dictionary of a metainfo file.
#[derive(Debug, Clone)]
pub struct Info {
    /// The name of the file, or of the directory of the files.
    pub name: String,
    /// The length of every piece but possibly the last.
    pub piece_length: usize,
    /// The SHA-1 of each piece, in order.
    pub pieces: Vec<[u8; 20]>,
    pub keys: Keys,
}

/// A decoded metainfo file.
#[derive(Debug, Clone)]
pub struct Torrent {
    /// The URL of the tracker.
    pub announce: String,
    pub info: Info,
    /// The SHA-1 of the bencoded `info` dictionary, once computed.
    pub info_hash: Option<[u8; 20]>,
}

/// The sum of the lengths of the files.
pub open spec fn files_total(files: Seq<File>) -> int
    decreases files.len(),
{
    if files.len() == 0 {
        0
    } else {
        files_total(files.drop_last()) + files.last().length
    }
}

/// The length of the torrent's byte stream.
pub open spec fn keys_total(keys: Keys) -> int {
    match keys {
        Keys::SingleFile { length } => length as int,
        Keys::MultiFile { files } => files_total(files@),
    }
}

proof fn lemma_files_total_nonneg(files: Seq<File>)
    ensures
        files_total(files) >= 0,
    decreases files.len(),
{
    if files.len() > 0 {
        lemma_files_total_nonneg(files.drop_last());
    }
}

impl Torrent {
    /// The number of bytes of the torrent, capped at `usize::MAX`.
    pub fn length(&self) -> (r: usize)
        ensures
            r == if keys_total(self.info.keys) > usize::MAX {
                usize::MAX as int
            } else {
                keys_total(self.info.keys)
            },
    {
        match &self.info.keys {
            Keys::SingleFile { length } => *length,
            Keys::MultiFile { files } => {
                let mut total: usize = 0;
                let mut k: usize = 0;
                let mut capped = false;
                while k < files.len()
                    invariant
                        k <= files@.len(),
                        !capped ==> total == files_total(files@.subrange(0, k as int)),
                        capped ==> total == usize::MAX && files_total(files@.subrange(0, k as int))
                            > usize::MAX,
                    decreases files@.len() - k,
                {
                    assert(files@.subrange(0, k as int + 1).drop_last() =~= files@.subrange(
                        0,
                        k as int,
                    ));
                    proof {
                        lemma_files_total_nonneg(files@.subrange(0, k as int));
                    }
                    let len = files[k].length;
                    if capped || len > usize::MAX - total {
                        total = usize::MAX;
                        capped = true;
                    } else {
                        total = total + len;
                    }
                    k = k + 1;
                }
                assert(files@.subrange(0, k as int) =~= files@);
                total
            },
        }
    }

    /// The length of each file, in torrent order: one file of `length`
    /// bytes for a single-file torrent.
    pub fn file_sizes(&self) -> (r: Vec<u64>)
        ensures
            match self.info.keys {
                Keys::SingleFile { length } => r@ == seq![length as u64],
                Keys::MultiFile { files } => r@.len() == files@.len() && forall|k: int|
                    0 <= k < files@.len() ==> #[trigger] r@[k] == files@[k].length as u64,
            },
    {
        let mut out: Vec<u64> = Vec::new();
        match &self.info.keys {
            Keys::SingleFile { length } => {
                out.push(*length as u64);
                assert(out@ =~= seq![*length as u64]);
            },
            Keys::MultiFile { files } => {
                let mut k: usize = 0;
                while k < files.len()
                    invariant
                        k <= files@.len(),
                        out@.len() == k,
                        forall|j: int| 0 <= j < k ==> #[trigger] out@[j] == files@[j].length as u64,
                    decreases files@.len() - k,
                {
                    out.push(files[k].length as u64);
                    k = k + 1;
                }
            },
        }
        out
    }

    /// The info hash written for a tracker URL, each byte as `%XX`; `None`
    /// while the hash is not known.
    pub fn urlencode_infohash(&self) -> (r: Option<String>)
        ensures
            match self.info_hash {
                Some(h) => r is Some && r->Some_0@ == ascii_chars(percent_encoded(h@)),
                None => r is None,
            },
    {
        match &self.info_hash {
            Some(h) => Some(urlencode_bytes(h)),
            None => None,
        }
    }
}

/// The info hash of a torrent: the SHA-1 of its bencoded `info` dictionary.
pub fn info_hash_of(encoded_info: &[u8]) -> (r: [u8; 20])
    ensures
        r@ == sha1_of(encoded_info@),
{
    sha1_digest(encoded_info)
}

} // verus!
