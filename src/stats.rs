use vstd::prelude::*;

verus! {

/// Counters of a download's progress. The byte counters wrap around at
/// 2^64, as machine counters do.
pub struct DownloadStats {
    downloaded_bytes: u64,
    uploaded_bytes: u64,
    pieces_completed: u64,
    total_pieces: u32,
}

/// `a + b` on a 64-bit counter.
pub open spec fn wrapped_sum(a: u64, b: u64) -> u64 {
    ((a as int + b as int) % 0x1_0000_0000_0000_0000) as u64
}

impl DownloadStats {
    pub closed spec fn spec_downloaded(&self) -> u64 {
        self.downloaded_bytes
    }

    pub closed spec fn spec_uploaded(&self) -> u64 {
        self.uploaded_bytes
    }

    pub closed spec fn spec_pieces_completed(&self) -> u64 {
        self.pieces_completed
    }

    pub closed spec fn spec_total_pieces(&self) -> u32 {
        self.total_pieces
    }

    /// Counters at zero for a torrent of `total_pieces` pieces.
    pub fn new(total_pieces: u32) -> (r: DownloadStats)
        ensures
            r.spec_downloaded() == 0,
            r.spec_uploaded() == 0,
            r.spec_pieces_completed() == 0,
            r.spec_total_pieces() == total_pieces,
    {
        DownloadStats { downloaded_bytes: 0, uploaded_bytes: 0, pieces_completed: 0, total_pieces }
    }

    pub fn add_downloaded(&mut self, bytes: u64)
        ensures
            final(self).spec_downloaded() == wrapped_sum(old(self).spec_downloaded(), bytes),
            final(self).spec_uploaded() == old(self).spec_uploaded(),
            final(self).spec_pieces_completed() == old(self).spec_pieces_completed(),
            final(self).spec_total_pieces() == old(self).spec_total_pieces(),
    {
        self.downloaded_bytes = self.downloaded_bytes.wrapping_add(bytes);
    }

    pub fn add_uploaded(&mut self, bytes: u64)
        ensures
            final(self).spec_uploaded() == wrapped_sum(old(self).spec_uploaded(), bytes),
            final(self).spec_downloaded() == old(self).spec_downloaded(),
            final(self).spec_pieces_completed() == old(self).spec_pieces_completed(),
            final(self).spec_total_pieces() == old(self).spec_total_pieces(),
    {
        self.uploaded_bytes = self.uploaded_bytes.wrapping_add(bytes);
    }

    pub fn increment_pieces(&mut self)
        ensures
            final(self).spec_pieces_completed() == wrapped_sum(old(self).spec_pieces_completed(), 1),
            final(self).spec_downloaded() == old(self).spec_downloaded(),
            final(self).spec_uploaded() == old(self).spec_uploaded(),
            final(self).spec_total_pieces() == old(self).spec_total_pieces(),
    {
        self.pieces_completed = self.pieces_completed.wrapping_add(1);
    }

    pub fn downloaded_bytes(&self) -> (r: u64)
        ensures
            r == self.spec_downloaded(),
    {
        self.downloaded_bytes
    }

    pub fn uploaded_bytes(&self) -> (r: u64)
        ensures
            r == self.spec_uploaded(),
    {
        self.uploaded_bytes
    }

    pub fn pieces_completed(&self) -> (r: u64)
        ensures
            r == self.spec_pieces_completed(),
    {
        self.pieces_completed
    }

    pub fn total_pieces(&self) -> (r: u32)
        ensures
            r == self.spec_total_pieces(),
    {
        self.total_pieces
    }
}

/// Bytes per second after `elapsed_millis` milliseconds, rounded down and
/// capped at `u64::MAX`; zero before the first millisecond has passed.
pub fn throughput(downloaded: u64, elapsed_millis: u64) -> (r: u64)
    ensures
        elapsed_millis == 0 ==> r == 0,
        elapsed_millis > 0 ==> r == if downloaded as int * 1000 / elapsed_millis as int
            > u64::MAX {
            u64::MAX as int
        } else {
            downloaded as int * 1000 / elapsed_millis as int
        },
{
    if elapsed_millis == 0 {
        return 0;
    }
    let rate: u128 = (downloaded as u128) * 1000 / (elapsed_millis as u128);
    if rate > u64::MAX as u128 {
        u64::MAX
    } else {
        rate as u64
    }
}

} // verus!
