use std::collections::HashSet;
use vstd::prelude::*;

use crate::bitfield::Bitfield;

verus! {

broadcast use vstd::std_specs::hash::group_hash_axioms;

/// One more holder of a piece; the count stops at `u32::MAX`.
pub open spec fn count_up(c: u32) -> u32 {
    if c == u32::MAX {
        c
    } else {
        (c + 1) as u32
    }
}

/// One holder fewer; the count stops at zero.
pub open spec fn count_down(c: u32) -> u32 {
    if c == 0 {
        0
    } else {
        (c - 1) as u32
    }
}

/// Whether `(c, i)` comes before `(d, j)`: fewer holders first, then the
/// lower index.
pub open spec fn rarer(c: u32, i: u32, d: u32, j: u32) -> bool {
    c < d || (c == d && i <= j)
}

/// Tracks how many peers hold each piece, which pieces are done and which
/// are being downloaded, and picks the rarest piece to download next.
#[derive(Debug)]
pub struct PieceManager {
    piece_counts: Vec<u32>,
    completed: HashSet<u32>,
    pending: HashSet<u32>,
    total_pieces: u32,
    piece_size: u32,
}

impl PieceManager {
    /// The number of connected peers that hold each piece, by index.
    pub closed spec fn counts(&self) -> Seq<u32> {
        self.piece_counts@
    }

    /// The pieces verified and written.
    pub closed spec fn completed_set(&self) -> Set<u32> {
        self.completed@
    }

    /// The pieces assigned to a peer and not yet completed.
    pub closed spec fn pending_set(&self) -> Set<u32> {
        self.pending@
    }

    pub closed spec fn spec_total_pieces(&self) -> u32 {
        self.total_pieces
    }

    pub closed spec fn spec_piece_size(&self) -> u32 {
        self.piece_size
    }

    pub open spec fn wf(&self) -> bool {
        &&& self.counts().len() == self.spec_total_pieces()
        &&& forall|i: u32| #[trigger]
            self.completed_set().contains(i) ==> i < self.spec_total_pieces() && self.counts()[i as int]
                == 0 && !self.pending_set().contains(i)
        &&& forall|i: u32| #[trigger] self.pending_set().contains(i) ==> i < self.spec_total_pieces()
        &&& self.completed_set().finite()
        &&& self.pending_set().finite()
    }

    /// The rarest-first queue: `(count, index)` for every piece that some
    /// peer holds and that is not completed.
    pub open spec fn availability_queue(&self) -> Set<(u32, u32)> {
        Set::new(
            |e: (u32, u32)|
                e.1 < self.spec_total_pieces() && e.0 > 0 && self.counts()[e.1 as int] == e.0
                    && !self.completed_set().contains(e.1),
        )
    }

    /// Whether `next_piece` may hand out piece `i`: some peer has it, and it
    /// is neither completed nor pending.
    pub open spec fn selectable(&self, i: u32) -> bool {
        &&& i < self.spec_total_pieces()
        &&& self.counts()[i as int] > 0
        &&& !self.completed_set().contains(i)
        &&& !self.pending_set().contains(i)
    }

    pub fn new(total_pieces: u32, piece_size: u32) -> (r: PieceManager)
        ensures
            r.wf(),
            r.spec_total_pieces() == total_pieces,
            r.spec_piece_size() == piece_size,
            r.counts() == Seq::new(total_pieces as nat, |i: int| 0u32),
            r.completed_set() == Set::<u32>::empty(),
            r.pending_set() == Set::<u32>::empty(),
    {
        let mut piece_counts: Vec<u32> = Vec::new();
        let mut k: u32 = 0;
        while k < total_pieces
            invariant
                k <= total_pieces,
                piece_counts@ == Seq::new(k as nat, |i: int| 0u32),
            decreases total_pieces - k,
        {
            piece_counts.push(0);
            k = k + 1;
            assert(piece_counts@ =~= Seq::new(k as nat, |i: int| 0u32));
        }
        PieceManager {
            piece_counts,
            completed: HashSet::new(),
            pending: HashSet::new(),
            total_pieces,
            piece_size,
        }
    }

    /// Counts a newly connected peer: each piece it has, and that is not
    /// completed, gains one holder. Bits past the last piece are ignored.
    pub fn add_peer(&mut self, bitfield: &Bitfield)
        requires
            old(self).wf(),
        ensures
            final(self).wf(),
            final(self).spec_total_pieces() == old(self).spec_total_pieces(),
            final(self).spec_piece_size() == old(self).spec_piece_size(),
            final(self).completed_set() == old(self).completed_set(),
            final(self).pending_set() == old(self).pending_set(),
            final(self).counts().len() == old(self).counts().len(),
            forall|i: int|
                0 <= i < old(self).counts().len() ==> #[trigger] final(self).counts()[i] == if bitfield.has(i)
                    && !old(self).completed_set().contains(i as u32) {
                    count_up(old(self).counts()[i])
                } else {
                    old(self).counts()[i]
                },
    {
        let mut i: u32 = 0;
        while i < self.total_pieces
            invariant
                i <= self.total_pieces,
                self.total_pieces == old(self).total_pieces,
                self.piece_size == old(self).piece_size,
                self.completed@ == old(self).completed@,
                self.pending@ == old(self).pending@,
                self.piece_counts@.len() == old(self).piece_counts@.len(),
                old(self).wf(),
                forall|j: int|
                    0 <= j < old(self).counts().len() ==> #[trigger] self.counts()[j] == if j < i
                        && bitfield.has(j) && !old(self).completed_set().contains(j as u32) {
                        count_up(old(self).counts()[j])
                    } else {
                        old(self).counts()[j]
                    },
            decreases self.total_pieces - i,
        {
            let done = self.completed.contains(&i);
            let held = bitfield.has_piece(i as usize);
            let ghost before = self.counts();
            if !done && held {
                let c = self.piece_counts[i as usize];
                self.piece_counts.set(i as usize, c.saturating_add(1));
                assert(self.counts() == before.update(i as int, count_up(c)));
            }
            assert(before[i as int] == old(self).counts()[i as int]);
            i = i + 1;
        }
    }

    /// Counts a departing peer out: each piece it has loses one holder.
    /// Bits past the last piece are ignored.
    pub fn remove_peer(&mut self, bitfield: &Bitfield)
        requires
            old(self).wf(),
        ensures
            final(self).wf(),
            final(self).spec_total_pieces() == old(self).spec_total_pieces(),
            final(self).spec_piece_size() == old(self).spec_piece_size(),
            final(self).completed_set() == old(self).completed_set(),
            final(self).pending_set() == old(self).pending_set(),
            final(self).counts().len() == old(self).counts().len(),
            forall|i: int|
                0 <= i < old(self).counts().len() ==> #[trigger] final(self).counts()[i] == if bitfield.has(i) {
                    count_down(old(self).counts()[i])
                } else {
                    old(self).counts()[i]
                },
    {
        let mut i: u32 = 0;
        while i < self.total_pieces
            invariant
                i <= self.total_pieces,
                self.total_pieces == old(self).total_pieces,
                self.piece_size == old(self).piece_size,
                self.completed@ == old(self).completed@,
                self.pending@ == old(self).pending@,
                self.piece_counts@.len() == old(self).piece_counts@.len(),
                old(self).wf(),
                forall|j: int|
                    0 <= j < old(self).counts().len() ==> #[trigger] self.counts()[j] == if j < i
                        && bitfield.has(j) {
                        count_down(old(self).counts()[j])
                    } else {
                        old(self).counts()[j]
                    },
            decreases self.total_pieces - i,
        {
            let ghost before = self.counts();
            if bitfield.has_piece(i as usize) {
                let c = self.piece_counts[i as usize];
                self.piece_counts.set(i as usize, c.saturating_sub(1));
                assert(self.counts() == before.update(i as int, count_down(c)));
            }
            assert(before[i as int] == old(self).counts()[i as int]);
            i = i + 1;
        }
    }

    /// Hands out the rarest selectable piece, the lowest index among equally
    /// rare ones, and marks it pending; `None` where no piece is selectable.
    pub fn next_piece(&mut self) -> (r: Option<u32>)
        requires
            old(self).wf(),
        ensures
            final(self).wf(),
            final(self).spec_total_pieces() == old(self).spec_total_pieces(),
            final(self).spec_piece_size() == old(self).spec_piece_size(),
            final(self).completed_set() == old(self).completed_set(),
            final(self).counts() == old(self).counts(),
            match r {
                Some(p) => {
                    &&& old(self).selectable(p)
                    &&& forall|q: u32|
                        #[trigger] old(self).selectable(q) ==> rarer(
                            old(self).counts()[p as int],
                            p,
                            old(self).counts()[q as int],
                            q,
                        )
                    &&& final(self).pending_set() == old(self).pending_set().insert(p)
                },
                None => {
                    &&& forall|q: u32| !(#[trigger] old(self).selectable(q))
                    &&& final(self).pending_set() == old(self).pending_set()
                },
            },
    {
        let mut best: Option<u32> = None;
        let mut i: u32 = 0;
        while i < self.total_pieces
            invariant
                i <= self.total_pieces,
                self.wf(),
                match best {
                    Some(p) => {
                        &&& p < i
                        &&& self.selectable(p)
                        &&& forall|q: u32|
                            q < i && #[trigger] self.selectable(q) ==> rarer(
                                self.counts()[p as int],
                                p,
                                self.counts()[q as int],
                                q,
                            )
                    },
                    None => forall|q: u32| q < i ==> !(#[trigger] self.selectable(q)),
                },
            decreases self.total_pieces - i,
        {
            let c = self.piece_counts[i as usize];
            if c > 0 && !self.completed.contains(&i) && !self.pending.contains(&i) {
                match best {
                    Some(p) => {
                        if c < self.piece_counts[p as usize] {
                            best = Some(i);
                        }
                    },
                    None => {
                        best = Some(i);
                    },
                }
            }
            i = i + 1;
        }
        match best {
            Some(p) => {
                self.pending.insert(p);
                Some(p)
            },
            None => None,
        }
    }

    /// Records a piece as verified and written: it is no longer pending,
    /// never handed out again, and its holders are no longer counted. An
    /// index past the last piece is ignored.
    pub fn mark_completed(&mut self, piece: u32)
        requires
            old(self).wf(),
        ensures
            final(self).wf(),
            final(self).spec_total_pieces() == old(self).spec_total_pieces(),
            final(self).spec_piece_size() == old(self).spec_piece_size(),
            piece < old(self).spec_total_pieces() ==> {
                &&& final(self).completed_set() == old(self).completed_set().insert(piece)
                &&& final(self).pending_set() == old(self).pending_set().remove(piece)
                &&& final(self).counts() == old(self).counts().update(piece as int, 0)
            },
            piece >= old(self).spec_total_pieces() ==> *final(self) == *old(self),
    {
        if piece < self.total_pieces {
            self.pending.remove(&piece);
            self.completed.insert(piece);
            self.piece_counts.set(piece as usize, 0);
        }
    }

    /// Returns a piece to the pool, as when its download failed.
    pub fn mark_failed(&mut self, piece: u32)
        requires
            old(self).wf(),
        ensures
            final(self).wf(),
            final(self).spec_total_pieces() == old(self).spec_total_pieces(),
            final(self).spec_piece_size() == old(self).spec_piece_size(),
            final(self).completed_set() == old(self).completed_set(),
            final(self).counts() == old(self).counts(),
            final(self).pending_set() == old(self).pending_set().remove(piece),
    {
        self.pending.remove(&piece);
    }

    /// Whether every piece is completed.
    pub fn is_complete(&self) -> (r: bool)
        requires
            self.wf(),
        ensures
            r == (self.completed_set().len() == self.spec_total_pieces()),
    {
        self.completed.len() == self.total_pieces as usize
    }

    /// The number of completed pieces, and the number of pieces.
    pub fn progress(&self) -> (r: (usize, u32))
        requires
            self.wf(),
        ensures
            r.0 == self.completed_set().len(),
            r.1 == self.spec_total_pieces(),
    {
        (self.completed.len(), self.total_pieces)
    }

    /// The length of every piece but possibly the last.
    pub fn piece_size(&self) -> (r: u32)
        ensures
            r == self.spec_piece_size(),
    {
        self.piece_size
    }

    pub fn total_pieces(&self) -> (r: u32)
        ensures
            r == self.spec_total_pieces(),
    {
        self.total_pieces
    }
}

/// A completed piece is never handed out again: `next_piece` returns only
/// selectable pieces, no completed piece is selectable, and no operation
/// takes a piece out of the completed set.
pub proof fn lemma_completed_never_selected(pm: PieceManager, p: u32)
    requires
        pm.wf(),
        pm.completed_set().contains(p),
    ensures
        !pm.selectable(p),
        !pm.availability_queue().contains((pm.counts()[p as int], p)),
{
}

/// No piece is handed out twice: once `next_piece` has returned `p`, `p` is
/// pending, and a pending piece is not selectable until `mark_failed` or
/// `mark_completed` releases it.
pub proof fn lemma_no_double_assignment(before: PieceManager, after: PieceManager, p: u32)
    requires
        after.pending_set() == before.pending_set().insert(p),
    ensures
        !after.selectable(p),
{
    assert(after.pending_set().contains(p));
}

} // verus!
