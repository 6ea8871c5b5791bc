use std::collections::HashMap;
use std::time::Instant;
use vstd::prelude::*;

use crate::piece::{block_at, block_count, lemma_block_inside, BlockInfo, BLOCK_SIZE};

verus! {

broadcast use vstd::std_specs::hash::group_hash_axioms;

/// std's `Instant`, a reading of the monotonic clock, carried through
/// unopened as the time a request went out.
#[verifier::external_type_specification]
#[verifier::external_body]
pub struct ExInstant(Instant);

/// Relies on std::time::Instant::now: the moment a request went out.
#[verifier::external_body]
fn now() -> Instant {
    Instant::now()
}

/// A block slot as contracts see it: the bytes, once stored.
pub open spec fn slot_view(s: Option<Vec<u8>>) -> Option<Seq<u8>> {
    match s {
        Some(v) => Some(v@),
        None => None,
    }
}

pub open spec fn slots_view(v: Seq<Option<Vec<u8>>>) -> Seq<Option<Seq<u8>>> {
    v.map_values(|s: Option<Vec<u8>>| slot_view(s))
}

/// The bytes of all slots, in offset order; an empty slot adds nothing.
pub open spec fn concat_slots(s: Seq<Option<Seq<u8>>>) -> Seq<u8>
    decreases s.len(),
{
    if s.len() == 0 {
        Seq::empty()
    } else {
        concat_slots(s.drop_last()) + match s.last() {
            Some(b) => b,
            None => Seq::empty(),
        }
    }
}

/// Whether every slot holds its bytes.
pub open spec fn all_present(s: Seq<Option<Seq<u8>>>) -> bool {
    forall|i: int| 0 <= i < s.len() ==> (#[trigger] s[i]) is Some
}

/// The slots after the bytes of block `info` arrive: they fill the slot that
/// the offset names, where the piece is in assembly and has that slot.
pub open spec fn after_store(
    pieces: Map<u32, Seq<Option<Seq<u8>>>>,
    info: BlockInfo,
    data: Seq<u8>,
) -> Map<u32, Seq<Option<Seq<u8>>>> {
    if pieces.contains_key(info.piece_index) && info.offset / BLOCK_SIZE
        < pieces[info.piece_index].len() {
        pieces.insert(
            info.piece_index,
            pieces[info.piece_index].update((info.offset / BLOCK_SIZE) as int, Some(data)),
        )
    } else {
        pieces
    }
}

/// Storing a block in an empty slot adds exactly its bytes to what the
/// piece holds: the bytes that a session counts as downloaded for a block
/// are the bytes that the block adds to the stored pieces.
pub proof fn lemma_store_adds_block(s: Seq<Option<Seq<u8>>>, i: int, data: Seq<u8>)
    requires
        0 <= i < s.len(),
        s[i] is None,
    ensures
        concat_slots(s.update(i, Some(data))).len() == concat_slots(s).len() + data.len(),
    decreases s.len(),
{
    let t = s.update(i, Some(data));
    if i == s.len() - 1 {
        assert(t.drop_last() =~= s.drop_last());
    } else {
        assert(t.drop_last() =~= s.drop_last().update(i, Some(data)));
        lemma_store_adds_block(s.drop_last(), i, data);
    }
}

/// The bytes a session counts as downloaded for a block are the bytes the
/// block adds to its piece, whenever the block lands in an empty slot of a
/// piece in assembly.
pub proof fn lemma_downloaded_is_stored(
    pieces: Map<u32, Seq<Option<Seq<u8>>>>,
    info: BlockInfo,
    data: Seq<u8>,
)
    requires
        pieces.contains_key(info.piece_index),
        info.offset / BLOCK_SIZE < pieces[info.piece_index].len(),
        pieces[info.piece_index][(info.offset / BLOCK_SIZE) as int] is None,
    ensures
        concat_slots(after_store(pieces, info, data)[info.piece_index]).len() == concat_slots(
            pieces[info.piece_index],
        ).len() + data.len(),
{
    lemma_store_adds_block(pieces[info.piece_index], (info.offset / BLOCK_SIZE) as int, data);
}

/// Assembles pieces block by block, and remembers which blocks have been
/// requested and not yet received.
pub struct BlockManager {
    piece_blocks: HashMap<u32, Vec<Option<Vec<u8>>>>,
    pending_blocks: Vec<(BlockInfo, Instant)>,
}

impl BlockManager {
    /// The slots of each piece in assembly.
    pub closed spec fn pieces(&self) -> Map<u32, Seq<Option<Seq<u8>>>> {
        self.piece_blocks@.map_values(|v: Vec<Option<Vec<u8>>>| slots_view(v@))
    }

    pub closed spec fn pending_keys(&self) -> Seq<BlockInfo> {
        self.pending_blocks@.map_values(|e: (BlockInfo, Instant)| e.0)
    }

    /// The blocks requested and not yet received.
    pub closed spec fn pending(&self) -> Set<BlockInfo> {
        self.pending_keys().to_set()
    }

    pub closed spec fn wf(&self) -> bool {
        self.pending_keys().no_duplicates()
    }

    /// Whether block `i` of piece `index`, a piece of `size` bytes, may be
    /// requested now: its slot exists, lies inside the piece, is empty and is
    /// not pending.
    pub open spec fn is_free(&self, index: u32, size: int, i: int) -> bool {
        &&& self.pieces().contains_key(index)
        &&& 0 <= i < self.pieces()[index].len()
        &&& i < block_count(size)
        &&& self.pieces()[index][i] is None
        &&& !self.pending().contains(block_at(index, size, i))
    }

    pub fn new() -> (r: BlockManager)
        ensures
            r.wf(),
            r.pieces() == Map::<u32, Seq<Option<Seq<u8>>>>::empty(),
            r.pending() == Set::<BlockInfo>::empty(),
    {
        let r = BlockManager { piece_blocks: HashMap::new(), pending_blocks: Vec::new() };
        assert(r.pieces() =~= Map::empty());
        assert(r.pending() =~= Set::empty());
        r
    }

    /// Installs empty slots for a piece of `piece_size` bytes, discarding
    /// whatever the piece held.
    pub fn init_piece(&mut self, piece_index: u32, piece_size: u32)
        requires
            old(self).wf(),
        ensures
            final(self).wf(),
            final(self).pending() == old(self).pending(),
            final(self).pieces() == old(self).pieces().insert(
                piece_index,
                Seq::new(block_count(piece_size as int) as nat, |i: int| None),
            ),
    {
        let num_blocks: u32 = piece_size / BLOCK_SIZE + if piece_size % BLOCK_SIZE == 0 {
            0
        } else {
            1
        };
        let mut slots: Vec<Option<Vec<u8>>> = Vec::new();
        let mut k: u32 = 0;
        while k < num_blocks
            invariant
                k <= num_blocks,
                slots@.len() == k,
                forall|j: int| 0 <= j < k ==> (#[trigger] slots@[j]) is None,
            decreases num_blocks - k,
        {
            slots.push(None);
            k = k + 1;
        }
        self.piece_blocks.insert(piece_index, slots);
        assert(slots_view(slots@) =~= Seq::new(block_count(piece_size as int) as nat, |i: int| None));
        assert(self.pieces() =~= old(self).pieces().insert(
            piece_index,
            Seq::new(block_count(piece_size as int) as nat, |i: int| None),
        ));
    }

    fn pending_position(&self, info: BlockInfo) -> (r: Option<usize>)
        ensures
            match r {
                Some(p) => p < self.pending_keys().len() && self.pending_keys()[p as int] == info,
                None => !self.pending().contains(info),
            },
    {
        let mut p: usize = 0;
        while p < self.pending_blocks.len()
            invariant
                p <= self.pending_blocks@.len(),
                forall|j: int| 0 <= j < p ==> self.pending_keys()[j] != info,
            decreases self.pending_blocks@.len() - p,
        {
            if self.pending_blocks[p].0 == info {
                return Some(p);
            }
            p = p + 1;
        }
        None
    }

    /// Requests the lowest-offset block of a piece that is neither stored nor
    /// pending, and marks it pending. `None` where the piece is unknown, or
    /// every block is stored or pending. A piece of `piece_size` bytes has
    /// no blocks past its end.
    pub fn next_block(&mut self, piece_index: u32, piece_size: u32) -> (r: Option<BlockInfo>)
        requires
            old(self).wf(),
        ensures
            final(self).wf(),
            final(self).pieces() == old(self).pieces(),
            match r {
                Some(b) => {
                    &&& b.offset % BLOCK_SIZE == 0
                    &&& b == block_at(piece_index, piece_size as int, (b.offset / BLOCK_SIZE) as int)
                    &&& old(self).is_free(piece_index, piece_size as int, (b.offset / BLOCK_SIZE) as int)
                    &&& forall|j: int|
                        0 <= j < b.offset / BLOCK_SIZE ==> !old(self).is_free(
                            piece_index,
                            piece_size as int,
                            j,
                        )
                    &&& final(self).pending() == old(self).pending().insert(b)
                },
                None => {
                    &&& forall|j: int| !old(self).is_free(piece_index, piece_size as int, j)
                    &&& final(self).pending() == old(self).pending()
                },
            },
    {
        let blocks = match self.piece_blocks.get(&piece_index) {
            Some(b) => b,
            None => {
                return None;
            },
        };
        let ghost slots = self.pieces()[piece_index];
        assert(slots == slots_view(blocks@));
        let mut i: usize = 0;
        let limit: usize = (piece_size / BLOCK_SIZE + if piece_size % BLOCK_SIZE == 0 {
            0
        } else {
            1
        }) as usize;
        while i < blocks.len() && i < limit
            invariant
                i <= blocks@.len(),
                limit == block_count(piece_size as int),
                slots == slots_view(blocks@),
                self.pieces().contains_key(piece_index),
                self.pieces()[piece_index] == slots,
                self.piece_blocks@ == old(self).piece_blocks@,
                self.pending_blocks@ == old(self).pending_blocks@,
                self.wf(),
                forall|j: int| 0 <= j < i ==> !old(self).is_free(piece_index, piece_size as int, j),
            decreases blocks@.len() - i,
        {
            if blocks[i].is_none() {
                proof {
                    lemma_block_inside(piece_size as int, i as int);
                }
                let offset: u32 = (i as u32) * BLOCK_SIZE;
                let length: u32 = if piece_size - offset < BLOCK_SIZE {
                    piece_size - offset
                } else {
                    BLOCK_SIZE
                };
                let info = BlockInfo { piece_index, offset, length };
                assert(info == block_at(piece_index, piece_size as int, i as int));
                if self.pending_position(info).is_none() {
                    let ghost old_keys = self.pending_keys();
                    assert(!old_keys.contains(info));
                    let t = now();
                    self.pending_blocks.push((info, t));
                    proof {
                        assert(self.pending_keys() =~= old_keys.push(info));
                        assert(self.pending_keys().no_duplicates());
                        assert(self.pending() =~= old(self).pending().insert(info)) by {
                            assert forall|b: BlockInfo|
                                self.pending().contains(b) <==> old(self).pending().contains(b)
                                    || b == info by {
                                if b == info {
                                    assert(self.pending_keys()[old_keys.len() as int] == b);
                                }
                                if old(self).pending().contains(b) {
                                    let k = choose|k: int|
                                        0 <= k < old_keys.len() && old_keys[k] == b;
                                    assert(self.pending_keys()[k] == b);
                                }
                            }
                        }
                        assert(info.offset / BLOCK_SIZE == i) by (nonlinear_arith)
                            requires
                                info.offset == i * 16384,
                        {
                        }
                        assert(info.offset % BLOCK_SIZE == 0) by (nonlinear_arith)
                            requires
                                info.offset == i * 16384,
                        {
                        }
                    }
                    return Some(info);
                }
            }
            i = i + 1;
        }
        None
    }

    /// Records the bytes of a received block: its pending entry goes, and the
    /// bytes fill its slot where the piece is in assembly and the offset
    /// names one of its slots. Anything else is ignored.
    pub fn store_block(&mut self, block_info: BlockInfo, data: Vec<u8>)
        requires
            old(self).wf(),
        ensures
            final(self).wf(),
            final(self).pending() == old(self).pending().remove(block_info),
            final(self).pieces() == after_store(old(self).pieces(), block_info, data@),
    {
        match self.pending_position(block_info) {
            Some(p) => {
                let ghost old_keys = self.pending_keys();
                self.pending_blocks.remove(p);
                proof {
                    assert(self.pending_keys() =~= old_keys.remove(p as int));
                    assert(self.pending() =~= old(self).pending().remove(block_info)) by {
                        assert forall|b: BlockInfo|
                            self.pending().contains(b) <==> old(self).pending().contains(b) && b
                                != block_info by {
                            if self.pending().contains(b) {
                                let k = choose|k: int|
                                    0 <= k < self.pending_keys().len() && self.pending_keys()[k]
                                        == b;
                                if k < p {
                                    assert(old_keys[k] == b);
                                } else {
                                    assert(old_keys[k + 1] == b);
                                }
                            }
                            if old(self).pending().contains(b) && b != block_info {
                                let k = choose|k: int| 0 <= k < old_keys.len() && old_keys[k] == b;
                                if k < p {
                                    assert(self.pending_keys()[k] == b);
                                } else {
                                    assert(k != p);
                                    assert(self.pending_keys()[k - 1] == b);
                                }
                            }
                        }
                    }
                }
            },
            None => {
                assert(self.pending() =~= old(self).pending().remove(block_info));
            },
        }
        let ghost mid = self.pieces();
        let key = block_info.piece_index;
        match self.piece_blocks.remove(&key) {
            Some(mut blocks) => {
                let block_index = (block_info.offset / BLOCK_SIZE) as usize;
                if block_index < blocks.len() {
                    blocks.set(block_index, Some(data));
                    assert(slots_view(blocks@) =~= mid[key].update(block_index as int, Some(data@)));
                } else {
                    assert(slots_view(blocks@) == mid[key]);
                }
                self.piece_blocks.insert(key, blocks);
                assert(self.pieces() =~= if block_index < mid[key].len() {
                    mid.insert(key, mid[key].update(block_index as int, Some(data@)))
                } else {
                    mid
                });
            },
            None => {},
        }
    }

    /// Whether every block of the piece has been stored; false for a piece
    /// not in assembly.
    pub fn is_piece_complete(&self, piece_index: u32) -> (r: bool)
        ensures
            r == (self.pieces().contains_key(piece_index) && all_present(
                self.pieces()[piece_index],
            )),
    {
        match self.piece_blocks.get(&piece_index) {
            Some(blocks) => {
                let ghost slots = self.pieces()[piece_index];
                assert(slots == slots_view(blocks@));
                let mut i: usize = 0;
                while i < blocks.len()
                    invariant
                        i <= blocks@.len(),
                        slots == slots_view(blocks@),
                        self.pieces().contains_key(piece_index),
                        self.pieces()[piece_index] == slots,
                        forall|j: int| 0 <= j < i ==> (#[trigger] slots[j]) is Some,
                    decreases blocks@.len() - i,
                {
                    if blocks[i].is_none() {
                        assert(slots[i as int] is None);
                        assert(!all_present(slots));
                        assert(self.pieces()[piece_index] == slots);
                        return false;
                    }
                    i = i + 1;
                }
                true
            },
            None => false,
        }
    }

    /// The bytes of a complete piece, block after block; `None` where the
    /// piece is not complete.
    pub fn assemble_piece(&self, piece_index: u32) -> (r: Option<Vec<u8>>)
        ensures
            match r {
                Some(data) => self.pieces().contains_key(piece_index) && all_present(
                    self.pieces()[piece_index],
                ) && data@ == concat_slots(self.pieces()[piece_index]),
                None => !(self.pieces().contains_key(piece_index) && all_present(
                    self.pieces()[piece_index],
                )),
            },
    {
        if !self.is_piece_complete(piece_index) {
            return None;
        }
        let blocks = match self.piece_blocks.get(&piece_index) {
            Some(b) => b,
            None => {
                return None;
            },
        };
        let ghost slots = self.pieces()[piece_index];
        assert(slots == slots_view(blocks@));
        let mut out: Vec<u8> = Vec::new();
        let mut i: usize = 0;
        while i < blocks.len()
            invariant
                i <= blocks@.len(),
                slots == slots_view(blocks@),
                all_present(slots),
                out@ == concat_slots(slots.take(i as int)),
            decreases blocks@.len() - i,
        {
            assert(slots.take(i as int + 1).drop_last() =~= slots.take(i as int));
            match &blocks[i] {
                Some(b) => {
                    out.extend_from_slice(b.as_slice());
                    assert(out@ =~= concat_slots(slots.take(i as int + 1)));
                },
                None => {
                    assert(slots[i as int] is Some);
                },
            }
            i = i + 1;
        }
        assert(slots.take(blocks@.len() as int) =~= slots);
        Some(out)
    }

    /// Forgets a piece's slots; its pending entries stay.
    pub fn cleanup_piece(&mut self, piece_index: u32)
        requires
            old(self).wf(),
        ensures
            final(self).wf(),
            final(self).pending() == old(self).pending(),
            final(self).pieces() == old(self).pieces().remove(piece_index),
    {
        self.piece_blocks.remove(&piece_index);
        assert(self.pieces() =~= old(self).pieces().remove(piece_index));
    }

    /// When block `info` was requested, if it is pending.
    pub fn pending_since(&self, info: BlockInfo) -> (r: Option<Instant>)
        ensures
            r is Some <==> self.pending().contains(info),
    {
        match self.pending_position(info) {
            Some(p) => {
                assert(self.pending_keys()[p as int] == info);
                Some(self.pending_blocks[p].1)
            },
            None => None,
        }
    }

    /// Whether block `info` has been requested and not yet received.
    pub fn is_pending(&self, info: BlockInfo) -> (r: bool)
        ensures
            r == self.pending().contains(info),
    {
        match self.pending_position(info) {
            Some(p) => {
                assert(self.pending_keys()[p as int] == info);
                true
            },
            None => false,
        }
    }

    /// The number of pending requests.
    pub fn pending_count(&self) -> (r: usize)
        requires
            self.wf(),
        ensures
            r == self.pending().len(),
    {
        proof {
            self.pending_keys().unique_seq_to_set();
        }
        self.pending_blocks.len()
    }

    /// The number of pieces in assembly.
    pub fn piece_count(&self) -> (r: usize)
        ensures
            r == self.pieces().len(),
    {
        assert(self.pieces().dom() =~= self.piece_blocks@.dom());
        self.piece_blocks.len()
    }

    /// The slots of a piece in assembly.
    pub fn piece_blocks(&self, piece_index: u32) -> (r: Option<&Vec<Option<Vec<u8>>>>)
        ensures
            match r {
                Some(v) => self.pieces().contains_key(piece_index) && slots_view(v@)
                    == self.pieces()[piece_index],
                None => !self.pieces().contains_key(piece_index),
            },
    {
        self.piece_blocks.get(&piece_index)
    }
}

} // verus!
