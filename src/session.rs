use vstd::prelude::*;

use crate::bitfield::Bitfield;
use crate::block_manager::{after_store, all_present, concat_slots, BlockManager};
use crate::message::PeerMessage;
use crate::peer_state::PeerState;
use crate::piece::{block_at, block_count, BlockInfo, BLOCK_SIZE};
use crate::piece_manager::{rarer, PieceManager};
use crate::integrity::PieceVerdict;
use crate::stats::{wrapped_sum, DownloadStats};

verus! {

/// Whether a torrent of `total_length` bytes is cut into `total_pieces`
/// pieces of `piece_size` bytes, the last of them possibly shorter.
pub open spec fn geometry_ok(total_length: int, piece_size: int, total_pieces: int) -> bool {
    &&& piece_size > 0
    &&& total_pieces > 0
    &&& (total_pieces - 1) * piece_size < total_length <= total_pieces * piece_size
}

/// The length of piece `index`: `piece_size`, but for the last piece, which
/// holds what is left of the torrent.
pub open spec fn piece_len(total_length: int, piece_size: int, total_pieces: int, index: int) -> int {
    if index == total_pieces - 1 {
        total_length - (total_pieces - 1) * piece_size
    } else {
        piece_size
    }
}

/// The length of piece `index` of a torrent.
pub fn piece_length_of(total_length: u64, piece_size: u32, total_pieces: u32, index: u32) -> (r: u32)
    requires
        geometry_ok(total_length as int, piece_size as int, total_pieces as int),
        index < total_pieces,
    ensures
        r == piece_len(total_length as int, piece_size as int, total_pieces as int, index as int),
        0 < r <= piece_size,
{
    if index == total_pieces - 1 {
        let before = (total_pieces - 1) as u64 * piece_size as u64;
        assert(before == (total_pieces - 1) as int * piece_size as int);
        assert(total_pieces as int * piece_size as int == (total_pieces - 1) as int * piece_size as int
            + piece_size) by (nonlinear_arith);
        (total_length - before) as u32
    } else {
        piece_size
    }
}

/// A piece whose blocks have all arrived, on its way to the verifier.
pub struct CompletedPiece {
    pub index: u32,
    pub data: Vec<u8>,
}

/// What the caller has to do after the session took a decision: send these
/// requests, hand this piece to the verifier, and count these bytes as
/// downloaded.
pub struct SessionAction {
    pub requests: Vec<BlockInfo>,
    pub completed: Option<CompletedPiece>,
    pub downloaded: u64,
}

/// The decisions of one peer connection, apart from its I/O: which piece
/// it works on, which requests are outstanding, and what each message
/// changes in the shared piece and block bookkeeping.
pub struct PeerSession {
    pub state: PeerState,
    pub assigned_piece: Option<u32>,
    pub pending_requests: Vec<BlockInfo>,
    pub max_requests: usize,
    pub total_length: u64,
    pub piece_size: u32,
    pub total_pieces: u32,
}

impl PeerSession {
    pub open spec fn wf(&self) -> bool {
        &&& geometry_ok(self.total_length as int, self.piece_size as int, self.total_pieces as int)
        &&& self.assigned_piece matches Some(p) ==> p < self.total_pieces
    }

    /// The length of piece `index` of this torrent.
    pub open spec fn spec_piece_len(&self, index: u32) -> int {
        piece_len(self.total_length as int, self.piece_size as int, self.total_pieces as int, index as int)
    }

    /// Whether two sessions differ at most in their pipeline and assignment.
    pub open spec fn same_torrent(&self, other: &PeerSession) -> bool {
        &&& self.max_requests == other.max_requests
        &&& self.total_length == other.total_length
        &&& self.piece_size == other.piece_size
        &&& self.total_pieces == other.total_pieces
    }

    /// A session that has not connected yet: choked, with nothing assigned
    /// and nothing requested.
    pub fn new(max_requests: usize, total_length: u64, piece_size: u32, total_pieces: u32) -> (r: PeerSession)
        requires
            geometry_ok(total_length as int, piece_size as int, total_pieces as int),
        ensures
            r.wf(),
            r.state.choked && !r.state.interested,
            r.assigned_piece is None,
            r.pending_requests@.len() == 0,
            r.max_requests == max_requests,
            r.total_length == total_length,
            r.piece_size == piece_size,
            r.total_pieces == total_pieces,
    {
        PeerSession {
            state: PeerState::new(),
            assigned_piece: None,
            pending_requests: Vec::new(),
            max_requests,
            total_length,
            piece_size,
            total_pieces,
        }
    }

    /// The length of piece `index` of this torrent.
    pub fn get_piece_size(&self, index: u32) -> (r: u32)
        requires
            self.wf(),
            index < self.total_pieces,
        ensures
            r == self.spec_piece_len(index),
    {
        piece_length_of(self.total_length, self.piece_size, self.total_pieces, index)
    }

    /// Fills the pipeline: while fewer than `max_requests` requests are
    /// outstanding, takes the rarest piece from the piece manager if none is
    /// assigned (and sets up its blocks), then requests its next free block.
    /// Stops when the pipeline is full, no piece is available, or the
    /// assigned piece has no free block. Returns the new requests, which
    /// the caller sends.
    pub fn request_more_blocks(&mut self, pm: &mut PieceManager, bm: &mut BlockManager) -> (r: Vec<BlockInfo>)
        requires
            old(self).wf(),
            old(pm).wf(),
            old(bm).wf(),
            old(pm).spec_total_pieces() == old(self).total_pieces,
        ensures
            final(self).wf(),
            final(pm).wf(),
            final(bm).wf(),
            final(self).same_torrent(old(self)),
            final(self).state == old(self).state,
            final(pm).spec_total_pieces() == old(pm).spec_total_pieces(),
            final(pm).spec_piece_size() == old(pm).spec_piece_size(),
            final(pm).completed_set() == old(pm).completed_set(),
            final(pm).counts() == old(pm).counts(),
            final(self).pending_requests@ == old(self).pending_requests@ + r@,
            forall|k: int|
                0 <= k < r@.len() ==> {
                    &&& final(self).assigned_piece == Some((#[trigger] r@[k]).piece_index)
                    &&& final(bm).pending().contains(r@[k])
                    &&& !old(bm).pending().contains(r@[k])
                },
            old(self).assigned_piece is Some ==> {
                &&& final(self).assigned_piece == old(self).assigned_piece
                &&& final(pm).pending_set() == old(pm).pending_set()
            },
            old(self).assigned_piece is None ==> match final(self).assigned_piece {
                None => {
                    &&& final(pm).pending_set() == old(pm).pending_set()
                    &&& final(self).pending_requests@.len() < final(self).max_requests ==> forall|
                        q: u32,
                    | !(#[trigger] old(pm).selectable(q))
                },
                Some(p) => {
                    &&& old(pm).selectable(p)
                    &&& forall|q: u32|
                        #[trigger] old(pm).selectable(q) ==> rarer(
                            old(pm).counts()[p as int],
                            p,
                            old(pm).counts()[q as int],
                            q,
                        )
                    &&& final(pm).pending_set() == old(pm).pending_set().insert(p)
                },
            },
            final(self).pending_requests@.len() < final(self).max_requests ==> match final(self).assigned_piece {
                None => forall|q: u32| !(#[trigger] old(pm).selectable(q)),
                Some(p) => forall|j: int|
                    !final(bm).is_free(p, final(self).spec_piece_len(p), j),
            },
            old(self).pending_requests@.len() <= old(self).max_requests
                ==> final(self).pending_requests@.len() <= final(self).max_requests,
            old(self).pending_requests@.len() >= old(self).max_requests ==> r@.len() == 0,
            forall|k: int|
                0 <= k < r@.len() ==> #[trigger] r@[k] == block_at(
                    r@[k].piece_index,
                    final(self).spec_piece_len(r@[k].piece_index),
                    (r@[k].offset / BLOCK_SIZE) as int,
                ),
            (old(self).assigned_piece is Some || final(self).assigned_piece is None)
                ==> final(bm).pieces() == old(bm).pieces(),
            old(self).assigned_piece is None ==> (final(self).assigned_piece matches Some(p)
                ==> final(bm).pieces() == old(bm).pieces().insert(
                p,
                Seq::new(block_count(final(self).spec_piece_len(p)) as nat, |i: int| None),
            )),
    {
        let mut out: Vec<BlockInfo> = Vec::new();
        while self.pending_requests.len() < self.max_requests
            invariant
                self.wf(),
                pm.wf(),
                bm.wf(),
                self.same_torrent(old(self)),
                self.state == old(self).state,
                pm.spec_total_pieces() == self.total_pieces,
                pm.spec_piece_size() == old(pm).spec_piece_size(),
                pm.completed_set() == old(pm).completed_set(),
                pm.counts() == old(pm).counts(),
                self.pending_requests@ == old(self).pending_requests@ + out@,
                old(pm).spec_total_pieces() == old(self).total_pieces,
                forall|k: int|
                    0 <= k < out@.len() ==> {
                        &&& self.assigned_piece == Some((#[trigger] out@[k]).piece_index)
                        &&& bm.pending().contains(out@[k])
                        &&& !old(bm).pending().contains(out@[k])
                    },
                old(self).assigned_piece is Some ==> {
                    &&& self.assigned_piece == old(self).assigned_piece
                    &&& pm.pending_set() == old(pm).pending_set()
                },
                old(self).assigned_piece is None ==> match self.assigned_piece {
                    None => {
                        &&& pm.pending_set() == old(pm).pending_set()
                        &&& out@.len() == 0
                    },
                    Some(p) => {
                        &&& old(pm).selectable(p)
                        &&& forall|q: u32|
                            #[trigger] old(pm).selectable(q) ==> rarer(
                                old(pm).counts()[p as int],
                                p,
                                old(pm).counts()[q as int],
                                q,
                            )
                        &&& pm.pending_set() == old(pm).pending_set().insert(p)
                    },
                },
                old(bm).pending().subset_of(bm.pending()),
                old(self).pending_requests@.len() <= old(self).max_requests
                    ==> self.pending_requests@.len() <= self.max_requests,
                old(self).pending_requests@.len() >= old(self).max_requests ==> out@.len() == 0,
                forall|k: int|
                    0 <= k < out@.len() ==> #[trigger] out@[k] == block_at(
                        out@[k].piece_index,
                        self.spec_piece_len(out@[k].piece_index),
                        (out@[k].offset / BLOCK_SIZE) as int,
                    ),
                (old(self).assigned_piece is Some || self.assigned_piece is None) ==> bm.pieces()
                    == old(bm).pieces(),
                old(self).assigned_piece is None ==> (self.assigned_piece matches Some(p)
                    ==> bm.pieces() == old(bm).pieces().insert(
                    p,
                    Seq::new(block_count(self.spec_piece_len(p)) as nat, |i: int| None),
                )),
            decreases self.max_requests - self.pending_requests@.len(),
        {
            if self.assigned_piece.is_none() {
                let ghost pm_before = *pm;
                assert(forall|q: u32| pm_before.selectable(q) == old(pm).selectable(q));
                match pm.next_piece() {
                    Some(p) => {
                        proof {
                            assert(old(pm).selectable(p) == pm_before.selectable(p));
                            assert forall|q: u32|
                                #[trigger] old(pm).selectable(q) implies rarer(
                                    old(pm).counts()[p as int],
                                    p,
                                    old(pm).counts()[q as int],
                                    q,
                                ) by {
                                assert(pm_before.selectable(q) == old(pm).selectable(q));
                            }
                        }
                        self.assigned_piece = Some(p);
                        let size = self.get_piece_size(p);
                        bm.init_piece(p, size);
                    },
                    None => {
                        assert forall|q: u32| !(#[trigger] old(pm).selectable(q)) by {
                            assert(!pm_before.selectable(q));
                        }
                        return out;
                    },
                }
            }
            match self.assigned_piece {
                Some(p) => {
                    let size = self.get_piece_size(p);
                    let ghost bm_before = *bm;
                    match bm.next_block(p, size) {
                        Some(b) => {
                            self.pending_requests.push(b);
                            out.push(b);
                            proof {
                                assert(self.pending_requests@ =~= old(self).pending_requests@ + out@);
                            }
                        },
                        None => {
                            assert forall|j: int| !bm.is_free(p, self.spec_piece_len(p), j) by {
                                assert(!bm_before.is_free(p, size as int, j));
                            }
                            return out;
                        },
                    }
                },
                None => {
                    return out;
                },
            }
        }
        out
    }
    /// Handles the bytes of a block: drops the outstanding request for that
    /// place, stores the bytes, and where that completes the piece, takes
    /// its bytes for the verifier, forgets its blocks and, if it was this
    /// session's piece, frees the session for another. Counts the block's
    /// bytes as downloaded.
    pub fn handle_piece_data(&mut self, index: u32, begin: u32, block: Vec<u8>, bm: &mut BlockManager) -> (r: SessionAction)
        requires
            old(self).wf(),
            old(bm).wf(),
            block@.len() <= u32::MAX,
        ensures
            final(self).wf(),
            final(bm).wf(),
            final(self).same_torrent(old(self)),
            final(self).state == old(self).state,
            r.requests@.len() == 0,
            r.downloaded == block@.len(),
            final(self).pending_requests@ == old(self).pending_requests@.filter(
                |b: BlockInfo| !(b.piece_index == index && b.offset == begin),
            ),
            ({
                let info = BlockInfo { piece_index: index, offset: begin, length: block@.len() as u32 };
                let stored = after_store(old(bm).pieces(), info, block@);
                &&& final(bm).pending() == old(bm).pending().remove(info)
                &&& if stored.contains_key(index) && all_present(stored[index]) {
                    &&& r.completed matches Some(c)
                    &&& c.index == index
                    &&& c.data@ == concat_slots(stored[index])
                    &&& final(bm).pieces() == stored.remove(index)
                    &&& final(self).assigned_piece == if old(self).assigned_piece == Some(index) {
                        None
                    } else {
                        old(self).assigned_piece
                    }
                } else {
                    &&& r.completed is None
                    &&& final(bm).pieces() == stored
                    &&& final(self).assigned_piece == old(self).assigned_piece
                }
            }),
    {
        let ghost pred = |b: BlockInfo| !(b.piece_index == index && b.offset == begin);
        let mut kept: Vec<BlockInfo> = Vec::new();
        let mut i: usize = 0;
        while i < self.pending_requests.len()
            invariant
                i <= self.pending_requests@.len(),
                self.pending_requests@ == old(self).pending_requests@,
                pred == (|b: BlockInfo| !(b.piece_index == index && b.offset == begin)),
                kept@ == self.pending_requests@.take(i as int).filter(pred),
            decreases self.pending_requests@.len() - i,
        {
            let b = self.pending_requests[i];
            proof {
                let t = self.pending_requests@.take(i as int + 1);
                assert(t.drop_last() =~= self.pending_requests@.take(i as int));
                assert(t.last() == b);
                reveal(Seq::filter);
            }
            if !(b.piece_index == index && b.offset == begin) {
                kept.push(b);
            }
            i = i + 1;
        }
        assert(self.pending_requests@.take(i as int) =~= self.pending_requests@);
        self.pending_requests = kept;
        let downloaded = block.len() as u64;
        let info = BlockInfo { piece_index: index, offset: begin, length: block.len() as u32 };
        bm.store_block(info, block);
        let mut completed: Option<CompletedPiece> = None;
        if bm.is_piece_complete(index) {
            match bm.assemble_piece(index) {
                Some(data) => {
                    completed = Some(CompletedPiece { index, data });
                    bm.cleanup_piece(index);
                    if self.assigned_piece == Some(index) {
                        self.assigned_piece = None;
                    }
                },
                None => {},
            }
        }
        SessionAction { requests: Vec::new(), completed, downloaded }
    }

    /// Takes in a peer's bitfield on connection: its pieces count as
    /// available, and we declare interest.
    pub fn on_bitfield(&mut self, bitfield: &Bitfield, pm: &mut PieceManager)
        requires
            old(self).wf(),
            old(pm).wf(),
        ensures
            final(self).wf(),
            final(pm).wf(),
            final(self).same_torrent(old(self)),
            final(self).state.interested,
            final(self).state.choked == old(self).state.choked,
            final(self).assigned_piece == old(self).assigned_piece,
            final(self).pending_requests@ == old(self).pending_requests@,
            final(pm).spec_total_pieces() == old(pm).spec_total_pieces(),
            final(pm).spec_piece_size() == old(pm).spec_piece_size(),
            final(pm).completed_set() == old(pm).completed_set(),
            final(pm).pending_set() == old(pm).pending_set(),
            forall|i: int|
                0 <= i < old(pm).counts().len() ==> #[trigger] final(pm).counts()[i] == if bitfield.has(i)
                    && !old(pm).completed_set().contains(i as u32) {
                    crate::piece_manager::count_up(old(pm).counts()[i])
                } else {
                    old(pm).counts()[i]
                },
    {
        pm.add_peer(bitfield);
        self.state.set_interested(true);
    }

    /// Cleans up after the connection ends, however it ends: the peer's
    /// pieces stop counting as available, and an assigned piece that did not
    /// complete goes back to the pool.
    pub fn on_disconnect(&mut self, bitfield: Option<&Bitfield>, pm: &mut PieceManager)
        requires
            old(self).wf(),
            old(pm).wf(),
        ensures
            final(self).wf(),
            final(pm).wf(),
            final(self).assigned_piece is None,
            final(pm).spec_total_pieces() == old(pm).spec_total_pieces(),
            final(pm).completed_set() == old(pm).completed_set(),
            final(pm).pending_set() == match old(self).assigned_piece {
                Some(p) => old(pm).pending_set().remove(p),
                None => old(pm).pending_set(),
            },
            forall|i: int|
                0 <= i < old(pm).counts().len() ==> #[trigger] final(pm).counts()[i] == match bitfield {
                    Some(b) => if b.has(i) {
                        crate::piece_manager::count_down(old(pm).counts()[i])
                    } else {
                        old(pm).counts()[i]
                    },
                    None => old(pm).counts()[i],
                },
    {
        match bitfield {
            Some(b) => pm.remove_peer(b),
            None => {},
        }
        match self.assigned_piece {
            Some(p) => {
                pm.mark_failed(p);
                self.assigned_piece = None;
            },
            None => {},
        }
    }

    /// Decides what a message from the peer changes. A choke empties the
    /// pipeline; an unchoke fills it; a block is stored and, unless we are
    /// choked, the pipeline is filled again. Every other message changes
    /// nothing.
    pub fn handle_message(&mut self, message: PeerMessage, pm: &mut PieceManager, bm: &mut BlockManager) -> (r: SessionAction)
        requires
            old(self).wf(),
            old(pm).wf(),
            old(bm).wf(),
            old(pm).spec_total_pieces() == old(self).total_pieces,
            message matches PeerMessage::Piece { block, .. } ==> block@.len() <= u32::MAX,
        ensures
            final(self).wf(),
            final(pm).wf(),
            final(bm).wf(),
            final(self).same_torrent(old(self)),
            final(pm).spec_total_pieces() == old(pm).spec_total_pieces(),
            final(pm).completed_set() == old(pm).completed_set(),
            final(pm).counts() == old(pm).counts(),
            final(self).state.interested == old(self).state.interested,
            match message {
                PeerMessage::Choke => {
                    &&& final(self).state.choked
                    &&& final(self).pending_requests@.len() == 0
                    &&& final(self).assigned_piece == old(self).assigned_piece
                    &&& r.requests@.len() == 0 && r.completed is None && r.downloaded == 0
                    &&& *final(pm) == *old(pm)
                    &&& *final(bm) == *old(bm)
                },
                PeerMessage::Unchoke => {
                    &&& !final(self).state.choked
                    &&& r.completed is None && r.downloaded == 0
                    &&& final(self).pending_requests@ == old(self).pending_requests@ + r.requests@
                    &&& old(self).pending_requests@.len() <= old(self).max_requests
                        ==> final(self).pending_requests@.len() <= final(self).max_requests
                    &&& final(self).pending_requests@.len() < final(self).max_requests ==> match final(self).assigned_piece {
                        None => forall|q: u32| !(#[trigger] old(pm).selectable(q)),
                        Some(p) => forall|j: int|
                            !final(bm).is_free(p, final(self).spec_piece_len(p), j),
                    }
                    &&& forall|k: int|
                        0 <= k < r.requests@.len() ==> {
                            &&& final(self).assigned_piece == Some((#[trigger] r.requests@[k]).piece_index)
                            &&& final(bm).pending().contains(r.requests@[k])
                            &&& !old(bm).pending().contains(r.requests@[k])
                        }
                },
                PeerMessage::Piece { index, begin, block } => {
                    let info = BlockInfo { piece_index: index, offset: begin, length: block@.len() as u32 };
                    let stored = after_store(old(bm).pieces(), info, block@);
                    &&& final(self).state.choked == old(self).state.choked
                    &&& r.downloaded == block@.len()
                    &&& (r.completed is Some <==> stored.contains_key(index) && all_present(
                        stored[index],
                    ))
                    &&& r.completed matches Some(c) ==> c.index == index && c.data@ == concat_slots(
                        stored[index],
                    )
                    &&& old(self).state.choked ==> {
                        &&& r.requests@.len() == 0
                        &&& final(bm).pending() == old(bm).pending().remove(info)
                        &&& *final(pm) == *old(pm)
                    }
                    &&& !old(self).state.choked ==> forall|k: int|
                        0 <= k < r.requests@.len() ==> {
                            &&& final(self).assigned_piece == Some((#[trigger] r.requests@[k]).piece_index)
                            &&& final(bm).pending().contains(r.requests@[k])
                        }
                    &&& old(self).pending_requests@.len() <= old(self).max_requests
                        ==> final(self).pending_requests@.len() <= final(self).max_requests
                    &&& !old(self).state.choked ==> (final(self).pending_requests@.len()
                        < final(self).max_requests ==> match final(self).assigned_piece {
                        None => forall|q: u32| !(#[trigger] old(pm).selectable(q)),
                        Some(p) => forall|j: int|
                            !final(bm).is_free(p, final(self).spec_piece_len(p), j),
                    })
                },
                _ => {
                    &&& final(self).state == old(self).state
                    &&& final(self).pending_requests@ == old(self).pending_requests@
                    &&& final(self).assigned_piece == old(self).assigned_piece
                    &&& r.requests@.len() == 0 && r.completed is None && r.downloaded == 0
                    &&& *final(pm) == *old(pm)
                    &&& *final(bm) == *old(bm)
                },
            },
    {
        match message {
            PeerMessage::Choke => {
                self.state.choke();
                self.pending_requests = Vec::new();
                SessionAction { requests: Vec::new(), completed: None, downloaded: 0 }
            },
            PeerMessage::Unchoke => {
                self.state.unchoke();
                let requests = self.request_more_blocks(pm, bm);
                SessionAction { requests, completed: None, downloaded: 0 }
            },
            PeerMessage::Piece { index, begin, block } => {
                let ghost before = self.pending_requests@;
                let mut action = self.handle_piece_data(index, begin, block, bm);
                proof {
                    before.lemma_filter_len(
                        |b: BlockInfo| !(b.piece_index == index && b.offset == begin),
                    );
                }
                if !self.state.is_choked() {
                    action.requests = self.request_more_blocks(pm, bm);
                }
                action
            },
            _ => SessionAction { requests: Vec::new(), completed: None, downloaded: 0 },
        }
    }
}

/// Settles a piece after the verifier judged it and, for a verified piece,
/// the disk answered: a piece verified and written is completed and
/// counted; a corrupt piece, or one the disk failed to take, goes back to
/// the pool; a piece with no such index changes nothing.
pub fn settle_piece(
    pm: &mut PieceManager,
    stats: &mut DownloadStats,
    index: u32,
    verdict: PieceVerdict,
    written: bool,
)
    requires
        old(pm).wf(),
    ensures
        final(pm).wf(),
        final(pm).spec_total_pieces() == old(pm).spec_total_pieces(),
        final(stats).spec_downloaded() == old(stats).spec_downloaded(),
        final(stats).spec_total_pieces() == old(stats).spec_total_pieces(),
        verdict == PieceVerdict::OutOfRange ==> *final(pm) == *old(pm) && final(stats).spec_pieces_completed()
            == old(stats).spec_pieces_completed(),
        (verdict == PieceVerdict::Corrupt || (verdict == PieceVerdict::Verified && !written)) ==> {
            &&& final(pm).pending_set() == old(pm).pending_set().remove(index)
            &&& final(pm).completed_set() == old(pm).completed_set()
            &&& final(pm).counts() == old(pm).counts()
            &&& final(stats).spec_pieces_completed() == old(stats).spec_pieces_completed()
        },
        verdict == PieceVerdict::Verified && written ==> {
            &&& index < old(pm).spec_total_pieces() ==> final(pm).completed_set()
                == old(pm).completed_set().insert(index) && final(pm).pending_set()
                == old(pm).pending_set().remove(index)
            &&& final(stats).spec_pieces_completed() == wrapped_sum(
                old(stats).spec_pieces_completed(),
                1,
            )
        },
{
    match verdict {
        PieceVerdict::OutOfRange => {},
        PieceVerdict::Corrupt => pm.mark_failed(index),
        PieceVerdict::Verified => {
            if written {
                pm.mark_completed(index);
                stats.increment_pieces();
            } else {
                pm.mark_failed(index);
            }
        },
    }
}

} // verus!
