use vstd::prelude::*;

verus! {

/// The unit of a request on the wire: 16 KiB.
pub const BLOCK_SIZE: u32 = 16384;

/// One block of one piece: the key of a request and of its pending entry.
#[derive(Debug, Clone, Copy, PartialEq, Eq, Hash, Structural)]
pub struct BlockInfo {
    pub piece_index: u32,
    pub offset: u32,
    pub length: u32,
}

/// How many blocks a piece of `size` bytes has: `size / 16384` rounded up.
pub open spec fn block_count(size: int) -> int {
    if size % (BLOCK_SIZE as int) == 0 {
        size / (BLOCK_SIZE as int)
    } else {
        size / (BLOCK_SIZE as int) + 1
    }
}

/// The length of block `i` of a piece of `size` bytes: a full block, or what
/// is left of the piece.
pub open spec fn block_length(size: int, i: int) -> int {
    if size - i * (BLOCK_SIZE as int) < BLOCK_SIZE as int {
        size - i * (BLOCK_SIZE as int)
    } else {
        BLOCK_SIZE as int
    }
}

/// Block `i` of piece `index`, a piece of `size` bytes.
pub open spec fn block_at(index: u32, size: int, i: int) -> BlockInfo {
    BlockInfo {
        piece_index: index,
        offset: (i * (BLOCK_SIZE as int)) as u32,
        length: block_length(size, i) as u32,
    }
}

/// A block that lies inside its piece starts before the piece ends.
pub proof fn lemma_block_inside(size: int, i: int)
    requires
        0 <= size,
        0 <= i < block_count(size),
    ensures
        i * (BLOCK_SIZE as int) < size,
        0 < block_length(size, i) <= BLOCK_SIZE,
{
    assert(i * 16384 < size) by (nonlinear_arith)
        requires
            0 <= i,
            size % 16384 == 0 ==> i < size / 16384,
            size % 16384 != 0 ==> i < size / 16384 + 1,
            0 <= size,
    {
        assert(size == 16384 * (size / 16384) + size % 16384);
    }
}

/// A piece whose size is not a whole number of blocks ends in a short block:
/// it has `size / 16384` rounded up blocks, and the last of them holds
/// `size % 16384` bytes, or a full block where the size divides evenly.
pub proof fn lemma_last_block(size: int)
    requires
        0 < size,
    ensures
        block_count(size) >= 1,
        block_length(size, block_count(size) - 1) == if size % (BLOCK_SIZE as int) == 0 {
            BLOCK_SIZE as int
        } else {
            size % (BLOCK_SIZE as int)
        },
{
    let q = size / 16384;
    let r = size % 16384;
    assert(size == 16384 * q + r) by (nonlinear_arith)
        requires
            q == size / 16384,
            r == size % 16384,
    {
    }
    if r == 0 {
        assert(q >= 1);
        assert((q - 1) * 16384 == 16384 * q - 16384) by (nonlinear_arith);
    } else {
        assert(q * 16384 == 16384 * q) by (nonlinear_arith);
    }
}

} // verus!
