use vstd::prelude::*;

verus! {

/// Whether piece `i` is marked in `data`: bit `7 - i % 8` of byte `i / 8`.
/// Indices past the end of the bytes are never marked.
pub open spec fn has_bit(data: Seq<u8>, i: int) -> bool {
    0 <= i && i / 8 < data.len() && data[i / 8] & (1u8 << ((7 - i % 8) as u8)) != 0
}

/// The indices up to which an iterator over `data` looks: every bit, but no
/// further than the largest piece index.
pub open spec fn iter_end(data: Seq<u8>) -> int {
    if data.len() * 8 <= u32::MAX as int + 1 {
        (data.len() * 8) as int
    } else {
        u32::MAX as int + 1
    }
}

/// The pieces that a peer holds, one bit per piece, most significant bit first.
#[derive(Debug)]
pub struct Bitfield {
    pub data: Vec<u8>,
}

impl Bitfield {
    pub open spec fn bytes(&self) -> Seq<u8> {
        self.data@
    }

    pub open spec fn has(&self, i: int) -> bool {
        has_bit(self.data@, i)
    }

    pub fn from_bytes(bytes: Vec<u8>) -> (r: Bitfield)
        ensures
            r.data@ == bytes@,
    {
        Bitfield { data: bytes }
    }

    pub fn has_piece(&self, index: usize) -> (r: bool)
        ensures
            r == self.has(index as int),
    {
        let byte_index = index / 8;
        let bit_index = index % 8;
        if byte_index >= self.data.len() {
            return false;
        }
        self.data[byte_index] & (1u8 << ((7 - bit_index) as u8)) != 0
    }

    /// The number of bits, which is eight per byte.
    pub fn len(&self) -> (r: usize)
        requires
            self.data@.len() * 8 <= usize::MAX,
        ensures
            r == self.data@.len() * 8,
    {
        self.data.len() * 8
    }

    /// A bitfield of `num_bytes` bytes that marks exactly those of `pieces`
    /// that fit in it.
    pub fn from_pieces(num_bytes: usize, pieces: &Vec<u32>) -> (r: Bitfield)
        ensures
            r.data@.len() == num_bytes,
            forall|i: int|
                #[trigger] r.has(i) <==> 0 <= i < num_bytes * 8 && pieces@.contains(i as u32)
                    && i <= u32::MAX,
    {
        let mut data: Vec<u8> = Vec::new();
        let mut n: usize = 0;
        while n < num_bytes
            invariant
                n <= num_bytes,
                data@.len() == n,
                forall|j: int| 0 <= j < n ==> data@[j] == 0,
            decreases num_bytes - n,
        {
            data.push(0);
            n = n + 1;
        }
        proof {
            assert forall|i: int| !has_bit(data@, i) by {
                if 0 <= i && i / 8 < data@.len() {
                    let m = (1u8 << ((7 - i % 8) as u8));
                    assert(0u8 & m == 0) by (bit_vector);
                }
            }
        }
        let mut k: usize = 0;
        while k < pieces.len()
            invariant
                k <= pieces@.len(),
                data@.len() == num_bytes,
                forall|i: int|
                    #[trigger] has_bit(data@, i) <==> 0 <= i < num_bytes * 8 && i <= u32::MAX && exists|
                        t: int,
                    |
                        0 <= t < k && pieces@[t] as int == i,
            decreases pieces@.len() - k,
        {
            let p = pieces[k];
            let byte = (p / 8) as usize;
            let ghost before = data@;
            if byte < data.len() {
                let shift = (7 - p % 8) as u8;
                let old_byte = data[byte];
                data.set(byte, old_byte | (1u8 << shift));
                proof {
                    assert forall|i: int|
                        #[trigger] has_bit(data@, i) <==> has_bit(before, i) || i == p as int by {
                        if 0 <= i && i / 8 < num_bytes {
                            let sh = (7 - i % 8) as u8;
                            if i / 8 == byte as int {
                                lemma_set_bit(old_byte, shift, sh);
                            }
                        }
                    }
                }
            }
            proof {
                assert forall|i: int|
                    #[trigger] has_bit(data@, i) <==> 0 <= i < num_bytes * 8 && i <= u32::MAX
                        && exists|t: int| 0 <= t < k + 1 && pieces@[t] as int == i by {
                    if has_bit(data@, i) && i != p as int {
                        assert(has_bit(before, i));
                        let t = choose|t: int| 0 <= t < k && pieces@[t] as int == i;
                        assert(0 <= t < k + 1 && pieces@[t] as int == i);
                    }
                    if i == p as int && 0 <= i < num_bytes * 8 {
                        assert(0 <= k < k + 1 && pieces@[k as int] as int == i);
                    }
                    if 0 <= i < num_bytes * 8 && i <= u32::MAX && exists|t: int|
                        0 <= t < k + 1 && pieces@[t] as int == i {
                        let t = choose|t: int| 0 <= t < k + 1 && pieces@[t] as int == i;
                        if t < k {
                            assert(has_bit(before, i));
                        }
                    }
                }
            }
            k = k + 1;
        }
        proof {
            assert forall|i: int|
                #[trigger] has_bit(data@, i) <==> 0 <= i < num_bytes * 8 && pieces@.contains(i as u32)
                    && i <= u32::MAX by {
                if 0 <= i <= u32::MAX && pieces@.contains(i as u32) {
                    let t = choose|t: int| 0 <= t < pieces@.len() && pieces@[t] == i as u32;
                    assert(pieces@[t] as int == i);
                }
                if has_bit(data@, i) {
                    let t = choose|t: int| 0 <= t < pieces@.len() && pieces@[t] as int == i;
                    assert(pieces@[t] == i as u32);
                }
            }
        }
        Bitfield { data }
    }

    /// Walks the marked pieces in ascending order.
    pub fn iter(&self) -> (r: BitfieldIterator<'_>)
        ensures
            r.bitfield == self,
            r.index == 0,
    {
        BitfieldIterator { bitfield: self, index: 0 }
    }
}

/// A cursor over the marked pieces of a bitfield; `index` is the first
/// piece not looked at yet.
pub struct BitfieldIterator<'a> {
    pub bitfield: &'a Bitfield,
    pub index: u64,
}

impl<'a> BitfieldIterator<'a> {
    /// The next marked piece at or after the cursor, or `None` when no piece
    /// is left.
    pub fn next(&mut self) -> (r: Option<u32>)
        requires
            old(self).index <= iter_end(old(self).bitfield.data@),
        ensures
            final(self).bitfield == old(self).bitfield,
            final(self).index <= iter_end(final(self).bitfield.data@),
            match r {
                Some(p) => {
                    &&& old(self).index <= p
                    &&& old(self).bitfield.has(p as int)
                    &&& forall|j: int|
                        old(self).index <= j < p ==> !old(self).bitfield.has(j)
                    &&& final(self).index == p + 1
                },
                None => {
                    &&& forall|j: int|
                        old(self).index <= j < iter_end(old(self).bitfield.data@)
                            ==> !old(self).bitfield.has(j)
                    &&& final(self).index == iter_end(old(self).bitfield.data@)
                },
            },
    {
        let n = self.bitfield.data.len();
        let end: u64 = if n as u64 <= 0x2000_0000 {
            (n as u64) * 8
        } else {
            0x1_0000_0000
        };
        let start = self.index;
        while self.index < end
            invariant
                self.bitfield == old(self).bitfield,
                n == self.bitfield.data@.len(),
                end == iter_end(self.bitfield.data@),
                start == old(self).index,
                start <= self.index <= end,
                forall|j: int| start <= j < self.index ==> !self.bitfield.has(j),
            decreases end - self.index,
        {
            let i = self.index;
            self.index = self.index + 1;
            let byte = self.bitfield.data[(i / 8) as usize];
            if byte & (1u8 << ((7 - i % 8) as u8)) != 0 {
                return Some(i as u32);
            }
        }
        None
    }
}

proof fn lemma_set_bit(x: u8, s: u8, t: u8)
    requires
        s < 8,
        t < 8,
    ensures
        ((x | (1u8 << s)) & (1u8 << t) != 0) <==> ((x & (1u8 << t) != 0) || s == t),
{
    assert(((x | (1u8 << s)) & (1u8 << t) != 0) <==> ((x & (1u8 << t) != 0) || s == t))
        by (bit_vector)
        requires
            s < 8,
            t < 8,
    ;
}

proof fn lemma_bits_decide_byte(x: u8, y: u8)
    requires
        forall|t: u8| t < 8 ==> ((x & (1u8 << t) != 0) <==> (y & (1u8 << t) != 0)),
    ensures
        x == y,
{
    assert((x & (1u8 << 0u8) != 0) <==> (y & (1u8 << 0u8) != 0));
    assert((x & (1u8 << 1u8) != 0) <==> (y & (1u8 << 1u8) != 0));
    assert((x & (1u8 << 2u8) != 0) <==> (y & (1u8 << 2u8) != 0));
    assert((x & (1u8 << 3u8) != 0) <==> (y & (1u8 << 3u8) != 0));
    assert((x & (1u8 << 4u8) != 0) <==> (y & (1u8 << 4u8) != 0));
    assert((x & (1u8 << 5u8) != 0) <==> (y & (1u8 << 5u8) != 0));
    assert((x & (1u8 << 6u8) != 0) <==> (y & (1u8 << 6u8) != 0));
    assert((x & (1u8 << 7u8) != 0) <==> (y & (1u8 << 7u8) != 0));
    assert(x == y) by (bit_vector)
        requires
            (x & (1u8 << 0u8) != 0) <==> (y & (1u8 << 0u8) != 0),
            (x & (1u8 << 1u8) != 0) <==> (y & (1u8 << 1u8) != 0),
            (x & (1u8 << 2u8) != 0) <==> (y & (1u8 << 2u8) != 0),
            (x & (1u8 << 3u8) != 0) <==> (y & (1u8 << 3u8) != 0),
            (x & (1u8 << 4u8) != 0) <==> (y & (1u8 << 4u8) != 0),
            (x & (1u8 << 5u8) != 0) <==> (y & (1u8 << 5u8) != 0),
            (x & (1u8 << 6u8) != 0) <==> (y & (1u8 << 6u8) != 0),
            (x & (1u8 << 7u8) != 0) <==> (y & (1u8 << 7u8) != 0),
    ;
}

/// A bitfield is the set of pieces that it marks: two byte strings of one
/// length that mark the same pieces are the same bytes. So the pieces that
/// `has_piece` reports, written back with `from_pieces` into as many bytes,
/// give back the same bytes.
pub proof fn lemma_bitfield_round_trip(a: Seq<u8>, b: Seq<u8>)
    requires
        a.len() == b.len(),
        forall|i: int| has_bit(a, i) == has_bit(b, i),
    ensures
        a == b,
{
    assert forall|j: int| 0 <= j < a.len() implies a[j] == b[j] by {
        assert forall|t: u8| t < 8 implies ((a[j] & (1u8 << t) != 0) <==> (b[j] & (1u8
            << t) != 0)) by {
            let i = 8 * j + 7 - t;
            assert(i / 8 == j && (7 - i % 8) as u8 == t);
            assert(has_bit(a, i) == has_bit(b, i));
        }
        lemma_bits_decide_byte(a[j], b[j]);
    }
    assert(a =~= b);
}

} // verus!
