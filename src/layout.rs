use vstd::prelude::*;

verus! {

/// Where file `f` begins in the concatenation of the files, in torrent order.
pub open spec fn file_start(sizes: Seq<u64>, f: int) -> int
    decreases f,
{
    if f <= 0 || sizes.len() == 0 {
        0
    } else if f > sizes.len() {
        file_start(sizes, sizes.len() as int)
    } else {
        file_start(sizes, f - 1) + sizes[f - 1]
    }
}

/// The length of the concatenation of the files.
pub open spec fn total_size(sizes: Seq<u64>) -> int {
    file_start(sizes, sizes.len() as int)
}

/// A run of a piece's bytes that lands in one file: `len` bytes from
/// `data_start` in the piece go to `file_offset` in file `file_index`.
#[derive(Debug, Clone, Copy, PartialEq, Eq, Structural)]
pub struct WriteSegment {
    pub file_index: usize,
    pub file_offset: u64,
    pub data_start: usize,
    pub len: usize,
}

/// How many of the piece's bytes the segments place: up to the end of the
/// last one.
pub open spec fn covered(segs: Seq<WriteSegment>) -> int {
    if segs.len() == 0 {
        0
    } else {
        segs.last().data_start + segs.last().len
    }
}

/// Each segment lies inside its file, at the place of the concatenation
/// where its bytes belong; the segments follow each other through the piece
/// without gap or overlap, and through the files in order.
pub open spec fn segments_ok(sizes: Seq<u64>, base: int, segs: Seq<WriteSegment>) -> bool {
    &&& forall|k: int|
        0 <= k < segs.len() ==> {
            let s = #[trigger] segs[k];
            &&& s.file_index < sizes.len()
            &&& s.len > 0
            &&& s.file_offset + s.len <= sizes[s.file_index as int]
            &&& file_start(sizes, s.file_index as int) + s.file_offset == base + s.data_start
        }
    &&& forall|k: int|
        0 <= k < segs.len() - 1 ==> {
            &&& (#[trigger] segs[k]).file_index < segs[k + 1].file_index
            &&& segs[k + 1].data_start == segs[k].data_start + segs[k].len
        }
    &&& segs.len() > 0 ==> segs[0].data_start == 0
}

/// How much of `len` bytes from `base` lies before `limit`.
pub open spec fn part_before(base: int, len: int, limit: int) -> int {
    if limit <= base {
        0
    } else if limit - base < len {
        limit - base
    } else {
        len
    }
}

proof fn lemma_file_start_step(sizes: Seq<u64>, f: int)
    requires
        0 <= f < sizes.len(),
    ensures
        file_start(sizes, f + 1) == file_start(sizes, f) + sizes[f],
        file_start(sizes, f) >= 0,
    decreases f,
{
    if f > 0 {
        lemma_file_start_step(sizes, f - 1);
    }
}

proof fn lemma_file_start_grows(sizes: Seq<u64>, f: int, g: int)
    requires
        0 <= f <= g <= sizes.len(),
    ensures
        file_start(sizes, f) <= file_start(sizes, g),
    decreases g - f,
{
    if f < g {
        lemma_file_start_step(sizes, g - 1);
        lemma_file_start_grows(sizes, f, g - 1);
    }
}

/// Splits piece `piece_index`, of `data_len` bytes, over the files: the
/// piece starts at `piece_index * piece_length` in the concatenation of the
/// files, and each file takes the bytes that overlap it. Bytes past the end
/// of the last file are not placed.
pub fn plan_piece_write(
    file_sizes: &Vec<u64>,
    piece_length: u32,
    piece_index: u32,
    data_len: usize,
) -> (r: Vec<WriteSegment>)
    requires
        total_size(file_sizes@) <= u64::MAX,
    ensures
        segments_ok(file_sizes@, piece_index * piece_length, r@),
        covered(r@) == part_before(piece_index * piece_length, data_len as int, total_size(file_sizes@)),
{
    assert(piece_index as int * piece_length as int <= u64::MAX) by (nonlinear_arith)
        requires
            piece_index <= u32::MAX,
            piece_length <= u32::MAX,
    {
    }
    let base: u64 = piece_index as u64 * piece_length as u64;
    let ghost sizes = file_sizes@;
    let mut segs: Vec<WriteSegment> = Vec::new();
    let mut start: u64 = 0;
    let mut done: usize = 0;
    let mut f: usize = 0;
    proof {
        lemma_file_start_grows(sizes, 0, sizes.len() as int);
    }
    while f < file_sizes.len() && done < data_len
        invariant
            f <= sizes.len(),
            sizes == file_sizes@,
            total_size(sizes) <= u64::MAX,
            start == file_start(sizes, f as int),
            start <= total_size(sizes),
            done == part_before(base as int, data_len as int, start as int),
            segments_ok(sizes, base as int, segs@),
            covered(segs@) == done,
            segs@.len() > 0 ==> segs@.last().file_index < f,
        decreases sizes.len() - f,
    {
        let size = file_sizes[f];
        proof {
            lemma_file_start_step(sizes, f as int);
            lemma_file_start_grows(sizes, f as int + 1, sizes.len() as int);
        }
        let end = start + size;
        let pos = base + done as u64;
        if pos < end {
            let off = pos - start;
            let room = size - off;
            let want = (data_len - done) as u64;
            let n: u64 = if want < room {
                want
            } else {
                room
            };
            let seg = WriteSegment {
                file_index: f,
                file_offset: off,
                data_start: done,
                len: n as usize,
            };
            let ghost old_segs = segs@;
            segs.push(seg);
            proof {
                assert(segs@.last() == seg);
                assert forall|k: int| 0 <= k < segs@.len() - 1 implies {
                    &&& (#[trigger] segs@[k]).file_index < segs@[k + 1].file_index
                    &&& segs@[k + 1].data_start == segs@[k].data_start + segs@[k].len
                } by {
                    if k < old_segs.len() - 1 {
                        assert(segs@[k] == old_segs[k] && segs@[k + 1] == old_segs[k + 1]);
                    } else {
                        assert(segs@[k] == old_segs.last());
                    }
                }
                assert forall|k: int| 0 <= k < segs@.len() implies {
                    let s = #[trigger] segs@[k];
                    &&& s.file_index < sizes.len()
                    &&& s.len > 0
                    &&& s.file_offset + s.len <= sizes[s.file_index as int]
                    &&& file_start(sizes, s.file_index as int) + s.file_offset == base + s.data_start
                } by {
                    if k < old_segs.len() {
                        assert(segs@[k] == old_segs[k]);
                    }
                }
            }
            done = done + n as usize;
        }
        start = end;
        f = f + 1;
    }
    proof {
        if f == sizes.len() {
        } else {
            assert(done == data_len);
        }
    }
    segs
}

/// Whether one of `segs` writes offset `o` of file `f`.
pub open spec fn written_by(segs: Seq<WriteSegment>, f: int, o: int) -> bool {
    exists|j: int|
        0 <= j < segs.len() && (#[trigger] segs[j]).file_index == f && segs[j].file_offset <= o
            < segs[j].file_offset + segs[j].len
}

/// What a piece write leaves at offset `o` of file `f`: where the byte's
/// place in the concatenation of the files falls inside the piece, the
/// piece's byte for that place; elsewhere the byte that was there.
pub open spec fn written_byte(
    sizes: Seq<u64>,
    base: int,
    data: Seq<u8>,
    before: Seq<Seq<u8>>,
    f: int,
    o: int,
) -> u8 {
    let v = file_start(sizes, f) + o;
    if base <= v < base + data.len() {
        data[v - base]
    } else {
        before[f][o]
    }
}

/// Segments that follow each other from the start of the piece leave no
/// byte before their end unplaced.
proof fn lemma_segments_cover(sizes: Seq<u64>, base: int, segs: Seq<WriteSegment>, d: int)
    requires
        segments_ok(sizes, base, segs),
        0 <= d < covered(segs),
    ensures
        exists|j: int|
            0 <= j < segs.len() && (#[trigger] segs[j]).data_start <= d < segs[j].data_start
                + segs[j].len,
    decreases segs.len(),
{
    let n = segs.len() as int;
    if d >= segs[n - 1].data_start {
        assert(segs[n - 1].data_start <= d < segs[n - 1].data_start + segs[n - 1].len);
    } else {
        let init = segs.drop_last();
        assert(n >= 2);
        assert(segs[n - 2].file_index < segs[n - 1].file_index);
        assert(covered(init) == segs[n - 1].data_start);
        assert forall|k: int| 0 <= k < init.len() - 1 implies {
            &&& (#[trigger] init[k]).file_index < init[k + 1].file_index
            &&& init[k + 1].data_start == init[k].data_start + init[k].len
        } by {
            assert(init[k] == segs[k] && init[k + 1] == segs[k + 1]);
        }
        assert forall|k: int| 0 <= k < init.len() implies {
            let s = #[trigger] init[k];
            &&& s.file_index < sizes.len()
            &&& s.len > 0
            &&& s.file_offset + s.len <= sizes[s.file_index as int]
            &&& file_start(sizes, s.file_index as int) + s.file_offset == base + s.data_start
        } by {
            assert(init[k] == segs[k]);
        }
        lemma_segments_cover(sizes, base, init, d);
        let j = choose|j: int|
            0 <= j < init.len() && (#[trigger] init[j]).data_start <= d < init[j].data_start
                + init[j].len;
        assert(segs[j] == init[j]);
    }
}

/// A place in the concatenation of the files lies in one file only.
proof fn lemma_one_file(sizes: Seq<u64>, a: int, x: int, b: int, y: int)
    requires
        0 <= a < sizes.len(),
        0 <= b < sizes.len(),
        0 <= x < sizes[a],
        0 <= y < sizes[b],
        file_start(sizes, a) + x == file_start(sizes, b) + y,
    ensures
        a == b,
        x == y,
{
    if a < b {
        lemma_file_start_step(sizes, a);
        lemma_file_start_grows(sizes, a + 1, b);
    } else if b < a {
        lemma_file_start_step(sizes, b);
        lemma_file_start_grows(sizes, b + 1, a);
    }
}

/// A torrent's files held in memory: the stand-in for the files on disk.
pub struct MemoryFiles {
    files: Vec<Vec<u8>>,
    sizes: Vec<u64>,
    piece_length: u32,
}

impl MemoryFiles {
    /// The bytes of each file.
    pub closed spec fn contents(&self) -> Seq<Seq<u8>> {
        self.files@.map_values(|v: Vec<u8>| v@)
    }

    pub closed spec fn file_sizes(&self) -> Seq<u64> {
        self.sizes@
    }

    pub closed spec fn spec_piece_length(&self) -> u32 {
        self.piece_length
    }

    pub open spec fn wf(&self) -> bool {
        &&& self.contents().len() == self.file_sizes().len()
        &&& forall|f: int|
            0 <= f < self.file_sizes().len() ==> (#[trigger] self.contents()[f]).len()
                == self.file_sizes()[f]
        &&& total_size(self.file_sizes()) <= u64::MAX
    }

    /// Files of the given sizes, all bytes zero.
    pub fn new(file_sizes: &Vec<u64>, piece_length: u32) -> (r: MemoryFiles)
        requires
            total_size(file_sizes@) <= u64::MAX,
            forall|f: int| 0 <= f < file_sizes@.len() ==> file_sizes@[f] <= usize::MAX,
        ensures
            r.wf(),
            r.file_sizes() == file_sizes@,
            r.spec_piece_length() == piece_length,
            forall|f: int, o: int|
                0 <= f < file_sizes@.len() && 0 <= o < file_sizes@[f] ==> r.contents()[f][o] == 0,
    {
        let mut files: Vec<Vec<u8>> = Vec::new();
        let mut sizes: Vec<u64> = Vec::new();
        let mut f: usize = 0;
        while f < file_sizes.len()
            invariant
                f <= file_sizes@.len(),
                forall|g: int| 0 <= g < file_sizes@.len() ==> file_sizes@[g] <= usize::MAX,
                files@.len() == f,
                sizes@ == file_sizes@.subrange(0, f as int),
                forall|g: int|
                    0 <= g < f ==> (#[trigger] files@[g])@ == Seq::new(
                        file_sizes@[g] as nat,
                        |i: int| 0u8,
                    ),
            decreases file_sizes@.len() - f,
        {
            let size = file_sizes[f] as usize;
            let mut bytes: Vec<u8> = Vec::new();
            let mut i: usize = 0;
            while i < size
                invariant
                    i <= size,
                    bytes@ == Seq::new(i as nat, |k: int| 0u8),
                decreases size - i,
            {
                bytes.push(0);
                i = i + 1;
                assert(bytes@ =~= Seq::new(i as nat, |k: int| 0u8));
            }
            files.push(bytes);
            sizes.push(file_sizes[f]);
            f = f + 1;
            assert(sizes@ =~= file_sizes@.subrange(0, f as int));
        }
        assert(sizes@ =~= file_sizes@);
        MemoryFiles { files, sizes, piece_length }
    }

    /// The bytes of file `f`.
    pub fn file(&self, f: usize) -> (r: &Vec<u8>)
        requires
            f < self.contents().len(),
        ensures
            r@ == self.contents()[f as int],
    {
        &self.files[f]
    }

    /// Writes piece `piece_index` into the files: every byte whose place in
    /// the concatenation of the files lies inside the piece takes the
    /// piece's byte for that place, and every other byte stays as it was.
    pub fn write_piece(&mut self, piece_index: u32, data: &[u8])
        requires
            old(self).wf(),
        ensures
            final(self).wf(),
            final(self).file_sizes() == old(self).file_sizes(),
            final(self).spec_piece_length() == old(self).spec_piece_length(),
            forall|f: int, o: int|
                0 <= f < old(self).file_sizes().len() && 0 <= o < old(self).file_sizes()[f]
                    ==> #[trigger] final(self).contents()[f][o] == written_byte(
                    old(self).file_sizes(),
                    piece_index * old(self).spec_piece_length(),
                    data@,
                    old(self).contents(),
                    f,
                    o,
                ),
    {
        let ghost sizes = self.sizes@;
        let ghost base = piece_index * self.piece_length;
        let ghost before = self.contents();
        let segs = plan_piece_write(&self.sizes, self.piece_length, piece_index, data.len());
        let mut k: usize = 0;
        while k < segs.len()
            invariant
                k <= segs@.len(),
                self.wf(),
                self.sizes@ == sizes,
                self.piece_length == old(self).piece_length,
                base == piece_index * self.piece_length,
                before.len() == sizes.len(),
                segments_ok(sizes, base, segs@),
                covered(segs@) == part_before(base, data@.len() as int, total_size(sizes)),
                written_so_far(sizes, base, data@, before, segs@, k as int, self.contents()),
            decreases segs@.len() - k,
        {
            let s = segs[k];
            proof {
                assert(segs@[k as int] == s);
                lemma_segments_end(sizes, base, segs@, k as int);
            }
            let fi = s.file_index;
            let ghost mid = self.contents();
            let mut file = self.files.remove(fi);
            proof {
                assert(file@ == mid[fi as int]);
                assert(mid[fi as int].len() == sizes[fi as int]);
                assert(s.file_offset + s.len <= file@.len());
                assert(s.data_start + s.len <= data@.len());
            }
            let flen = file.len();
            proof {
                assert(s.file_offset <= flen);
            }
            let at = s.file_offset as usize;
            assert(at as int == s.file_offset);
            copy_into(&mut file, at, data, s.data_start, s.len);
            let ghost copied = file@;
            self.files.insert(fi, file);
            proof {
                assert(self.contents() =~= mid.update(fi as int, copied));
                assert(self.contents()[fi as int] == copied);
                assert forall|o: int| 0 <= o < copied.len() implies #[trigger] copied[o] == if s.file_offset
                    <= o < s.file_offset + s.len {
                    data@[s.data_start + o - s.file_offset]
                } else {
                    mid[fi as int][o]
                } by {
                }
                lemma_write_step(sizes, base, data@, before, segs@, k as int, mid, self.contents());
            }
            k = k + 1;
        }
        proof {
            assert(segs@.take(k as int) =~= segs@);
            assert forall|f: int, o: int|
                0 <= f < sizes.len() && 0 <= o < sizes[f] implies #[trigger] self.contents()[f][o]
                    == written_byte(sizes, base, data@, before, f, o) by {
                let v = file_start(sizes, f) + o;
                assert(self.contents()[f][o] == if written_by(segs@.take(k as int), f, o) {
                    data@[file_start(sizes, f) + o - base]
                } else {
                    before[f][o]
                });
                if written_by(segs@, f, o) {
                    let j = choose|j: int|
                        0 <= j < segs@.len() && (#[trigger] segs@[j]).file_index == f
                            && segs@[j].file_offset <= o < segs@[j].file_offset + segs@[j].len;
                    let sj = segs@[j];
                    assert(file_start(sizes, f) + sj.file_offset == base + sj.data_start);
                    lemma_segments_end(sizes, base, segs@, j);
                } else {
                    if base <= v < base + data@.len() {
                        lemma_file_start_step(sizes, f);
                        lemma_file_start_grows(sizes, f + 1, sizes.len() as int);
                        let d = v - base;
                        lemma_segments_cover(sizes, base, segs@, d);
                        let j = choose|j: int|
                            0 <= j < segs@.len() && (#[trigger] segs@[j]).data_start <= d
                                < segs@[j].data_start + segs@[j].len;
                        let sj = segs@[j];
                        let o2 = sj.file_offset + (d - sj.data_start);
                        lemma_one_file(sizes, sj.file_index as int, o2, f, o);
                        assert(written_by(segs@, f, o));
                    }
                }
            }
        }
    }
}

/// The files after the first `k` segments of a piece write: bytes that one
/// of them wrote hold the piece's byte for their place, the rest are as
/// they were.
pub open spec fn written_so_far(
    sizes: Seq<u64>,
    base: int,
    data: Seq<u8>,
    before: Seq<Seq<u8>>,
    segs: Seq<WriteSegment>,
    k: int,
    now: Seq<Seq<u8>>,
) -> bool {
    forall|f: int, o: int|
        0 <= f < sizes.len() && 0 <= o < sizes[f] ==> #[trigger] now[f][o] == if written_by(
            segs.take(k),
            f,
            o,
        ) {
            data[file_start(sizes, f) + o - base]
        } else {
            before[f][o]
        }
}

proof fn lemma_write_step(
    sizes: Seq<u64>,
    base: int,
    data: Seq<u8>,
    before: Seq<Seq<u8>>,
    segs: Seq<WriteSegment>,
    k: int,
    mid: Seq<Seq<u8>>,
    now: Seq<Seq<u8>>,
)
    requires
        0 <= k < segs.len(),
        segments_ok(sizes, base, segs),
        written_so_far(sizes, base, data, before, segs, k, mid),
        mid.len() == sizes.len(),
        now.len() == sizes.len(),
        mid[segs[k].file_index as int].len() == sizes[segs[k].file_index as int],
        forall|f: int| 0 <= f < sizes.len() && f != segs[k].file_index ==> now[f] == mid[f],
        now[segs[k].file_index as int].len() == mid[segs[k].file_index as int].len(),
        forall|o: int|
            0 <= o < now[segs[k].file_index as int].len() ==> #[trigger] now[segs[k].file_index as int][o]
                == if segs[k].file_offset <= o < segs[k].file_offset + segs[k].len {
                data[segs[k].data_start + o - segs[k].file_offset]
            } else {
                mid[segs[k].file_index as int][o]
            },
    ensures
        written_so_far(sizes, base, data, before, segs, k + 1, now),
{
    let s = segs[k];
    let prev = segs.take(k);
    let next = segs.take(k + 1);
    assert(next[k] == s);
    assert forall|f: int, o: int| 0 <= f < sizes.len() && 0 <= o < sizes[f] implies #[trigger] now[f][o]
        == if written_by(next, f, o) {
        data[file_start(sizes, f) + o - base]
    } else {
        before[f][o]
    } by {
        if f == s.file_index as int && s.file_offset <= o < s.file_offset + s.len {
            assert(written_by(next, f, o));
            assert(file_start(sizes, f) + s.file_offset == base + s.data_start);
        } else {
            assert(now[f][o] == mid[f][o]);
            if written_by(next, f, o) {
                let j = choose|j: int|
                    0 <= j < next.len() && (#[trigger] next[j]).file_index == f && next[j].file_offset
                        <= o < next[j].file_offset + next[j].len;
                assert(j != k);
                assert(next[j] == prev[j]);
                assert(written_by(prev, f, o));
            }
            if written_by(prev, f, o) {
                let j = choose|j: int|
                    0 <= j < prev.len() && (#[trigger] prev[j]).file_index == f && prev[j].file_offset
                        <= o < prev[j].file_offset + prev[j].len;
                assert(next[j] == prev[j]);
            }
        }
    }
}

fn copy_into(file: &mut Vec<u8>, at: usize, data: &[u8], from: usize, len: usize)
    requires
        at + len <= old(file)@.len(),
        from + len <= data@.len(),
    ensures
        final(file)@.len() == old(file)@.len(),
        forall|o: int|
            0 <= o < final(file)@.len() ==> #[trigger] final(file)@[o] == if at <= o < at + len {
                data@[from + o - at]
            } else {
                old(file)@[o]
            },
{
    let n = file.len();
    let m = data.len();
    let mut t: usize = 0;
    while t < len
        invariant
            t <= len,
            n == file@.len(),
            m == data@.len(),
            at + len <= file@.len(),
            from + len <= data@.len(),
            file@.len() == old(file)@.len(),
            forall|o: int|
                0 <= o < file@.len() ==> #[trigger] file@[o] == if at <= o < at + t {
                    data@[from + o - at]
                } else {
                    old(file)@[o]
                },
        decreases len - t,
    {
        file.set(at + t, data[from + t]);
        t = t + 1;
    }
}

/// No segment reaches past the bytes that the segments cover.
proof fn lemma_segments_end(sizes: Seq<u64>, base: int, segs: Seq<WriteSegment>, j: int)
    requires
        segments_ok(sizes, base, segs),
        0 <= j < segs.len(),
    ensures
        segs[j].data_start + segs[j].len <= covered(segs),
    decreases segs.len() - j,
{
    if j < segs.len() - 1 {
        lemma_segments_end(sizes, base, segs, j + 1);
    }
}

/// Writing pieces never corrupts the files: when each written piece holds
/// the torrent's own bytes for its place, every byte of every file is, after
/// each write as before it, either the byte it started with or the
/// torrent's byte for its place.
pub proof fn lemma_writes_keep_content(
    sizes: Seq<u64>,
    base: int,
    data: Seq<u8>,
    content: Seq<u8>,
    initial: Seq<Seq<u8>>,
    before: Seq<Seq<u8>>,
    after: Seq<Seq<u8>>,
)
    requires
        0 <= base,
        base + data.len() <= content.len(),
        data == content.subrange(base, base + data.len()),
        forall|f: int, o: int|
            0 <= f < sizes.len() && 0 <= o < sizes[f] ==> #[trigger] before[f][o] == initial[f][o]
                || before[f][o] == content[file_start(sizes, f) + o],
        forall|f: int, o: int|
            0 <= f < sizes.len() && 0 <= o < sizes[f] ==> #[trigger] after[f][o] == written_byte(
                sizes,
                base,
                data,
                before,
                f,
                o,
            ),
    ensures
        forall|f: int, o: int|
            0 <= f < sizes.len() && 0 <= o < sizes[f] ==> #[trigger] after[f][o] == initial[f][o]
                || after[f][o] == content[file_start(sizes, f) + o],
{
    assert forall|f: int, o: int| 0 <= f < sizes.len() && 0 <= o < sizes[f] implies #[trigger] after[f][o]
        == initial[f][o] || after[f][o] == content[file_start(sizes, f) + o] by {
        assert(after[f][o] == written_byte(sizes, base, data, before, f, o));
        assert(before[f][o] == initial[f][o] || before[f][o] == content[file_start(sizes, f) + o]);
    }
}

} // verus!
