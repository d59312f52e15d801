//! Gather programs: how the packed engines collect 64 arbitrary bits of the
//! arena into a word.
//!
//! The 64 gates of an output word read 64 arbitrary source bits per operand
//! stream. Every operand stream is lowered to a short program built from
//! three primitives:
//!
//! - **immediate**: bits sourced from constants fold into a compile-time
//!   word; they cost nothing at runtime.
//! - **funnel**: a run of bit positions that is contiguous in the arena
//!   becomes one funnel shift, moving up to 64 bits at once.
//! - **splat**: one source bit broadcast to an arbitrary destination mask.
use vstd::prelude::*;

use crate::fuse::NIL;

verus! {

/// Minimum contiguous run length worth a funnel shift; shorter runs join the
/// splat groups.
pub const FUNNEL_MIN: usize = 3;

/// A slot that is no constant.
pub const NOT_CONST: u8 = 255;

/// One gather step. Its kind is implicit in the pool layout: each stream
/// stores its funnel segments first, then its splat segments.
#[derive(Clone, Copy)]
pub struct Seg {
    /// Source bit position in the arena.
    pub src: u32,
    /// Destination shift (funnel only; splat destinations live in `mask`).
    pub shift: u8,
    /// Destination bits this segment is allowed to write.
    pub mask: u64,
}

/// Per-stream slice of the segment pool.
#[derive(Clone, Copy)]
pub struct StreamRef {
    pub funnels: u8,
    pub splats: u8,
}

impl StreamRef {
    pub open spec fn len(self) -> int {
        self.funnels + self.splats
    }
}

/// Bit `i` of a word.
pub open spec fn wbit(w: u64, i: int) -> bool {
    (w >> (i as u64)) & 1 == 1
}

/// Bit `p` of an arena.
pub open spec fn bit_at(bits: Seq<u64>, p: int) -> bool {
    wbit(bits[p / 64], p % 64)
}

/// What one segment contributes at destination bit `i`.
pub open spec fn seg_bit(bits: Seq<u64>, seg: Seg, funnel: bool, i: int) -> bool {
    wbit(seg.mask, i) && (if funnel {
        i >= seg.shift && bit_at(bits, seg.src + i - seg.shift)
    } else {
        bit_at(bits, seg.src as int)
    })
}

/// What segment `k` of a program contributes at destination bit `i`.
pub open spec fn seg_at(bits: Seq<u64>, segs: Seq<Seg>, funnels: int, k: int, i: int) -> bool {
    seg_bit(bits, segs[k], k < funnels, i)
}

/// What a gather program yields at bit `i`.
pub open spec fn gather_bit(bits: Seq<u64>, segs: Seq<Seg>, funnels: int, imm: u64, i: int) -> bool {
    wbit(imm, i) || exists|k: int| 0 <= k < segs.len() && #[trigger] seg_at(bits, segs, funnels, k, i)
}

/// The word a gather program yields.
pub open spec fn gathers(bits: Seq<u64>, segs: Seq<Seg>, funnels: int, imm: u64, w: u64) -> bool {
    forall|i: int| 0 <= i < 64 ==> #[trigger] wbit(w, i) == gather_bit(bits, segs, funnels, imm, i)
}

/// Every segment reads inside an arena of `words` words, the last of which
/// is padding.
pub open spec fn segs_in(segs: Seq<Seg>, words: int) -> bool {
    forall|k: int|
        0 <= k < segs.len() ==> (#[trigger] segs[k]).src < (words - 1) * 64 && segs[k].shift < 64
}

proof fn lemma_or_bits(a: u64, b: u64, i: u64)
    by (bit_vector)
    requires
        i < 64,
    ensures
        ((a | b) >> i) & 1 == 1 <==> (a >> i) & 1 == 1 || (b >> i) & 1 == 1,
        ((a & b) >> i) & 1 == 1 <==> (a >> i) & 1 == 1 && (b >> i) & 1 == 1,
        ((a ^ b) >> i) & 1 == 1 <==> ((a >> i) & 1 == 1) != ((b >> i) & 1 == 1),
        ((!a) >> i) & 1 == 1 <==> !((a >> i) & 1 == 1),
        (0u64 >> i) & 1 == 0,
        (0xffff_ffff_ffff_ffffu64 >> i) & 1 == 1,
        (a >> i) & 1 == 0 || (a >> i) & 1 == 1,
{
}

/// Bitwise operations, bit by bit.
pub proof fn lemma_word_logic(a: u64, b: u64, i: int)
    requires
        0 <= i < 64,
    ensures
        wbit(a | b, i) == (wbit(a, i) || wbit(b, i)),
        wbit(a & b, i) == (wbit(a, i) && wbit(b, i)),
        wbit(a ^ b, i) == (wbit(a, i) != wbit(b, i)),
        wbit(!a, i) == !wbit(a, i),
        !wbit(0, i),
        wbit(0xffff_ffff_ffff_ffffu64, i),
{
    lemma_or_bits(a, b, i as u64);
}

pub proof fn lemma_low_part(lo: u64, o: u64, k: u64)
    by (bit_vector)
    requires
        o < 64,
        k < 64,
    ensures
        ((lo >> o) >> k) & 1 == 1 <==> k + o < 64 && (lo >> ((k + o) as u64)) & 1 == 1,
{
}

proof fn lemma_high_part(hi: u64, o: u64, k: u64)
    by (bit_vector)
    requires
        o < 64,
        k < 64,
    ensures
        (((hi << ((63 - o) as u64)) << 1u64) >> k) & 1 == 1 <==> k + o >= 64 && (hi >> ((k + o - 64) as u64)) & 1
            == 1,
{
}

proof fn lemma_single_bit(w: u64, i: u64, j: u64)
    by (bit_vector)
    requires
        i < 64,
        j < 64,
    ensures
        ((w | (1u64 << i)) >> j) & 1 == 1 <==> i == j || (w >> j) & 1 == 1,
        ((w & !(1u64 << i)) >> j) & 1 == 1 <==> i != j && (w >> j) & 1 == 1,
        ((1u64 << i) >> j) & 1 == 1 <==> i == j,
        (0u64 >> j) & 1 == 0,
{
}

/// Setting or clearing one bit of a word.
pub proof fn lemma_one_bit(w: u64, i: int, j: int)
    requires
        0 <= i < 64,
        0 <= j < 64,
    ensures
        wbit(w | (1u64 << (i as u64)), j) == (i == j || wbit(w, j)),
        wbit(w & !(1u64 << (i as u64)), j) == (i != j && wbit(w, j)),
        wbit(1u64 << (i as u64), j) == (i == j),
        !wbit(0, j),
{
    lemma_single_bit(w, i as u64, j as u64);
}

/// The funnel word of a segment.
fn funnel_word(bits: &Vec<u64>, seg: Seg) -> (w: u64)
    requires
        seg.src < (bits@.len() - 1) * 64,
        seg.shift < 64,
    ensures
        forall|i: int| 0 <= i < 64 ==> #[trigger] wbit(w, i) == seg_bit(bits@, seg, true, i),
{
    let at: usize = (seg.src / 64) as usize;
    let o: u64 = (seg.src % 64) as u64;
    let (lo, hi) = (bits[at], bits[at + 1]);
    // Branchless funnel: source bit `src + k` lands at bit `shift + k`. At
    // o == 0 the high half shifts out entirely.
    let word: u64 = (lo >> o) | ((hi << (63 - o)) << 1u64);
    let w: u64 = (word << (seg.shift as u64)) & seg.mask;
    proof {
        assert forall|i: int| 0 <= i < 64 implies #[trigger] wbit(w, i) == seg_bit(bits@, seg, true, i) by {
            lemma_word_logic(word << (seg.shift as u64), seg.mask, i);
            lemma_shifted_ones(word, seg.shift as u64, i as u64);
            if i >= seg.shift {
                lemma_word_logic(lo >> o, (hi << ((63 - o) as u64)) << 1u64, i - seg.shift);
                lemma_low_part(lo, o, (i - seg.shift) as u64);
                lemma_high_part(hi, o, (i - seg.shift) as u64);
                let p = seg.src + i - seg.shift;
                let k = i - seg.shift + o;
                if k < 64 {
                    assert(p / 64 == at && p % 64 == k);
                } else {
                    assert(p / 64 == at + 1 && p % 64 == k - 64);
                }
            }
        }
    }
    w
}

/// The splat word of a segment.
fn splat_word(bits: &Vec<u64>, seg: Seg) -> (w: u64)
    requires
        seg.src < (bits@.len() - 1) * 64,
    ensures
        forall|i: int| 0 <= i < 64 ==> #[trigger] wbit(w, i) == seg_bit(bits@, seg, false, i),
{
    let at: usize = (seg.src / 64) as usize;
    let o: u64 = (seg.src % 64) as u64;
    let bit: u64 = (bits[at] >> o) & 1;
    proof {
        lemma_or_bits(bits@[at as int], 0, o);
    }
    let all: u64 = 0u64.wrapping_sub(bit);
    let w: u64 = all & seg.mask;
    proof {
        assert forall|i: int| 0 <= i < 64 implies #[trigger] wbit(w, i) == seg_bit(bits@, seg, false, i) by {
            lemma_word_logic(all, seg.mask, i);
        }
    }
    w
}

/// Run one gather program over the arena.
pub fn gather(bits: &Vec<u64>, segs: &[Seg], funnels: usize, imm: u64) -> (acc: u64)
    requires
        segs_in(segs@, bits@.len() as int),
        funnels <= segs@.len(),
    ensures
        gathers(bits@, segs@, funnels as int, imm, acc),
{
    let mut acc: u64 = imm;
    assert forall|i: int| 0 <= i < 64 implies #[trigger] wbit(acc, i) == gather_bit(
        bits@,
        segs@.take(0),
        funnels as int,
        imm,
        i,
    ) by {}
    for k in 0..segs.len()
        invariant
            segs_in(segs@, bits@.len() as int),
            funnels <= segs@.len(),
            forall|i: int|
                0 <= i < 64 ==> #[trigger] wbit(acc, i) == gather_bit(
                    bits@,
                    segs@.take(k as int),
                    funnels as int,
                    imm,
                    i,
                ),
    {
        let seg = segs[k];
        assert(segs@[k as int].src < (bits@.len() - 1) * 64);
        let word: u64 = if k < funnels {
            funnel_word(bits, seg)
        } else {
            splat_word(bits, seg)
        };
        let ghost before = acc;
        acc = acc | word;
        proof {
            assert forall|i: int| 0 <= i < 64 implies #[trigger] wbit(acc, i) == gather_bit(
                bits@,
                segs@.take(k + 1),
                funnels as int,
                imm,
                i,
            ) by {
                lemma_word_logic(before, word, i);
                assert(wbit(before, i) == gather_bit(bits@, segs@.take(k as int), funnels as int, imm, i));
                assert(wbit(word, i) == seg_bit(bits@, seg, k < funnels, i));
                lemma_gather_push(bits@, segs@, k as int, funnels as int, imm, i);
            }
        }
    }
    assert(segs@.take(segs@.len() as int) =~= segs@);
    acc
}

pub proof fn lemma_gather_push(bits: Seq<u64>, segs: Seq<Seg>, k: int, funnels: int, imm: u64, i: int)
    requires
        0 <= k < segs.len(),
    ensures
        gather_bit(bits, segs.take(k + 1), funnels, imm, i) == (gather_bit(
            bits,
            segs.take(k),
            funnels,
            imm,
            i,
        ) || seg_bit(bits, segs[k], k < funnels, i)),
{
    let (now, next) = (segs.take(k), segs.take(k + 1));
    assert(next[k] == segs[k]);
    if gather_bit(bits, now, funnels, imm, i) && !wbit(imm, i) {
        let j = choose|j: int| 0 <= j < now.len() && #[trigger] seg_at(bits, now, funnels, j, i);
        assert(seg_at(bits, next, funnels, j, i));
    }
    if seg_bit(bits, segs[k], k < funnels, i) {
        assert(seg_at(bits, next, funnels, k, i));
    }
    if gather_bit(bits, next, funnels, imm, i) && !wbit(imm, i) {
        let j = choose|j: int| 0 <= j < next.len() && #[trigger] seg_at(bits, next, funnels, j, i);
        if j < k {
            assert(seg_at(bits, now, funnels, j, i));
        }
    }
}

/// What stands at destination bit `i` of a window of source slots: nothing,
/// a constant, or an arena bit.
pub open spec fn stream_bit(bits: Seq<u64>, pos: Seq<u32>, cval: Seq<u8>, window: Seq<u32>, i: int) -> bool {
    0 <= i < window.len() && window[i] != NIL && (if cval[window[i] as int] != NOT_CONST {
        cval[window[i] as int] == 1
    } else {
        bit_at(bits, pos[window[i] as int] as int)
    })
}

/// Every slot of the window is absent, constant, or placed below `limit`.
pub open spec fn window_ok(pos: Seq<u32>, cval: Seq<u8>, window: Seq<u32>, limit: int) -> bool {
    &&& window.len() <= 64
    &&& forall|i: int|
        0 <= i < window.len() && #[trigger] window[i] != NIL ==> window[i] < cval.len() && (cval[window[i] as int]
            == NOT_CONST ==> window[i] < pos.len() && pos[window[i] as int] < limit)
}

/// Constants in the window are 0 or 1.
pub open spec fn consts_ok(cval: Seq<u8>, window: Seq<u32>) -> bool {
    forall|i: int|
        0 <= i < window.len() && #[trigger] window[i] != NIL ==> cval[window[i] as int] <= 1
            || cval[window[i] as int] == NOT_CONST
}

/// Destination bit `j` has to be gathered from the arena.
pub open spec fn wanted(cval: Seq<u8>, window: Seq<u32>, j: int) -> bool {
    0 <= j < window.len() && window[j] != NIL && cval[window[j] as int] == NOT_CONST
}

/// How far a stretch of `len` destination bits from `i` on, read from
/// consecutive arena bits, extends.
pub open spec fn stretch(pos: Seq<u32>, cval: Seq<u8>, window: Seq<u32>, i: int, len: int) -> int
    decreases window.len() - i - len,
{
    if i + len < window.len() && wanted(cval, window, i + len) && pos[window[i + len] as int]
        == pos[window[i] as int] + len {
        stretch(pos, cval, window, i, len + 1)
    } else {
        len
    }
}

/// The stretches from destination bit `i` on that are long enough for a
/// funnel, each with its first bit and its length.
pub open spec fn funnel_runs(pos: Seq<u32>, cval: Seq<u8>, window: Seq<u32>, i: int) -> Seq<(int, int)>
    decreases window.len() - i,
{
    if i >= window.len() {
        seq![]
    } else if !wanted(cval, window, i) {
        funnel_runs(pos, cval, window, i + 1)
    } else {
        let len = stretch(pos, cval, window, i, 1);
        let rest = if len > 0 && i + len <= window.len() {
            funnel_runs(pos, cval, window, i + len)
        } else {
            seq![]
        };
        if len >= FUNNEL_MIN {
            seq![(i, len)] + rest
        } else {
            rest
        }
    }
}

/// The funnel segment of a stretch.
pub open spec fn is_funnel(pos: Seq<u32>, window: Seq<u32>, run: (int, int), seg: Seg) -> bool {
    &&& seg.src == pos[window[run.0] as int]
    &&& seg.shift == run.0
    &&& forall|j: int| 0 <= j < 64 ==> #[trigger] wbit(seg.mask, j) == (run.0 <= j < run.0 + run.1)
}

/// Destination bit `j` lies in one of the stretches.
pub open spec fn in_runs(runs: Seq<(int, int)>, j: int) -> bool {
    exists|k: int| 0 <= k < runs.len() && (#[trigger] runs[k]).0 <= j < runs[k].0 + runs[k].1
}

/// The splat segment of one source bit: it writes every destination bit that
/// reads the source and lies in no stretch.
pub open spec fn is_splat(
    pos: Seq<u32>,
    cval: Seq<u8>,
    window: Seq<u32>,
    runs: Seq<(int, int)>,
    seg: Seg,
) -> bool {
    &&& seg.shift == 0
    &&& exists|j: int| 0 <= j < 64 && #[trigger] wbit(seg.mask, j)
    &&& forall|j: int|
        0 <= j < 64 ==> #[trigger] wbit(seg.mask, j) == (wanted(cval, window, j) && !in_runs(runs, j)
            && pos[window[j] as int] == seg.src)
}

/// The gather program of a window: constants in the immediate, one funnel
/// per long stretch in window order, one splat per remaining source bit in
/// arena order.
#[verifier::opaque]
pub open spec fn is_program(
    pos: Seq<u32>,
    cval: Seq<u8>,
    window: Seq<u32>,
    segs: Seq<Seg>,
    funnels: int,
    imm: u64,
) -> bool {
    let runs = funnel_runs(pos, cval, window, 0);
    &&& forall|j: int|
        0 <= j < 64 ==> #[trigger] wbit(imm, j) == (j < window.len() && window[j] != NIL
            && cval[window[j] as int] == 1)
    &&& funnels == runs.len()
    &&& funnels <= segs.len()
    &&& forall|k: int| 0 <= k < funnels ==> is_funnel(pos, window, runs[k], #[trigger] segs[k])
    &&& forall|k: int|
        funnels <= k < segs.len() ==> is_splat(pos, cval, window, runs, #[trigger] segs[k])
    &&& forall|j: int, k: int|
        funnels <= j < k < segs.len() ==> (#[trigger] segs[j]).src < (#[trigger] segs[k]).src
    &&& forall|j: int|
        0 <= j < window.len() && #[trigger] wanted(cval, window, j) && !in_runs(runs, j)
            ==> exists|k: int|
            funnels <= k < segs.len() && (#[trigger] segs[k]).src == pos[window[j] as int]
}

/// The segments from `from` on read below `limit`.
pub open spec fn segs_below(segs: Seq<Seg>, from: int, limit: int) -> bool {
    forall|k: int|
        from <= k < segs.len() ==> (#[trigger] segs[k]).src < limit && segs[k].shift < 64
}

/// A stretch starts at a bit that is gathered.
proof fn lemma_run_starts(pos: Seq<u32>, cval: Seq<u8>, window: Seq<u32>, i: int, k: int)
    requires
        0 <= i,
        0 <= k < funnel_runs(pos, cval, window, i).len(),
    ensures
        wanted(cval, window, funnel_runs(pos, cval, window, i)[k].0),
    decreases window.len() - i,
{
    if i < window.len() {
        if !wanted(cval, window, i) {
            lemma_run_starts(pos, cval, window, i + 1, k);
        } else {
            let len = stretch(pos, cval, window, i, 1);
            if len >= FUNNEL_MIN {
                if k > 0 {
                    lemma_run_starts(pos, cval, window, i + len, k - 1);
                }
            } else if len > 0 && i + len <= window.len() {
                lemma_run_starts(pos, cval, window, i + len, k);
            }
        }
    }
}

/// A program reads what its window reads.
proof fn lemma_program_below(
    pos: Seq<u32>,
    cval: Seq<u8>,
    window: Seq<u32>,
    segs: Seq<Seg>,
    funnels: int,
    imm: u64,
    limit: int,
)
    requires
        is_program(pos, cval, window, segs, funnels, imm),
        window_ok(pos, cval, window, limit),
    ensures
        segs_below(segs, 0, limit),
{
    reveal(is_program);
    let runs = funnel_runs(pos, cval, window, 0);
    assert forall|k: int| 0 <= k < segs.len() implies (#[trigger] segs[k]).src < limit && segs[k].shift
        < 64 by {
        if k < funnels {
            assert(is_funnel(pos, window, runs[k], segs[k]));
            lemma_run_starts(pos, cval, window, 0, k);
            assert(window[runs[k].0] != NIL);
        } else {
            assert(is_splat(pos, cval, window, runs, segs[k]));
            let j = choose|j: int| 0 <= j < 64 && #[trigger] wbit(segs[k].mask, j);
            assert(wanted(cval, window, j));
            assert(window[j] != NIL);
        }
    }
}

/// The funnels from `from` on are those of the stretches.
spec fn funnels_are(pos: Seq<u32>, window: Seq<u32>, runs: Seq<(int, int)>, segs: Seq<Seg>, from: int) -> bool {
    &&& segs.len() == from + runs.len()
    &&& forall|k: int|
        0 <= k < runs.len() ==> is_funnel(pos, window, #[trigger] runs[k], segs[from + k])
}

/// A funnel writes exactly the stretches' bits.
proof fn lemma_written_runs(pos: Seq<u32>, window: Seq<u32>, runs: Seq<(int, int)>, segs: Seq<Seg>, from: int, j: int)
    requires
        0 <= from,
        0 <= j < 64,
        funnels_are(pos, window, runs, segs, from),
    ensures
        written_from(segs, from, j) == in_runs(runs, j),
{
    if written_from(segs, from, j) {
        let k = choose|k: int| from <= k < segs.len() && wbit((#[trigger] segs[k]).mask, j);
        assert(is_funnel(pos, window, runs[k - from], segs[from + (k - from)]));
    }
    if in_runs(runs, j) {
        let k = choose|k: int|
            0 <= k < runs.len() && (#[trigger] runs[k]).0 <= j < runs[k].0 + runs[k].1;
        assert(is_funnel(pos, window, runs[k], segs[from + k]));
        assert(wbit(segs[from + k].mask, j));
    }
}

/// Item `(p, j)` is among the first `r`.
spec fn among(rest: Seq<(u32, usize)>, r: int, p: u32, j: int) -> bool {
    exists|q: int| 0 <= q < r && (#[trigger] rest[q]).0 == p && rest[q].1 == j
}

proof fn lemma_among(rest: Seq<(u32, usize)>, r: int, p: u32, j: int)
    requires
        0 <= r < rest.len(),
    ensures
        among(rest, r + 1, p, j) == (among(rest, r, p, j) || (rest[r].0 == p && rest[r].1 == j)),
{
    if among(rest, r, p, j) {
        let q = choose|q: int| 0 <= q < r && (#[trigger] rest[q]).0 == p && rest[q].1 == j;
        assert(rest[q].0 == p && rest[q].1 == j);
    }
    if rest[r].0 == p && rest[r].1 == j {
        assert(among(rest, r + 1, p, j));
    }
}

/// A splat of the first `r` items.
spec fn splat_of(rest: Seq<(u32, usize)>, r: int, seg: Seg) -> bool {
    &&& seg.shift == 0
    &&& exists|j: int| 0 <= j < 64 && #[trigger] wbit(seg.mask, j)
    &&& forall|j: int| 0 <= j < 64 ==> #[trigger] wbit(seg.mask, j) == among(rest, r, seg.src, j)
}

/// A segment delivers the right bit wherever it writes.
spec fn seg_right(pos: Seq<u32>, cval: Seq<u8>, window: Seq<u32>, seg: Seg, funnel: bool) -> bool {
    forall|j: int|
        0 <= j < 64 && #[trigger] wbit(seg.mask, j) ==> wanted(cval, window, j) && (if funnel {
            j >= seg.shift && seg.src + j - seg.shift == pos[window[j] as int]
        } else {
            seg.src == pos[window[j] as int]
        })
}

/// `(1 << len) - 1`.
fn ones(len: usize) -> (w: u64)
    ensures
        forall|i: int| 0 <= i < 64 ==> #[trigger] wbit(w, i) == (i < len),
{
    if len >= 64 {
        proof {
            assert forall|i: int| 0 <= i < 64 implies #[trigger] wbit(0xffff_ffff_ffff_ffffu64, i) by {
                lemma_word_logic(0, 0, i);
            }
        }
        0xffff_ffff_ffff_ffff
    } else {
        let k: u64 = len as u64;
        assert(1u64 << k >= 1) by (bit_vector)
            requires
                k < 64,
        ;
        let w: u64 = (1u64 << k) - 1;
        proof {
            assert forall|i: int| 0 <= i < 64 implies #[trigger] wbit(w, i) == (i < len) by {
                lemma_ones(k, w, i as u64);
            }
        }
        w
    }
}

proof fn lemma_ones(k: u64, w: u64, i: u64)
    by (bit_vector)
    requires
        k < 64,
        i < 64,
        w == (1u64 << k) - 1,
    ensures
        (w >> i) & 1 == 1 <==> i < k,
{
}

pub proof fn lemma_shifted_ones(w: u64, s: u64, i: u64)
    by (bit_vector)
    requires
        s < 64,
        i < 64,
    ensures
        ((w << s) >> i) & 1 == 1 <==> i >= s && (w >> ((i - s) as u64)) & 1 == 1,
{
}

/// `ones(len) << at`.
fn ones_at(len: usize, at: usize) -> (w: u64)
    requires
        at < 64,
    ensures
        forall|i: int| 0 <= i < 64 ==> #[trigger] wbit(w, i) == (at <= i < at + len),
{
    let o: u64 = ones(len);
    let w: u64 = o << (at as u64);
    proof {
        assert forall|i: int| 0 <= i < 64 implies #[trigger] wbit(w, i) == (at <= i < at + len) by {
            lemma_shifted_ones(o, at as u64, i as u64);
            if i >= at {
                assert(wbit(o, i - at) == (i - at < len));
            }
        }
    }
    w
}

/// The constant part of a stream: which bits need no gathering, and the
/// immediate word.
fn fold_constants(window: &Vec<u32>, cval: &Vec<u8>) -> (res: (u64, u64))
    requires
        window@.len() <= 64,
        forall|i: int| 0 <= i < window@.len() && #[trigger] window@[i] != NIL ==> window@[i] < cval@.len(),
        consts_ok(cval@, window@),
    ensures
        forall|j: int|
            0 <= j < 64 ==> #[trigger] wbit(res.0, j) == (j < window@.len() && !wanted(cval@, window@, j)),
        forall|j: int|
            0 <= j < 64 ==> #[trigger] wbit(res.1, j) == (j < window@.len() && window@[j] != NIL
                && cval@[window@[j] as int] == 1),
{
    let mut covered: u64 = 0;
    let mut imm: u64 = 0;
    assert forall|j: int| 0 <= j < 64 implies !#[trigger] wbit(0, j) by {
        lemma_one_bit(0, 0, j);
    }
    for i in 0..window.len()
        invariant
            window@.len() <= 64,
            forall|i: int| 0 <= i < window@.len() && #[trigger] window@[i] != NIL ==> window@[i] < cval@.len(),
            consts_ok(cval@, window@),
            forall|j: int|
                0 <= j < 64 ==> #[trigger] wbit(covered, j) == (j < i && !wanted(cval@, window@, j)),
            forall|j: int|
                0 <= j < 64 ==> #[trigger] wbit(imm, j) == (j < i && window@[j] != NIL
                    && cval@[window@[j] as int] == 1),
    {
        let ghost (c0, m0) = (covered, imm);
        let slot: u32 = window[i];
        // An absent operand (an incrementer link's zero q-bit inside a fused
        // chain) is constant zero: nothing to gather.
        let v: u8 = if slot == NIL {
            0
        } else {
            cval[slot as usize]
        };
        if v != NOT_CONST {
            covered = covered | (1u64 << (i as u64));
            if v == 1 {
                imm = imm | (1u64 << (i as u64));
            }
        }
        proof {
            assert forall|j: int| 0 <= j < 64 implies #[trigger] wbit(covered, j) == (j < i + 1 && !wanted(
                cval@,
                window@,
                j,
            )) by {
                lemma_one_bit(c0, i as int, j);
                assert(wbit(c0, j) == (j < i && !wanted(cval@, window@, j)));
            }
            assert forall|j: int| 0 <= j < 64 implies #[trigger] wbit(imm, j) == (j < i + 1 && window@[j] != NIL
                && cval@[window@[j] as int] == 1) by {
                lemma_one_bit(m0, i as int, j);
                assert(wbit(m0, j) == (j < i && window@[j] != NIL && cval@[window@[j] as int] == 1));
            }
        }
    }
    (covered, imm)
}

/// All of the segments from `from` on are right and stay below `limit`.
spec fn segs_right(
    pos: Seq<u32>,
    cval: Seq<u8>,
    window: Seq<u32>,
    segs: Seq<Seg>,
    from: int,
    funnel: bool,
    limit: int,
) -> bool {
    forall|k: int|
        from <= k < segs.len() ==> seg_right(pos, cval, window, #[trigger] segs[k], funnel) && segs[k].src
            < limit && segs[k].shift < 64
}

/// Some segment from `from` on writes destination bit `j`.
spec fn written_from(segs: Seq<Seg>, from: int, j: int) -> bool {
    exists|k: int| from <= k < segs.len() && wbit((#[trigger] segs[k]).mask, j)
}

proof fn lemma_written_push(segs: Seq<Seg>, from: int, seg: Seg, j: int)
    requires
        0 <= from <= segs.len(),
    ensures
        written_from(segs.push(seg), from, j) == (written_from(segs, from, j) || wbit(seg.mask, j)),
{
    let more = segs.push(seg);
    if written_from(segs, from, j) {
        let k = choose|k: int| from <= k < segs.len() && wbit((#[trigger] segs[k]).mask, j);
        assert(wbit(more[k].mask, j));
    }
    if wbit(seg.mask, j) {
        assert(wbit(more[segs.len() as int].mask, j));
    }
    if written_from(more, from, j) && !wbit(seg.mask, j) {
        let k = choose|k: int| from <= k < more.len() && wbit((#[trigger] more[k]).mask, j);
        assert(more[k] == segs[k]);
    }
}

/// Lower the contiguous runs of a window to funnel segments.
#[verifier::rlimit(40)]
fn push_funnels(
    window: &Vec<u32>,
    pos: &Vec<u32>,
    cval: &Vec<u8>,
    constants: u64,
    segs: &mut Vec<Seg>,
    limit: Ghost<int>,
) -> (covered: u64)
    requires
        window_ok(pos@, cval@, window@, limit@),
        forall|j: int|
            0 <= j < 64 ==> #[trigger] wbit(constants, j) == (j < window@.len() && !wanted(cval@, window@, j)),
    ensures
        final(segs)@.len() <= old(segs)@.len() + window@.len(),
        final(segs)@.len() >= old(segs)@.len(),
        final(segs)@.take(old(segs)@.len() as int) == old(segs)@,
        segs_right(pos@, cval@, window@, final(segs)@, old(segs)@.len() as int, true, limit@),
        funnels_are(
            pos@,
            window@,
            funnel_runs(pos@, cval@, window@, 0),
            final(segs)@,
            old(segs)@.len() as int,
        ),
        forall|j: int|
            0 <= j < 64 ==> #[trigger] wbit(covered, j) == (wbit(constants, j) || written_from(
                final(segs)@,
                old(segs)@.len() as int,
                j,
            )),
{
    let ghost from = segs@.len() as int;
    let n: usize = window.len();
    let mut covered: u64 = constants;
    let mut i: usize = 0;
    let ghost all = funnel_runs(pos@, cval@, window@, 0);
    let ghost mut done: Seq<(int, int)> = seq![];
    assert(all =~= done + funnel_runs(pos@, cval@, window@, 0));
    assert(segs@.take(from) =~= segs@);
    while i < n
        invariant
            i <= n,
            n == window@.len(),
            n <= 64,
            from == old(segs)@.len(),
            from <= segs@.len() <= from + i,
            segs@.take(from) == old(segs)@,
            window_ok(pos@, cval@, window@, limit@),
                all == done + funnel_runs(pos@, cval@, window@, i as int),
            funnels_are(pos@, window@, done, segs@, from),
            forall|j: int|
                0 <= j < 64 ==> #[trigger] wbit(constants, j) == (j < n && !wanted(cval@, window@, j)),
            segs_right(pos@, cval@, window@, segs@, from, true, limit@),
            forall|j: int|
                0 <= j < 64 ==> #[trigger] wbit(covered, j) == (wbit(constants, j) || written_from(
                    segs@,
                    from,
                    j,
                )),
            forall|j: int| i <= j < 64 ==> #[trigger] wbit(covered, j) == wbit(constants, j),
        decreases n - i,
    {
        if (covered >> (i as u64)) & 1 != 0 {
            proof {
                lemma_or_bits(covered, 0, i as u64);
                assert(wbit(covered, i as int) == wbit(constants, i as int));
                assert(!wanted(cval@, window@, i as int));
            }
            i = i + 1;
        } else {
            assert(wbit(covered, i as int) == wbit(constants, i as int)) by {
                lemma_or_bits(covered, 0, i as u64);
            }
            assert(!wbit(covered, i as int));
            assert(wanted(cval@, window@, i as int));
            assert(window@[i as int] != NIL);
            let p: u32 = pos[window[i] as usize];
            let mut len: usize = 1;
            let mut more = true;
            while more && i + len < n
                invariant
                    0 <= i < n,
                    n == window@.len(),
                    n <= 64,
                    1 <= len <= n - i,
                    window_ok(pos@, cval@, window@, limit@),
                                p < limit@,
                    forall|j: int|
                        0 <= j < 64 ==> #[trigger] wbit(constants, j) == (j < n && !wanted(cval@, window@, j)),
                    forall|j: int| i <= j < 64 ==> #[trigger] wbit(covered, j) == wbit(constants, j),
                    forall|j: int|
                        i <= j < i + len ==> wanted(cval@, window@, j) && pos@[#[trigger] window@[j] as int] == p
                            + j - i,
                    stretch(pos@, cval@, window@, i as int, 1) == stretch(
                        pos@,
                        cval@,
                        window@,
                        i as int,
                        len as int,
                    ),
                    !more ==> stretch(pos@, cval@, window@, i as int, len as int) == len,
                decreases
                    n - i - len + if more {
                        1int
                    } else {
                        0int
                    },
            {
                let j: usize = i + len;
                proof {
                    lemma_or_bits(covered, 0, j as u64);
                    assert(wbit(covered, j as int) == wbit(constants, j as int));
                }
                if (covered >> (j as u64)) & 1 == 0 {
                    assert(!wbit(covered, j as int));
                    assert(wanted(cval@, window@, j as int));
                    assert(window@[j as int] != NIL);
                    if pos[window[j] as usize] as u64 == p as u64 + len as u64 {
                        len = len + 1;
                    } else {
                        more = false;
                    }
                } else {
                    more = false;
                }
            }
            let ghost rest = funnel_runs(pos@, cval@, window@, i + len);
            assert(stretch(pos@, cval@, window@, i as int, 1) == len);
            if len >= FUNNEL_MIN {
                let mask: u64 = ones_at(len, i);
                let seg = Seg { src: p, shift: i as u8, mask };
                let ghost segs0 = segs@;
                let ghost covered0 = covered;
                segs.push(seg);
                covered = covered | mask;
                proof {
                    let run = (i as int, len as int);
                    assert(all =~= done.push(run) + rest);
                    let more = done.push(run);
                    assert forall|k: int| 0 <= k < more.len() implies is_funnel(
                        pos@,
                        window@,
                        #[trigger] more[k],
                        segs@[from + k],
                    ) by {
                        if k < done.len() {
                            assert(is_funnel(pos@, window@, done[k], segs0[from + k]));
                        }
                    }
                    done = more;
                    assert(segs@.take(from) =~= segs0.take(from));
                    assert(seg_right(pos@, cval@, window@, seg, true)) by {
                        assert forall|j: int| 0 <= j < 64 && #[trigger] wbit(seg.mask, j) implies wanted(
                            cval@,
                            window@,
                            j,
                        ) && j >= seg.shift && seg.src + j - seg.shift == pos@[window@[j] as int] by {
                            assert(i <= j < i + len);
                            let w = window@[j];
                        }
                    }
                    assert forall|k: int| from <= k < segs@.len() implies seg_right(
                        pos@,
                        cval@,
                        window@,
                        #[trigger] segs@[k],
                        true,
                    ) && segs@[k].src < limit@ && segs@[k].shift < 64 by {
                        if k < segs0.len() {
                            assert(segs@[k] == segs0[k]);
                        }
                    }
                    assert forall|j: int| 0 <= j < 64 implies #[trigger] wbit(covered, j) == (wbit(
                        constants,
                        j,
                    ) || written_from(segs@, from, j)) by {
                        lemma_word_logic(covered0, mask, j);
                        lemma_written_push(segs0, from, seg, j);
                        assert(wbit(covered0, j) == (wbit(constants, j) || written_from(segs0, from, j)));
                    }
                    assert forall|j: int| i + len <= j < 64 implies #[trigger] wbit(covered, j) == wbit(
                        constants,
                        j,
                    ) by {
                        lemma_word_logic(covered0, mask, j);
                        assert(wbit(covered0, j) == wbit(constants, j));
                        assert(!wbit(mask, j));
                    }
                }
            }
            i = i + len;
        }
    }
    assert(all =~= done);
    covered
}

/// Source bit and destination of a bit that no funnel covers.
pub open spec fn before(x: (u32, usize), y: (u32, usize)) -> bool {
    x.0 < y.0 || (x.0 == y.0 && x.1 < y.1)
}

/// Ascending by source bit, then destination.
pub open spec fn ascending(items: Seq<(u32, usize)>) -> bool {
    forall|i: int, j: int| 0 <= i < j < items.len() ==> before(#[trigger] items[i], #[trigger] items[j])
}

/// Insert an item into its place.
fn insert_sorted(items: &mut Vec<(u32, usize)>, item: (u32, usize))
    requires
        ascending(old(items)@),
        forall|k: int| 0 <= k < old(items)@.len() ==> (#[trigger] old(items)@[k]).1 != item.1,
        old(items)@.len() < 64,
    ensures
        ascending(final(items)@),
        final(items)@.len() == old(items)@.len() + 1,
        forall|x: (u32, usize)|
            #[trigger] final(items)@.contains(x) <==> old(items)@.contains(x) || x == item,
{
    let mut at: usize = items.len();
    let ghost all = items@;
    while at > 0 && (item.0 < items[at - 1].0 || (item.0 == items[at - 1].0 && item.1 < items[at - 1].1))
        invariant
            at <= items@.len(),
            items@ == all,
            ascending(all),
            forall|k: int| at <= k < all.len() ==> before(item, #[trigger] all[k]),
        decreases at,
    {
        at = at - 1;
    }
    items.insert(at, item);
    proof {
        let now = items@;
        assert(now =~= all.insert(at as int, item));
        assert forall|i: int, j: int| 0 <= i < j < now.len() implies before(#[trigger] now[i], #[trigger] now[j]) by {
            let oi = if i < at {
                i
            } else {
                i - 1
            };
            let oj = if j < at {
                j
            } else {
                j - 1
            };
            if i != at && j != at {
                assert(before(all[oi], all[oj]));
            } else if i == at {
                assert(before(item, all[oj]));
            } else {
                assert(at > 0);
                let last = all[at - 1];
                assert(!before(item, last));
                assert(last.1 != item.1);
                assert(before(last, item));
                if oi < at - 1 {
                    assert(before(all[oi], all[at - 1]));
                }
            }
        }
        assert forall|x: (u32, usize)| #[trigger] now.contains(x) <==> all.contains(x) || x == item by {
            if all.contains(x) {
                let k = choose|k: int| 0 <= k < all.len() && all[k] == x;
                if k < at {
                    assert(now[k] == x);
                } else {
                    assert(now[k + 1] == x);
                }
            }
            if x == item {
                assert(now[at as int] == x);
            }
            if now.contains(x) && x != item {
                let k = choose|k: int| 0 <= k < now.len() && now[k] == x;
                if k < at {
                    assert(all[k] == x);
                } else {
                    assert(all[k - 1] == x);
                }
            }
        }
    }
}

/// The positions no constant and no funnel covers, by source bit.
fn leftover(window: &Vec<u32>, pos: &Vec<u32>, covered: u64) -> (rest: Vec<(u32, usize)>)
    requires
        window@.len() <= 64,
        forall|j: int|
            0 <= j < window@.len() && !wbit(covered, j) ==> (#[trigger] window@[j]) < pos@.len(),
    ensures
        ascending(rest@),
        rest@.len() <= window@.len(),
        forall|p: u32, j: usize|
            #[trigger] rest@.contains((p, j)) <==> j < window@.len() && !wbit(covered, j as int) && p
                == pos@[window@[j as int] as int],
{
    let mut rest: Vec<(u32, usize)> = Vec::new();
    for i in 0..window.len()
        invariant
            window@.len() <= 64,
            forall|j: int|
                0 <= j < window@.len() && !wbit(covered, j) ==> (#[trigger] window@[j]) < pos@.len(),
            ascending(rest@),
            rest@.len() <= i,
            forall|p: u32, j: usize|
                #[trigger] rest@.contains((p, j)) <==> j < i && !wbit(covered, j as int) && p
                    == pos@[window@[j as int] as int],
    {
        proof {
            lemma_or_bits(covered, 0, i as u64);
        }
        if (covered >> (i as u64)) & 1 == 0 {
            assert(!wbit(covered, i as int));
            let slot: u32 = window[i];
            let p: u32 = pos[slot as usize];
            assert forall|k: int| 0 <= k < rest@.len() implies (#[trigger] rest@[k]).1 != i by {
                let (a, b) = rest@[k];
                assert(rest@.contains((a, b)));
            }
            insert_sorted(&mut rest, (p, i));
        }
    }
    rest
}

/// A leftover item: a destination bit and the source bit it reads.
spec fn item_right(pos: Seq<u32>, cval: Seq<u8>, window: Seq<u32>, limit: int, item: (u32, usize)) -> bool {
    &&& item.1 < 64
    &&& wanted(cval, window, item.1 as int)
    &&& item.0 == pos[window[item.1 as int] as int]
    &&& item.0 < limit
}

/// Group the items by source bit: one masked splat per distinct source,
/// regardless of destination count.
fn push_splats(
    rest: &Vec<(u32, usize)>,
    segs: &mut Vec<Seg>,
    pos: Ghost<Seq<u32>>,
    cval: Ghost<Seq<u8>>,
    window: Ghost<Seq<u32>>,
    limit: Ghost<int>,
)
    requires
        ascending(rest@),
        rest@.len() <= 64,
        forall|q: int|
            0 <= q < rest@.len() ==> item_right(pos@, cval@, window@, limit@, #[trigger] rest@[q]),
    ensures
        old(segs)@.len() <= final(segs)@.len() <= old(segs)@.len() + rest@.len(),
        final(segs)@.take(old(segs)@.len() as int) == old(segs)@,
        segs_right(pos@, cval@, window@, final(segs)@, old(segs)@.len() as int, false, limit@),
        forall|j: int, k: int|
            old(segs)@.len() <= j < k < final(segs)@.len() ==> (#[trigger] final(segs)@[j]).src < (
            #[trigger] final(segs)@[k]).src,
        forall|q: int|
            0 <= q < rest@.len() ==> written_from(
                final(segs)@,
                old(segs)@.len() as int,
                (#[trigger] rest@[q]).1 as int,
            ),
        forall|k: int|
            old(segs)@.len() <= k < final(segs)@.len() ==> splat_of(
                rest@,
                rest@.len() as int,
                #[trigger] final(segs)@[k],
            ),
{
    let splat_at: usize = segs.len();
    let ghost segs1 = segs@;
    assert(segs@.take(splat_at as int) =~= segs1);
    for r in 0..rest.len()
        invariant
            splat_at == segs1.len(),
            segs1 == old(segs)@,
            ascending(rest@),
            rest@.len() <= 64,
            forall|q: int|
                0 <= q < rest@.len() ==> item_right(pos@, cval@, window@, limit@, #[trigger] rest@[q]),
            splat_at <= segs@.len() <= splat_at + r,
            segs@.take(splat_at as int) == segs1,
            splats_of(rest@, r as int, segs@, splat_at as int),
    {
        let (p, i) = rest[r];
        let ghost now = segs@;
        assert(rest@[r as int] == (p, i));
        assert(item_right(pos@, cval@, window@, limit@, rest@[r as int]));
        let top: usize = segs.len();
        if top > splat_at && segs[top - 1].src == p {
            let seg = segs[top - 1];
            segs.set(top - 1, Seg { mask: seg.mask | (1u64 << (i as u64)), ..seg });
            proof {
                lemma_wider_splat(rest@, r as int, now, segs@, splat_at as int);
            }
        } else {
            segs.push(Seg { src: p, shift: 0, mask: 1u64 << (i as u64) });
            proof {
                lemma_new_splat(rest@, r as int, now, segs@, splat_at as int);
            }
        }
        assert(segs@.take(splat_at as int) =~= segs1);
    }
    proof {
        lemma_splats_done(pos@, cval@, window@, limit@, rest@, segs@, splat_at as int);
    }
}

/// Lower one operand stream of one window to a gather program. `window`
/// holds the source slot per destination bit; returns the constant-folded
/// immediate and appends funnel segments then splat segments to `segs`, one
/// splat per distinct source.
#[verifier::rlimit(60)]
pub fn plan_stream(
    window: &Vec<u32>,
    pos: &Vec<u32>,
    cval: &Vec<u8>,
    segs: &mut Vec<Seg>,
) -> (res: (u64, StreamRef))
    requires
        window_ok(pos@, cval@, window@, u32::MAX + 1),
        consts_ok(cval@, window@),
    ensures
        final(segs)@.len() == old(segs)@.len() + res.1.len(),
        final(segs)@.take(old(segs)@.len() as int) == old(segs)@,
        forall|limit: int| #[trigger]
            window_ok(pos@, cval@, window@, limit) ==> segs_below(
                final(segs)@,
                old(segs)@.len() as int,
                limit,
            ),
        is_program(
            pos@,
            cval@,
            window@,
            final(segs)@.skip(old(segs)@.len() as int),
            res.1.funnels as int,
            res.0,
        ),
        forall|j: int, k: int|
            old(segs)@.len() + res.1.funnels <= j < k < final(segs)@.len() ==> (
            #[trigger] final(segs)@[j]).src < (#[trigger] final(segs)@[k]).src,
        forall|bits: Seq<u64>, i: int|
            0 <= i < 64 ==> #[trigger] gather_bit(
                bits,
                final(segs)@.skip(old(segs)@.len() as int),
                res.1.funnels as int,
                res.0,
                i,
            ) == stream_bit(bits, pos@, cval@, window@, i),
{
    let limit: Ghost<int> = Ghost(u32::MAX + 1);
    let ghost from = segs@.len() as int;
    let ghost segs0 = segs@;
    let start: usize = segs.len();
    let (constants, imm) = fold_constants(window, cval);
    let covered: u64 = push_funnels(window, pos, cval, constants, segs, limit);
    let funnels: usize = segs.len() - start;
    let splat_at: usize = segs.len();
    let ghost segs1 = segs@;
    proof {
        assert forall|j: int| 0 <= j < window@.len() && !wbit(covered, j) implies (#[trigger] window@[j])
            < pos@.len() by {
            assert(wbit(covered, j) == (wbit(constants, j) || written_from(segs@, from, j)));
            assert(wbit(constants, j) == (j < window@.len() && !wanted(cval@, window@, j)));
        }
    }
    let rest = leftover(window, pos, covered);
    proof {
        assert forall|q: int| 0 <= q < rest@.len() implies item_right(
            pos@,
            cval@,
            window@,
            limit@,
            #[trigger] rest@[q],
        ) by {
            let (p, i) = rest@[q];
            assert(rest@.contains((p, i)));
            assert(wbit(covered, i as int) == (wbit(constants, i as int) || written_from(segs1, from, i as int)));
            assert(wbit(constants, i as int) == (i < window@.len() && !wanted(cval@, window@, i as int)));
            assert(window@[i as int] != NIL);
        }
    }
    push_splats(&rest, segs, Ghost(pos@), Ghost(cval@), Ghost(window@), limit);
    let splats: usize = segs.len() - splat_at;
    let sr = StreamRef { funnels: funnels as u8, splats: splats as u8 };
    proof {
        let new = segs@.skip(from);
        assert(segs@.take(from) =~= segs0) by {
            assert(segs1.take(from) == segs0);
            assert forall|k: int| 0 <= k < from implies segs@[k] == segs0[k] by {
                assert(segs@.take(splat_at as int)[k] == segs1[k]);
                assert(segs1.take(from)[k] == segs0[k]);
            }
        }
        assert forall|k: int| from <= k < segs@.len() implies seg_right(
            pos@,
            cval@,
            window@,
            #[trigger] segs@[k],
            k < splat_at,
        ) && segs@[k].src < limit@ && segs@[k].shift < 64 by {
            if k < splat_at {
                assert(segs@.take(splat_at as int)[k] == segs1[k]);
                assert(seg_right(pos@, cval@, window@, segs1[k], true));
            }
        }
        assert forall|bits: Seq<u64>, i: int| 0 <= i < 64 implies #[trigger] gather_bit(
            bits,
            new,
            sr.funnels as int,
            imm,
            i,
        ) == stream_bit(bits, pos@, cval@, window@, i) by {
            lemma_stream(bits, window@, pos@, cval@, constants, covered, imm, segs1, segs@, from, rest@, i);
        }
        lemma_program(window@, pos@, cval@, constants, covered, imm, segs1, segs@, from, rest@);
        assert forall|limit: int| #[trigger] window_ok(pos@, cval@, window@, limit) implies segs_below(
            segs@,
            from,
            limit,
        ) by {
            lemma_program_below(pos@, cval@, window@, new, sr.funnels as int, imm, limit);
            assert forall|k: int| from <= k < segs@.len() implies (#[trigger] segs@[k]).src < limit
                && segs@[k].shift < 64 by {
                assert(new[k - from] == segs@[k]);
            }
        }
    }
    (imm, sr)
}

/// The splats from `at` on are those of the first `r` items.
spec fn splats_of(rest: Seq<(u32, usize)>, r: int, segs: Seq<Seg>, at: int) -> bool {
    &&& segs.len() > at ==> r > 0 && segs.last().src == rest[r - 1].0
    &&& segs.len() == at ==> r == 0
    &&& forall|j: int, k: int|
        at <= j < k < segs.len() ==> (#[trigger] segs[j]).src < (#[trigger] segs[k]).src
    &&& forall|k: int| at <= k < segs.len() ==> splat_of(rest, r, #[trigger] segs[k])
    &&& forall|q: int| 0 <= q < r ==> has_source(segs, at, (#[trigger] rest[q]).0)
}

/// Some segment from `at` on reads source bit `p`.
spec fn has_source(segs: Seq<Seg>, at: int, p: u32) -> bool {
    exists|k: int| at <= k < segs.len() && (#[trigger] segs[k]).src == p
}

/// One more item for the last splat.
proof fn lemma_wider_splat(rest: Seq<(u32, usize)>, r: int, now: Seq<Seg>, after: Seq<Seg>, at: int)
    requires
        0 <= r < rest.len(),
        rest[r].1 < 64,
        0 <= at < now.len(),
        now.last().src == rest[r].0,
        after == now.update(
            now.len() - 1,
            Seg { mask: now.last().mask | (1u64 << (rest[r].1 as u64)), ..now.last() },
        ),
        splats_of(rest, r, now, at),
    ensures
        splats_of(rest, r + 1, after, at),
{
    let i = rest[r].1 as int;
    assert forall|k: int| at <= k < after.len() implies splat_of(rest, r + 1, #[trigger] after[k]) by {
        assert(splat_of(rest, r, now[k]));
        let some = choose|j: int| 0 <= j < 64 && #[trigger] wbit(now[k].mask, j);
        lemma_one_bit(now[k].mask, i, some);
        assert(wbit(after[k].mask, some));
        assert forall|j: int| 0 <= j < 64 implies #[trigger] wbit(after[k].mask, j) == among(
            rest,
            r + 1,
            after[k].src,
            j,
        ) by {
            lemma_among(rest, r, after[k].src, j);
            lemma_one_bit(now[k].mask, i, j);
            assert(wbit(now[k].mask, j) == among(rest, r, now[k].src, j));
            if k < now.len() - 1 {
                assert(now[k].src < now[now.len() - 1].src);
            }
        }
    }
    assert forall|j: int, k: int| at <= j < k < after.len() implies (#[trigger] after[j]).src < (
    #[trigger] after[k]).src by {
        assert(now[j].src < now[k].src);
    }
    assert forall|q: int| 0 <= q < r + 1 implies has_source(after, at, (#[trigger] rest[q]).0) by {
        if q < r {
            assert(has_source(now, at, rest[q].0));
            let k = choose|k: int| at <= k < now.len() && (#[trigger] now[k]).src == rest[q].0;
            assert(after[k].src == rest[q].0);
        } else {
            assert(after[after.len() - 1].src == rest[q].0);
        }
    }
}

/// A splat for a source bit that no earlier item reads.
proof fn lemma_new_splat(rest: Seq<(u32, usize)>, r: int, now: Seq<Seg>, after: Seq<Seg>, at: int)
    requires
        0 <= r < rest.len(),
        rest[r].1 < 64,
        ascending(rest),
        0 <= at <= now.len(),
        now.len() > at ==> now.last().src != rest[r].0,
        after == now.push(
            Seg { src: rest[r].0, shift: 0, mask: 1u64 << (rest[r].1 as u64) },
        ),
        splats_of(rest, r, now, at),
    ensures
        splats_of(rest, r + 1, after, at),
{
    let (p, i) = (rest[r].0, rest[r].1 as int);
    if r > 0 {
        assert(before(rest[r - 1], rest[r]));
    }
    assert forall|j: int| !#[trigger] among(rest, r, p, j) by {
        if among(rest, r, p, j) {
            let q = choose|q: int| 0 <= q < r && (#[trigger] rest[q]).0 == p && rest[q].1 == j;
            if q < r - 1 {
                assert(before(rest[q], rest[r - 1]));
            }
        }
    }
    assert forall|j: int, k: int| at <= j < k < after.len() implies (#[trigger] after[j]).src < (
    #[trigger] after[k]).src by {
        if k < now.len() {
            assert(now[j].src < now[k].src);
        } else if j < now.len() - 1 {
            assert(now[j].src < now[now.len() - 1].src);
        }
    }
    assert forall|k: int| at <= k < after.len() implies splat_of(rest, r + 1, #[trigger] after[k]) by {
        if k < now.len() {
            assert(after[k] == now[k]);
            assert(after[k].src < after[after.len() - 1].src);
            assert(splat_of(rest, r, now[k]));
        } else {
            lemma_one_bit(0, i, i);
            assert(wbit(after[k].mask, i));
        }
        assert forall|j: int| 0 <= j < 64 implies #[trigger] wbit(after[k].mask, j) == among(
            rest,
            r + 1,
            after[k].src,
            j,
        ) by {
            lemma_among(rest, r, after[k].src, j);
            lemma_one_bit(0, i, j);
            if k < now.len() {
                assert(wbit(now[k].mask, j) == among(rest, r, now[k].src, j));
            } else {
                assert(!among(rest, r, p, j));
            }
        }
    }
    assert forall|q: int| 0 <= q < r + 1 implies has_source(after, at, (#[trigger] rest[q]).0) by {
        if q < r {
            assert(has_source(now, at, rest[q].0));
            let k = choose|k: int| at <= k < now.len() && (#[trigger] now[k]).src == rest[q].0;
            assert(after[k].src == rest[q].0);
        } else {
            assert(after[after.len() - 1].src == rest[q].0);
        }
    }
}

/// The splats of all items deliver the right bits and write every item.
proof fn lemma_splats_done(
    pos: Seq<u32>,
    cval: Seq<u8>,
    window: Seq<u32>,
    limit: int,
    rest: Seq<(u32, usize)>,
    segs: Seq<Seg>,
    at: int,
)
    requires
        0 <= at <= segs.len(),
        splats_of(rest, rest.len() as int, segs, at),
        forall|q: int|
            0 <= q < rest.len() ==> item_right(pos, cval, window, limit, #[trigger] rest[q]),
    ensures
        segs_right(pos, cval, window, segs, at, false, limit),
        forall|q: int|
            0 <= q < rest.len() ==> written_from(segs, at, (#[trigger] rest[q]).1 as int),
{
    let n = rest.len() as int;
    assert forall|k: int| at <= k < segs.len() implies seg_right(
        pos,
        cval,
        window,
        #[trigger] segs[k],
        false,
    ) && segs[k].src < limit && segs[k].shift < 64 by {
        let seg = segs[k];
        assert(splat_of(rest, n, seg));
        assert forall|j: int| 0 <= j < 64 && #[trigger] wbit(seg.mask, j) implies wanted(cval, window, j)
            && seg.src == pos[window[j] as int] && seg.src < limit by {
            assert(among(rest, n, seg.src, j));
            let q = choose|q: int| 0 <= q < n && (#[trigger] rest[q]).0 == seg.src && rest[q].1 == j;
            assert(item_right(pos, cval, window, limit, rest[q]));
        }
        let some = choose|j: int| 0 <= j < 64 && #[trigger] wbit(seg.mask, j);
        assert(wbit(seg.mask, some));
    }
    assert forall|q: int| 0 <= q < rest.len() implies written_from(
        segs,
        at,
        (#[trigger] rest[q]).1 as int,
    ) by {
        assert(item_right(pos, cval, window, limit, rest[q]));
        assert(has_source(segs, at, rest[q].0));
        let k = choose|k: int| at <= k < segs.len() && (#[trigger] segs[k]).src == rest[q].0;
        assert(splat_of(rest, n, segs[k]));
        assert(among(rest, n, segs[k].src, rest[q].1 as int));
        assert(wbit(segs[k].mask, rest[q].1 as int));
    }
}

/// Destination bit `j` reads source bit `p` and lies in no stretch.
spec fn scattered(
    pos: Seq<u32>,
    cval: Seq<u8>,
    window: Seq<u32>,
    runs: Seq<(int, int)>,
    p: u32,
    j: int,
) -> bool {
    wanted(cval, window, j) && !in_runs(runs, j) && pos[window[j] as int] == p
}

/// The leftover items are the scattered bits.
proof fn lemma_scattered(
    window: Seq<u32>,
    pos: Seq<u32>,
    cval: Seq<u8>,
    constants: u64,
    covered: u64,
    segs1: Seq<Seg>,
    from: int,
    rest: Seq<(u32, usize)>,
    p: u32,
    j: int,
)
    requires
        window.len() <= 64,
        0 <= from <= segs1.len(),
        0 <= j < 64,
        funnels_are(pos, window, funnel_runs(pos, cval, window, 0), segs1, from),
        wbit(constants, j) == (j < window.len() && !wanted(cval, window, j)),
        wbit(covered, j) == (wbit(constants, j) || written_from(segs1, from, j)),
        forall|p: u32, j: usize|
            #[trigger] rest.contains((p, j)) <==> j < window.len() && !wbit(covered, j as int) && p
                == pos[window[j as int] as int],
    ensures
        among(rest, rest.len() as int, p, j) == scattered(
            pos,
            cval,
            window,
            funnel_runs(pos, cval, window, 0),
            p,
            j,
        ),
{
    let runs = funnel_runs(pos, cval, window, 0);
    lemma_written_runs(pos, window, runs, segs1, from, j);
    if among(rest, rest.len() as int, p, j) {
        let q = choose|q: int| 0 <= q < rest.len() && (#[trigger] rest[q]).0 == p && rest[q].1 == j;
        assert(rest[q] == (p, j as usize));
        assert(rest.contains((p, j as usize)));
    }
    if scattered(pos, cval, window, runs, p, j) {
        assert(rest.contains((p, j as usize)));
        let q = choose|q: int| 0 <= q < rest.len() && rest[q] == (p, j as usize);
        assert(rest[q].0 == p && rest[q].1 == j);
    }
}

/// Funnels and splats make the program of the window.
#[verifier::rlimit(40)]
proof fn lemma_program(
    window: Seq<u32>,
    pos: Seq<u32>,
    cval: Seq<u8>,
    constants: u64,
    covered: u64,
    imm: u64,
    segs1: Seq<Seg>,
    segs: Seq<Seg>,
    from: int,
    rest: Seq<(u32, usize)>,
)
    requires
        window.len() <= 64,
        0 <= from <= segs1.len() <= segs.len(),
        segs.take(segs1.len() as int) == segs1,
        funnels_are(pos, window, funnel_runs(pos, cval, window, 0), segs1, from),
        forall|j: int|
            0 <= j < 64 ==> #[trigger] wbit(constants, j) == (j < window.len() && !wanted(cval, window, j)),
        forall|j: int|
            0 <= j < 64 ==> #[trigger] wbit(imm, j) == (j < window.len() && window[j] != NIL
                && cval[window[j] as int] == 1),
        forall|j: int|
            0 <= j < 64 ==> #[trigger] wbit(covered, j) == (wbit(constants, j) || written_from(segs1, from, j)),
        forall|p: u32, j: usize|
            #[trigger] rest.contains((p, j)) <==> j < window.len() && !wbit(covered, j as int) && p
                == pos[window[j as int] as int],
        forall|q: int|
            0 <= q < rest.len() ==> written_from(segs, segs1.len() as int, (#[trigger] rest[q]).1 as int),
        forall|k: int|
            segs1.len() <= k < segs.len() ==> splat_of(rest, rest.len() as int, #[trigger] segs[k]),
        forall|j: int, k: int|
            segs1.len() <= j < k < segs.len() ==> (#[trigger] segs[j]).src < (#[trigger] segs[k]).src,
    ensures
        is_program(pos, cval, window, segs.skip(from), segs1.len() - from, imm),
{
    let runs = funnel_runs(pos, cval, window, 0);
    let new = segs.skip(from);
    let funnels = segs1.len() - from;
    assert forall|k: int| 0 <= k < funnels implies is_funnel(pos, window, runs[k], #[trigger] new[k]) by {
        assert(is_funnel(pos, window, runs[k], segs1[from + k]));
        assert(segs.take(segs1.len() as int)[from + k] == segs1[from + k]);
    }
    assert forall|p: u32, j: int| 0 <= j < 64 implies #[trigger] among(rest, rest.len() as int, p, j)
        == scattered(pos, cval, window, runs, p, j) by {
        lemma_scattered(window, pos, cval, constants, covered, segs1, from, rest, p, j);
    }
    assert forall|k: int| funnels <= k < new.len() implies is_splat(
        pos,
        cval,
        window,
        runs,
        #[trigger] new[k],
    ) by {
        let seg = segs[from + k];
        assert(new[k] == seg);
        assert(splat_of(rest, rest.len() as int, seg));
        assert forall|j: int| 0 <= j < 64 implies #[trigger] wbit(seg.mask, j) == (wanted(cval, window, j)
            && !in_runs(runs, j) && pos[window[j] as int] == seg.src) by {
            assert(wbit(seg.mask, j) == among(rest, rest.len() as int, seg.src, j));
        }
    }
    assert forall|j: int|
        0 <= j < window.len() && #[trigger] wanted(cval, window, j) && !in_runs(runs, j) implies exists|k: int|
        funnels <= k < new.len() && (#[trigger] new[k]).src == pos[window[j] as int] by {
        let p = pos[window[j] as int];
        assert(among(rest, rest.len() as int, p, j));
        let q = choose|q: int| 0 <= q < rest.len() && (#[trigger] rest[q]).0 == p && rest[q].1 == j;
        assert(written_from(segs, segs1.len() as int, rest[q].1 as int));
        let k = choose|k: int| segs1.len() <= k < segs.len() && wbit((#[trigger] segs[k]).mask, j);
        assert(splat_of(rest, rest.len() as int, segs[k]));
        assert(wbit(segs[k].mask, j) == among(rest, rest.len() as int, segs[k].src, j));
        assert(new[k - from] == segs[k]);
    }
    assert forall|j: int, k: int| funnels <= j < k < new.len() implies (#[trigger] new[j]).src < (
    #[trigger] new[k]).src by {
        assert(segs[from + j].src < segs[from + k].src);
    }
    reveal(is_program);
}

/// Segments that are right and cover what is wanted yield the stream.
proof fn lemma_stream(
    bits: Seq<u64>,
    window: Seq<u32>,
    pos: Seq<u32>,
    cval: Seq<u8>,
    constants: u64,
    covered: u64,
    imm: u64,
    segs1: Seq<Seg>,
    segs: Seq<Seg>,
    from: int,
    rest: Seq<(u32, usize)>,
    i: int,
)
    requires
        0 <= i < 64,
        window.len() <= 64,
        0 <= from <= segs1.len() <= segs.len(),
        segs.take(segs1.len() as int) == segs1,
        forall|j: int|
            0 <= j < 64 ==> #[trigger] wbit(constants, j) == (j < window.len() && !wanted(cval, window, j)),
        forall|j: int|
            0 <= j < 64 ==> #[trigger] wbit(imm, j) == (j < window.len() && window[j] != NIL
                && cval[window[j] as int] == 1),
        forall|j: int|
            0 <= j < 64 ==> #[trigger] wbit(covered, j) == (wbit(constants, j) || written_from(segs1, from, j)),
        forall|k: int|
            from <= k < segs.len() ==> seg_right(pos, cval, window, #[trigger] segs[k], k < segs1.len()),
        forall|p: u32, j: usize|
            #[trigger] rest.contains((p, j)) <==> j < window.len() && !wbit(covered, j as int) && p
                == pos[window[j as int] as int],
        forall|q: int|
            0 <= q < rest.len() ==> written_from(segs, segs1.len() as int, (#[trigger] rest[q]).1 as int),
    ensures
        gather_bit(bits, segs.skip(from), segs1.len() - from, imm, i) == stream_bit(
            bits,
            pos,
            cval,
            window,
            i,
        ),
{
    let new = segs.skip(from);
    let funnels = segs1.len() - from;
    assert(wbit(imm, i) == (i < window.len() && window[i] != NIL && cval[window[i] as int] == 1));
    if gather_bit(bits, new, funnels, imm, i) && !wbit(imm, i) {
        let k = choose|k: int| 0 <= k < new.len() && #[trigger] seg_at(bits, new, funnels, k, i);
        assert(new[k] == segs[from + k]);
        assert(seg_right(pos, cval, window, segs[from + k], from + k < segs1.len()));
        assert(wbit(segs[from + k].mask, i));
    }
    if stream_bit(bits, pos, cval, window, i) && !wbit(imm, i) {
        assert(wanted(cval, window, i));
        assert(!wbit(constants, i));
        let k = if wbit(covered, i) {
            let k = choose|k: int| from <= k < segs1.len() && wbit((#[trigger] segs1[k]).mask, i);
            assert(segs.take(segs1.len() as int)[k] == segs1[k]);
            k
        } else {
            let item = (pos[window[i] as int], i as usize);
            assert(rest.contains(item));
            let q = choose|q: int| 0 <= q < rest.len() && rest[q] == item;
            assert(written_from(segs, segs1.len() as int, rest[q].1 as int));
            choose|k: int| segs1.len() <= k < segs.len() && wbit((#[trigger] segs[k]).mask, i)
        };
        assert(wbit(segs[k].mask, i));
        assert(seg_right(pos, cval, window, segs[k], k < segs1.len()));
        assert(new[k - from] == segs[k]);
        assert(seg_at(bits, new, funnels, k - from, i));
    }
}

} // verus!
