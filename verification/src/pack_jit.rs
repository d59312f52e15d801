//! Packed JIT engine: the bit-packed word program as straight-line code.
//!
//! [`crate::pack::PackedEngine`] interprets the plan: every tick streams
//! segment metadata through the cache and pays a dispatch branch per task.
//! This engine takes the exact same plan and emits it as straight-line code
//! instead:
//!
//! - segment metadata (source positions, shifts, masks) become instruction
//!   immediates;
//! - constant shift amounts let funnels drop the branchless contortion and
//!   splats use a two-shift sign-broadcast;
//! - a word-level cache forwards each task's result directly to its
//!   consumers within a chunk, so most arena words are loaded at most once.
//!
//! The task list is split into chunks, one function per chunk, to keep
//! register allocation time linear in circuit size.
use vstd::prelude::*;

use crate::adding::wadd64;
use crate::circuit::Circuit;
use crate::compile::{same_machine, Compiled, Op};
use crate::engine::{Engine, Machine};
use crate::gather::{
    bit_at, gather_bit, gathers, lemma_gather_push, lemma_word_logic, seg_bit, segs_in, wbit, Seg,
};
use crate::netlist::Env;
use crate::pack::{
    apply_staging, lemma_edge, lemma_packed_input, lemma_packed_power_on, lemma_packed_ticked,
    lemma_task_step, packed_machine, packed_ok, power_on_arena, read_output, write_input,
};
use crate::plan::{
    captures_join, combine, fits_arena, held, next_states, packable, reads_stream, stream_segs,
    stream_yields, task_joins, task_len, task_yields, Plan, Task, TaskOp,
};

verus! {

/// Tasks per function; bounds compile time on huge circuits.
pub const CHUNK: usize = 512;

/// The most staging words that straight-line code can address: instructions
/// are numbered with 32 bits, and a staging word may take hundreds.
pub const STAGE_LIMIT: usize = 0x8_0000;

/// One word instruction. Operands are the numbers of earlier instructions of
/// the same function; a store yields what it stores.
#[derive(Clone, Copy, Debug)]
pub enum WordIns {
    Const(u64),
    /// Read an arena word.
    Load(u32),
    /// Logical right shift by a constant.
    Shr(u32, u8),
    /// Left shift by a constant.
    Shl(u32, u8),
    /// The sign bit, broadcast to all lanes.
    Spread(u32),
    /// And with a constant.
    Mask(u32, u64),
    And(u32, u32),
    Or(u32, u32),
    Xor(u32, u32),
    Not(u32),
    /// Bitwise `if a { b } else { c }`.
    Select(u32, u32, u32),
    /// Addition modulo 2^64.
    Add(u32, u32),
    /// Write an arena word.
    Store(u32, u32),
    /// Write a staging word.
    Stage(u32, u32),
}

/// Registers, arena and staging while the code runs.
#[verifier::ext_equal]
pub struct WordFrame {
    pub regs: Seq<u64>,
    pub bits: Seq<u64>,
    pub staging: Seq<u64>,
}

/// What one instruction yields.
pub open spec fn word_yields(ins: WordIns, f: WordFrame) -> u64 {
    match ins {
        WordIns::Const(v) => v,
        WordIns::Load(w) => f.bits[w as int],
        WordIns::Shr(a, k) => f.regs[a as int] >> (k as u64),
        WordIns::Shl(a, k) => f.regs[a as int] << (k as u64),
        WordIns::Spread(a) => if wbit(f.regs[a as int], 63) {
            0xffff_ffff_ffff_ffff
        } else {
            0
        },
        WordIns::Mask(a, m) => f.regs[a as int] & m,
        WordIns::And(a, b) => f.regs[a as int] & f.regs[b as int],
        WordIns::Or(a, b) => f.regs[a as int] | f.regs[b as int],
        WordIns::Xor(a, b) => f.regs[a as int] ^ f.regs[b as int],
        WordIns::Not(a) => !f.regs[a as int],
        WordIns::Select(a, b, c) => (f.regs[a as int] & f.regs[b as int]) | (!f.regs[a as int]
            & f.regs[c as int]),
        WordIns::Add(a, b) => wadd64(f.regs[a as int], f.regs[b as int]),
        WordIns::Store(_, v) => f.regs[v as int],
        WordIns::Stage(_, v) => f.regs[v as int],
    }
}

/// One step.
pub open spec fn word_stepped(ins: WordIns, f: WordFrame) -> WordFrame {
    WordFrame {
        regs: f.regs.push(word_yields(ins, f)),
        bits: match ins {
            WordIns::Store(w, v) => f.bits.update(w as int, f.regs[v as int]),
            _ => f.bits,
        },
        staging: match ins {
            WordIns::Stage(k, v) => f.staging.update(k as int, f.regs[v as int]),
            _ => f.staging,
        },
    }
}

/// The first `k` instructions, run on an arena.
pub open spec fn word_ran(code: Seq<WordIns>, bits: Seq<u64>, staging: Seq<u64>, k: int) -> WordFrame
    decreases k,
{
    if k <= 0 {
        WordFrame { regs: Seq::empty(), bits, staging }
    } else {
        word_stepped(code[k - 1], word_ran(code, bits, staging, k - 1))
    }
}

/// Where the whole function ends.
pub open spec fn word_result(code: Seq<WordIns>, bits: Seq<u64>, staging: Seq<u64>) -> WordFrame {
    word_ran(code, bits, staging, code.len() as int)
}

/// Operand, word and shift numbers are in range.
pub open spec fn word_ins_ok(ins: WordIns, at: int, words: int, stages: int) -> bool {
    match ins {
        WordIns::Const(_) => true,
        WordIns::Load(w) => w < words,
        WordIns::Shr(a, k) | WordIns::Shl(a, k) => a < at && k < 64,
        WordIns::Spread(a) | WordIns::Mask(a, _) | WordIns::Not(a) => a < at,
        WordIns::And(a, b) | WordIns::Or(a, b) | WordIns::Xor(a, b) | WordIns::Add(a, b) => a < at && b < at,
        WordIns::Select(a, b, c) => a < at && b < at && c < at,
        WordIns::Store(w, v) => w < words && v < at,
        WordIns::Stage(k, v) => k < stages && v < at,
    }
}

pub open spec fn word_code_ok(code: Seq<WordIns>, words: int, stages: int) -> bool {
    forall|k: int| 0 <= k < code.len() ==> word_ins_ok(#[trigger] code[k], k, words, stages)
}

proof fn lemma_word_ran_push(code: Seq<WordIns>, ins: WordIns, bits: Seq<u64>, staging: Seq<u64>, k: int)
    requires
        0 <= k <= code.len(),
    ensures
        word_ran(code.push(ins), bits, staging, k) == word_ran(code, bits, staging, k),
    decreases k,
{
    if k > 0 {
        lemma_word_ran_push(code, ins, bits, staging, k - 1);
        assert(code.push(ins)[k - 1] == code[k - 1]);
    }
}

proof fn lemma_word_ran_len(code: Seq<WordIns>, bits: Seq<u64>, staging: Seq<u64>, k: int)
    requires
        0 <= k <= code.len(),
        word_code_ok(code, bits.len() as int, staging.len() as int),
    ensures
        word_ran(code, bits, staging, k).regs.len() == k,
        word_ran(code, bits, staging, k).bits.len() == bits.len(),
        word_ran(code, bits, staging, k).staging.len() == staging.len(),
    decreases k,
{
    if k > 0 {
        lemma_word_ran_len(code, bits, staging, k - 1);
        assert(word_ins_ok(code[k - 1], k - 1, bits.len() as int, staging.len() as int));
    }
}

/// The arena word that an instruction brings into a register.
pub open spec fn touched(ins: WordIns) -> Option<u32> {
    match ins {
        WordIns::Load(w) => Some(w),
        WordIns::Store(w, _) => Some(w),
        _ => None,
    }
}

/// No arena word is loaded twice, or after it was stored: from then on it
/// flows through its register.
pub open spec fn loads_once(code: Seq<WordIns>) -> bool {
    forall|j: int, k: int|
        0 <= j < k < code.len() ==> (#[trigger] code[k] matches WordIns::Load(w) ==> touched(
            #[trigger] code[j],
        ) != Some(w))
}

/// Nothing is loaded twice, and what was brought into a register is cached.
#[verifier::opaque]
spec fn once(code: Seq<WordIns>, cache: Seq<Option<u32>>) -> bool {
    &&& loads_once(code)
    &&& forall|k: int|
        0 <= k < code.len() ==> (touched(#[trigger] code[k]) matches Some(w) ==> w < cache.len()
            && cache[w as int] is Some)
}

/// One more instruction.
proof fn lemma_once(code: Seq<WordIns>, cache: Seq<Option<u32>>, ins: WordIns, after: Seq<Option<u32>>)
    requires
        once(code, cache),
        after.len() == cache.len(),
        forall|w: int| 0 <= w < cache.len() && cache[w] is Some ==> #[trigger] after[w] is Some,
        touched(ins) matches Some(w) ==> w < after.len() && after[w as int] is Some,
        ins matches WordIns::Load(w) ==> cache[w as int] is None,
    ensures
        once(code.push(ins), after),
{
    reveal(once);
    let more = code.push(ins);
    assert forall|j: int, k: int| 0 <= j < k < more.len() implies (#[trigger] more[k] matches WordIns::Load(
        w,
    ) ==> touched(#[trigger] more[j]) != Some(w)) by {
        assert(more[j] == code[j]);
        if k < code.len() {
            assert(more[k] == code[k]);
        }
    }
    assert forall|k: int| 0 <= k < more.len() implies (touched(#[trigger] more[k]) matches Some(w) ==> w
        < after.len() && after[w as int] is Some) by {
        if k < code.len() {
            assert(more[k] == code[k]);
        }
    }
}

/// Code under construction, with the register that holds each arena word.
struct Emitter {
    code: Vec<WordIns>,
    cache: Vec<Option<u32>>,
    words: Ghost<int>,
    stages: Ghost<int>,
}

/// Arena and staging have the right sizes.
spec fn sized(words: int, stages: int, bits: Seq<u64>, staging: Seq<u64>) -> bool {
    bits.len() == words && staging.len() == stages
}

/// Cached registers hold the current arena words.
spec fn cache_right(cache: Seq<Option<u32>>, f: WordFrame) -> bool {
    forall|w: int| 0 <= w < cache.len() ==> (#[trigger] cache[w] matches Some(v) ==> f.regs[v as int] == f.bits[w])
}

impl Emitter {
    spec fn ok(&self) -> bool {
        self.sound() && once(self.code@, self.cache@)
    }

    spec fn sound(&self) -> bool {
        &&& word_code_ok(self.code@, self.words@, self.stages@)
        &&& self.cache@.len() == self.words@
        &&& forall|w: int|
            0 <= w < self.cache@.len() ==> (#[trigger] self.cache@[w] matches Some(v) ==> v < self.code@.len())
        &&& forall|bits: Seq<u64>, staging: Seq<u64>|
            sized(self.words@, self.stages@, bits, staging) ==> cache_right(
                self.cache@,
                #[trigger] word_result(self.code@, bits, staging),
            )
    }

    /// `self` is `before` with more instructions, none of which writes.
    spec fn reads_more(&self, before: &Emitter) -> bool {
        &&& self.words == before.words
        &&& self.stages == before.stages
        &&& before.code@.len() <= self.code@.len()
        &&& forall|bits: Seq<u64>, staging: Seq<u64>|
            sized(self.words@, self.stages@, bits, staging) ==> same_memory(
                #[trigger] word_result(self.code@, bits, staging),
                word_result(before.code@, bits, staging),
                before.code@.len() as int,
            )
    }

    /// Append an instruction that writes nothing; returns its number.
    fn push(&mut self, ins: WordIns) -> (v: u32)
        requires
            old(self).ok(),
            word_ins_ok(ins, old(self).code@.len() as int, old(self).words@, old(self).stages@),
            !(ins is Store),
            !(ins is Stage),
            old(self).code@.len() < u32::MAX,
        ensures
            final(self).sound(),
            !(ins is Load) ==> final(self).ok(),
            final(self).reads_more(old(self)),
            v == old(self).code@.len(),
            final(self).code@ == old(self).code@.push(ins),
            final(self).code@.len() == old(self).code@.len() + 1,
            final(self).cache == old(self).cache,
            forall|bits: Seq<u64>, staging: Seq<u64>|
                sized(final(self).words@, final(self).stages@, bits, staging) ==> (
                #[trigger] word_result(final(self).code@, bits, staging)).regs[v as int] == word_yields(
                    ins,
                    word_result(old(self).code@, bits, staging),
                ),
    {
        let v: u32 = self.code.len() as u32;
        let ghost code0 = self.code@;
        self.code.push(ins);
        proof {
            if !(ins is Load) {
                lemma_once(code0, self.cache@, ins, self.cache@);
            }
            assert forall|k: int| 0 <= k < self.code@.len() implies word_ins_ok(
                #[trigger] self.code@[k],
                k,
                self.words@,
                self.stages@,
            ) by {
                if k < code0.len() {
                    assert(self.code@[k] == code0[k]);
                }
            }
            assert forall|bits: Seq<u64>, staging: Seq<u64>|
                sized(self.words@, self.stages@, bits, staging) implies {
                let g = #[trigger] word_result(self.code@, bits, staging);
                let f = word_result(code0, bits, staging);
                &&& cache_right(self.cache@, g)
                &&& same_memory(g, f, code0.len() as int)
                &&& g.regs[v as int] == word_yields(ins, f)
            } by {
                lemma_word_ran_push(code0, ins, bits, staging, code0.len() as int);
                lemma_word_ran_len(code0, bits, staging, code0.len() as int);
                let g = word_result(self.code@, bits, staging);
                let f = word_result(code0, bits, staging);
                assert(g == word_stepped(ins, f));
                assert(cache_right(self.cache@, f));
                assert forall|w: int| 0 <= w < self.cache@.len() implies (
                #[trigger] self.cache@[w] matches Some(r) ==> g.regs[r as int] == g.bits[w]) by {
                    assert(self.cache@[w] matches Some(r) ==> f.regs[r as int] == f.bits[w]);
                }
            }
        }
        v
    }

    /// The register that holds arena word `w`.
    fn word(&mut self, w: u32) -> (v: u32)
        requires
            old(self).ok(),
            w < old(self).words@,
            old(self).code@.len() < u32::MAX,
        ensures
            final(self).ok(),
            final(self).reads_more(old(self)),
            v < final(self).code@.len() <= old(self).code@.len() + 1,
            forall|bits: Seq<u64>, staging: Seq<u64>|
                sized(final(self).words@, final(self).stages@, bits, staging) ==> (
                #[trigger] word_result(final(self).code@, bits, staging)).regs[v as int] == word_result(
                    final(self).code@,
                    bits,
                    staging,
                ).bits[w as int],
    {
        match self.cache[w as usize] {
            Some(v) => {
                proof {
                    assert forall|bits: Seq<u64>, staging: Seq<u64>|
                        sized(self.words@, self.stages@, bits, staging) implies same_memory(
                        #[trigger] word_result(self.code@, bits, staging),
                        word_result(self.code@, bits, staging),
                        self.code@.len() as int,
                    ) by {
                        lemma_word_ran_len(self.code@, bits, staging, self.code@.len() as int);
                    }
                    assert forall|bits: Seq<u64>, staging: Seq<u64>|
                        sized(self.words@, self.stages@, bits, staging) implies (
                    #[trigger] word_result(self.code@, bits, staging)).regs[v as int] == word_result(
                        self.code@,
                        bits,
                        staging,
                    ).bits[w as int] by {
                        assert(cache_right(self.cache@, word_result(self.code@, bits, staging)));
                    }
                }
                v
            },
            None => {
                let v: u32 = self.push(WordIns::Load(w));
                let ghost cache0 = self.cache@;
                self.cache.set(w as usize, Some(v));
                proof {
                    lemma_once(old(self).code@, cache0, WordIns::Load(w), self.cache@);
                    assert forall|bits: Seq<u64>, staging: Seq<u64>|
                        sized(self.words@, self.stages@, bits, staging) implies cache_right(
                        self.cache@,
                        #[trigger] word_result(self.code@, bits, staging),
                    ) by {
                        assert(cache_right(cache0, word_result(self.code@, bits, staging)));
                        let f = word_result(self.code@, bits, staging);
                        assert forall|x: int| 0 <= x < self.cache@.len() implies (
                        #[trigger] self.cache@[x] matches Some(r) ==> f.regs[r as int] == f.bits[x]) by {
                            if x != w {
                                assert(self.cache@[x] == cache0[x]);
                            }
                        }
                    }
                }
                v
            },
        }
    }
}

/// Register `v` holds what segment `seg` contributes.
spec fn holds_seg(e: Emitter, v: int, seg: Seg, funnel: bool) -> bool {
    forall|bits: Seq<u64>, staging: Seq<u64>|
        sized(e.words@, e.stages@, bits, staging) ==> seg_word(
            #[trigger] word_result(e.code@, bits, staging),
            v,
            seg,
            funnel,
        )
}

spec fn seg_word(f: WordFrame, v: int, seg: Seg, funnel: bool) -> bool {
    forall|i: int| 0 <= i < 64 ==> #[trigger] wbit(f.regs[v], i) == seg_bit(f.bits, seg, funnel, i)
}

/// The accumulator holds the first `k` segments and the immediate; none
/// means that there is nothing yet.
spec fn acc_right(e: Emitter, acc: Option<u32>, segs: Seq<Seg>, k: int, funnels: int, imm: u64) -> bool {
    &&& acc matches Some(a) ==> a < e.code@.len()
    &&& forall|bits: Seq<u64>, staging: Seq<u64>|
        sized(e.words@, e.stages@, bits, staging) ==> acc_word(
            #[trigger] word_result(e.code@, bits, staging),
            acc,
            segs.take(k),
            funnels,
            imm,
        )
}

spec fn acc_word(f: WordFrame, acc: Option<u32>, segs: Seq<Seg>, funnels: int, imm: u64) -> bool {
    forall|i: int|
        0 <= i < 64 ==> #[trigger] gather_bit(f.bits, segs, funnels, imm, i) == (match acc {
            Some(a) => wbit(f.regs[a as int], i),
            None => false,
        })
}

/// More reads leave the accumulator alone.
proof fn lemma_acc_stays(
    before: Emitter,
    after: Emitter,
    acc: Option<u32>,
    segs: Seq<Seg>,
    k: int,
    funnels: int,
    imm: u64,
)
    requires
        after.reads_more(&before),
        acc_right(before, acc, segs, k, funnels, imm),
    ensures
        acc_right(after, acc, segs, k, funnels, imm),
{
    assert forall|bits: Seq<u64>, staging: Seq<u64>|
        sized(after.words@, after.stages@, bits, staging) implies acc_word(
        #[trigger] word_result(after.code@, bits, staging),
        acc,
        segs.take(k),
        funnels,
        imm,
    ) by {
        let f = word_result(before.code@, bits, staging);
        let g = word_result(after.code@, bits, staging);
        assert(same_memory(g, f, before.code@.len() as int));
        assert(acc_word(f, acc, segs.take(k), funnels, imm));
        assert forall|i: int| 0 <= i < 64 implies #[trigger] gather_bit(g.bits, segs.take(k), funnels, imm, i)
            == (match acc {
            Some(a) => wbit(g.regs[a as int], i),
            None => false,
        }) by {
            assert(gather_bit(f.bits, segs.take(k), funnels, imm, i) == gather_bit(
                g.bits,
                segs.take(k),
                funnels,
                imm,
                i,
            ));
        }
    }
}

/// Reading on and on is reading.
proof fn lemma_reads_chain(a: Emitter, b: Emitter, c: Emitter)
    requires
        b.reads_more(&a),
        c.reads_more(&b),
    ensures
        c.reads_more(&a),
{
    assert forall|bits: Seq<u64>, staging: Seq<u64>| sized(c.words@, c.stages@, bits, staging) implies same_memory(
        #[trigger] word_result(c.code@, bits, staging),
        word_result(a.code@, bits, staging),
        a.code@.len() as int,
    ) by {
        assert(same_memory(
            word_result(c.code@, bits, staging),
            word_result(b.code@, bits, staging),
            b.code@.len() as int,
        ));
        assert(same_memory(
            word_result(b.code@, bits, staging),
            word_result(a.code@, bits, staging),
            a.code@.len() as int,
        ));
    }
}

impl Emitter {
    /// Emit one funnel segment.
    #[verifier::rlimit(60)]
    fn funnel(&mut self, seg: Seg) -> (v: u32)
        requires
            old(self).ok(),
            seg.src < (old(self).words@ - 1) * 64,
            seg.shift < 64,
            old(self).code@.len() + 7 <= u32::MAX,
        ensures
            final(self).ok(),
            final(self).reads_more(old(self)),
            v < final(self).code@.len() <= old(self).code@.len() + 7,
            holds_seg(*final(self), v as int, seg, true),
    {
        let w: u32 = seg.src / 64;
        let o: u32 = seg.src % 64;
        let ghost e0 = *self;
        let lo: u32 = self.word(w);
        let ghost e1 = *self;
        // Source bit `src + k` lands at bit `shift + k`. With `o` known at
        // compile time the `o == 0` case needs no high word.
        let mut v: u32 = lo;
        if o != 0 {
            let hi: u32 = self.word(w + 1);
            let ghost e2 = *self;
            let l: u32 = self.push(WordIns::Shr(lo, o as u8));
            let ghost e3 = *self;
            let h: u32 = self.push(WordIns::Shl(hi, (64 - o) as u8));
            let ghost e4 = *self;
            v = self.push(WordIns::Or(l, h));
            proof {
                lemma_reads_chain(e0, e1, e2);
                lemma_reads_chain(e0, e2, e3);
                lemma_reads_chain(e0, e3, e4);
                lemma_reads_chain(e0, e4, *self);
                assert forall|bits: Seq<u64>, staging: Seq<u64>|
                    sized(self.words@, self.stages@, bits, staging) implies window_word(
                    #[trigger] word_result(self.code@, bits, staging),
                    v as int,
                    seg.src as int,
                ) by {
                    let f1 = word_result(e1.code@, bits, staging);
                    let f2 = word_result(e2.code@, bits, staging);
                    let f3 = word_result(e3.code@, bits, staging);
                    let f4 = word_result(e4.code@, bits, staging);
                    let f5 = word_result(self.code@, bits, staging);
                    assert(same_memory(f2, f1, e1.code@.len() as int));
                    assert(same_memory(f3, f2, e2.code@.len() as int));
                    assert(same_memory(f4, f3, e3.code@.len() as int));
                    assert(same_memory(f5, f4, e4.code@.len() as int));
                    let lw = f5.bits[w as int];
                    let hw = f5.bits[w + 1];
                    assert(f1.regs[lo as int] == lw);
                    assert(f2.regs[hi as int] == hw);
                    assert(f3.regs[l as int] == lw >> (o as u64));
                    assert(f4.regs[h as int] == hw << ((64 - o) as u64));
                    assert(f5.regs[v as int] == (lw >> (o as u64)) | (hw << ((64 - o) as u64)));
                    assert forall|k: int| 0 <= k < 64 implies #[trigger] wbit(f5.regs[v as int], k) == bit_at(
                        f5.bits,
                        seg.src + k,
                    ) by {
                        lemma_word_logic(lw >> (o as u64), hw << ((64 - o) as u64), k);
                        crate::gather::lemma_low_part(lw, o as u64, k as u64);
                        crate::gather::lemma_shifted_ones(hw, (64 - o) as u64, k as u64);
                        let p = seg.src + k;
                        if k + o < 64 {
                            assert(p / 64 == w && p % 64 == k + o);
                        } else {
                            assert(p / 64 == w + 1 && p % 64 == k + o - 64);
                        }
                    }
                }
            }
        } else {
            proof {
                assert forall|bits: Seq<u64>, staging: Seq<u64>|
                    sized(self.words@, self.stages@, bits, staging) implies window_word(
                    #[trigger] word_result(self.code@, bits, staging),
                    v as int,
                    seg.src as int,
                ) by {
                    let f = word_result(self.code@, bits, staging);
                    assert forall|k: int| 0 <= k < 64 implies #[trigger] wbit(f.regs[v as int], k) == bit_at(
                        f.bits,
                        seg.src + k,
                    ) by {
                        let p = seg.src + k;
                        assert(p / 64 == w && p % 64 == k);
                    }
                }
            }
        }
        let ghost e5 = *self;
        let ghost raw = v;
        if seg.shift != 0 {
            v = self.push(WordIns::Shl(v, seg.shift));
            proof {
                lemma_reads_chain(e0, e5, *self);
            }
        }
        let ghost e6 = *self;
        let r: u32 = self.push(WordIns::Mask(v, seg.mask));
        proof {
            lemma_reads_chain(e0, e6, *self);
            assert forall|bits: Seq<u64>, staging: Seq<u64>|
                sized(self.words@, self.stages@, bits, staging) implies seg_word(
                #[trigger] word_result(self.code@, bits, staging),
                r as int,
                seg,
                true,
            ) by {
                let f5 = word_result(e5.code@, bits, staging);
                let f6 = word_result(e6.code@, bits, staging);
                let f7 = word_result(self.code@, bits, staging);
                assert(same_memory(f7, f6, e6.code@.len() as int));
                assert(window_word(f5, raw as int, seg.src as int));
                let x = f5.regs[raw as int];
                assert(seg.shift != 0 ==> same_memory(f6, f5, e5.code@.len() as int));
                assert(seg.shift != 0 ==> f6.regs[v as int] == x << (seg.shift as u64));
                assert(f6.bits == f5.bits);
                let y = f6.regs[v as int];
                assert(f7.regs[r as int] == y & seg.mask);
                assert forall|i: int| 0 <= i < 64 implies #[trigger] wbit(f7.regs[r as int], i) == seg_bit(
                    f7.bits,
                    seg,
                    true,
                    i,
                ) by {
                    lemma_word_logic(y, seg.mask, i);
                    crate::gather::lemma_shifted_ones(x, seg.shift as u64, i as u64);
                    if i >= seg.shift {
                        assert(wbit(x, i - seg.shift) == bit_at(f5.bits, seg.src + (i - seg.shift)));
                    }
                }
            }
        }
        r
    }

    /// Emit one splat segment: bit `o` broadcast to all lanes with two
    /// shifts (arithmetic right shift of the bit parked at the sign).
    #[verifier::rlimit(60)]
    fn splat(&mut self, seg: Seg) -> (v: u32)
        requires
            old(self).ok(),
            seg.src < (old(self).words@ - 1) * 64,
            old(self).code@.len() + 7 <= u32::MAX,
        ensures
            final(self).ok(),
            final(self).reads_more(old(self)),
            v < final(self).code@.len() <= old(self).code@.len() + 7,
            holds_seg(*final(self), v as int, seg, false),
    {
        let w: u32 = seg.src / 64;
        let o: u32 = seg.src % 64;
        let ghost e0 = *self;
        let lo: u32 = self.word(w);
        let ghost e1 = *self;
        let parked: u32 = if o == 63 {
            lo
        } else {
            self.push(WordIns::Shl(lo, (63 - o) as u8))
        };
        let ghost e2 = *self;
        proof {
            if o != 63 {
                lemma_reads_chain(e0, e1, e2);
            }
        }
        let all: u32 = self.push(WordIns::Spread(parked));
        let ghost e3 = *self;
        let r: u32 = self.push(WordIns::Mask(all, seg.mask));
        proof {
            lemma_reads_chain(e0, e2, e3);
            lemma_reads_chain(e0, e3, *self);
            assert forall|bits: Seq<u64>, staging: Seq<u64>|
                sized(self.words@, self.stages@, bits, staging) implies seg_word(
                #[trigger] word_result(self.code@, bits, staging),
                r as int,
                seg,
                false,
            ) by {
                let f1 = word_result(e1.code@, bits, staging);
                let f2 = word_result(e2.code@, bits, staging);
                let f3 = word_result(e3.code@, bits, staging);
                let f4 = word_result(self.code@, bits, staging);
                assert(o != 63 ==> same_memory(f2, f1, e1.code@.len() as int));
                assert(same_memory(f3, f2, e2.code@.len() as int));
                assert(same_memory(f4, f3, e3.code@.len() as int));
                let lw = f4.bits[w as int];
                assert(f1.regs[lo as int] == lw);
                crate::gather::lemma_shifted_ones(lw, (63 - o) as u64, 63);
                assert(wbit(f2.regs[parked as int], 63) == wbit(lw, o as int));
                let y = f3.regs[all as int];
                assert(f4.regs[r as int] == y & seg.mask);
                assert forall|i: int| 0 <= i < 64 implies #[trigger] wbit(f4.regs[r as int], i) == seg_bit(
                    f4.bits,
                    seg,
                    false,
                    i,
                ) by {
                    lemma_word_logic(y, seg.mask, i);
                    lemma_word_logic(0, 0, i);
                    assert(seg.src as int / 64 == w && seg.src as int % 64 == o);
                }
            }
        }
        r
    }

    /// Emit one gather program as straight-line code.
    #[verifier::rlimit(60)]
    fn gather(&mut self, segs: &[Seg], funnels: usize, imm: u64) -> (v: u32)
        requires
            old(self).ok(),
            segs_in(segs@, old(self).words@),
            funnels <= segs@.len(),
            old(self).code@.len() + 8 * segs@.len() + 2 <= u32::MAX,
        ensures
            final(self).ok(),
            final(self).reads_more(old(self)),
            v < final(self).code@.len() <= old(self).code@.len() + 8 * segs@.len() + 2,
            holds_gather(*final(self), v as int, segs@, funnels as int, imm),
    {
        let ghost e0 = *self;
        let mut acc: Option<u32> = None;
        if imm != 0 {
            acc = Some(self.push(WordIns::Const(imm)));
        }
        proof {
            if imm == 0 {
                lemma_reads_self(*self);
            }
            assert(segs@.take(0) =~= Seq::<Seg>::empty());
            assert forall|bits: Seq<u64>, staging: Seq<u64>|
                sized(self.words@, self.stages@, bits, staging) implies acc_word(
                #[trigger] word_result(self.code@, bits, staging),
                acc,
                segs@.take(0),
                funnels as int,
                imm,
            ) by {
                let f = word_result(self.code@, bits, staging);
                assert forall|i: int| 0 <= i < 64 implies #[trigger] gather_bit(
                    f.bits,
                    segs@.take(0),
                    funnels as int,
                    imm,
                    i,
                ) == (match acc {
                    Some(a) => wbit(f.regs[a as int], i),
                    None => false,
                }) by {
                    lemma_word_logic(0, 0, i);
                }
            }
        }
        for k in 0..segs.len()
            invariant
                self.ok(),
                e0 == *old(self),
                self.reads_more(&e0),
                segs_in(segs@, self.words@),
                funnels <= segs@.len(),
                e0.code@.len() + 8 * segs@.len() + 2 <= u32::MAX,
                self.code@.len() <= e0.code@.len() + 8 * k + 1,
                acc_right(*self, acc, segs@, k as int, funnels as int, imm),
        {
            let seg = segs[k];
            assert(segs@[k as int].src < (self.words@ - 1) * 64);
            let ghost e1 = *self;
            let v: u32 = if k < funnels {
                self.funnel(seg)
            } else {
                self.splat(seg)
            };
            let ghost e2 = *self;
            proof {
                lemma_reads_chain(e0, e1, e2);
                lemma_acc_stays(e1, e2, acc, segs@, k as int, funnels as int, imm);
            }
            let ghost acc0 = acc;
            acc = match acc {
                Some(a) => Some(self.push(WordIns::Or(a, v))),
                None => Some(v),
            };
            proof {
                if acc0 is Some {
                    lemma_reads_chain(e0, e2, *self);
                }
                assert forall|bits: Seq<u64>, staging: Seq<u64>|
                    sized(self.words@, self.stages@, bits, staging) implies acc_word(
                    #[trigger] word_result(self.code@, bits, staging),
                    acc,
                    segs@.take(k + 1),
                    funnels as int,
                    imm,
                ) by {
                    let f = word_result(e2.code@, bits, staging);
                    let g = word_result(self.code@, bits, staging);
                    assert(acc_word(f, acc0, segs@.take(k as int), funnels as int, imm));
                    assert(seg_word(f, v as int, seg, k < funnels));
                    assert(acc0 is Some ==> same_memory(g, f, e2.code@.len() as int));
                    assert forall|i: int| 0 <= i < 64 implies #[trigger] gather_bit(
                        g.bits,
                        segs@.take(k + 1),
                        funnels as int,
                        imm,
                        i,
                    ) == (match acc {
                        Some(a) => wbit(g.regs[a as int], i),
                        None => false,
                    }) by {
                        lemma_gather_push(f.bits, segs@, k as int, funnels as int, imm, i);
                        assert(gather_bit(f.bits, segs@.take(k as int), funnels as int, imm, i) == (match acc0 {
                            Some(a) => wbit(f.regs[a as int], i),
                            None => false,
                        }));
                        assert(wbit(f.regs[v as int], i) == seg_bit(f.bits, seg, k < funnels, i));
                        if acc0 is Some {
                            lemma_word_logic(f.regs[acc0->0 as int], f.regs[v as int], i);
                        }
                    }
                }
            }
        }
        let ghost e3 = *self;
        let v: u32 = match acc {
            Some(a) => a,
            None => self.push(WordIns::Const(0)),
        };
        proof {
            if acc is None {
                lemma_reads_chain(e0, e3, *self);
            }
            assert(segs@.take(segs@.len() as int) =~= segs@);
            assert forall|bits: Seq<u64>, staging: Seq<u64>|
                sized(self.words@, self.stages@, bits, staging) implies gathers(
                (#[trigger] word_result(self.code@, bits, staging)).bits,
                segs@,
                funnels as int,
                imm,
                word_result(self.code@, bits, staging).regs[v as int],
            ) by {
                let f = word_result(e3.code@, bits, staging);
                let g = word_result(self.code@, bits, staging);
                assert(acc_word(f, acc, segs@, funnels as int, imm));
                assert(acc is None ==> same_memory(g, f, e3.code@.len() as int));
                assert forall|i: int| 0 <= i < 64 implies #[trigger] wbit(g.regs[v as int], i) == gather_bit(
                    g.bits,
                    segs@,
                    funnels as int,
                    imm,
                    i,
                ) by {
                    lemma_word_logic(0, 0, i);
                    assert(gather_bit(f.bits, segs@, funnels as int, imm, i) == (match acc {
                        Some(a) => wbit(f.regs[a as int], i),
                        None => false,
                    }));
                }
            }
        }
        v
    }
}

proof fn lemma_reads_self(e: Emitter)
    requires
        e.ok(),
    ensures
        e.reads_more(&e),
{
    assert forall|bits: Seq<u64>, staging: Seq<u64>| sized(e.words@, e.stages@, bits, staging) implies same_memory(
        #[trigger] word_result(e.code@, bits, staging),
        word_result(e.code@, bits, staging),
        e.code@.len() as int,
    ) by {
        lemma_word_ran_len(e.code@, bits, staging, e.code@.len() as int);
    }
}

/// Register `v` holds the 64 arena bits from `src` on.
spec fn window_word(f: WordFrame, v: int, src: int) -> bool {
    forall|k: int| 0 <= k < 64 ==> #[trigger] wbit(f.regs[v], k) == bit_at(f.bits, src + k)
}

/// Register `v` holds what a gather program yields.
spec fn holds_gather(e: Emitter, v: int, segs: Seq<Seg>, funnels: int, imm: u64) -> bool {
    forall|bits: Seq<u64>, staging: Seq<u64>|
        sized(e.words@, e.stages@, bits, staging) ==> gathers(
            (#[trigger] word_result(e.code@, bits, staging)).bits,
            segs,
            funnels,
            imm,
            word_result(e.code@, bits, staging).regs[v],
        )
}

/// Memory is the same and the first `k` registers are.
spec fn same_memory(g: WordFrame, f: WordFrame, k: int) -> bool {
    &&& g.bits == f.bits
    &&& g.staging == f.staging
    &&& g.regs.len() >= k
    &&& forall|r: int| 0 <= r < k ==> #[trigger] g.regs[r] == f.regs[r]
}

/// More reads leave a gathered word alone.
proof fn lemma_gather_stays(before: Emitter, after: Emitter, v: int, segs: Seq<Seg>, funnels: int, imm: u64)
    requires
        after.reads_more(&before),
        0 <= v < before.code@.len(),
        holds_gather(before, v, segs, funnels, imm),
    ensures
        holds_gather(after, v, segs, funnels, imm),
{
    assert forall|bits: Seq<u64>, staging: Seq<u64>|
        sized(after.words@, after.stages@, bits, staging) implies gathers(
        (#[trigger] word_result(after.code@, bits, staging)).bits,
        segs,
        funnels,
        imm,
        word_result(after.code@, bits, staging).regs[v],
    ) by {
        let f = word_result(before.code@, bits, staging);
        let g = word_result(after.code@, bits, staging);
        assert(same_memory(g, f, before.code@.len() as int));
        assert(gathers(f.bits, segs, funnels, imm, f.regs[v]));
    }
}

proof fn lemma_select_is_mux(a: u64, b: u64, c: u64)
    by (bit_vector)
    ensures
        (a & b) | (!a & c) == c ^ (a & (b ^ c)),
{
}

/// Running the added code writes what the task yields to its word.
spec fn does_task(before: Emitter, after: Emitter, segs: Seq<Seg>, task: Task) -> bool {
    &&& after.words == before.words
    &&& after.stages == before.stages
    &&& forall|bits: Seq<u64>, staging: Seq<u64>|
        sized(after.words@, after.stages@, bits, staging) ==> task_done(
            word_result(before.code@, bits, staging),
            #[trigger] word_result(after.code@, bits, staging),
            segs,
            task,
        )
}

spec fn task_done(f: WordFrame, g: WordFrame, segs: Seq<Seg>, task: Task) -> bool {
    &&& g.staging == f.staging
    &&& exists|w: u64|
        #[trigger] task_yields(f.bits, segs, task, w) && g.bits == f.bits.update(task.dst as int, w)
}

/// The most instructions a task takes.
pub const TASK_CODE: usize = 12_300;

impl Emitter {
    /// Emit one task: gather its operands, combine them, store the word and
    /// remember its register.
    #[verifier::rlimit(100)]
    fn task(&mut self, segs: &Vec<Seg>, cursor: usize, task: &Task)
        requires
            old(self).ok(),
            segs_in(segs@, old(self).words@),
            cursor == task.at@,
            cursor + task_len(*task) <= segs@.len(),
            task.dst < old(self).words@,
            old(self).code@.len() + TASK_CODE <= u32::MAX,
        ensures
            final(self).ok(),
            does_task(*old(self), *final(self), segs@, *task),
            final(self).code@.len() <= old(self).code@.len() + TASK_CODE,
    {
        let ghost e0 = *self;
        let n0: usize = task.streams[0].funnels as usize + task.streams[0].splats as usize;
        let n1: usize = task.streams[1].funnels as usize + task.streams[1].splats as usize;
        let n2: usize = task.streams[2].funnels as usize + task.streams[2].splats as usize;
        let total: usize = segs.len();
        let sa = vstd::slice::slice_subrange(segs.as_slice(), cursor, cursor + n0);
        let sb = vstd::slice::slice_subrange(segs.as_slice(), cursor + n0, cursor + n0 + n1);
        let sc = vstd::slice::slice_subrange(segs.as_slice(), cursor + n0 + n1, cursor + n0 + n1 + n2);
        proof {
            assert(sa@ == stream_segs(segs@, *task, 0));
            assert(sb@ == stream_segs(segs@, *task, 1));
            assert(sc@ == stream_segs(segs@, *task, 2));
            lemma_sub_segs_in(segs@, self.words@, cursor as int, cursor + n0);
            lemma_sub_segs_in(segs@, self.words@, cursor + n0, cursor + n0 + n1);
            lemma_sub_segs_in(segs@, self.words@, cursor + n0 + n1, cursor + n0 + n1 + n2);
        }
        let (fa, fb, fc) = (task.streams[0].funnels, task.streams[1].funnels, task.streams[2].funnels);
        let a: u32 = self.gather(sa, fa as usize, task.imm[0]);
        let ghost e1 = *self;
        let needs_b: bool = match task.op {
            TaskOp::Gate(Op::Not) | TaskOp::Gate(Op::Buf) => false,
            _ => true,
        };
        let needs_c: bool = match task.op {
            TaskOp::Gate(Op::Mux) | TaskOp::Add => true,
            _ => false,
        };
        let b: u32 = if needs_b {
            self.gather(sb, fb as usize, task.imm[1])
        } else {
            a
        };
        let ghost e2 = *self;
        proof {
            if needs_b {
                lemma_reads_chain(e0, e1, e2);
                lemma_gather_stays(e1, e2, a as int, sa@, fa as int, task.imm[0]);
            }
        }
        let c: u32 = if needs_c {
            self.gather(sc, fc as usize, task.imm[2])
        } else {
            a
        };
        let ghost e3 = *self;
        proof {
            if needs_c {
                lemma_reads_chain(e0, e2, e3);
                lemma_gather_stays(e2, e3, a as int, sa@, fa as int, task.imm[0]);
                if needs_b {
                    lemma_gather_stays(e2, e3, b as int, sb@, fb as int, task.imm[1]);
                }
            }
        }
        let first: u32 = match task.op {
            TaskOp::Gate(Op::Not) => self.push(WordIns::Not(a)),
            TaskOp::Gate(Op::Buf) => a,
            TaskOp::Gate(Op::And) | TaskOp::Gate(Op::Nand) => self.push(WordIns::And(a, b)),
            TaskOp::Gate(Op::Or) | TaskOp::Gate(Op::Nor) => self.push(WordIns::Or(a, b)),
            TaskOp::Gate(Op::Xor) | TaskOp::Gate(Op::Xnor) => self.push(WordIns::Xor(a, b)),
            TaskOp::Gate(Op::Mux) => self.push(WordIns::Select(a, b, c)),
            TaskOp::Add => self.push(WordIns::Add(a, b)),
        };
        let ghost e4 = *self;
        let word: u32 = match task.op {
            TaskOp::Gate(Op::Nand) | TaskOp::Gate(Op::Nor) | TaskOp::Gate(Op::Xnor) => self.push(
                WordIns::Not(first),
            ),
            TaskOp::Add => self.push(WordIns::Add(first, c)),
            _ => first,
        };
        let ghost e5 = *self;
        proof {
            assert forall|bits: Seq<u64>, staging: Seq<u64>|
                sized(self.words@, self.stages@, bits, staging) implies {
                let f = word_result(e0.code@, bits, staging);
                let g = #[trigger] word_result(e5.code@, bits, staging);
                g.bits == f.bits && g.staging == f.staging && task_yields(
                    f.bits,
                    segs@,
                    *task,
                    g.regs[word as int],
                )
            } by {
                let f0 = word_result(e0.code@, bits, staging);
                let f3 = word_result(e3.code@, bits, staging);
                let f4 = word_result(e4.code@, bits, staging);
                let f5 = word_result(e5.code@, bits, staging);
                assert(same_memory(f3, f0, e0.code@.len() as int));
                let (wa, wb, wc) = (f3.regs[a as int], f3.regs[b as int], f3.regs[c as int]);
                assert(stream_yields(f0.bits, segs@, *task, 0, wa));
                assert(reads_stream(task.op, 1) ==> stream_yields(f0.bits, segs@, *task, 1, wb));
                assert(reads_stream(task.op, 2) ==> stream_yields(f0.bits, segs@, *task, 2, wc));
                lemma_select_is_mux(wa, wb, wc);
                assert(e4.code@ != e3.code@ ==> same_memory(f4, f3, e3.code@.len() as int));
                assert(e5.code@ != e4.code@ ==> same_memory(f5, f4, e4.code@.len() as int));
                assert(f4.bits == f0.bits && f4.staging == f0.staging);
                assert(f5.bits == f0.bits && f5.staging == f0.staging);
                assert(f5.regs[word as int] == combine(task.op, wa, wb, wc));
            }
        }
        self.code.push(WordIns::Store(task.dst, word));
        self.cache.set(task.dst as usize, Some(word));
        proof {
            lemma_after_store(e5, *self, task.dst, word);
            assert forall|bits: Seq<u64>, staging: Seq<u64>|
                sized(self.words@, self.stages@, bits, staging) implies task_done(
                word_result(e0.code@, bits, staging),
                #[trigger] word_result(self.code@, bits, staging),
                segs@,
                *task,
            ) by {
                let f0 = word_result(e0.code@, bits, staging);
                let f5 = word_result(e5.code@, bits, staging);
                let w = f5.regs[word as int];
                assert(task_yields(f0.bits, segs@, *task, w));
                assert(word_result(self.code@, bits, staging) == word_stepped(
                    WordIns::Store(task.dst, word),
                    f5,
                ));
            }
        }
    }
}

proof fn lemma_sub_segs_in(segs: Seq<Seg>, words: int, lo: int, hi: int)
    requires
        segs_in(segs, words),
        0 <= lo <= hi <= segs.len(),
    ensures
        segs_in(segs.subrange(lo, hi), words),
{
    let sub = segs.subrange(lo, hi);
    assert forall|k: int| 0 <= k < sub.len() implies (#[trigger] sub[k]).src < (words - 1) * 64 && sub[k].shift < 64 by {
        assert(sub[k] == segs[lo + k]);
    }
}

/// A store keeps the cache in step with the arena.
proof fn lemma_after_store(before: Emitter, after: Emitter, dst: u32, word: u32)
    requires
        before.ok(),
        after.words == before.words,
        after.stages == before.stages,
        dst < before.words@,
        word < before.code@.len(),
        after.code@ == before.code@.push(WordIns::Store(dst, word)),
        after.cache@ == before.cache@.update(dst as int, Some(word)),
    ensures
        after.ok(),
        forall|bits: Seq<u64>, staging: Seq<u64>|
            sized(after.words@, after.stages@, bits, staging) ==> #[trigger] word_result(
                after.code@,
                bits,
                staging,
            ) == word_stepped(WordIns::Store(dst, word), word_result(before.code@, bits, staging)),
{
    let ins = WordIns::Store(dst, word);
    let code0 = before.code@;
    lemma_once(code0, before.cache@, ins, after.cache@);
    assert forall|k: int| 0 <= k < after.code@.len() implies word_ins_ok(
        #[trigger] after.code@[k],
        k,
        after.words@,
        after.stages@,
    ) by {
        if k < code0.len() {
            assert(after.code@[k] == code0[k]);
        }
    }
    assert forall|bits: Seq<u64>, staging: Seq<u64>|
        sized(after.words@, after.stages@, bits, staging) implies #[trigger] word_result(
        after.code@,
        bits,
        staging,
    ) == word_stepped(ins, word_result(code0, bits, staging)) && cache_right(
        after.cache@,
        word_result(after.code@, bits, staging),
    ) by {
        lemma_word_ran_push(code0, ins, bits, staging, code0.len() as int);
        lemma_word_ran_len(code0, bits, staging, code0.len() as int);
        let f = word_result(code0, bits, staging);
        let g = word_result(after.code@, bits, staging);
        assert(cache_right(before.cache@, f));
        assert forall|w: int| 0 <= w < after.cache@.len() implies (#[trigger] after.cache@[w] matches Some(r)
            ==> g.regs[r as int] == g.bits[w]) by {
            if w != dst {
                assert(after.cache@[w] == before.cache@[w]);
            }
        }
    }
}

/// The code executes tasks `lo..hi` of the plan, and where `last` also
/// captures the registers' next states, whatever the inputs and registers
/// hold.
pub open spec fn chunk_ok(plan: Plan, code: Seq<WordIns>, lo: int, hi: int, last: bool) -> bool {
    &&& word_code_ok(code, plan.words as int, plan.reg_init@.len() as int)
    &&& forall|bits: Seq<u64>, staging: Seq<u64>, env: Env|
        bits.len() == plan.words && staging.len() == plan.reg_init@.len() && #[trigger] held(
            plan.tape@,
            plan.pos@,
            plan.tasks@,
            lo,
            bits,
            env,
        ) ==> chunk_done(plan, bits, staging, env, #[trigger] word_result(code, bits, staging), hi, last)
}

pub open spec fn chunk_done(
    plan: Plan,
    bits: Seq<u64>,
    staging: Seq<u64>,
    env: Env,
    g: WordFrame,
    hi: int,
    last: bool,
) -> bool {
    &&& g.bits.len() == plan.words
    &&& g.staging.len() == plan.reg_init@.len()
    &&& held(plan.tape@, plan.pos@, plan.tasks@, hi, g.bits, env)
    &&& forall|w: int| 0 <= w < plan.reg_word ==> #[trigger] g.bits[w] == bits[w]
    &&& !last ==> g.staging == staging
    &&& last ==> forall|k: int|
        0 <= k < g.staging.len() ==> next_states(plan.tape@, plan.live@, env, k, #[trigger] g.staging[k])
}

/// Emit tasks `lo..hi` as one function. The register capture lives in the
/// last chunk: by then every word a capture gather reads has settled.
#[verifier::rlimit(100)]
pub fn build_chunk(plan: &Plan, lo: usize, hi: usize, cursor: usize, last: bool) -> (code: Vec<WordIns>)
    requires
        plan.ok(),
        plan.reg_init@.len() <= STAGE_LIMIT,
        lo <= hi <= plan.tasks@.len(),
        hi - lo <= CHUNK,
        lo < hi ==> cursor == plan.tasks@[lo as int].at@,
        last ==> hi == plan.tasks@.len(),
    ensures
        chunk_ok(*plan, code@, lo as int, hi as int, last),
        loads_once(code@),
{
    let mut cache: Vec<Option<u32>> = Vec::with_capacity(plan.words);
    for i in 0..plan.words
        invariant
            cache@.len() == i,
            forall|w: int| 0 <= w < i ==> #[trigger] cache@[w] is None,
    {
        cache.push(None);
    }
    let mut e = Emitter {
        code: Vec::new(),
        cache,
        words: Ghost(plan.words as int),
        stages: Ghost(plan.reg_init@.len() as int),
    };
    proof {
        reveal(once);
    }
    assert(once(e.code@, e.cache@));
    let mut at: usize = cursor;
    let seg_count: usize = plan.segs.len();
    let stage_count: usize = plan.reg_init.len();
    for t in lo..hi
        invariant
            plan.ok(),
            seg_count == plan.segs@.len(),
            lo <= hi <= plan.tasks@.len(),
            hi - lo <= CHUNK,
            e.ok(),
            e.words@ == plan.words,
            e.stages@ == plan.reg_init@.len(),
            t < hi ==> at == plan.tasks@[t as int].at@,
            e.code@.len() <= TASK_CODE * (t - lo),
            chunk_ok(*plan, e.code@, lo as int, t as int, false),
    {
        let task = plan.tasks[t];
        let ghost e0 = e;
        assert(plan.tasks@[t as int].at@ + task_len(task) <= plan.segs@.len());
        assert(task.dst < plan.words - 1);
        e.task(&plan.segs, at, &task);
        proof {
            if t + 1 < plan.tasks@.len() {
                assert(task_joins(plan.tasks@, t as int));
            }
            assert forall|bits: Seq<u64>, staging: Seq<u64>, env: Env|
                bits.len() == plan.words && staging.len() == plan.reg_init@.len() && #[trigger] held(
                    plan.tape@,
                    plan.pos@,
                    plan.tasks@,
                    lo as int,
                    bits,
                    env,
                ) implies chunk_done(
                *plan,
                bits,
                staging,
                env,
                #[trigger] word_result(e.code@, bits, staging),
                t + 1,
                false,
            ) by {
                let f = word_result(e0.code@, bits, staging);
                let g = word_result(e.code@, bits, staging);
                assert(chunk_done(*plan, bits, staging, env, f, t as int, false));
                assert(task_done(f, g, plan.segs@, task));
                let w = choose|w: u64|
                    #[trigger] task_yields(f.bits, plan.segs@, task, w) && g.bits == f.bits.update(
                        task.dst as int,
                        w,
                    );
                lemma_task_step(*plan, t as int, f.bits, w, env);
                assert forall|x: int| 0 <= x < plan.reg_word implies #[trigger] g.bits[x] == bits[x] by {
                    assert(f.bits[x] == bits[x]);
                }
            }
        }
        at = at + (task.streams[0].funnels as usize + task.streams[0].splats as usize) + (
        task.streams[1].funnels as usize + task.streams[1].splats as usize) + (
        task.streams[2].funnels as usize + task.streams[2].splats as usize);
    }
    if last {
        let mut cap_at: usize = 0;
        let cap_count: usize = plan.cap_segs.len();
        let ghost base = e.code@.len();
        assert forall|bits: Seq<u64>, staging: Seq<u64>, env: Env|
            bits.len() == plan.words && staging.len() == plan.reg_init@.len() && #[trigger] held(
                plan.tape@,
                plan.pos@,
                plan.tasks@,
                lo as int,
                bits,
                env,
            ) implies captured_upto(
            *plan,
            bits,
            env,
            #[trigger] word_result(e.code@, bits, staging),
            0,
        ) by {
            assert(chunk_done(
                *plan,
                bits,
                staging,
                env,
                word_result(e.code@, bits, staging),
                hi as int,
                false,
            ));
        }
        for k in 0..plan.capture.len()
            invariant
                plan.ok(),
                plan.reg_init@.len() <= STAGE_LIMIT,
                cap_count == plan.cap_segs@.len(),
                stage_count == plan.reg_init@.len(),
                hi == plan.tasks@.len(),
                e.ok(),
                e.words@ == plan.words,
                e.stages@ == plan.reg_init@.len(),
                k < plan.capture@.len() ==> cap_at == plan.cap_at@[k as int],
                base <= TASK_CODE * CHUNK,
                e.code@.len() <= base + 4100 * k,
                forall|bits: Seq<u64>, staging: Seq<u64>, env: Env|
                    bits.len() == plan.words && staging.len() == plan.reg_init@.len() && #[trigger] held(
                        plan.tape@,
                        plan.pos@,
                        plan.tasks@,
                        lo as int,
                        bits,
                        env,
                    ) ==> captured_upto(
                        *plan,
                        bits,
                        env,
                        #[trigger] word_result(e.code@, bits, staging),
                        k as int,
                    ),
        {
            let (imm, sr) = plan.capture[k];
            assert(plan.capture@[k as int] == (imm, sr));
            assert(0 <= plan.cap_at@[k as int]);
            let n: usize = sr.funnels as usize + sr.splats as usize;
            let head = vstd::slice::slice_subrange(plan.cap_segs.as_slice(), cap_at, cap_at + n);
            proof {
                lemma_sub_segs_in(plan.cap_segs@, plan.words as int, cap_at as int, cap_at + n);
                assert(plan.reg_init@.len() == crate::plan::words_for(plan.live@.len() as int));
            }
            let ghost e0 = e;
            let v: u32 = e.gather(head, sr.funnels as usize, imm);
            let ghost e1 = e;
            e.code.push(WordIns::Stage(k as u32, v));
            proof {
                lemma_after_stage(e1, e, k as u32, v);
                if k + 1 < plan.capture@.len() {
                    assert(captures_join(plan.capture@, plan.cap_at@, k as int));
                }
                assert(plan.capture_right(k as int));
                assert forall|bits: Seq<u64>, staging: Seq<u64>, env: Env|
                    bits.len() == plan.words && staging.len() == plan.reg_init@.len() && #[trigger] held(
                        plan.tape@,
                        plan.pos@,
                        plan.tasks@,
                        lo as int,
                        bits,
                        env,
                    ) implies captured_upto(
                    *plan,
                    bits,
                    env,
                    #[trigger] word_result(e.code@, bits, staging),
                    k + 1,
                ) by {
                    let f0 = word_result(e0.code@, bits, staging);
                    let f1 = word_result(e1.code@, bits, staging);
                    let g = word_result(e.code@, bits, staging);
                    assert(captured_upto(*plan, bits, env, f0, k as int));
                    assert(same_memory(f1, f0, e0.code@.len() as int));
                    let w = f1.regs[v as int];
                    assert(gathers(f1.bits, head@, sr.funnels as int, imm, w));
                    assert(g == word_stepped(WordIns::Stage(k as u32, v), f1));
                    assert(next_states(plan.tape@, plan.live@, env, k as int, w));
                    assert forall|j: int| 0 <= j < k + 1 implies next_states(
                        plan.tape@,
                        plan.live@,
                        env,
                        j,
                        #[trigger] g.staging[j],
                    ) by {
                        if j < k {
                            assert(g.staging[j] == f0.staging[j]);
                        }
                    }
                }
            }
            cap_at = cap_at + n;
        }
        proof {
            assert forall|bits: Seq<u64>, staging: Seq<u64>, env: Env|
                bits.len() == plan.words && staging.len() == plan.reg_init@.len() && #[trigger] held(
                    plan.tape@,
                    plan.pos@,
                    plan.tasks@,
                    lo as int,
                    bits,
                    env,
                ) implies chunk_done(
                *plan,
                bits,
                staging,
                env,
                #[trigger] word_result(e.code@, bits, staging),
                hi as int,
                true,
            ) by {
                assert(captured_upto(
                    *plan,
                    bits,
                    env,
                    word_result(e.code@, bits, staging),
                    plan.capture@.len() as int,
                ));
            }
        }
    }
    proof {
        reveal(once);
    }
    e.code
}

/// Everything is settled and the first `k` staging words are captured.
spec fn captured_upto(plan: Plan, bits: Seq<u64>, env: Env, g: WordFrame, k: int) -> bool {
    &&& g.bits.len() == plan.words
    &&& g.staging.len() == plan.reg_init@.len()
    &&& held(plan.tape@, plan.pos@, plan.tasks@, plan.tasks@.len() as int, g.bits, env)
    &&& forall|w: int| 0 <= w < plan.reg_word ==> #[trigger] g.bits[w] == bits[w]
    &&& forall|j: int|
        0 <= j < k ==> next_states(plan.tape@, plan.live@, env, j, #[trigger] g.staging[j])
}

/// Staging a word disturbs neither arena nor cache.
proof fn lemma_after_stage(before: Emitter, after: Emitter, k: u32, v: u32)
    requires
        before.ok(),
        after.words == before.words,
        after.stages == before.stages,
        k < before.stages@,
        v < before.code@.len(),
        after.code@ == before.code@.push(WordIns::Stage(k, v)),
        after.cache == before.cache,
    ensures
        after.ok(),
        forall|bits: Seq<u64>, staging: Seq<u64>|
            sized(after.words@, after.stages@, bits, staging) ==> #[trigger] word_result(
                after.code@,
                bits,
                staging,
            ) == word_stepped(WordIns::Stage(k, v), word_result(before.code@, bits, staging)),
{
    let ins = WordIns::Stage(k, v);
    let code0 = before.code@;
    lemma_once(code0, before.cache@, ins, after.cache@);
    assert forall|j: int| 0 <= j < after.code@.len() implies word_ins_ok(
        #[trigger] after.code@[j],
        j,
        after.words@,
        after.stages@,
    ) by {
        if j < code0.len() {
            assert(after.code@[j] == code0[j]);
        }
    }
    assert forall|bits: Seq<u64>, staging: Seq<u64>|
        sized(after.words@, after.stages@, bits, staging) implies #[trigger] word_result(
        after.code@,
        bits,
        staging,
    ) == word_stepped(ins, word_result(code0, bits, staging)) && cache_right(
        after.cache@,
        word_result(after.code@, bits, staging),
    ) by {
        lemma_word_ran_push(code0, ins, bits, staging, code0.len() as int);
        lemma_word_ran_len(code0, bits, staging, code0.len() as int);
        let f = word_result(code0, bits, staging);
        let g = word_result(after.code@, bits, staging);
        assert(cache_right(before.cache@, f));
        assert forall|w: int| 0 <= w < after.cache@.len() implies (#[trigger] after.cache@[w] matches Some(r)
            ==> g.regs[r as int] == g.bits[w]) by {
            assert(before.cache@[w] matches Some(r) ==> f.regs[r as int] == f.bits[w]);
        }
    }
}

/// Run a function on an arena and its staging words.
#[verifier::rlimit(40)]
pub fn run_words(code: &Vec<WordIns>, bits: &mut Vec<u64>, staging: &mut Vec<u64>)
    requires
        word_code_ok(code@, old(bits)@.len() as int, old(staging)@.len() as int),
    ensures
        final(bits)@ == word_result(code@, old(bits)@, old(staging)@).bits,
        final(staging)@ == word_result(code@, old(bits)@, old(staging)@).staging,
        final(bits)@.len() == old(bits)@.len(),
        final(staging)@.len() == old(staging)@.len(),
{
    let ghost (bits0, staging0) = (bits@, staging@);
    let mut regs: Vec<u64> = Vec::with_capacity(code.len());
    for k in 0..code.len()
        invariant
            bits0 == old(bits)@,
            staging0 == old(staging)@,
            word_code_ok(code@, bits0.len() as int, staging0.len() as int),
            bits@.len() == bits0.len(),
            staging@.len() == staging0.len(),
            regs@.len() == k,
            regs@ == word_ran(code@, bits0, staging0, k as int).regs,
            bits@ == word_ran(code@, bits0, staging0, k as int).bits,
            staging@ == word_ran(code@, bits0, staging0, k as int).staging,
    {
        let ins = code[k];
        assert(word_ins_ok(code@[k as int], k as int, bits0.len() as int, staging0.len() as int));
        let v: u64 = match ins {
            WordIns::Const(v) => v,
            WordIns::Load(w) => bits[w as usize],
            WordIns::Shr(a, s) => regs[a as usize] >> (s as u64),
            WordIns::Shl(a, s) => regs[a as usize] << (s as u64),
            WordIns::Spread(a) => if (regs[a as usize] >> 63u64) & 1 == 1 {
                0xffff_ffff_ffff_ffff
            } else {
                0
            },
            WordIns::Mask(a, m) => regs[a as usize] & m,
            WordIns::And(a, b) => regs[a as usize] & regs[b as usize],
            WordIns::Or(a, b) => regs[a as usize] | regs[b as usize],
            WordIns::Xor(a, b) => regs[a as usize] ^ regs[b as usize],
            WordIns::Not(a) => !regs[a as usize],
            WordIns::Select(a, b, c) => (regs[a as usize] & regs[b as usize]) | (!regs[a as usize]
                & regs[c as usize]),
            WordIns::Add(a, b) => regs[a as usize].wrapping_add(regs[b as usize]),
            WordIns::Store(w, v) => {
                let v: u64 = regs[v as usize];
                bits.set(w as usize, v);
                v
            },
            WordIns::Stage(s, v) => {
                let v: u64 = regs[v as usize];
                staging.set(s as usize, v);
                v
            },
        };
        regs.push(v);
    }
}

/// Where chunk `k` starts in the task list.
pub open spec fn first_task(tasks: int, k: int) -> int {
    if CHUNK * k < tasks {
        CHUNK * k
    } else {
        tasks
    }
}

/// The functions execute the whole plan, one chunk after the other.
pub open spec fn word_fns_ok(plan: Plan, fns: Seq<Vec<WordIns>>) -> bool {
    let tasks = plan.tasks@.len() as int;
    &&& fns.len() > 0
    &&& forall|k: int|
        0 <= k < fns.len() ==> chunk_ok(
            plan,
            (#[trigger] fns[k])@,
            first_task(tasks, k),
            first_task(tasks, k + 1),
            k == fns.len() - 1,
        )
    &&& first_task(tasks, fns.len() as int) == tasks
}

/// Compile a plan, one straight-line function per chunk of tasks. There is
/// at least one, even with no tasks: the register capture must be emitted
/// somewhere.
pub fn compile_plan(plan: &Plan) -> (fns: Vec<Vec<WordIns>>)
    requires
        plan.ok(),
        plan.reg_init@.len() <= STAGE_LIMIT,
    ensures
        word_fns_ok(*plan, fns@),
        forall|k: int| 0 <= k < fns@.len() ==> loads_once((#[trigger] fns@[k])@),
{
    let total: usize = plan.tasks.len();
    let ghost tasks = total as int;
    let seg_count: usize = plan.segs.len();
    let mut fns: Vec<Vec<WordIns>> = Vec::new();
    let mut lo: usize = 0;
    let mut cursor: usize = 0;
    let mut more = true;
    while more
        invariant
            plan.ok(),
            plan.reg_init@.len() <= STAGE_LIMIT,
            total == plan.tasks@.len(),
            seg_count == plan.segs@.len(),
            tasks == total,
            lo <= total,
            lo == first_task(tasks, fns@.len() as int),
            lo < total ==> cursor == plan.tasks@[lo as int].at@,
            more ==> fns@.len() == 0 || lo < total,
            !more ==> lo == total && fns@.len() > 0,
            forall|k: int| 0 <= k < fns@.len() ==> loads_once((#[trigger] fns@[k])@),
            forall|k: int|
                0 <= k < fns@.len() ==> chunk_ok(
                    *plan,
                    (#[trigger] fns@[k])@,
                    first_task(tasks, k),
                    first_task(tasks, k + 1),
                    !more && k == fns@.len() - 1,
                ),
        decreases
            total - lo + if more {
                1int
            } else {
                0int
            },
    {
        let hi: usize = if total - lo < CHUNK {
            total
        } else {
            lo + CHUNK
        };
        let last: bool = hi == total;
        let code = build_chunk(plan, lo, hi, cursor, last);
        fns.push(code);
        for t in lo..hi
            invariant
                plan.ok(),
                total == plan.tasks@.len(),
                seg_count == plan.segs@.len(),
                lo <= hi <= total,
                t < total && lo < hi ==> cursor == plan.tasks@[t as int].at@,
        {
            let task = plan.tasks[t];
            assert(plan.tasks@[t as int].at@ + task_len(task) <= plan.segs@.len());
            proof {
                if t + 1 < total {
                    assert(task_joins(plan.tasks@, t as int));
                }
            }
            cursor = cursor + (task.streams[0].funnels as usize + task.streams[0].splats as usize) + (
            task.streams[1].funnels as usize + task.streams[1].splats as usize) + (
            task.streams[2].funnels as usize + task.streams[2].splats as usize);
        }
        lo = hi;
        more = !last;
    }
    fns
}

pub struct PackedJitEngine {
    bits: Vec<u64>,
    staging: Vec<u64>,
    plan: Plan,
    /// Chunk functions in schedule order; together they perform one settle
    /// and the register capture.
    fns: Vec<Vec<WordIns>>,
    /// What registers hold that nobody reads.
    dead: Ghost<Seq<bool>>,
}

impl PackedJitEngine {
    pub fn new(circuit: &Circuit) -> (e: Self)
        requires
            circuit.wf(),
            fits_arena(circuit.net()),
            circuit.net().drives.len() <= 64 * STAGE_LIMIT,
        ensures
            e.inv(),
            same_machine(e.machine().net, circuit.net()),
            e.machine() == Machine::power_on(e.machine().net),
    {
        let tape = Compiled::new(circuit);
        Self::with_tape(&tape)
    }

    pub fn with_tape(tape: &Compiled) -> (e: Self)
        requires
            tape.wf(),
            packable(*tape),
            tape.reg_out_slots@.len() <= 64 * STAGE_LIMIT,
        ensures
            e.inv(),
            e.machine() == Machine::power_on(tape.net()),
    {
        let plan = Plan::new(tape);
        proof {
            crate::plan::lemma_live_few(*tape, tape.reg_out_slots@.len() as int);
        }
        let fns = compile_plan(&plan);
        let (bits, staging) = power_on_arena(&plan);
        let ghost dead = tape.net().inits;
        proof {
            lemma_packed_power_on(plan, bits@, staging@, dead);
        }
        Self { bits, staging, plan, fns, dead: Ghost(dead) }
    }

    /// Restore power-on state: register initials latched, inputs low.
    pub(crate) fn reset(&mut self)
        requires
            old(self).inv(),
        ensures
            final(self).inv(),
            final(self).machine() == Machine::power_on(old(self).machine().net),
    {
        let (bits, staging) = power_on_arena(&self.plan);
        self.bits = bits;
        self.staging = staging;
        self.dead = Ghost(self.plan.tape@.net().inits);
        proof {
            lemma_packed_power_on(self.plan, self.bits@, self.staging@, self.dead@);
        }
    }
}

impl Engine for PackedJitEngine {
    closed spec fn inv(&self) -> bool {
        &&& packed_ok(self.plan, self.bits@, self.staging@, self.dead@)
        &&& word_fns_ok(self.plan, self.fns@)
    }

    closed spec fn machine(&self) -> Machine {
        packed_machine(self.plan, self.bits@, self.staging@, self.dead@)
    }

    fn name(&self) -> (name: &'static str)
        ensures
            name@ == "packed-jit"@,
    {
        "packed-jit"
    }

    fn input_count(&self) -> (n: usize) {
        self.plan.input_count
    }

    fn output_count(&self) -> (n: usize) {
        self.plan.outputs.len()
    }

    fn set_input(&mut self, index: usize, value: bool) {
        assert(index / 64 < self.plan.reg_word);
        let ghost before = self.bits@;
        write_input(&mut self.bits, index, value);
        proof {
            lemma_packed_input(
                self.plan,
                before,
                self.bits@,
                self.staging@,
                self.dead@,
                index as int,
                value,
            );
        }
    }

    fn output(&self, index: usize) -> (value: bool) {
        read_output(&self.plan, &self.bits, index)
    }

    fn tick(&mut self) {
        let ghost m = self.machine();
        let ghost env = m.env();
        let ghost bits0 = self.bits@;
        let ghost tasks = self.plan.tasks@.len() as int;
        // Clock edge: the register region is contiguous and word-aligned, so
        // applying the captured next-state is a straight word copy.
        apply_staging(&mut self.bits, &self.staging, self.plan.reg_word);
        proof {
            lemma_edge(self.plan, bits0, self.bits@, self.staging@, self.dead@);
        }
        let count: usize = self.fns.len();
        for k in 0..count
            invariant
                self.plan == old(self).plan,
                self.fns == old(self).fns,
                self.dead == old(self).dead,
                self.plan.ok(),
                tasks == self.plan.tasks@.len(),
                word_fns_ok(self.plan, self.fns@),
                count == self.fns@.len(),
                self.bits@.len() == self.plan.words,
                self.staging@.len() == self.plan.reg_init@.len(),
                held(
                    self.plan.tape@,
                    self.plan.pos@,
                    self.plan.tasks@,
                    first_task(tasks, k as int),
                    self.bits@,
                    env,
                ),
                forall|w: int| 0 <= w < self.plan.reg_word ==> #[trigger] self.bits@[w] == bits0[w],
                k == count ==> forall|j: int|
                    0 <= j < self.staging@.len() ==> next_states(
                        self.plan.tape@,
                        self.plan.live@,
                        env,
                        j,
                        #[trigger] self.staging@[j],
                    ),
        {
            let ghost (b0, s0) = (self.bits@, self.staging@);
            assert(chunk_ok(
                self.plan,
                self.fns@[k as int]@,
                first_task(tasks, k as int),
                first_task(tasks, k + 1),
                k == count - 1,
            ));
            run_words(&self.fns[k], &mut self.bits, &mut self.staging);
            proof {
                let g = word_result(self.fns@[k as int]@, b0, s0);
                assert(chunk_done(
                    self.plan,
                    b0,
                    s0,
                    env,
                    g,
                    first_task(tasks, k + 1),
                    k == count - 1,
                ));
                assert forall|w: int| 0 <= w < self.plan.reg_word implies #[trigger] self.bits@[w] == bits0[w] by {
                    assert(g.bits[w] == b0[w]);
                }
            }
        }
        self.dead = Ghost(self.plan.tape@.net().next_state(env));
        proof {
            lemma_packed_ticked(self.plan, m, bits0, self.bits@, self.staging@, self.dead@);
        }
    }
}

} // verus!
