//! What emitted instructions compute.
//!
//! A function runs over its values and the memory behind its pointers. The
//! laws say that the instructions a function is emitted as compute what its
//! straight-line code does.
use cranelift_codegen::ir::Value;
use vstd::prelude::*;

use crate::adding::wadd64;
use crate::gather::{lemma_word_logic, wbit};
use crate::jit::{code_ok, ins_ok, ran, result, stepped, yields, Frame, Ins};
use crate::native::{
    native_code, native_ins, native_word_code, native_word_ins, slot_offset, stores_forward,
    values_apart, word_stores_forward, word_values_apart, NativeIns,
};
use crate::pack_jit::{
    word_code_ok, word_ins_ok, word_ran, word_result, word_stepped, WordFrame, WordIns,
};

verus! {

/// A running function: its values, and the memory cells at byte offsets
/// behind its pointers. Cells do not overlap: a function accesses memory at
/// multiples of one access size.
pub struct Run {
    pub vals: Map<Value, u64>,
    pub cells: Map<(Value, int), u64>,
}

/// Arithmetic right shift.
pub open spec fn arithmetic_shift(v: u64, k: u64) -> u64 {
    if wbit(v, 63) {
        (v >> k) | !(0xffff_ffff_ffff_ffffu64 >> k)
    } else {
        v >> k
    }
}

/// The result of an instruction.
pub open spec fn computes(ins: NativeIns, r: Run) -> u64 {
    match ins {
        NativeIns::LoadByte(p, offset) | NativeIns::LoadWord(p, offset) => r.cells[(p, offset as int)],
        NativeIns::Band(a, b) => r.vals[a] & r.vals[b],
        NativeIns::Bor(a, b) => r.vals[a] | r.vals[b],
        NativeIns::Bxor(a, b) => r.vals[a] ^ r.vals[b],
        NativeIns::Bnot(a) => !r.vals[a],
        NativeIns::BxorImm(a, k) => r.vals[a] ^ k,
        NativeIns::BandImm(a, k) => r.vals[a] & k,
        NativeIns::UshrImm(a, k) => r.vals[a] >> (k as u64),
        NativeIns::IshlImm(a, k) => r.vals[a] << (k as u64),
        NativeIns::SshrImm(a, k) => arithmetic_shift(r.vals[a], k as u64),
        NativeIns::Select(c, x, y) => if r.vals[c] != 0 {
            r.vals[x]
        } else {
            r.vals[y]
        },
        NativeIns::Bitselect(c, x, y) => (r.vals[c] & r.vals[x]) | (!r.vals[c] & r.vals[y]),
        NativeIns::Iconst(k) => k,
        NativeIns::Iadd(a, b) => wadd64(r.vals[a], r.vals[b]),
        NativeIns::Store(x, _, _) => r.vals[x],
        NativeIns::Return => 0,
    }
}

/// One instruction: a store writes its cell, anything else its value.
pub open spec fn run_step(ins: (NativeIns, Option<Value>), r: Run) -> Run {
    Run {
        vals: match ins.1 {
            Some(v) => r.vals.insert(v, computes(ins.0, r)),
            None => r.vals,
        },
        cells: match ins.0 {
            NativeIns::Store(x, p, offset) => r.cells.insert((p, offset as int), r.vals[x]),
            _ => r.cells,
        },
    }
}

/// The first `k` instructions.
pub open spec fn run_upto(code: Seq<(NativeIns, Option<Value>)>, r: Run, k: int) -> Run
    decreases k,
{
    if k <= 0 {
        r
    } else {
        run_step(code[k - 1], run_upto(code, r, k - 1))
    }
}

/// The whole function.
pub open spec fn run_all(code: Seq<(NativeIns, Option<Value>)>, r: Run) -> Run {
    run_upto(code, r, code.len() as int)
}

/// The words behind pointer `p`.
pub open spec fn words_behind(r: Run, p: Value, words: Seq<u64>) -> bool {
    forall|w: int|
        0 <= w < words.len() ==> #[trigger] r.cells[(p, 8 * w)] == words[w]
}

proof fn lemma_spread(v: u64)
    by (bit_vector)
    ensures
        (v >> 63u64) & 1 == 1 ==> (v >> 63u64) | !(0xffff_ffff_ffff_ffffu64 >> 63u64) == 0xffff_ffff_ffff_ffffu64,
        (v >> 63u64) & 1 != 1 ==> v >> 63u64 == 0,
{
}

/// What a running word function holds after `k` instructions.
spec fn words_in_step(
    code: Seq<WordIns>,
    vals: Seq<Value>,
    base: Value,
    staging: Value,
    r: Run,
    f: WordFrame,
    k: int,
) -> bool {
    &&& f.regs.len() == k
    &&& forall|j: int| 0 <= j < k ==> r.vals[#[trigger] vals[j]] == f.regs[j]
    &&& words_behind(r, base, f.bits)
    &&& words_behind(r, staging, f.staging)
}

proof fn lemma_words_step(
    code: Seq<WordIns>,
    vals: Seq<Value>,
    base: Value,
    staging: Value,
    r: Run,
    f: WordFrame,
    k: int,
)
    requires
        0 <= k < code.len(),
        vals.len() == code.len(),
        base != staging,
        word_code_ok(code, f.bits.len() as int, f.staging.len() as int),
        8 * f.bits.len() <= i32::MAX,
        8 * f.staging.len() <= i32::MAX,
        word_stores_forward(code, vals),
        word_values_apart(code, vals),
        words_in_step(code, vals, base, staging, r, f, k),
    ensures
        words_in_step(
            code,
            vals,
            base,
            staging,
            run_step(native_word_ins(code[k], k, vals, base, staging), r),
            word_stepped(code[k], f),
            k + 1,
        ),
{
    let ins = code[k];
    let native = native_word_ins(ins, k, vals, base, staging);
    let (r2, f2) = (run_step(native, r), word_stepped(ins, f));
    assert(word_ins_ok(ins, k, f.bits.len() as int, f.staging.len() as int));
    match ins {
        WordIns::Spread(a) => {
            assert(r.vals[vals[a as int]] == f.regs[a as int]);
            lemma_spread(f.regs[a as int]);
        },
        WordIns::Shr(a, _) | WordIns::Shl(a, _) | WordIns::Mask(a, _) | WordIns::Not(a) => {
            assert(r.vals[vals[a as int]] == f.regs[a as int]);
        },
        WordIns::And(a, b) | WordIns::Or(a, b) | WordIns::Xor(a, b) | WordIns::Add(a, b) => {
            assert(r.vals[vals[a as int]] == f.regs[a as int]);
            assert(r.vals[vals[b as int]] == f.regs[b as int]);
        },
        WordIns::Select(a, b, c) => {
            assert(r.vals[vals[a as int]] == f.regs[a as int]);
            assert(r.vals[vals[b as int]] == f.regs[b as int]);
            assert(r.vals[vals[c as int]] == f.regs[c as int]);
        },
        WordIns::Store(_, v) | WordIns::Stage(_, v) => {
            assert(r.vals[vals[v as int]] == f.regs[v as int]);
            assert(vals[k] == vals[v as int]);
        },
        WordIns::Load(w) => {
            assert(r.cells[(base, 8 * w as int)] == f.bits[w as int]);
        },
        WordIns::Const(_) => {},
    }
    assert forall|j: int| 0 <= j < k + 1 implies r2.vals[#[trigger] vals[j]] == f2.regs[j] by {
        if j < k {
            assert(r.vals[vals[j]] == f.regs[j]);
            if !(ins is Store) && !(ins is Stage) {
                assert(vals[j] != vals[k]);
            }
        }
    }
    assert forall|w: int| 0 <= w < f2.bits.len() implies #[trigger] r2.cells[(base, 8 * w)]
        == f2.bits[w] by {
        assert(r.cells[(base, 8 * w)] == f.bits[w]);
    }
    assert forall|w: int| 0 <= w < f2.staging.len() implies #[trigger] r2.cells[(staging, 8 * w)]
        == f2.staging[w] by {
        assert(r.cells[(staging, 8 * w)] == f.staging[w]);
    }
}

proof fn lemma_words_run(
    code: Seq<WordIns>,
    vals: Seq<Value>,
    base: Value,
    staging: Value,
    bits: Seq<u64>,
    stages: Seq<u64>,
    r: Run,
    k: int,
)
    requires
        0 <= k <= code.len(),
        vals.len() == code.len(),
        base != staging,
        word_code_ok(code, bits.len() as int, stages.len() as int),
        8 * bits.len() <= i32::MAX,
        8 * stages.len() <= i32::MAX,
        word_stores_forward(code, vals),
        word_values_apart(code, vals),
        words_behind(r, base, bits),
        words_behind(r, staging, stages),
    ensures
        words_in_step(
            code,
            vals,
            base,
            staging,
            run_upto(native_word_code(code, vals, base, staging), r, k),
            word_ran(code, bits, stages, k),
            k,
        ),
        word_ran(code, bits, stages, k).bits.len() == bits.len(),
        word_ran(code, bits, stages, k).staging.len() == stages.len(),
    decreases k,
{
    if k > 0 {
        lemma_words_run(code, vals, base, staging, bits, stages, r, k - 1);
        lemma_words_step(
            code,
            vals,
            base,
            staging,
            run_upto(native_word_code(code, vals, base, staging), r, k - 1),
            word_ran(code, bits, stages, k - 1),
            k - 1,
        );
        assert(native_word_code(code, vals, base, staging)[k - 1] == native_word_ins(
            code[k - 1],
            k - 1,
            vals,
            base,
            staging,
        ));
    }
}

/// The function that a chunk of a packed plan is emitted as leaves behind its
/// two pointers what the chunk's code computes.
pub proof fn emitted_words_compute(
    code: Seq<WordIns>,
    vals: Seq<Value>,
    base: Value,
    staging: Value,
    bits: Seq<u64>,
    stages: Seq<u64>,
    r: Run,
)
    requires
        vals.len() == code.len(),
        base != staging,
        word_code_ok(code, bits.len() as int, stages.len() as int),
        8 * bits.len() <= i32::MAX,
        8 * stages.len() <= i32::MAX,
        word_stores_forward(code, vals),
        word_values_apart(code, vals),
        words_behind(r, base, bits),
        words_behind(r, staging, stages),
    ensures
        words_behind(
            run_all(native_word_code(code, vals, base, staging), r),
            base,
            word_result(code, bits, stages).bits,
        ),
        words_behind(
            run_all(native_word_code(code, vals, base, staging), r),
            staging,
            word_result(code, bits, stages).staging,
        ),
{
    let n = code.len() as int;
    let native = native_word_code(code, vals, base, staging);
    lemma_words_run(code, vals, base, staging, bits, stages, r, n);
    let (last, all) = (run_upto(native, r, n), run_upto(native, r, n + 1));
    assert(native[n] == (NativeIns::Return, None::<Value>));
    assert(all == run_step(native[n], last));
    let f = word_result(code, bits, stages);
    assert forall|w: int| 0 <= w < f.bits.len() implies #[trigger] all.cells[(base, 8 * w)]
        == f.bits[w] by {
        assert(last.cells[(base, 8 * w)] == f.bits[w]);
    }
    assert forall|w: int| 0 <= w < f.staging.len() implies #[trigger] all.cells[(staging, 8 * w)]
        == f.staging[w] by {
        assert(last.cells[(staging, 8 * w)] == f.staging[w]);
    }
}

/// A value stands for a bit: lane `l` of a word of 64 instances, or a byte
/// that is 0 or 1.
pub open spec fn stands_for_bit(v: u64, swar: bool, l: int, b: bool) -> bool {
    if swar {
        wbit(v, l) == b
    } else if b {
        v == 1
    } else {
        v == 0
    }
}

/// Instance `l` behind pointer `p` holds the slots' values.
pub open spec fn slots_behind(r: Run, p: Value, swar: bool, l: int, mem: Seq<bool>) -> bool {
    forall|s: int|
        0 <= s < mem.len() ==> stands_for_bit(
            #[trigger] r.cells[(p, slot_offset(s as u32, swar) as int)],
            swar,
            l,
            mem[s],
        )
}

proof fn lemma_canonical(a: u64, b: u64)
    by (bit_vector)
    requires
        a <= 1,
        b <= 1,
    ensures
        a & b == (if a == 1 && b == 1 { 1u64 } else { 0u64 }),
        a | b == (if a == 1 || b == 1 { 1u64 } else { 0u64 }),
        a ^ b == (if a != b { 1u64 } else { 0u64 }),
        a ^ 1 == (if a == 1 { 0u64 } else { 1u64 }),
{
}

/// What a running settle function holds after `k` instructions, for instance
/// `l`.
spec fn bits_in_step(
    code: Seq<Ins>,
    vals: Seq<Value>,
    base: Value,
    swar: bool,
    l: int,
    r: Run,
    f: Frame,
    k: int,
) -> bool {
    &&& f.regs.len() == k
    &&& forall|j: int|
        0 <= j < k ==> stands_for_bit(r.vals[#[trigger] vals[j]], swar, l, f.regs[j])
    &&& slots_behind(r, base, swar, l, f.mem)
}

proof fn lemma_bits_step(
    code: Seq<Ins>,
    vals: Seq<Value>,
    base: Value,
    swar: bool,
    l: int,
    r: Run,
    f: Frame,
    k: int,
)
    requires
        0 <= k < code.len(),
        0 <= l < 64,
        vals.len() == code.len(),
        code_ok(code, f.mem.len() as int),
        f.mem.len() <= i32::MAX,
        swar ==> 8 * f.mem.len() <= i32::MAX,
        stores_forward(code, vals),
        values_apart(code, vals),
        bits_in_step(code, vals, base, swar, l, r, f, k),
    ensures
        bits_in_step(
            code,
            vals,
            base,
            swar,
            l,
            run_step(native_ins(code[k], k, vals, base, swar), r),
            stepped(code[k], f),
            k + 1,
        ),
{
    let ins = code[k];
    let native = native_ins(ins, k, vals, base, swar);
    let (r2, f2) = (run_step(native, r), stepped(ins, f));
    assert(ins_ok(ins, k, f.mem.len() as int));
    assert(stands_for_bit(
        match native.1 {
            Some(_) => computes(native.0, r),
            None => r.vals[vals[k]],
        },
        swar,
        l,
        yields(ins, f),
    )) by {
        match ins {
            Ins::Load(s) => {
                assert(stands_for_bit(
                    r.cells[(base, slot_offset(s as int as u32, swar) as int)],
                    swar,
                    l,
                    f.mem[s as int],
                ));
            },
            Ins::And(a, b) | Ins::Or(a, b) | Ins::Xor(a, b) => {
                let (x, y) = (r.vals[vals[a as int]], r.vals[vals[b as int]]);
                assert(stands_for_bit(x, swar, l, f.regs[a as int]));
                assert(stands_for_bit(y, swar, l, f.regs[b as int]));
                lemma_word_logic(x, y, l);
                if !swar {
                    lemma_canonical(x, y);
                }
            },
            Ins::Invert(a) => {
                let x = r.vals[vals[a as int]];
                assert(stands_for_bit(x, swar, l, f.regs[a as int]));
                lemma_word_logic(x, x, l);
                if !swar {
                    lemma_canonical(x, x);
                }
            },
            Ins::Mux(a, b, c) => {
                let (x, y, z) = (
                    r.vals[vals[a as int]],
                    r.vals[vals[b as int]],
                    r.vals[vals[c as int]],
                );
                assert(stands_for_bit(x, swar, l, f.regs[a as int]));
                assert(stands_for_bit(y, swar, l, f.regs[b as int]));
                assert(stands_for_bit(z, swar, l, f.regs[c as int]));
                lemma_word_logic(x, y, l);
                lemma_word_logic(!x, z, l);
                lemma_word_logic(x & y, !x & z, l);
            },
            Ins::Store(_, v) => {
                assert(stands_for_bit(r.vals[vals[v as int]], swar, l, f.regs[v as int]));
                assert(vals[k] == vals[v as int]);
            },
        }
    }
    assert forall|j: int| 0 <= j < k + 1 implies stands_for_bit(
        r2.vals[#[trigger] vals[j]],
        swar,
        l,
        f2.regs[j],
    ) by {
        if j < k {
            assert(stands_for_bit(r.vals[vals[j]], swar, l, f.regs[j]));
            if !(ins is Store) {
                assert(vals[j] != vals[k]);
            }
        }
    }
    assert forall|s: int| 0 <= s < f2.mem.len() implies stands_for_bit(
        #[trigger] r2.cells[(base, slot_offset(s as u32, swar) as int)],
        swar,
        l,
        f2.mem[s],
    ) by {
        assert(stands_for_bit(
            r.cells[(base, slot_offset(s as u32, swar) as int)],
            swar,
            l,
            f.mem[s],
        ));
    }
}

proof fn lemma_bits_run(
    code: Seq<Ins>,
    vals: Seq<Value>,
    base: Value,
    swar: bool,
    l: int,
    mem: Seq<bool>,
    r: Run,
    k: int,
)
    requires
        0 <= k <= code.len(),
        0 <= l < 64,
        vals.len() == code.len(),
        code_ok(code, mem.len() as int),
        mem.len() <= i32::MAX,
        swar ==> 8 * mem.len() <= i32::MAX,
        stores_forward(code, vals),
        values_apart(code, vals),
        slots_behind(r, base, swar, l, mem),
    ensures
        bits_in_step(
            code,
            vals,
            base,
            swar,
            l,
            run_upto(native_code(code, vals, base, swar), r, k),
            ran(code, mem, k),
            k,
        ),
        ran(code, mem, k).mem.len() == mem.len(),
    decreases k,
{
    if k > 0 {
        lemma_bits_run(code, vals, base, swar, l, mem, r, k - 1);
        lemma_bits_step(
            code,
            vals,
            base,
            swar,
            l,
            run_upto(native_code(code, vals, base, swar), r, k - 1),
            ran(code, mem, k - 1),
            k - 1,
        );
        assert(native_code(code, vals, base, swar)[k - 1] == native_ins(
            code[k - 1],
            k - 1,
            vals,
            base,
            swar,
        ));
    }
}

/// The function that a settle pass is emitted as leaves behind its pointer
/// what the pass computes: one instance as canonical bytes, or every one of
/// 64 packed instances in its lane.
pub proof fn emitted_bits_compute(
    code: Seq<Ins>,
    vals: Seq<Value>,
    base: Value,
    swar: bool,
    l: int,
    mem: Seq<bool>,
    r: Run,
)
    requires
        0 <= l < 64,
        vals.len() == code.len(),
        code_ok(code, mem.len() as int),
        mem.len() <= i32::MAX,
        swar ==> 8 * mem.len() <= i32::MAX,
        stores_forward(code, vals),
        values_apart(code, vals),
        slots_behind(r, base, swar, l, mem),
    ensures
        slots_behind(
            run_all(native_code(code, vals, base, swar), r),
            base,
            swar,
            l,
            result(code, mem),
        ),
{
    let n = code.len() as int;
    let native = native_code(code, vals, base, swar);
    lemma_bits_run(code, vals, base, swar, l, mem, r, n);
    let (last, all) = (run_upto(native, r, n), run_upto(native, r, n + 1));
    assert(native[n] == (NativeIns::Return, None::<Value>));
    assert(all == run_step(native[n], last));
    let f = ran(code, mem, n);
    assert forall|s: int| 0 <= s < f.mem.len() implies stands_for_bit(
        #[trigger] all.cells[(base, slot_offset(s as u32, swar) as int)],
        swar,
        l,
        f.mem[s],
    ) by {
        assert(stands_for_bit(
            last.cells[(base, slot_offset(s as u32, swar) as int)],
            swar,
            l,
            f.mem[s],
        ));
    }
}

} // verus!
