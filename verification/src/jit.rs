//! The settle pass as straight-line code.
//!
//! Interpreters pay a tax on every gate: operand fetch through the tape's
//! index arrays, dispatch, bounds bookkeeping. Here the tape itself becomes
//! the program: every gate is emitted as an instruction or two with its
//! operand offsets baked in, and within a chunk a gate consumed by a later
//! gate flows through a register, not the value buffer.
//!
//! Gates are split into fixed-size chunks, one function per chunk: register
//! allocation is superlinear in function size, and chunking keeps compile
//! times flat for million-gate circuits. Values cross chunk boundaries
//! through the value buffer.
//!
//! Sequential semantics (clock-edge scatter, next-state gather) stay outside
//! the code; only the combinational settle is in it.
use std::sync::Arc;

use vstd::prelude::*;

use crate::circuit::Circuit;
use crate::compile::{bit, same_machine, shared, Compiled, Op};
use crate::engine::{Engine, Machine};
use crate::netlist::{gate_fn, node_value, Env, Node};
use crate::scalar::{
    apply_edge, arrays_ok, bits, capture_next, copy_bytes, lemma_gate_slot, lemma_power_on,
    lemma_set_input, lemma_taps_input, machine_of,
};

verus! {

/// Gates per function. Large enough to amortize the call, small enough to
/// keep register allocation linear in practice.
pub const CHUNK: usize = 8192;

/// One instruction. Operands are the numbers of earlier instructions of the
/// same function; a store yields what it stores.
#[derive(Clone, Copy, Debug)]
pub enum Ins {
    /// Read a slot of the value buffer.
    Load(u32),
    And(u32, u32),
    Or(u32, u32),
    Xor(u32, u32),
    Invert(u32),
    /// `if a { b } else { c }`.
    Mux(u32, u32, u32),
    /// Write a slot of the value buffer.
    Store(u32, u32),
}

/// Registers and value buffer while the code runs.
#[verifier::ext_equal]
pub struct Frame {
    pub regs: Seq<bool>,
    pub mem: Seq<bool>,
}

/// What one instruction yields.
pub open spec fn yields(ins: Ins, f: Frame) -> bool {
    match ins {
        Ins::Load(s) => f.mem[s as int],
        Ins::And(a, b) => f.regs[a as int] && f.regs[b as int],
        Ins::Or(a, b) => f.regs[a as int] || f.regs[b as int],
        Ins::Xor(a, b) => f.regs[a as int] != f.regs[b as int],
        Ins::Invert(a) => !f.regs[a as int],
        Ins::Mux(a, b, c) => if f.regs[a as int] {
            f.regs[b as int]
        } else {
            f.regs[c as int]
        },
        Ins::Store(_, v) => f.regs[v as int],
    }
}

/// One step.
pub open spec fn stepped(ins: Ins, f: Frame) -> Frame {
    Frame {
        regs: f.regs.push(yields(ins, f)),
        mem: match ins {
            Ins::Store(s, v) => f.mem.update(s as int, f.regs[v as int]),
            _ => f.mem,
        },
    }
}

/// The first `k` instructions, run on a value buffer.
pub open spec fn ran(code: Seq<Ins>, mem: Seq<bool>, k: int) -> Frame
    decreases k,
{
    if k <= 0 {
        Frame { regs: Seq::empty(), mem }
    } else {
        stepped(code[k - 1], ran(code, mem, k - 1))
    }
}

/// The value buffer after the whole function.
pub open spec fn result(code: Seq<Ins>, mem: Seq<bool>) -> Seq<bool> {
    ran(code, mem, code.len() as int).mem
}

/// Operand and slot numbers are in range.
pub open spec fn ins_ok(ins: Ins, at: int, n: int) -> bool {
    match ins {
        Ins::Load(s) => s < n,
        Ins::And(a, b) | Ins::Or(a, b) | Ins::Xor(a, b) => a < at && b < at,
        Ins::Invert(a) => a < at,
        Ins::Mux(a, b, c) => a < at && b < at && c < at,
        Ins::Store(s, v) => s < n && v < at,
    }
}

pub open spec fn code_ok(code: Seq<Ins>, n: int) -> bool {
    forall|k: int| 0 <= k < code.len() ==> ins_ok(#[trigger] code[k], k, n)
}

/// Appending an instruction leaves the run of the others alone.
proof fn lemma_ran_push(code: Seq<Ins>, ins: Ins, mem: Seq<bool>, k: int)
    requires
        0 <= k <= code.len(),
    ensures
        ran(code.push(ins), mem, k) == ran(code, mem, k),
    decreases k,
{
    if k > 0 {
        lemma_ran_push(code, ins, mem, k - 1);
        assert(code.push(ins)[k - 1] == code[k - 1]);
    }
}

proof fn lemma_ran_len(code: Seq<Ins>, mem: Seq<bool>, k: int)
    requires
        0 <= k <= code.len(),
        code_ok(code, mem.len() as int),
    ensures
        ran(code, mem, k).regs.len() == k,
        ran(code, mem, k).mem.len() == mem.len(),
    decreases k,
{
    if k > 0 {
        lemma_ran_len(code, mem, k - 1);
        assert(ins_ok(code[k - 1], k - 1, mem.len() as int));
    }
}

/// Slot `x` must be in the value buffer once everything below `from` is
/// settled: a source, an observed slot, or one that a later gate reads.
pub open spec fn needed(tape: Compiled, x: int, from: int) -> bool {
    ||| x < tape.gate_start
    ||| pinned_slot(tape, x)
    ||| exists|s: int| from <= s < tape.n() && #[trigger] tape.reads(s, x)
}

/// Declared outputs and register next-state taps.
pub open spec fn pinned_slot(tape: Compiled, x: int) -> bool {
    ||| exists|k: int| 0 <= k < tape.output_slots@.len() && #[trigger] tape.output_slots@[k] == x
    ||| exists|r: int| 0 <= r < tape.reg_in_slots@.len() && #[trigger] tape.reg_in_slots@[r] == x
}

/// Everything below `upto` that is needed from there on holds its value.
pub open spec fn ready(tape: Compiled, mem: Seq<bool>, env: Env, upto: int) -> bool {
    &&& mem.len() == tape.n()
    &&& forall|x: int|
        0 <= x < upto && needed(tape, x, upto) ==> #[trigger] mem[x] == tape.value(env, x)
}

/// The code settles gates `start..end`, whatever the circuit's inputs and
/// registers hold, and leaves everything below them alone.
pub open spec fn settles(tape: Compiled, code: Seq<Ins>, start: int, end: int) -> bool {
    &&& forall|mem: Seq<bool>, env: Env|
        #[trigger] ready(tape, mem, env, start) ==> ready(tape, result(code, mem), env, end)
    &&& forall|mem: Seq<bool>, x: int|
        0 <= x < start && mem.len() == tape.n() ==> #[trigger] result(code, mem)[x] == mem[x]
}

/// What is known while gates `start..slot` are emitted.
spec fn emitted(
    tape: Compiled,
    code: Seq<Ins>,
    cache: Seq<Option<u32>>,
    start: int,
    slot: int,
    end: int,
    mem: Seq<bool>,
    env: Env,
) -> bool {
    let f = ran(code, mem, code.len() as int);
    &&& forall|x: int|
        0 <= x < tape.n() ==> (#[trigger] cache[x] matches Some(v) ==> f.regs[v as int] == tape.value(env, x))
    &&& forall|x: int| 0 <= x < start ==> #[trigger] f.mem[x] == mem[x]
    &&& forall|x: int|
        start <= x < slot && needed(tape, x, end) ==> #[trigger] f.mem[x] == tape.value(env, x)
}

/// Emission state of a chunk.
spec fn emitting(
    tape: Compiled,
    code: Seq<Ins>,
    cache: Seq<Option<u32>>,
    start: int,
    slot: int,
    end: int,
) -> bool {
    &&& cache.len() == tape.n()
    &&& code_ok(code, tape.n())
    &&& forall|x: int| 0 <= x < tape.n() ==> (#[trigger] cache[x] matches Some(v) ==> v < code.len())
    &&& forall|x: int| start <= x < slot ==> #[trigger] cache[x] is Some
    &&& forall|mem: Seq<bool>, env: Env|
        #[trigger] ready(tape, mem, env, start) ==> emitted(tape, code, cache, start, slot, end, mem, env)
    &&& forall|mem: Seq<bool>, x: int|
        0 <= x < start && mem.len() == tape.n() ==> #[trigger] result(code, mem)[x] == mem[x]
}

/// The slot that an instruction brings into a register.
pub open spec fn touched(ins: Ins) -> Option<u32> {
    match ins {
        Ins::Load(x) => Some(x),
        Ins::Store(x, _) => Some(x),
        _ => None,
    }
}

/// No slot is loaded twice, or after it was stored: from then on it flows
/// through its register.
pub open spec fn loads_once(code: Seq<Ins>) -> bool {
    forall|j: int, k: int|
        0 <= j < k < code.len() ==> (#[trigger] code[k] matches Ins::Load(x) ==> touched(
            #[trigger] code[j],
        ) != Some(x))
}

/// Nothing is loaded twice, and what was brought into a register is cached.
#[verifier::opaque]
spec fn once(code: Seq<Ins>, cache: Seq<Option<u32>>) -> bool {
    &&& loads_once(code)
    &&& forall|k: int|
        0 <= k < code.len() ==> (touched(#[trigger] code[k]) matches Some(x) ==> x < cache.len()
            && cache[x as int] is Some)
}

/// One more instruction.
proof fn lemma_once(code: Seq<Ins>, cache: Seq<Option<u32>>, ins: Ins, after: Seq<Option<u32>>)
    requires
        once(code, cache),
        after.len() == cache.len(),
        forall|x: int| 0 <= x < cache.len() && cache[x] is Some ==> #[trigger] after[x] is Some,
        touched(ins) matches Some(x) ==> x < after.len() && after[x as int] is Some,
        ins matches Ins::Load(x) ==> cache[x as int] is None,
    ensures
        once(code.push(ins), after),
        once(code, after),
{
    reveal(once);
    let more = code.push(ins);
    assert forall|j: int, k: int| 0 <= j < k < more.len() implies (#[trigger] more[k] matches Ins::Load(
        x,
    ) ==> touched(#[trigger] more[j]) != Some(x)) by {
        assert(more[j] == code[j]);
        if k < code.len() {
            assert(more[k] == code[k]);
        }
    }
    assert forall|k: int| 0 <= k < more.len() implies (touched(#[trigger] more[k]) matches Some(x) ==> x
        < after.len() && after[x as int] is Some) by {
        if k < code.len() {
            assert(more[k] == code[k]);
        }
    }
}

/// Append an instruction that computes `value` of slot-independent meaning:
/// the caller shows what it yields.
proof fn lemma_append(
    tape: Compiled,
    code: Seq<Ins>,
    cache: Seq<Option<u32>>,
    start: int,
    slot: int,
    end: int,
    ins: Ins,
)
    requires
        emitting(tape, code, cache, start, slot, end),
        ins_ok(ins, code.len() as int, tape.n()),
        !(ins is Store),
    ensures
        emitting(tape, code.push(ins), cache, start, slot, end),
        forall|mem: Seq<bool>|
            mem.len() == tape.n() ==> #[trigger] ran(code.push(ins), mem, code.len() as int + 1) == stepped(
                ins,
                ran(code, mem, code.len() as int),
            ),
{
    let more = code.push(ins);
    assert forall|mem: Seq<bool>| mem.len() == tape.n() implies #[trigger] ran(
        more,
        mem,
        code.len() as int + 1,
    ) == stepped(ins, ran(code, mem, code.len() as int)) by {
        lemma_ran_push(code, ins, mem, code.len() as int);
    }
    assert forall|mem: Seq<bool>, env: Env| #[trigger] ready(tape, mem, env, start) implies emitted(
        tape,
        more,
        cache,
        start,
        slot,
        end,
        mem,
        env,
    ) by {
        assert(emitted(tape, code, cache, start, slot, end, mem, env));
        lemma_ran_push(code, ins, mem, code.len() as int);
        lemma_ran_len(code, mem, code.len() as int);
        let f = ran(code, mem, code.len() as int);
        let g = ran(more, mem, more.len() as int);
        assert(g == stepped(ins, f));
        assert forall|x: int| 0 <= x < tape.n() implies (#[trigger] cache[x] matches Some(v)
            ==> g.regs[v as int] == tape.value(env, x)) by {}
    }
    assert forall|mem: Seq<bool>, x: int| 0 <= x < start && mem.len() == tape.n() implies #[trigger] result(
        more,
        mem,
    )[x] == mem[x] by {
        lemma_ran_push(code, ins, mem, code.len() as int);
        assert(result(code, mem)[x] == mem[x]);
    }
    assert forall|k: int| 0 <= k < more.len() implies ins_ok(#[trigger] more[k], k, tape.n()) by {
        if k < code.len() {
            assert(more[k] == code[k]);
        }
    }
}

/// The register that holds a slot; loads it where no instruction of the
/// chunk has produced it.
fn operand(
    tape: &Compiled,
    code: &mut Vec<Ins>,
    cache: &mut Vec<Option<u32>>,
    x: u32,
    start: Ghost<int>,
    slot: Ghost<int>,
    end: Ghost<int>,
) -> (v: u32)
    requires
        tape.wf(),
        emitting(*tape, old(code)@, old(cache)@, start@, slot@, end@),
        tape.gate_start <= start@ <= slot@ < end@ <= tape.n(),
        tape.reads(slot@, x as int),
        x < slot@,
        old(code)@.len() + 1 <= u32::MAX,
        once(old(code)@, old(cache)@),
    ensures
        emitting(*tape, final(code)@, final(cache)@, start@, slot@, end@),
        once(final(code)@, final(cache)@),
        v < final(code)@.len() <= old(code)@.len() + 1,
        adds_no_store(old(code)@, final(code)@),
        final(cache)@[x as int] == Some(v),
        forall|y: int| 0 <= y < tape.n() && y != x ==> #[trigger] final(cache)@[y] == old(cache)@[y],
        old(cache)@[x as int] is Some ==> final(cache)@ == old(cache)@ && final(code)@ == old(code)@,
{
    match cache[x as usize] {
        Some(v) => v,
        None => {
            let v: u32 = code.len() as u32;
            let ghost code0 = code@;
            let ghost cache0 = cache@;
            code.push(Ins::Load(x));
            cache.set(x as usize, Some(v));
            proof {
                assert(x < start@);
                lemma_once(code0, cache0, Ins::Load(x), cache@);
                lemma_append(*tape, code0, cache0, start@, slot@, end@, Ins::Load(x));
                assert forall|mem: Seq<bool>, env: Env| #[trigger] ready(*tape, mem, env, start@) implies emitted(
                    *tape,
                    code@,
                    cache@,
                    start@,
                    slot@,
                    end@,
                    mem,
                    env,
                ) by {
                    assert(emitted(*tape, code@, cache0, start@, slot@, end@, mem, env));
                    assert(emitted(*tape, code0, cache0, start@, slot@, end@, mem, env));
                    lemma_ran_push(code0, Ins::Load(x), mem, code0.len() as int);
                    lemma_ran_len(code0, mem, code0.len() as int);
                    assert(needed(*tape, x as int, start@)) by {
                        assert(tape.reads(slot@, x as int));
                    }
                    assert(mem[x as int] == tape.value(env, x as int));
                    let f = ran(code0, mem, code0.len() as int);
                    assert(f.mem[x as int] == mem[x as int]);
                    let g = ran(code@, mem, code@.len() as int);
                    assert forall|y: int| 0 <= y < tape.n() implies (#[trigger] cache@[y] matches Some(r)
                        ==> g.regs[r as int] == tape.value(env, y)) by {
                        assert(cache0[y] matches Some(r) ==> g.regs[r as int] == tape.value(env, y));
                    }
                }
            }
            v
        },
    }
}

/// Emit one instruction whose value is that of `slot`.
proof fn lemma_define(
    tape: Compiled,
    code: Seq<Ins>,
    cache: Seq<Option<u32>>,
    start: int,
    slot: int,
    end: int,
    ins: Ins,
)
    requires
        tape.wf(),
        emitting(tape, code, cache, start, slot, end),
        ins_ok(ins, code.len() as int, tape.n()),
        !(ins is Store),
    ensures
        emitting(tape, code.push(ins), cache, start, slot, end),
        forall|mem: Seq<bool>, env: Env|
            #[trigger] ready(tape, mem, env, start) ==> ran(code.push(ins), mem, code.len() as int + 1).regs.last()
                == yields(ins, ran(code, mem, code.len() as int)) && emitted(
                tape,
                code,
                cache,
                start,
                slot,
                end,
                mem,
                env,
            ),
{
    lemma_append(tape, code, cache, start, slot, end, ins);
    assert forall|mem: Seq<bool>, env: Env| #[trigger] ready(tape, mem, env, start) implies ran(
        code.push(ins),
        mem,
        code.len() as int + 1,
    ).regs.last() == yields(ins, ran(code, mem, code.len() as int)) && emitted(
        tape,
        code,
        cache,
        start,
        slot,
        end,
        mem,
        env,
    ) by {
        assert(ran(code.push(ins), mem, code.len() as int + 1) == stepped(
            ins,
            ran(code, mem, code.len() as int),
        ));
    }
}

/// Register `v` carries `op` of the operands of gate `slot`.
spec fn reg_is(tape: Compiled, code: Seq<Ins>, start: int, v: int, op: Op, slot: int) -> bool {
    forall|mem: Seq<bool>, env: Env|
        #[trigger] ready(tape, mem, env, start) ==> ran(code, mem, code.len() as int).regs[v] == gate_fn(
            op,
            tape.value(env, tape.a@[slot] as int),
            tape.value(env, tape.b@[slot] as int),
            tape.value(env, tape.c@[slot] as int),
        )
}

/// The kind that a gate kind inverts.
pub open spec fn upright(op: Op) -> Op {
    match op {
        Op::Nand => Op::And,
        Op::Nor => Op::Or,
        Op::Xnor => Op::Xor,
        Op::Not => Op::Buf,
        _ => op,
    }
}

/// `after` is `before` with more instructions, none of them a store.
spec fn adds_no_store(before: Seq<Ins>, after: Seq<Ins>) -> bool {
    &&& before.len() <= after.len()
    &&& forall|k: int| 0 <= k < before.len() ==> #[trigger] after[k] == before[k]
    &&& forall|k: int| before.len() <= k < after.len() ==> !(#[trigger] after[k] is Store)
}

/// Only gates of `start..upto` that something outside the chunk can read are
/// stored.
pub open spec fn stores_needed(tape: Compiled, code: Seq<Ins>, start: int, upto: int, end: int) -> bool {
    forall|k: int|
        0 <= k < code.len() ==> (#[trigger] code[k] matches Ins::Store(s, _) ==> start <= s < upto
            && needed(tape, s as int, end))
}

/// Emit the value of one gate; returns its register.
#[verifier::rlimit(60)]
fn emit_gate(
    tape: &Compiled,
    code: &mut Vec<Ins>,
    cache: &mut Vec<Option<u32>>,
    slot: usize,
    start: Ghost<int>,
    end: Ghost<int>,
) -> (v: u32)
    requires
        tape.wf(),
        emitting(*tape, old(code)@, old(cache)@, start@, slot as int, end@),
        tape.gate_start <= start@ <= slot < end@ <= tape.n(),
        old(code)@.len() + 5 <= u32::MAX,
        once(old(code)@, old(cache)@),
    ensures
        emitting(*tape, final(code)@, final(cache)@, start@, slot as int, end@),
        once(final(code)@, final(cache)@),
        v < final(code)@.len() <= old(code)@.len() + 5,
        adds_no_store(old(code)@, final(code)@),
        reg_is(*tape, final(code)@, start@, v as int, tape.ops@[slot as int], slot as int),
{
    let ghost s = slot as int;
    let op = tape.ops[slot];
    proof {
        assert(tape.gate_ok(s));
        crate::emission::lemma_reads_operands(*tape, s);
    }
    let (xa, xb, xc) = (tape.a[slot], tape.b[slot], tape.c[slot]);
    let a: u32 = operand(tape, code, cache, xa, start, Ghost(s), end);
    let raw: u32 = match op {
        Op::And | Op::Or | Op::Xor | Op::Nand | Op::Nor | Op::Xnor => {
            let b: u32 = operand(tape, code, cache, xb, start, Ghost(s), end);
            let ins = match op {
                Op::And | Op::Nand => Ins::And(a, b),
                Op::Or | Op::Nor => Ins::Or(a, b),
                _ => Ins::Xor(a, b),
            };
            let v: u32 = code.len() as u32;
            let ghost code0 = code@;
            code.push(ins);
            proof {
                lemma_once(code0, cache@, ins, cache@);
                lemma_define(*tape, code0, cache@, start@, s, end@, ins);
                assert forall|mem: Seq<bool>, env: Env| #[trigger] ready(*tape, mem, env, start@) implies ran(
                    code@,
                    mem,
                    code@.len() as int,
                ).regs[v as int] == gate_fn(
                    upright(op),
                    tape.value(env, xa as int),
                    tape.value(env, xb as int),
                    tape.value(env, xc as int),
                ) by {
                    lemma_ran_len(code@, mem, code@.len() as int);
                    assert(emitted(*tape, code0, cache@, start@, s, end@, mem, env));
                    assert(cache@[xa as int] == Some(a));
                    assert(cache@[xb as int] == Some(b));
                }
            }
            v
        },
        Op::Not | Op::Buf => {
            proof {
                assert forall|mem: Seq<bool>, env: Env| #[trigger] ready(*tape, mem, env, start@) implies ran(
                    code@,
                    mem,
                    code@.len() as int,
                ).regs[a as int] == gate_fn(
                    upright(op),
                    tape.value(env, xa as int),
                    tape.value(env, xb as int),
                    tape.value(env, xc as int),
                ) by {
                    assert(emitted(*tape, code@, cache@, start@, s, end@, mem, env));
                    assert(cache@[xa as int] == Some(a));
                }
            }
            a
        },
        Op::Mux => {
            let t: u32 = operand(tape, code, cache, xb, start, Ghost(s), end);
            let e: u32 = operand(tape, code, cache, xc, start, Ghost(s), end);
            let ins = Ins::Mux(a, t, e);
            let v: u32 = code.len() as u32;
            let ghost code0 = code@;
            code.push(ins);
            proof {
                lemma_once(code0, cache@, ins, cache@);
                lemma_define(*tape, code0, cache@, start@, s, end@, ins);
                assert forall|mem: Seq<bool>, env: Env| #[trigger] ready(*tape, mem, env, start@) implies ran(
                    code@,
                    mem,
                    code@.len() as int,
                ).regs[v as int] == gate_fn(
                    upright(op),
                    tape.value(env, xa as int),
                    tape.value(env, xb as int),
                    tape.value(env, xc as int),
                ) by {
                    lemma_ran_len(code@, mem, code@.len() as int);
                    assert(emitted(*tape, code0, cache@, start@, s, end@, mem, env));
                    assert(cache@[xa as int] == Some(a));
                    assert(cache@[xb as int] == Some(t));
                    assert(cache@[xc as int] == Some(e));
                }
            }
            v
        },
    };
    assert(reg_is(*tape, code@, start@, raw as int, upright(op), s));
    match op {
        Op::Nand | Op::Nor | Op::Xnor | Op::Not => {
            let v: u32 = code.len() as u32;
            let ghost code0 = code@;
            code.push(Ins::Invert(raw));
            proof {
                lemma_once(code0, cache@, Ins::Invert(raw), cache@);
                lemma_define(*tape, code0, cache@, start@, s, end@, Ins::Invert(raw));
                assert forall|mem: Seq<bool>, env: Env| #[trigger] ready(*tape, mem, env, start@) implies ran(
                    code@,
                    mem,
                    code@.len() as int,
                ).regs[v as int] == gate_fn(
                    op,
                    tape.value(env, xa as int),
                    tape.value(env, xb as int),
                    tape.value(env, xc as int),
                ) by {
                    lemma_ran_len(code@, mem, code@.len() as int);
                    assert(ran(code0, mem, code0.len() as int).regs[raw as int] == gate_fn(
                        upright(op),
                        tape.value(env, xa as int),
                        tape.value(env, xb as int),
                        tape.value(env, xc as int),
                    ));
                }
            }
            v
        },
        _ => raw,
    }
}

/// Whether something outside the chunk can read gate `slot`.
fn escapes(tape: &Compiled, pinned: &Vec<bool>, slot: usize, end: usize) -> (yes: bool)
    requires
        tape.wf(),
        pinned@.len() == tape.n(),
        forall|x: int| 0 <= x < tape.n() ==> #[trigger] pinned@[x] == pinned_slot(*tape, x),
        tape.gate_start <= slot < tape.n(),
    ensures
        yes == needed(*tape, slot as int, end as int),
{
    if pinned[slot] {
        return true;
    }
    let readers = tape.successors(slot as u32);
    for i in 0..readers.len()
        invariant
            tape.wf(),
            forall|c: u32| readers@.contains(c) <==> tape.reads(c as int, slot as int),
            forall|j: int| 0 <= j < i ==> #[trigger] readers@[j] < end,
    {
        let s: u32 = readers[i];
        if s as usize >= end {
            assert(readers@.contains(s));
            assert(tape.reads(s as int, slot as int));
            return true;
        }
    }
    assert forall|s: int| end <= s < tape.n() implies !#[trigger] tape.reads(s, slot as int) by {
        if tape.reads(s, slot as int) {
            assert(readers@.contains(s as u32));
            let j = choose|j: int| 0 <= j < readers@.len() && readers@[j] == s as u32;
            assert(readers@[j] < end);
        }
    }
    false
}

/// Slots that must stay observable in the value buffer no matter what.
pub(crate) fn pinned_slots(tape: &Compiled) -> (pinned: Vec<bool>)
    requires
        tape.wf(),
    ensures
        pinned@.len() == tape.n(),
        forall|x: int| 0 <= x < tape.n() ==> #[trigger] pinned@[x] == pinned_slot(*tape, x),
{
    let n: usize = tape.slot_count();
    let mut pinned: Vec<bool> = Vec::with_capacity(n);
    for i in 0..n
        invariant
            pinned@.len() == i,
            forall|x: int| 0 <= x < i ==> !#[trigger] pinned@[x],
    {
        pinned.push(false);
    }
    for k in 0..tape.output_slots.len()
        invariant
            tape.wf(),
            n == tape.n(),
            pinned@.len() == n,
            forall|x: int|
                0 <= x < n ==> (#[trigger] pinned@[x] <==> exists|j: int|
                    0 <= j < k && #[trigger] tape.output_slots@[j] == x),
    {
        let ghost before = pinned@;
        let slot: usize = tape.output_slots[k] as usize;
        pinned.set(slot, true);
        assert forall|x: int| 0 <= x < n implies (#[trigger] pinned@[x] <==> exists|j: int|
            0 <= j < k + 1 && #[trigger] tape.output_slots@[j] == x) by {
            assert(before[x] <==> exists|j: int| 0 <= j < k && #[trigger] tape.output_slots@[j] == x);
            assert(tape.output_slots@[k as int] == slot);
            if before[x] {
                let j = choose|j: int| 0 <= j < k && #[trigger] tape.output_slots@[j] == x;
                assert(tape.output_slots@[j] == x);
            }
        }
    }
    let ghost outs = pinned@;
    for r in 0..tape.reg_in_slots.len()
        invariant
            tape.wf(),
            n == tape.n(),
            pinned@.len() == n,
            forall|x: int|
                0 <= x < n ==> (#[trigger] pinned@[x] <==> outs[x] || exists|j: int|
                    0 <= j < r && #[trigger] tape.reg_in_slots@[j] == x),
    {
        let ghost before = pinned@;
        let slot: usize = tape.reg_in_slots[r] as usize;
        pinned.set(slot, true);
        assert forall|x: int| 0 <= x < n implies (#[trigger] pinned@[x] <==> outs[x] || exists|j: int|
            0 <= j < r + 1 && #[trigger] tape.reg_in_slots@[j] == x) by {
            assert(before[x] <==> outs[x] || exists|j: int| 0 <= j < r && #[trigger] tape.reg_in_slots@[j] == x);
            assert(tape.reg_in_slots@[r as int] == slot);
            if before[x] && !outs[x] {
                let j = choose|j: int| 0 <= j < r && #[trigger] tape.reg_in_slots@[j] == x;
                assert(tape.reg_in_slots@[j] == x);
            }
        }
    }
    pinned
}

/// Emit one chunk: a straight-line function that evaluates gate slots
/// `start..end` against the value buffer.
///
/// A gate's value is stored back to the buffer only if something outside the
/// chunk can read it: an observed slot or a successor gate past `end`
/// (successors are always later on the tape, so in-chunk consumers find the
/// value in a register instead).
#[verifier::rlimit(60)]
pub fn build_chunk(tape: &Compiled, pinned: &Vec<bool>, start: usize, end: usize) -> (code: Vec<Ins>)
    requires
        tape.wf(),
        pinned@.len() == tape.n(),
        forall|x: int| 0 <= x < tape.n() ==> #[trigger] pinned@[x] == pinned_slot(*tape, x),
        tape.gate_start <= start <= end <= tape.n(),
        6 * (end - start) <= u32::MAX,
    ensures
        code_ok(code@, tape.n()),
        settles(*tape, code@, start as int, end as int),
        stores_needed(*tape, code@, start as int, end as int, end as int),
        loads_once(code@),
{
    let n: usize = tape.slot_count();
    let mut code: Vec<Ins> = Vec::new();
    // slot -> register already holding it in this chunk.
    let mut cache: Vec<Option<u32>> = Vec::with_capacity(n);
    for i in 0..n
        invariant
            cache@.len() == i,
            forall|x: int| 0 <= x < i ==> #[trigger] cache@[x] is None,
    {
        cache.push(None);
    }
    assert forall|mem: Seq<bool>, env: Env| #[trigger] ready(*tape, mem, env, start as int) implies emitted(
        *tape,
        code@,
        cache@,
        start as int,
        start as int,
        end as int,
        mem,
        env,
    ) by {}
    assert(once(code@, cache@)) by {
        reveal(once);
    }
    for slot in start..end
        invariant
            tape.wf(),
            n == tape.n(),
            pinned@.len() == tape.n(),
            forall|x: int| 0 <= x < tape.n() ==> #[trigger] pinned@[x] == pinned_slot(*tape, x),
            tape.gate_start <= start <= end <= tape.n(),
            6 * (end - start) <= u32::MAX,
            code@.len() <= 6 * (slot - start),
            emitting(*tape, code@, cache@, start as int, slot as int, end as int),
            stores_needed(*tape, code@, start as int, slot as int, end as int),
            once(code@, cache@),
    {
        let v: u32 = emit_gate(tape, &mut code, &mut cache, slot, Ghost(start as int), Ghost(end as int));
        let ghost s = slot as int;
        let ghost code0 = code@;
        let ghost cache0 = cache@;
        let store: bool = escapes(tape, pinned, slot, end);
        if store {
            code.push(Ins::Store(slot as u32, v));
        }
        cache.set(slot, Some(v));
        proof {
            lemma_finish_gate(*tape, code0, cache0, start as int, s, end as int, v, store);
            lemma_once(code0, cache0, Ins::Store(slot as u32, v), cache@);
        }
    }
    proof {
        reveal(once);
    }
    proof {
        assert forall|mem: Seq<bool>, env: Env| #[trigger] ready(*tape, mem, env, start as int) implies ready(
            *tape,
            result(code@, mem),
            env,
            end as int,
        ) by {
            assert(emitted(*tape, code@, cache@, start as int, end as int, end as int, mem, env));
            lemma_ran_len(code@, mem, code@.len() as int);
            let after = result(code@, mem);
            assert forall|x: int| 0 <= x < end && needed(*tape, x, end as int) implies #[trigger] after[x]
                == tape.value(env, x) by {
                if x < start {
                    assert(after[x] == mem[x]);
                    lemma_needed_shrinks(*tape, x, start as int, end as int);
                    assert(mem[x] == tape.value(env, x));
                }
            }
        }
    }
    code
}

proof fn lemma_needed_shrinks(tape: Compiled, x: int, from: int, to: int)
    requires
        from <= to,
        needed(tape, x, to),
    ensures
        needed(tape, x, from),
{
    if !(x < tape.gate_start) && !pinned_slot(tape, x) {
        let s = choose|s: int| to <= s < tape.n() && #[trigger] tape.reads(s, x);
        assert(tape.reads(s, x));
    }
}

/// Storing a gate where it is needed, and remembering its register.
#[verifier::rlimit(40)]
proof fn lemma_finish_gate(
    tape: Compiled,
    code: Seq<Ins>,
    cache: Seq<Option<u32>>,
    start: int,
    slot: int,
    end: int,
    v: u32,
    store: bool,
)
    requires
        tape.wf(),
        emitting(tape, code, cache, start, slot, end),
        tape.gate_start <= start <= slot < end <= tape.n(),
        v < code.len(),
        reg_is(tape, code, start, v as int, tape.ops@[slot], slot),
        store == needed(tape, slot, end),
    ensures
        ({
            let ins = Ins::Store(slot as u32, v);
            let more = if store {
                code.push(ins)
            } else {
                code
            };
            emitting(tape, more, cache.update(slot, Some(v)), start, slot + 1, end)
        }),
{
    let ins = Ins::Store(slot as u32, v);
    let more = if store {
        code.push(ins)
    } else {
        code
    };
    let known = cache.update(slot, Some(v));
    assert forall|k: int| 0 <= k < more.len() implies ins_ok(#[trigger] more[k], k, tape.n()) by {
        if k < code.len() {
            assert(more[k] == code[k]);
        }
    }
    assert forall|mem: Seq<bool>, env: Env| #[trigger] ready(tape, mem, env, start) implies emitted(
        tape,
        more,
        known,
        start,
        slot + 1,
        end,
        mem,
        env,
    ) by {
        assert(emitted(tape, code, cache, start, slot, end, mem, env));
        lemma_ran_len(code, mem, code.len() as int);
        lemma_ran_push(code, ins, mem, code.len() as int);
        lemma_gate_slot(tape, env, slot);
        let f = ran(code, mem, code.len() as int);
        let g = ran(more, mem, more.len() as int);
        assert(f.regs[v as int] == tape.value(env, slot));
        assert(store ==> g == stepped(ins, f));
        assert forall|x: int| 0 <= x < tape.n() implies (#[trigger] known[x] matches Some(r)
            ==> g.regs[r as int] == tape.value(env, x)) by {
            if x != slot {
                assert(known[x] == cache[x]);
            }
        }
        assert forall|x: int| start <= x < slot + 1 && needed(tape, x, end) implies #[trigger] g.mem[x] == tape.value(
            env,
            x,
        ) by {
            if x < slot {
                assert(f.mem[x] == tape.value(env, x));
            }
        }
        assert forall|x: int| 0 <= x < start implies #[trigger] g.mem[x] == mem[x] by {
            assert(f.mem[x] == mem[x]);
        }
    }
    assert forall|mem: Seq<bool>, x: int| 0 <= x < start && mem.len() == tape.n() implies #[trigger] result(
        more,
        mem,
    )[x] == mem[x] by {
        lemma_ran_push(code, ins, mem, code.len() as int);
        lemma_ran_len(code, mem, code.len() as int);
        assert(result(code, mem)[x] == mem[x]);
    }
}

/// The value buffer as booleans.
pub open spec fn bools(values: Seq<u8>) -> Seq<bool> {
    Seq::new(values.len(), |x: int| values[x] != 0)
}

/// Run a function on a byte-per-slot value buffer.
#[verifier::rlimit(40)]
pub fn run_bytes(code: &Vec<Ins>, values: &mut Vec<u8>)
    requires
        code_ok(code@, old(values)@.len() as int),
        bits(old(values)@),
    ensures
        final(values)@.len() == old(values)@.len(),
        bits(final(values)@),
        bools(final(values)@) == result(code@, bools(old(values)@)),
{
    let ghost mem = bools(values@);
    let mut regs: Vec<u8> = Vec::with_capacity(code.len());
    for k in 0..code.len()
        invariant
            code_ok(code@, values@.len() as int),
            values@.len() == old(values)@.len(),
            bits(values@),
            bits(regs@),
            mem == bools(old(values)@),
            regs@.len() == k,
            bools(regs@) == ran(code@, mem, k as int).regs,
            bools(values@) == ran(code@, mem, k as int).mem,
    {
        let ins = code[k];
        assert(ins_ok(code@[k as int], k as int, values@.len() as int));
        let ghost f = ran(code@, mem, k as int);
        let ghost regs0 = regs@;
        let v: u8 = match ins {
            Ins::Load(s) => values[s as usize],
            Ins::And(a, b) => crate::scalar::gate_bits(Op::And, regs[a as usize], regs[b as usize], 0),
            Ins::Or(a, b) => crate::scalar::gate_bits(Op::Or, regs[a as usize], regs[b as usize], 0),
            Ins::Xor(a, b) => crate::scalar::gate_bits(Op::Xor, regs[a as usize], regs[b as usize], 0),
            Ins::Invert(a) => crate::scalar::gate_bits(Op::Not, regs[a as usize], 0, 0),
            Ins::Mux(a, b, c) => if regs[a as usize] != 0 {
                regs[b as usize]
            } else {
                regs[c as usize]
            },
            Ins::Store(s, v) => {
                let v: u8 = regs[v as usize];
                values.set(s as usize, v);
                v
            },
        };
        proof {
            assert forall|x: int| 0 <= x < k implies f.regs[x] == (#[trigger] regs0[x] != 0) by {
                assert(bools(regs0)[x] == f.regs[x]);
            }
        }
        regs.push(v);
        assert(bools(regs@) =~= ran(code@, mem, k + 1).regs);
        assert(bools(values@) =~= ran(code@, mem, k + 1).mem);
    }
}

/// Where chunk `k` starts.
pub open spec fn chunk_start(tape: Compiled, k: int) -> int {
    if tape.gate_start + CHUNK * k < tape.n() {
        tape.gate_start + CHUNK * k
    } else {
        tape.n()
    }
}

/// Compile one straight-line settle function per slot range.
pub fn compile_ranges(tape: &Compiled, ranges: &Vec<(usize, usize)>) -> (fns: Vec<Vec<Ins>>)
    requires
        tape.wf(),
        forall|k: int|
            0 <= k < ranges@.len() ==> tape.gate_start <= (#[trigger] ranges@[k]).0 <= ranges@[k].1 <= tape.n()
                && 6 * (ranges@[k].1 - ranges@[k].0) <= u32::MAX,
    ensures
        fns@.len() == ranges@.len(),
        forall|k: int|
            0 <= k < fns@.len() ==> code_ok((#[trigger] fns@[k])@, tape.n()) && settles(
                *tape,
                fns@[k]@,
                ranges@[k].0 as int,
                ranges@[k].1 as int,
            ) && stores_needed(
                *tape,
                fns@[k]@,
                ranges@[k].0 as int,
                ranges@[k].1 as int,
                ranges@[k].1 as int,
            ) && loads_once(fns@[k]@),
{
    let pinned = pinned_slots(tape);
    let mut fns: Vec<Vec<Ins>> = Vec::new();
    for k in 0..ranges.len()
        invariant
            tape.wf(),
            pinned@.len() == tape.n(),
            forall|x: int| 0 <= x < tape.n() ==> #[trigger] pinned@[x] == pinned_slot(*tape, x),
            forall|k: int|
                0 <= k < ranges@.len() ==> tape.gate_start <= (#[trigger] ranges@[k]).0 <= ranges@[k].1
                    <= tape.n() && 6 * (ranges@[k].1 - ranges@[k].0) <= u32::MAX,
            fns@.len() == k,
            forall|j: int|
                0 <= j < k ==> code_ok((#[trigger] fns@[j])@, tape.n()) && settles(
                    *tape,
                    fns@[j]@,
                    ranges@[j].0 as int,
                    ranges@[j].1 as int,
                ) && stores_needed(
                    *tape,
                    fns@[j]@,
                    ranges@[j].0 as int,
                    ranges@[j].1 as int,
                    ranges@[j].1 as int,
                ) && loads_once(fns@[j]@),
    {
        let (start, end) = ranges[k];
        assert(ranges@[k as int] == (start, end));
        fns.push(build_chunk(tape, &pinned, start, end));
    }
    fns
}

/// The chunks of a tape.
pub fn chunk_ranges(tape: &Compiled) -> (ranges: Vec<(usize, usize)>)
    requires
        tape.wf(),
    ensures
        forall|k: int|
            0 <= k < ranges@.len() ==> (#[trigger] ranges@[k]).0 == chunk_start(*tape, k) && ranges@[k].1
                == chunk_start(*tape, k + 1) && ranges@[k].0 < ranges@[k].1 <= ranges@[k].0 + CHUNK,
        chunk_start(*tape, ranges@.len() as int) == tape.n(),
{
    let n: usize = tape.slot_count();
    let mut ranges: Vec<(usize, usize)> = Vec::new();
    let mut start: usize = tape.gate_start as usize;
    while start < n
        invariant
            n == tape.n(),
            tape.wf(),
            start <= n,
            start == chunk_start(*tape, ranges@.len() as int),
            forall|k: int|
                0 <= k < ranges@.len() ==> (#[trigger] ranges@[k]).0 == chunk_start(*tape, k) && ranges@[k].1
                    == chunk_start(*tape, k + 1) && ranges@[k].0 < ranges@[k].1 <= ranges@[k].0 + CHUNK,
        decreases n - start,
    {
        let end: usize = if n - start < CHUNK {
            n
        } else {
            start + CHUNK
        };
        ranges.push((start, end));
        start = end;
    }
    ranges
}

/// The engine that settles by running the straight-line code.
pub struct JitEngine {
    tape: Arc<Compiled>,
    values: Vec<u8>,
    reg_scratch: Vec<u8>,
    /// Chunk functions in schedule order; together they perform one settle.
    fns: Vec<Vec<Ins>>,
}

/// The functions settle the whole tape, one chunk after the other.
pub open spec fn fns_ok(tape: Compiled, fns: Seq<Vec<Ins>>) -> bool {
    &&& forall|k: int|
        0 <= k < fns.len() ==> code_ok((#[trigger] fns[k])@, tape.n()) && settles(
            tape,
            fns[k]@,
            chunk_start(tape, k),
            chunk_start(tape, k + 1),
        )
    &&& chunk_start(tape, fns.len() as int) == tape.n()
}

/// The chunk functions of a tape, in schedule order.
pub fn settle_functions(tape: &Compiled) -> (fns: Vec<Vec<Ins>>)
    requires
        tape.wf(),
    ensures
        fns_ok(*tape, fns@),
{
    let ranges = chunk_ranges(tape);
    assert forall|k: int| 0 <= k < ranges@.len() implies tape.gate_start <= (#[trigger] ranges@[k]).0
        <= ranges@[k].1 <= tape.n() && 6 * (ranges@[k].1 - ranges@[k].0) <= u32::MAX by {
        assert(ranges@[k].0 == chunk_start(*tape, k));
    }
    let fns = compile_ranges(tape, &ranges);
    proof {
        assert forall|k: int| 0 <= k < fns@.len() implies code_ok((#[trigger] fns@[k])@, tape.n()) && settles(
            *tape,
            fns@[k]@,
            chunk_start(*tape, k),
            chunk_start(*tape, k + 1),
        ) by {
            assert(ranges@[k].0 == chunk_start(*tape, k));
        }
    }
    fns
}

impl JitEngine {
    pub fn new(circuit: &Circuit) -> (e: Self)
        requires
            circuit.wf(),
        ensures
            e.inv(),
            same_machine(e.machine().net, circuit.net()),
            e.machine() == Machine::power_on(e.machine().net),
    {
        Self::with_tape(Arc::new(Compiled::new(circuit)))
    }

    pub fn with_tape(tape: Arc<Compiled>) -> (e: Self)
        requires
            tape.wf(),
        ensures
            e.inv(),
            e.machine() == Machine::power_on(tape.net()),
    {
        let fns = settle_functions(&tape);
        let values = tape.initial_values();
        let reg_scratch = copy_bytes(&tape.reg_initial);
        proof {
            lemma_power_on(shared(tape), values@, reg_scratch@);
        }
        Self { tape, values, reg_scratch, fns }
    }

    /// Restore power-on state: constants, register initials, inputs low.
    pub(crate) fn reset(&mut self)
        requires
            old(self).inv(),
        ensures
            final(self).inv(),
            final(self).machine() == Machine::power_on(old(self).machine().net),
    {
        self.values = self.tape.initial_values();
        self.reg_scratch = copy_bytes(&self.tape.reg_initial);
        proof {
            lemma_power_on(shared(self.tape), self.values@, self.reg_scratch@);
        }
    }
}

/// Sources and observed slots that hold their values make a ticked machine.
pub proof fn lemma_needed_ticked(tape: Compiled, before: Machine, values: Seq<u8>, next: Seq<u8>)
    requires
        tape.wf(),
        before.net == tape.net(),
        before.inputs.len() == tape.net().inputs,
        values.len() == tape.n(),
        bits(values),
        ready(tape, bools(values), before.env(), tape.n()),
        next.len() == tape.net().drives.len(),
        forall|r: int| 0 <= r < next.len() ==> #[trigger] next[r] == values[tape.reg_in_slots@[r] as int],
    ensures
        arrays_ok(tape, values, next),
        machine_of(tape, values, next) == before.ticked(),
{
    let m = machine_of(tape, values, next);
    let env = before.env();
    let t = before.ticked();
    let mem = bools(values);
    assert forall|k: int| 0 <= k < m.inputs.len() implies m.inputs[k] == t.inputs[k] by {
        let s = tape.input_slots@[k] as int;
        lemma_taps_input(tape, k, s);
        assert(needed(tape, s, tape.n()));
        assert(mem[s] == tape.value(env, s));
        assert(tape.value(env, s) == node_value(tape.net().nodes, env, s));
    }
    assert forall|k: int| 0 <= k < m.outs.len() implies m.outs[k] == t.outs[k] by {
        let s = tape.output_slots@[k] as int;
        assert(tape.output_slots@[k] == s);
        assert(pinned_slot(tape, s));
        assert(mem[s] == tape.value(env, s));
    }
    assert forall|r: int| 0 <= r < m.state.len() implies m.state[r] == t.state[r] by {
        let s = tape.reg_in_slots@[r] as int;
        assert(next[r] == values[s]);
        assert(tape.reg_in_slots@[r] == s);
        assert(pinned_slot(tape, s));
        assert(mem[s] == tape.value(env, s));
    }
    assert(m =~= t);
    assert forall|r: int| 0 <= r < next.len() implies #[trigger] next[r] <= 1 by {
        assert(values[tape.reg_in_slots@[r] as int] <= 1);
    }
    assert forall|s: int| 0 <= s < tape.gate_start implies (#[trigger] tape.sources@[s] matches Node::Const(
        v,
    ) ==> values[s] == bit(v)) by {
        assert(needed(tape, s, tape.n()));
        assert(mem[s] == tape.value(env, s));
        assert(tape.net().nodes[s] == tape.sources@[s]);
        assert(values[s] <= 1);
    }
}

impl Engine for JitEngine {
    closed spec fn inv(&self) -> bool {
        &&& arrays_ok(shared(self.tape), self.values@, self.reg_scratch@)
        &&& fns_ok(shared(self.tape), self.fns@)
    }

    closed spec fn machine(&self) -> Machine {
        machine_of(shared(self.tape), self.values@, self.reg_scratch@)
    }

    fn name(&self) -> (name: &'static str)
        ensures
            name@ == "jit"@,
    {
        "jit"
    }

    fn input_count(&self) -> (n: usize) {
        self.tape.input_count()
    }

    fn output_count(&self) -> (n: usize) {
        self.tape.output_count()
    }

    fn set_input(&mut self, index: usize, value: bool) {
        proof {
            lemma_set_input(shared(self.tape), self.values@, self.reg_scratch@, index as int, value);
        }
        let slot: u32 = self.tape.input_slots[index];
        self.values.set(slot as usize, if value { 1 } else { 0 });
    }

    fn output(&self, index: usize) -> (value: bool) {
        self.values[self.tape.output_slots[index] as usize] != 0
    }

    fn tick(&mut self) {
        let ghost m = self.machine();
        let ghost t = shared(self.tape);
        apply_edge(&self.tape, &mut self.values, &self.reg_scratch);
        proof {
            let mem = bools(self.values@);
            assert(ready(t, mem, m.env(), t.gate_start as int)) by {
                assert forall|x: int| 0 <= x < t.gate_start implies #[trigger] mem[x] == t.value(m.env(), x) by {
                    assert(self.values@[x] == bit(t.value(m.env(), x)));
                }
            }
            assert(chunk_start(t, 0) == t.gate_start);
        }
        let count: usize = self.fns.len();
        for k in 0..count
            invariant
                self.tape == old(self).tape,
                self.fns == old(self).fns,
                self.reg_scratch == old(self).reg_scratch,
                t == shared(self.tape),
                t.wf(),
                fns_ok(t, self.fns@),
                count == self.fns@.len(),
                self.values@.len() == t.n(),
                bits(self.values@),
                ready(t, bools(self.values@), m.env(), chunk_start(t, k as int)),
        {
            let ghost mem = bools(self.values@);
            assert(code_ok(self.fns@[k as int]@, t.n()));
            run_bytes(&self.fns[k], &mut self.values);
            assert(ready(t, result(self.fns@[k as int]@, mem), m.env(), chunk_start(t, k + 1)));
        }
        capture_next(&self.tape, &self.values, &mut self.reg_scratch);
        proof {
            lemma_needed_ticked(t, m, self.values@, self.reg_scratch@);
        }
    }
}

} // verus!
