//! 64 instances of one circuit, bit-packed into one word per slot.
//!
//! Bit `l` of every word belongs to instance `l`, its lane. One word
//! operation evaluates a gate in all lanes. The gates are settled run by run,
//! a level at a time on several threads, or by straight-line code.
use vstd::prelude::*;

use crate::compile::{bit, level_ok, run_ok, run_pos, Compiled, Op, DEAD};
use crate::engine::Machine;
use crate::gather::{lemma_word_logic, wbit};
use crate::jit::{code_ok, ins_ok, ran, result, Ins};
use crate::netlist::{gate_fn, Node};
use crate::scalar::{
    arrays_ok, lemma_gate_slot, lemma_run_bounds, lemma_sources_settled, machine_of, settled_upto,
};
use crate::threaded::{fill_parallel, lemma_in_level, lemma_level_in_tape, Pass, MIN_SHARE};

verus! {

/// What lane `l` of the words holds, a byte per word.
pub open spec fn lane_of(words: Seq<u64>, l: int) -> Seq<u8> {
    Seq::new(words.len(), |s: int| bit(wbit(words[s], l)))
}

/// What lane `l` of the words holds.
pub open spec fn lane_bools(words: Seq<u64>, l: int) -> Seq<bool> {
    Seq::new(words.len(), |s: int| wbit(words[s], l))
}

/// Every lane is an instance of the circuit.
pub open spec fn lanes_ok(tape: Compiled, values: Seq<u64>, next: Seq<u64>) -> bool {
    &&& tape.wf()
    &&& values.len() == tape.n()
    &&& next.len() == tape.net().drives.len()
    &&& forall|l: int|
        0 <= l < 64 ==> #[trigger] arrays_ok(tape, lane_of(values, l), lane_of(next, l))
}

/// The instance in lane `l`.
pub open spec fn lane_machine(tape: Compiled, values: Seq<u64>, next: Seq<u64>, l: int) -> Machine {
    machine_of(tape, lane_of(values, l), lane_of(next, l))
}

/// The first `upto` slots hold their settled values in every lane of the
/// instances that `v0` and `next` stand for.
pub open spec fn lanes_settled(tape: Compiled, values: Seq<u64>, v0: Seq<u64>, next: Seq<u64>, upto: int) -> bool {
    forall|l: int| 0 <= l < 64 ==> #[trigger] lane_settled(tape, values, v0, next, upto, l)
}

pub open spec fn lane_settled(tape: Compiled, values: Seq<u64>, v0: Seq<u64>, next: Seq<u64>, upto: int, l: int) -> bool {
    settled_upto(tape, lane_of(values, l), lane_machine(tape, v0, next, l).env(), upto)
}

/// One gate in all lanes.
pub open spec fn gate_over(op: Op, a: u64, b: u64, c: u64) -> u64 {
    match op {
        Op::And => a & b,
        Op::Or => a | b,
        Op::Xor => a ^ b,
        Op::Nand => !(a & b),
        Op::Nor => !(a | b),
        Op::Xnor => !(a ^ b),
        Op::Not => !a,
        Op::Buf => a,
        Op::Mux => (a & b) | (!a & c),
    }
}

/// A word operation acts on every lane by itself.
pub proof fn gates_act_lane_by_lane(op: Op, a: u64, b: u64, c: u64, l: int)
    requires
        0 <= l < 64,
    ensures
        wbit(gate_over(op, a, b, c), l) == gate_fn(op, wbit(a, l), wbit(b, l), wbit(c, l)),
{
    lemma_word_logic(a, b, l);
    lemma_word_logic(a & b, a, l);
    lemma_word_logic(a | b, a, l);
    lemma_word_logic(a ^ b, a, l);
    lemma_word_logic(!a, c, l);
    lemma_word_logic(a & b, !a & c, l);
}

/// Evaluate one gate in all lanes.
pub(crate) fn gate_word(op: Op, a: u64, b: u64, c: u64) -> (v: u64)
    ensures
        v == gate_over(op, a, b, c),
{
    match op {
        Op::And => a & b,
        Op::Or => a | b,
        Op::Xor => a ^ b,
        Op::Nand => !(a & b),
        Op::Nor => !(a | b),
        Op::Xnor => !(a ^ b),
        Op::Not => !a,
        Op::Buf => a,
        Op::Mux => (a & b) | (!a & c),
    }
}

/// Apply the clock edge in all lanes.
pub(crate) fn edge_lanes(tape: &Compiled, values: &mut Vec<u64>, next: &Vec<u64>)
    requires
        lanes_ok(*tape, old(values)@, next@),
    ensures
        final(values)@.len() == tape.n(),
        lanes_settled(*tape, final(values)@, old(values)@, next@, tape.gate_start as int),
{
    let ghost v0 = values@;
    let count: usize = tape.register_count();
    for r in 0..count
        invariant
            count == tape.reg_out_slots@.len(),
            lanes_ok(*tape, v0, next@),
            values@.len() == tape.n(),
            forall|s: int|
                0 <= s < tape.n() && !(s < tape.gate_start && tape.sources@[s] is RegOut)
                    ==> #[trigger] values@[s] == v0[s],
            forall|j: int|
                0 <= j < r && #[trigger] tape.reg_out_slots@[j] != DEAD
                    ==> values@[tape.reg_out_slots@[j] as int] == next@[j],
    {
        let slot: u32 = tape.reg_out_slots[r];
        if slot != DEAD {
            values.set(slot as usize, next[r]);
            assert forall|j: int| 0 <= j < r + 1 && #[trigger] tape.reg_out_slots@[j] != DEAD implies values@[tape.reg_out_slots@[j] as int]
                == next@[j] by {
                assert(tape.sources@[tape.reg_out_slots@[j] as int] == Node::RegOut(j));
                assert(tape.sources@[slot as int] == Node::RegOut(r as int));
            }
        }
    }
    assert forall|l: int| 0 <= l < 64 implies #[trigger] lane_settled(
        *tape,
        values@,
        v0,
        next@,
        tape.gate_start as int,
        l,
    ) by {
        let now = lane_of(values@, l);
        let m = lane_machine(*tape, v0, next@, l);
        assert(arrays_ok(*tape, lane_of(v0, l), lane_of(next@, l)));
        assert forall|k: int| 0 <= k < tape.input_slots@.len() implies m.inputs[k] == (now[#[trigger] tape.input_slots@[k] as int]
            != 0) by {
            assert(tape.sources@[tape.input_slots@[k] as int] == Node::Input(k));
            assert(lane_of(v0, l)[tape.input_slots@[k] as int] == now[tape.input_slots@[k] as int]);
        }
        assert forall|s: int| 0 <= s < tape.gate_start implies (#[trigger] tape.sources@[s] matches Node::Const(
            v,
        ) ==> now[s] == bit(v)) by {
            if tape.sources@[s] is Const {
                assert(values@[s] == v0[s]);
                assert(lane_of(v0, l)[s] == now[s]);
            }
        }
        lemma_sources_settled(*tape, m, now);
    }
}

/// Evaluate a stretch of runs in all lanes, everything before it being
/// settled.
pub(crate) fn settle_lanes(
    tape: &Compiled,
    values: &mut Vec<u64>,
    from: usize,
    to: usize,
    v0: Ghost<Seq<u64>>,
    next: Ghost<Seq<u64>>,
)
    requires
        tape.wf(),
        old(values)@.len() == tape.n(),
        from <= to <= tape.runs@.len(),
        lanes_settled(*tape, old(values)@, v0@, next@, run_pos(tape.runs@, tape.n(), from as int)),
    ensures
        final(values)@.len() == tape.n(),
        lanes_settled(*tape, final(values)@, v0@, next@, run_pos(tape.runs@, tape.n(), to as int)),
{
    for i in from..to
        invariant
            tape.wf(),
            from <= to <= tape.runs@.len(),
            values@.len() == tape.n(),
            lanes_settled(*tape, values@, v0@, next@, run_pos(tape.runs@, tape.n(), i as int)),
    {
        let run = tape.runs[i];
        proof {
            assert(run_ok(tape.runs@, tape.n(), i as int));
            lemma_run_bounds(*tape, i as int);
        }
        for s in run.start..run.end
            invariant
                tape.wf(),
                0 <= i < tape.runs@.len(),
                run == tape.runs@[i as int],
                tape.gate_start <= run.start <= run.end <= tape.n(),
                values@.len() == tape.n(),
                lanes_settled(*tape, values@, v0@, next@, s as int),
        {
            let ghost before = values@;
            let at: usize = s as usize;
            proof {
                assert(tape.gate_ok(s as int));
                assert(tape.ops@[s as int] == run.op);
                lemma_gate_slot(*tape, lane_machine(*tape, v0@, next@, 0).env(), s as int);
            }
            let a: u64 = values[tape.a[at] as usize];
            let b: u64 = values[tape.b[at] as usize];
            let c: u64 = values[tape.c[at] as usize];
            values.set(at, gate_word(run.op, a, b, c));
            assert forall|l: int| 0 <= l < 64 implies #[trigger] lane_settled(
                *tape,
                values@,
                v0@,
                next@,
                s + 1,
                l,
            ) by {
                assert(lane_settled(*tape, before, v0@, next@, s as int, l));
                lemma_gate_in_lane(*tape, before, v0@, next@, s as int, s as int, l);
                let env = lane_machine(*tape, v0@, next@, l).env();
                assert forall|t: int| 0 <= t < s + 1 implies #[trigger] lane_of(values@, l)[t]
                    == bit(tape.value(env, t)) by {
                    if t < s {
                        assert(lane_of(before, l)[t] == bit(tape.value(env, t)));
                    }
                }
            }
        }
    }
}

/// A gate over settled operands shows its settled value in every lane.
proof fn lemma_gate_in_lane(
    tape: Compiled,
    values: Seq<u64>,
    v0: Seq<u64>,
    next: Seq<u64>,
    upto: int,
    s: int,
    l: int,
)
    requires
        tape.wf(),
        values.len() == tape.n(),
        tape.gate_start <= s < tape.n(),
        tape.a@[s] < upto,
        tape.b@[s] < upto,
        tape.c@[s] < upto,
        upto <= tape.n(),
        0 <= l < 64,
        lane_settled(tape, values, v0, next, upto, l),
    ensures
        bit(
            wbit(
                gate_over(
                    tape.ops@[s],
                    values[tape.a@[s] as int],
                    values[tape.b@[s] as int],
                    values[tape.c@[s] as int],
                ),
                l,
            ),
        ) == bit(tape.value(lane_machine(tape, v0, next, l).env(), s)),
{
    let env = lane_machine(tape, v0, next, l).env();
    lemma_gate_slot(tape, env, s);
    let (x, y, z) = (tape.a@[s] as int, tape.b@[s] as int, tape.c@[s] as int);
    let now = lane_of(values, l);
    assert(now[x] == bit(tape.value(env, x)));
    assert(now[y] == bit(tape.value(env, y)));
    assert(now[z] == bit(tape.value(env, z)));
    gates_act_lane_by_lane(tape.ops@[s], values[x], values[y], values[z], l);
}

/// The gates of a level in all lanes, over the words of the levels below.
struct WordPass<'a> {
    tape: &'a Compiled,
    /// Where the level starts; the levels below end there.
    start: usize,
    lower: &'a [u64],
}

impl<'a> Pass for WordPass<'a> {
    type Cell = u64;

    closed spec fn ready(&self, i: int) -> bool {
        let s = self.start + i;
        &&& 0 <= i
        &&& s < self.tape.ops@.len()
        &&& self.tape.a@.len() == self.tape.ops@.len()
        &&& self.tape.b@.len() == self.tape.ops@.len()
        &&& self.tape.c@.len() == self.tape.ops@.len()
        &&& self.tape.a@[s] < self.lower@.len()
        &&& self.tape.b@[s] < self.lower@.len()
        &&& self.tape.c@[s] < self.lower@.len()
    }

    closed spec fn value(&self, i: int) -> u64 {
        gate_over(
            self.tape.ops@[self.start + i],
            self.lower@[self.tape.a@[self.start + i] as int],
            self.lower@[self.tape.b@[self.start + i] as int],
            self.lower@[self.tape.c@[self.start + i] as int],
        )
    }

    fn eval(&self, i: usize) -> (v: u64) {
        proof {
            vstd::std_specs::vec::axiom_spec_len(&self.tape.ops);
        }
        let s: usize = self.start + i;
        let a: u64 = self.lower[self.tape.a[s] as usize];
        let b: u64 = self.lower[self.tape.b[s] as usize];
        let c: u64 = self.lower[self.tape.c[s] as usize];
        gate_word(self.tape.ops[s], a, b, c)
    }
}

/// Evaluate one level on several threads in all lanes, everything below it
/// being settled.
pub(crate) fn settle_level(
    tape: &Compiled,
    values: &mut Vec<u64>,
    l: usize,
    v0: Ghost<Seq<u64>>,
    next: Ghost<Seq<u64>>,
)
    requires
        tape.wf(),
        old(values)@.len() == tape.n(),
        l < tape.levels@.len(),
        tape.gate_start <= tape.levels@[l as int].start,
        lanes_settled(*tape, old(values)@, v0@, next@, tape.levels@[l as int].start as int),
    ensures
        final(values)@.len() == tape.n(),
        lanes_settled(*tape, final(values)@, v0@, next@, tape.levels@[l as int].end as int),
{
    let ghost before = values@;
    proof {
        assert(level_ok(tape.levels@, tape.runs@, tape.n(), l as int));
        lemma_level_in_tape(*tape, l as int);
    }
    let start: usize = tape.levels[l].start as usize;
    let end: usize = tape.levels[l].end as usize;
    let (lower, rest) = values.as_mut_slice().split_at_mut(start);
    let (current, _tail) = rest.split_at_mut(end - start);
    let pass = WordPass { tape, start, lower: &*lower };
    proof {
        assert forall|k: int| 0 <= k < end - start implies #[trigger] pass.ready(k) by {
            lemma_in_level(*tape, l as int, start + k);
        }
    }
    fill_parallel(&pass, MIN_SHARE, current);
    proof {
        assert forall|m: int| 0 <= m < 64 implies #[trigger] lane_settled(
            *tape,
            values@,
            v0@,
            next@,
            end as int,
            m,
        ) by {
            assert(lane_settled(*tape, before, v0@, next@, start as int, m));
            let env = lane_machine(*tape, v0@, next@, m).env();
            assert forall|s: int| 0 <= s < end implies #[trigger] lane_of(values@, m)[s] == bit(tape.value(env, s)) by {
                if s < start {
                    assert(values@[s] == before[s]);
                    assert(lane_of(before, m)[s] == bit(tape.value(env, s)));
                } else {
                    lemma_in_level(*tape, l as int, s);
                    lemma_gate_in_lane(*tape, before, v0@, next@, start as int, s, m);
                    let k = s - start;
                    assert(values@[start + k] == pass.value(k));
                }
            }
        }
    }
}

/// Latch what every register takes over at the next edge, in all lanes.
pub(crate) fn capture_lanes(tape: &Compiled, values: &Vec<u64>, next: &mut Vec<u64>)
    requires
        tape.wf(),
        values@.len() == tape.n(),
        old(next)@.len() == tape.net().drives.len(),
    ensures
        final(next)@.len() == old(next)@.len(),
        forall|r: int|
            0 <= r < final(next)@.len() ==> #[trigger] final(next)@[r] == values@[tape.reg_in_slots@[r] as int],
{
    let count: usize = tape.register_count();
    for r in 0..count
        invariant
            tape.wf(),
            count == tape.reg_in_slots@.len(),
            count == next@.len(),
            values@.len() == tape.n(),
            forall|j: int|
                0 <= j < r ==> #[trigger] next@[j] == values@[tape.reg_in_slots@[j] as int],
    {
        next.set(r, values[tape.reg_in_slots[r] as usize]);
    }
}

/// The first `k` instructions ran in lane `l`.
spec fn lane_ran(code: Seq<Ins>, v0: Seq<u64>, regs: Seq<u64>, values: Seq<u64>, k: int, l: int) -> bool {
    &&& lane_bools(regs, l) == ran(code, lane_bools(v0, l), k).regs
    &&& lane_bools(values, l) == ran(code, lane_bools(v0, l), k).mem
}

/// Run a function on a value buffer of words: every lane runs it on its own
/// bits.
#[verifier::rlimit(40)]
pub fn run_lanes(code: &Vec<Ins>, values: &mut Vec<u64>)
    requires
        code_ok(code@, old(values)@.len() as int),
    ensures
        final(values)@.len() == old(values)@.len(),
        forall|l: int|
            0 <= l < 64 ==> #[trigger] lane_bools(final(values)@, l) == result(code@, lane_bools(old(values)@, l)),
{
    let ghost v0 = values@;
    let mut regs: Vec<u64> = Vec::with_capacity(code.len());
    assert forall|l: int| 0 <= l < 64 implies #[trigger] lane_ran(code@, v0, regs@, values@, regs@.len() as int, l) by {
        assert(lane_bools(regs@, l) =~= Seq::<bool>::empty());
    }
    for k in 0..code.len()
        invariant
            code_ok(code@, values@.len() as int),
            values@.len() == v0.len(),
            regs@.len() == k,
            forall|l: int|
                0 <= l < 64 ==> #[trigger] lane_ran(code@, v0, regs@, values@, regs@.len() as int, l),
    {
        let ins = code[k];
        assert(ins_ok(code@[k as int], k as int, values@.len() as int));
        let ghost (regs0, values0) = (regs@, values@);
        let v: u64 = match ins {
            Ins::Load(s) => values[s as usize],
            Ins::And(a, b) => gate_word(Op::And, regs[a as usize], regs[b as usize], 0),
            Ins::Or(a, b) => gate_word(Op::Or, regs[a as usize], regs[b as usize], 0),
            Ins::Xor(a, b) => gate_word(Op::Xor, regs[a as usize], regs[b as usize], 0),
            Ins::Invert(a) => gate_word(Op::Not, regs[a as usize], 0, 0),
            Ins::Mux(a, b, c) => gate_word(
                Op::Mux,
                regs[a as usize],
                regs[b as usize],
                regs[c as usize],
            ),
            Ins::Store(s, v) => {
                let v: u64 = regs[v as usize];
                values.set(s as usize, v);
                v
            },
        };
        regs.push(v);
        assert forall|l: int| 0 <= l < 64 implies #[trigger] lane_ran(
            code@,
            v0,
            regs@,
            values@,
            regs@.len() as int,
            l,
        ) by {
            assert(lane_ran(code@, v0, regs0, values0, regs0.len() as int, l));
                let f = ran(code@, lane_bools(v0, l), k as int);
            assert forall|x: int| 0 <= x < k implies f.regs[x] == wbit(#[trigger] regs0[x], l) by {
                assert(lane_bools(regs0, l)[x] == f.regs[x]);
            }
            assert forall|x: int| 0 <= x < values0.len() implies f.mem[x] == wbit(#[trigger] values0[x], l) by {
                assert(lane_bools(values0, l)[x] == f.mem[x]);
            }
            match ins {
                Ins::And(a, b) => gates_act_lane_by_lane(Op::And, regs0[a as int], regs0[b as int], 0, l),
                Ins::Or(a, b) => gates_act_lane_by_lane(Op::Or, regs0[a as int], regs0[b as int], 0, l),
                Ins::Xor(a, b) => gates_act_lane_by_lane(Op::Xor, regs0[a as int], regs0[b as int], 0, l),
                Ins::Invert(a) => gates_act_lane_by_lane(Op::Not, regs0[a as int], 0, 0, l),
                Ins::Mux(a, b, c) => gates_act_lane_by_lane(
                    Op::Mux,
                    regs0[a as int],
                    regs0[b as int],
                    regs0[c as int],
                    l,
                ),
                _ => {},
            }
            assert(lane_bools(regs@, l) =~= ran(code@, lane_bools(v0, l), k + 1).regs);
            assert(lane_bools(values@, l) =~= ran(code@, lane_bools(v0, l), k + 1).mem);
        }
    }
    assert forall|l: int| 0 <= l < 64 implies #[trigger] lane_bools(values@, l) == result(
        code@,
        lane_bools(v0, l),
    ) by {
        assert(lane_ran(code@, v0, regs@, values@, regs@.len() as int, l));
    }
}

} // verus!
