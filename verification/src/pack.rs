//! Bit-packed single-instance engine: SWAR within one circuit instance.
//!
//! Every signal is one bit of a dense `u64` arena, and up to 64 gates of one
//! kind are evaluated per word operation. One tick still computes every gate
//! or the addition that a carry chain amounts to, but the unit of work is a
//! word, not a gate. See [`crate::plan`] for how the work is laid out.
use vstd::prelude::*;

use crate::circuit::Circuit;
use crate::compile::{bit, same_machine, DEAD, Compiled, Op};
use crate::engine::{Engine, Machine};
use crate::fuse::NIL;
use crate::gather::{bit_at, gather, lemma_one_bit, segs_in, wbit, Seg};
use crate::netlist::{node_value, Env, Node};
use crate::plan::{
    captures_join, combine, fits_arena, held, made, next_states, packable, reads_stream, slot_const,
    stream_segs, stream_yields, task_joins, task_len, task_sound, task_yields, word_right, OutSrc,
    Plan, Task, TaskOp,
};

verus! {

/// What an output shows, given the arena.
pub open spec fn shown_bit(bits: Seq<u64>, src: OutSrc) -> bool {
    match src {
        OutSrc::Bit(p) => bit_at(bits, p as int),
        OutSrc::Const(v) => v,
    }
}

/// Place of live register `r` in the register region.
pub open spec fn reg_place(plan: Plan, r: int) -> int {
    plan.pos@[plan.tape@.reg_out_slots@[r] as int] - 64 * plan.reg_word
}

/// The machine that arena and staging stand for. What a register holds that
/// nobody reads is kept aside in `dead`.
pub open spec fn packed_machine(plan: Plan, bits: Seq<u64>, staging: Seq<u64>, dead: Seq<bool>) -> Machine {
    Machine {
        net: plan.tape@.net(),
        inputs: Seq::new(plan.tape@.input_slots@.len(), |k: int| bit_at(bits, k)),
        state: Seq::new(
            plan.tape@.reg_in_slots@.len(),
            |r: int|
                if plan.tape@.reg_out_slots@[r] != DEAD {
                    bit_at(staging, reg_place(plan, r))
                } else {
                    dead[r]
                },
        ),
        outs: Seq::new(plan.tape@.output_slots@.len(), |k: int| shown_bit(bits, plan.outputs@[k])),
    }
}

/// The sizes fit the plan.
pub open spec fn packed_ok(plan: Plan, bits: Seq<u64>, staging: Seq<u64>, dead: Seq<bool>) -> bool {
    &&& plan.ok()
    &&& bits.len() == plan.words
    &&& staging.len() == plan.reg_init@.len()
    &&& dead.len() == plan.tape@.reg_in_slots@.len()
}

/// Where a live register's place is.
pub proof fn lemma_reg_place(plan: Plan, r: int)
    requires
        plan.ok(),
        0 <= r < plan.tape@.reg_out_slots@.len(),
        plan.tape@.reg_out_slots@[r] != DEAD,
    ensures
        0 <= reg_place(plan, r) < plan.live@.len(),
        plan.live@[reg_place(plan, r)] == r,
        reg_place(plan, r) / 64 < plan.reg_init@.len(),
{
    let live = plan.live@;
    let k = choose|k: int| 0 <= k < live.len() && #[trigger] live[k] == r;
    assert(plan.pos@[plan.tape@.reg_out_slots@[live[k] as int] as int] == 64 * plan.reg_word + k);
}

/// After the clock edge the sources hold what the machine is about to see.
pub proof fn lemma_edge(
    plan: Plan,
    bits0: Seq<u64>,
    bits: Seq<u64>,
    staging: Seq<u64>,
    dead: Seq<bool>,
)
    requires
        packed_ok(plan, bits0, staging, dead),
        bits.len() == bits0.len(),
        forall|w: int|
            0 <= w < bits.len() ==> #[trigger] bits[w] == (if plan.reg_word <= w < plan.reg_word + staging.len() {
                staging[w - plan.reg_word]
            } else {
                bits0[w]
            }),
    ensures
        held(
            plan.tape@,
            plan.pos@,
            plan.tasks@,
            0,
            bits,
            packed_machine(plan, bits0, staging, dead).env(),
        ),
{
    let tape = plan.tape@;
    let m = packed_machine(plan, bits0, staging, dead);
    let env = m.env();
    assert forall|x: int|
        0 <= x < tape.n() && #[trigger] plan.pos@[x] != NIL && (x < tape.gate_start || made(
            plan.tasks@,
            0,
            plan.pos@[x] as int / 64,
        )) implies bit_at(bits, plan.pos@[x] as int) == tape.value(env, x) by {
        assert(x < tape.gate_start);
        assert(tape.net().nodes[x] == tape.sources@[x]);
        assert(tape.value(env, x) == node_value(tape.net().nodes, env, x));
        match tape.sources@[x] {
            Node::Input(k) => {
                assert(tape.input_slots@[k] == x);
                assert(plan.pos@[tape.input_slots@[k] as int] == k);
                assert(k / 64 < plan.reg_word);
                assert(bits[k / 64] == bits0[k / 64]);
                assert(m.inputs[k] == bit_at(bits0, k));
            },
            Node::RegOut(r) => {
                assert(tape.reg_out_slots@[r] == x);
                lemma_reg_place(plan, r);
                let q = reg_place(plan, r);
                assert(plan.pos@[x] == 64 * plan.reg_word + q);
                assert(plan.pos@[x] as int / 64 == plan.reg_word + q / 64);
                assert(plan.pos@[x] as int % 64 == q % 64);
                assert(bits[plan.reg_word + q / 64] == staging[q / 64]);
                assert(m.state[r] == bit_at(staging, q));
            },
            _ => {},
        }
    }
}

/// Writing a sound task's word settles its gates and disturbs nothing.
pub proof fn lemma_task_step(plan: Plan, t: int, bits: Seq<u64>, w: u64, env: Env)
    requires
        plan.ok(),
        0 <= t < plan.tasks@.len(),
        bits.len() == plan.words,
        held(plan.tape@, plan.pos@, plan.tasks@, t, bits, env),
        task_yields(bits, plan.segs@, plan.tasks@[t], w),
    ensures
        held(
            plan.tape@,
            plan.pos@,
            plan.tasks@,
            t + 1,
            bits.update(plan.tasks@[t].dst as int, w),
            env,
        ),
{
    let tape = plan.tape@;
    let pos = plan.pos@;
    let tasks = plan.tasks@;
    let dst = tasks[t].dst as int;
    let after = bits.update(dst, w);
    assert(task_sound(tape, pos, plan.words as int, tasks, plan.segs@, t));
    assert(word_right(tape, pos, env, dst, w));
    assert forall|x: int|
        0 <= x < tape.n() && #[trigger] pos[x] != NIL && (x < tape.gate_start || made(
            tasks,
            t + 1,
            pos[x] as int / 64,
        )) implies bit_at(after, pos[x] as int) == tape.value(env, x) by {
        let at = pos[x] as int / 64;
        if x < tape.gate_start {
            lemma_source_low(plan, x);
            assert(at != dst);
            assert(bit_at(bits, pos[x] as int) == tape.value(env, x));
        } else if at != dst {
            let j = choose|j: int| 0 <= j < t + 1 && (#[trigger] tasks[j]).dst == at;
            assert(j < t);
            assert(made(tasks, t, at));
            assert(bit_at(bits, pos[x] as int) == tape.value(env, x));
        }
    }
}

/// Sources live below all gate words.
pub proof fn lemma_source_low(plan: Plan, x: int)
    requires
        plan.ok(),
        0 <= x < plan.tape@.gate_start,
        plan.pos@[x] != NIL,
    ensures
        plan.pos@[x] as int / 64 < plan.reg_word + plan.reg_init@.len(),
{
    let tape = plan.tape@;
    match tape.sources@[x] {
        Node::Input(k) => {
            assert(tape.input_slots@[k] == x);
            assert(plan.pos@[tape.input_slots@[k] as int] == k);
        },
        Node::RegOut(r) => {
            assert(tape.reg_out_slots@[r] == x);
            lemma_reg_place(plan, r);
        },
        _ => {},
    }
}

/// Settled words and captured states are a ticked machine.
pub proof fn lemma_packed_ticked(
    plan: Plan,
    before: Machine,
    bits0: Seq<u64>,
    bits: Seq<u64>,
    staging: Seq<u64>,
    dead: Seq<bool>,
)
    requires
        packed_ok(plan, bits, staging, dead),
        before.net == plan.tape@.net(),
        before.inputs == Seq::new(plan.tape@.input_slots@.len(), |k: int| bit_at(bits0, k)),
        held(plan.tape@, plan.pos@, plan.tasks@, plan.tasks@.len() as int, bits, before.env()),
        forall|w: int| 0 <= w < plan.reg_word ==> #[trigger] bits[w] == bits0[w],
        forall|k: int|
            0 <= k < staging.len() ==> next_states(
                plan.tape@,
                plan.live@,
                before.env(),
                k,
                #[trigger] staging[k],
            ),
        dead == plan.tape@.net().next_state(before.env()),
    ensures
        packed_machine(plan, bits, staging, dead) == before.ticked(),
{
    let tape = plan.tape@;
    let env = before.env();
    let m = packed_machine(plan, bits, staging, dead);
    let t = before.ticked();
    assert forall|k: int| 0 <= k < m.inputs.len() implies m.inputs[k] == t.inputs[k] by {
        assert(k / 64 < plan.reg_word);
    }
    assert forall|k: int| 0 <= k < m.outs.len() implies m.outs[k] == t.outs[k] by {
        let s = tape.output_slots@[k] as int;
        match plan.outputs@[k] {
            OutSrc::Const(v) => {
                assert(slot_const(tape, s) == bit(v));
                assert(tape.net().nodes[s] == tape.sources@[s]);
                assert(tape.value(env, s) == v);
            },
            OutSrc::Bit(p) => {
                assert(plan.available(s));
                assert(plan.pos@[s] == p);
                assert(bit_at(bits, plan.pos@[s] as int) == tape.value(env, s));
            },
        }
    }
    assert forall|r: int| 0 <= r < m.state.len() implies m.state[r] == t.state[r] by {
        if tape.reg_out_slots@[r] != DEAD {
            lemma_reg_place(plan, r);
            let q = reg_place(plan, r);
            let k = q / 64;
            assert(next_states(tape, plan.live@, env, k, staging[k]));
            assert(plan.live@[q] == r);
            assert(wbit(staging[k], q - 64 * k) == tape.value(env, tape.reg_in_slots@[r] as int));
            assert(q % 64 == q - 64 * k);
        }
    }
    assert(m =~= t);
}

/// Zeroed gate words and latched initials are the power-on machine.
pub proof fn lemma_packed_power_on(plan: Plan, bits: Seq<u64>, staging: Seq<u64>, dead: Seq<bool>)
    requires
        packed_ok(plan, bits, staging, dead),
        staging == plan.reg_init@,
        dead == plan.tape@.net().inits,
        forall|w: int|
            0 <= w < bits.len() ==> #[trigger] bits[w] == (if plan.reg_word <= w < plan.reg_word + staging.len() {
                staging[w - plan.reg_word]
            } else {
                0
            }),
    ensures
        packed_machine(plan, bits, staging, dead) == Machine::power_on(plan.tape@.net()),
{
    let tape = plan.tape@;
    let m = packed_machine(plan, bits, staging, dead);
    let p = Machine::power_on(tape.net());
    assert forall|k: int| 0 <= k < m.inputs.len() implies m.inputs[k] == p.inputs[k] by {
        assert(k / 64 < plan.reg_word);
        lemma_one_bit(0, 0, k % 64);
    }
    assert forall|r: int| 0 <= r < m.state.len() implies m.state[r] == p.state[r] by {
        if tape.reg_out_slots@[r] != DEAD {
            lemma_reg_place(plan, r);
            let q = reg_place(plan, r);
            assert(plan.live@[q] == r);
            assert(bit_at(plan.reg_init@, q) == (tape.reg_initial@[r] != 0));
        }
    }
    assert forall|k: int| 0 <= k < m.outs.len() implies m.outs[k] == p.outs[k] by {
        let s = tape.output_slots@[k] as int;
        assert(tape.net().nodes[s] == tape.slot_node(s));
        match plan.outputs@[k] {
            OutSrc::Const(v) => {
                assert(slot_const(tape, s) == bit(v));
            },
            OutSrc::Bit(q) => {
                assert(plan.available(s));
                assert(plan.pos@[s] == q);
                let w = q as int / 64;
                lemma_one_bit(0, 0, q as int % 64);
                if s >= tape.gate_start {
                    assert(w >= plan.reg_word + plan.reg_init@.len());
                } else {
                    match tape.sources@[s] {
                        Node::Input(j) => {
                            assert(tape.input_slots@[j] == s);
                            assert(plan.pos@[tape.input_slots@[j] as int] == j);
                            assert(w < plan.reg_word);
                        },
                        Node::RegOut(r) => {
                            assert(tape.reg_out_slots@[r] == s);
                            lemma_reg_place(plan, r);
                            let place = reg_place(plan, r);
                            assert(w == plan.reg_word + place / 64);
                            assert(q as int % 64 == place % 64);
                            assert(plan.live@[place] == r);
                            assert(bit_at(plan.reg_init@, place) == (tape.reg_initial@[r] != 0));
                        },
                        _ => {},
                    }
                }
            },
        }
    }
    assert(m =~= p);
}

/// Writing an input bit is setting the input.
pub proof fn lemma_packed_input(
    plan: Plan,
    bits: Seq<u64>,
    after: Seq<u64>,
    staging: Seq<u64>,
    dead: Seq<bool>,
    index: int,
    value: bool,
)
    requires
        packed_ok(plan, bits, staging, dead),
        0 <= index < plan.tape@.input_slots@.len(),
        after.len() == bits.len(),
        forall|p: int|
            0 <= p < 64 * bits.len() ==> #[trigger] bit_at(after, p) == (if p == index {
                value
            } else {
                bit_at(bits, p)
            }),
    ensures
        packed_machine(plan, after, staging, dead) == packed_machine(plan, bits, staging, dead).with_input(
            index,
            value,
        ),
{
    let tape = plan.tape@;
    let m1 = packed_machine(plan, after, staging, dead);
    let m2 = packed_machine(plan, bits, staging, dead).with_input(index, value);
    assert forall|k: int| 0 <= k < m1.inputs.len() implies m1.inputs[k] == m2.inputs[k] by {
        assert(k / 64 < plan.reg_word);
    }
    assert forall|k: int| 0 <= k < m1.outs.len() implies m1.outs[k] == m2.outs[k] by {
        let s = tape.output_slots@[k] as int;
        assert(tape.net().nodes[s] == tape.slot_node(s));
        assert(tape.net().outs[k] == s);
        let slot = tape.input_slots@[index] as int;
        assert(plan.pos@[tape.input_slots@[index] as int] == index);
        match plan.outputs@[k] {
            OutSrc::Const(v) => {
                assert(slot_const(tape, s) == bit(v));
            },
            OutSrc::Bit(q) => {
                assert(plan.available(s));
                assert(plan.pos@[s] == q);
                if s < tape.gate_start && tape.sources@[s] == Node::Input(index) {
                    assert(tape.input_slots@[index] == s);
                }
                if s != slot {
                    if s < slot {
                        assert(plan.pos@[s] != plan.pos@[slot]);
                    } else {
                        assert(plan.pos@[slot] != plan.pos@[s]);
                    }
                }
            },
        }
    }
    assert(m1 =~= m2);
}

/// Run one task over the arena. `cursor` is where its segments start.
pub(crate) fn run_task(bits: &Vec<u64>, segs: &Vec<Seg>, cursor: usize, task: &Task) -> (w: u64)
    requires
        segs_in(segs@, bits@.len() as int),
        cursor == task.at@,
        cursor + task_len(*task) <= segs@.len(),
    ensures
        task_yields(bits@, segs@, *task, w),
{
    let n0: usize = task.streams[0].funnels as usize + task.streams[0].splats as usize;
    let n1: usize = task.streams[1].funnels as usize + task.streams[1].splats as usize;
    let n2: usize = task.streams[2].funnels as usize + task.streams[2].splats as usize;
    let total: usize = segs.len();
    let sa = vstd::slice::slice_subrange(segs.as_slice(), cursor, cursor + n0);
    let sb = vstd::slice::slice_subrange(segs.as_slice(), cursor + n0, cursor + n0 + n1);
    let sc = vstd::slice::slice_subrange(segs.as_slice(), cursor + n0 + n1, cursor + n0 + n1 + n2);
    proof {
        assert(sa@ == stream_segs(segs@, *task, 0));
        assert(sb@ == stream_segs(segs@, *task, 1));
        assert(sc@ == stream_segs(segs@, *task, 2));
        assert(segs_in(sa@, bits@.len() as int)) by {
            assert forall|k: int| 0 <= k < sa@.len() implies (#[trigger] sa@[k]).src < (bits@.len() - 1) * 64
                && sa@[k].shift < 64 by {
                assert(sa@[k] == segs@[cursor + k]);
            }
        }
        assert(segs_in(sb@, bits@.len() as int)) by {
            assert forall|k: int| 0 <= k < sb@.len() implies (#[trigger] sb@[k]).src < (bits@.len() - 1) * 64
                && sb@[k].shift < 64 by {
                assert(sb@[k] == segs@[cursor + n0 + k]);
            }
        }
        assert(segs_in(sc@, bits@.len() as int)) by {
            assert forall|k: int| 0 <= k < sc@.len() implies (#[trigger] sc@[k]).src < (bits@.len() - 1) * 64
                && sc@[k].shift < 64 by {
                assert(sc@[k] == segs@[cursor + n0 + n1 + k]);
            }
        }
    }
    let a: u64 = gather(bits, sa, task.streams[0].funnels as usize, task.imm[0]);
    let b: u64 = match task.op {
        TaskOp::Gate(Op::Not) | TaskOp::Gate(Op::Buf) => 0,
        _ => gather(bits, sb, task.streams[1].funnels as usize, task.imm[1]),
    };
    let c: u64 = match task.op {
        TaskOp::Gate(Op::Mux) | TaskOp::Add => gather(
            bits,
            sc,
            task.streams[2].funnels as usize,
            task.imm[2],
        ),
        _ => 0,
    };
    let w: u64 = match task.op {
        TaskOp::Gate(Op::Not) => !a,
        TaskOp::Gate(Op::Buf) => a,
        TaskOp::Gate(Op::And) => a & b,
        TaskOp::Gate(Op::Or) => a | b,
        TaskOp::Gate(Op::Xor) => a ^ b,
        TaskOp::Gate(Op::Nand) => !(a & b),
        TaskOp::Gate(Op::Nor) => !(a | b),
        TaskOp::Gate(Op::Xnor) => !(a ^ b),
        TaskOp::Gate(Op::Mux) => c ^ (a & (b ^ c)),
        // Fused ripple chain: the native add propagates the carry through
        // all lanes; bit `len` is the chain's carry-out.
        TaskOp::Add => a.wrapping_add(b).wrapping_add(c),
    };
    proof {
        assert(stream_yields(bits@, segs@, *task, 0, a));
        assert(reads_stream(task.op, 1) ==> stream_yields(bits@, segs@, *task, 1, b));
        assert(reads_stream(task.op, 2) ==> stream_yields(bits@, segs@, *task, 2, c));
        assert(w == combine(task.op, a, b, c));
    }
    w
}

pub struct PackedEngine {
    /// The packed value arena; one bit per live signal plus padding.
    bits: Vec<u64>,
    /// Register next-state captured at tick end, applied at next tick start.
    staging: Vec<u64>,
    plan: Plan,
    /// What registers hold that nobody reads.
    dead: Ghost<Seq<bool>>,
}

/// Copy the staged register words into the arena.
pub fn apply_staging(bits: &mut Vec<u64>, staging: &Vec<u64>, at: usize)
    requires
        at + staging@.len() <= old(bits)@.len(),
    ensures
        final(bits)@.len() == old(bits)@.len(),
        forall|w: int|
            0 <= w < final(bits)@.len() ==> #[trigger] final(bits)@[w] == (if at <= w < at + staging@.len() {
                staging@[w - at]
            } else {
                old(bits)@[w]
            }),
{
    let limit: usize = bits.len();
    for i in 0..staging.len()
        invariant
            at + staging@.len() <= limit,
            limit == bits@.len(),
            bits@.len() == old(bits)@.len(),
            forall|w: int|
                0 <= w < bits@.len() ==> #[trigger] bits@[w] == (if at <= w < at + i {
                    staging@[w - at]
                } else {
                    old(bits)@[w]
                }),
    {
        bits.set(at + i, staging[i]);
    }
}

/// The next states of the live registers, off a settled arena.
pub(crate) fn capture_states(plan: &Plan, bits: &Vec<u64>, staging: &mut Vec<u64>, env: Ghost<Env>)
    requires
        plan.ok(),
        bits@.len() == plan.words,
        old(staging)@.len() == plan.reg_init@.len(),
        held(plan.tape@, plan.pos@, plan.tasks@, plan.tasks@.len() as int, bits@, env@),
    ensures
        final(staging)@.len() == plan.reg_init@.len(),
        forall|k: int|
            0 <= k < final(staging)@.len() ==> next_states(
                plan.tape@,
                plan.live@,
                env@,
                k,
                #[trigger] final(staging)@[k],
            ),
{
    let mut cursor: usize = 0;
    let total: usize = plan.cap_segs.len();
    for k in 0..plan.capture.len()
        invariant
            plan.ok(),
            total == plan.cap_segs@.len(),
            bits@.len() == plan.words,
            staging@.len() == plan.reg_init@.len(),
            held(plan.tape@, plan.pos@, plan.tasks@, plan.tasks@.len() as int, bits@, env@),
            k < plan.capture@.len() ==> cursor == plan.cap_at@[k as int],
            forall|j: int|
                0 <= j < k ==> next_states(plan.tape@, plan.live@, env@, j, #[trigger] staging@[j]),
    {
        let (imm, sr) = plan.capture[k];
        assert(plan.capture@[k as int] == (imm, sr));
        assert(0 <= plan.cap_at@[k as int]);
        let n: usize = sr.funnels as usize + sr.splats as usize;
        let head = vstd::slice::slice_subrange(plan.cap_segs.as_slice(), cursor, cursor + n);
        assert(segs_in(head@, bits@.len() as int)) by {
            assert forall|i: int| 0 <= i < head@.len() implies (#[trigger] head@[i]).src < (bits@.len() - 1) * 64
                && head@[i].shift < 64 by {
                assert(head@[i] == plan.cap_segs@[cursor + i]);
            }
        }
        let w: u64 = gather(bits, head, sr.funnels as usize, imm);
        proof {
            assert(plan.capture_right(k as int));
            assert(head@ == plan.cap_segs@.subrange(
                plan.cap_at@[k as int],
                plan.cap_at@[k as int] + plan.capture@[k as int].1.len(),
            ));
            assert(next_states(plan.tape@, plan.live@, env@, k as int, w));
            if k + 1 < plan.capture@.len() {
                assert(captures_join(plan.capture@, plan.cap_at@, k as int));
            }
        }
        staging.set(k, w);
        cursor = cursor + n;
    }
}

/// Set or clear one input bit.
pub fn write_input(bits: &mut Vec<u64>, index: usize, value: bool)
    requires
        index < 64 * old(bits)@.len(),
    ensures
        final(bits)@.len() == old(bits)@.len(),
        forall|p: int|
            0 <= p < 64 * final(bits)@.len() ==> #[trigger] bit_at(final(bits)@, p) == (if p == index {
                value
            } else {
                bit_at(old(bits)@, p)
            }),
{
    let at: usize = index / 64;
    let o: u64 = (index % 64) as u64;
    let mask: u64 = 1u64 << o;
    let ghost before = bits@;
    if value {
        bits.set(at, bits[at] | mask);
    } else {
        bits.set(at, bits[at] & !mask);
    }
    proof {
        assert forall|p: int| 0 <= p < 64 * bits@.len() implies #[trigger] bit_at(bits@, p) == (if p == index {
            value
        } else {
            bit_at(before, p)
        }) by {
            lemma_one_bit(before[p / 64], index as int % 64, p % 64);
        }
    }
}

/// Power-on arena and staging.
pub fn power_on_arena(plan: &Plan) -> (res: (Vec<u64>, Vec<u64>))
    requires
        plan.ok(),
    ensures
        res.0@.len() == plan.words,
        res.1@ == plan.reg_init@,
        forall|w: int|
            0 <= w < res.0@.len() ==> #[trigger] res.0@[w] == (if plan.reg_word <= w < plan.reg_word
                + res.1@.len() {
                res.1@[w - plan.reg_word]
            } else {
                0
            }),
{
    let mut bits: Vec<u64> = Vec::with_capacity(plan.words);
    for i in 0..plan.words
        invariant
            bits@.len() == i,
            forall|w: int| 0 <= w < i ==> #[trigger] bits@[w] == 0,
    {
        bits.push(0);
    }
    let mut staging: Vec<u64> = Vec::with_capacity(plan.reg_init.len());
    for i in 0..plan.reg_init.len()
        invariant
            staging@ == plan.reg_init@.take(i as int),
    {
        staging.push(plan.reg_init[i]);
        assert(plan.reg_init@.take(i + 1) =~= plan.reg_init@.take(i as int).push(plan.reg_init@[i as int]));
    }
    assert(plan.reg_init@.take(plan.reg_init@.len() as int) =~= plan.reg_init@);
    apply_staging(&mut bits, &staging, plan.reg_word);
    (bits, staging)
}

/// What an output shows.
pub fn read_output(plan: &Plan, bits: &Vec<u64>, index: usize) -> (value: bool)
    requires
        plan.ok(),
        bits@.len() == plan.words,
        index < plan.outputs@.len(),
    ensures
        value == shown_bit(bits@, plan.outputs@[index as int]),
{
    match plan.outputs[index] {
        OutSrc::Bit(p) => {
            assert(plan.outputs@[index as int] == OutSrc::Bit(p));
            assert(plan.available(plan.tape@.output_slots@[index as int] as int));
            (bits[(p / 64) as usize] >> ((p % 64) as u64)) & 1 == 1
        },
        OutSrc::Const(v) => v,
    }
}

impl PackedEngine {
    pub fn new(circuit: &Circuit) -> (e: Self)
        requires
            circuit.wf(),
            fits_arena(circuit.net()),
        ensures
            e.inv(),
            same_machine(e.machine().net, circuit.net()),
            e.machine() == Machine::power_on(e.machine().net),
    {
        let tape = Compiled::new(circuit);
        Self::with_tape(&tape)
    }

    pub fn with_tape(tape: &Compiled) -> (e: Self)
        requires
            tape.wf(),
            packable(*tape),
        ensures
            e.inv(),
            e.machine() == Machine::power_on(tape.net()),
    {
        let plan = Plan::new(tape);
        let (bits, staging) = power_on_arena(&plan);
        let ghost dead = tape.net().inits;
        proof {
            lemma_packed_power_on(plan, bits@, staging@, dead);
        }
        Self { bits, staging, plan, dead: Ghost(dead) }
    }

    /// Restore power-on state: register initials latched, inputs low.
    pub(crate) fn reset(&mut self)
        requires
            old(self).inv(),
        ensures
            final(self).inv(),
            final(self).machine() == Machine::power_on(old(self).machine().net),
    {
        let (bits, staging) = power_on_arena(&self.plan);
        self.bits = bits;
        self.staging = staging;
        self.dead = Ghost(self.plan.tape@.net().inits);
        proof {
            lemma_packed_power_on(self.plan, self.bits@, self.staging@, self.dead@);
        }
    }
}

impl Engine for PackedEngine {
    closed spec fn inv(&self) -> bool {
        packed_ok(self.plan, self.bits@, self.staging@, self.dead@)
    }

    closed spec fn machine(&self) -> Machine {
        packed_machine(self.plan, self.bits@, self.staging@, self.dead@)
    }

    fn name(&self) -> (name: &'static str)
        ensures
            name@ == "packed"@,
    {
        "packed"
    }

    fn input_count(&self) -> (n: usize) {
        self.plan.input_count
    }

    fn output_count(&self) -> (n: usize) {
        self.plan.outputs.len()
    }

    fn set_input(&mut self, index: usize, value: bool) {
        assert(index / 64 < self.plan.reg_word);
        let ghost before = self.bits@;
        write_input(&mut self.bits, index, value);
        proof {
            lemma_packed_input(
                self.plan,
                before,
                self.bits@,
                self.staging@,
                self.dead@,
                index as int,
                value,
            );
        }
    }

    fn output(&self, index: usize) -> (value: bool) {
        read_output(&self.plan, &self.bits, index)
    }

    fn tick(&mut self) {
        let ghost m = self.machine();
        let ghost env = m.env();
        let ghost bits0 = self.bits@;
        // Clock edge: the register region is contiguous and word-aligned, so
        // applying the captured next-state is a straight word copy.
        apply_staging(&mut self.bits, &self.staging, self.plan.reg_word);
        proof {
            lemma_edge(self.plan, bits0, self.bits@, self.staging@, self.dead@);
        }

        // Combinational settle: every gather reads only already-settled
        // words.
        let mut cursor: usize = 0;
        let count: usize = self.plan.tasks.len();
        let total: usize = self.plan.segs.len();
        for t in 0..count
            invariant
                self.plan == old(self).plan,
                self.staging == old(self).staging,
                self.dead == old(self).dead,
                self.plan.ok(),
                count == self.plan.tasks@.len(),
                total == self.plan.segs@.len(),
                self.bits@.len() == self.plan.words,
                t < count ==> cursor == self.plan.tasks@[t as int].at@,
                held(self.plan.tape@, self.plan.pos@, self.plan.tasks@, t as int, self.bits@, env),
                forall|w: int| 0 <= w < self.plan.reg_word ==> #[trigger] self.bits@[w] == bits0[w],
        {
            let task = self.plan.tasks[t];
            let ghost now = self.bits@;
            assert(self.plan.tasks@[t as int].at@ + task_len(task) <= self.plan.segs@.len());
            let w: u64 = run_task(&self.bits, &self.plan.segs, cursor, &task);
            self.bits.set(task.dst as usize, w);
            proof {
                lemma_task_step(self.plan, t as int, now, w, env);
                if t + 1 < count {
                    assert(task_joins(self.plan.tasks@, t as int));
                }
            }
            cursor = cursor + (task.streams[0].funnels as usize + task.streams[0].splats as usize) + (
            task.streams[1].funnels as usize + task.streams[1].splats as usize) + (
            task.streams[2].funnels as usize + task.streams[2].splats as usize);
        }

        // Capture every live register's next state into staging; the edge at
        // the start of the next tick applies it, so output() observes
        // settled pre-edge values.
        capture_states(&self.plan, &self.bits, &mut self.staging, Ghost(env));
        self.dead = Ghost(self.plan.tape@.net().next_state(env));
        proof {
            lemma_packed_ticked(self.plan, m, bits0, self.bits@, self.staging@, self.dead@);
        }
    }
}

} // verus!
