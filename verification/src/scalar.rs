//! Dense engine: one forward pass over the tape, dispatched run by run.
use std::sync::Arc;

use vstd::prelude::*;

use crate::circuit::Circuit;
use crate::compile::{
    bit, power_on_value, run_ok, run_pos, same_machine, shared, Compiled, Op, DEAD,
};
use crate::engine::{Engine, Machine};
use crate::netlist::{gate_fn, node_value, Env, Node};

verus! {

/// Every byte is 0 or 1.
pub open spec fn bits(values: Seq<u8>) -> bool {
    forall|s: int| 0 <= s < values.len() ==> #[trigger] values[s] <= 1
}

/// Constant slots hold their constants.
pub open spec fn consts_hold(tape: Compiled, values: Seq<u8>) -> bool {
    forall|s: int|
        0 <= s < tape.gate_start ==> (#[trigger] tape.sources@[s] matches Node::Const(v) ==> values[s]
            == bit(v))
}

/// The machine that slot values and pending register values stand for.
pub open spec fn machine_of(tape: Compiled, values: Seq<u8>, next: Seq<u8>) -> Machine {
    Machine {
        net: tape.net(),
        inputs: Seq::new(tape.input_slots@.len(), |k: int| values[tape.input_slots@[k] as int] != 0),
        state: Seq::new(next.len(), |r: int| next[r] != 0),
        outs: Seq::new(tape.output_slots@.len(), |k: int| values[tape.output_slots@[k] as int] != 0),
    }
}

/// What the value arrays of a byte-per-slot engine satisfy between ticks.
pub open spec fn arrays_ok(tape: Compiled, values: Seq<u8>, next: Seq<u8>) -> bool {
    &&& tape.wf()
    &&& values.len() == tape.n()
    &&& next.len() == tape.net().drives.len()
    &&& bits(values)
    &&& bits(next)
    &&& consts_hold(tape, values)
}

/// The first `upto` slots hold their settled values.
pub open spec fn settled_upto(tape: Compiled, values: Seq<u8>, env: Env, upto: int) -> bool {
    forall|s: int| 0 <= s < upto ==> #[trigger] values[s] == bit(tape.value(env, s))
}

/// A gate's value over 0/1 bytes.
pub open spec fn gate_byte(op: Op, a: u8, b: u8, c: u8) -> u8 {
    bit(gate_fn(op, a != 0, b != 0, c != 0))
}

proof fn lemma_bytes(a: u8, b: u8, c: u8)
    by (bit_vector)
    requires
        a <= 1,
        b <= 1,
        c <= 1,
    ensures
        a & b == (if a != 0 && b != 0 { 1u8 } else { 0u8 }),
        a | b == (if a != 0 || b != 0 { 1u8 } else { 0u8 }),
        a ^ b == (if (a != 0) != (b != 0) { 1u8 } else { 0u8 }),
        (a & b) ^ 1 == (if !(a != 0 && b != 0) { 1u8 } else { 0u8 }),
        (a | b) ^ 1 == (if !(a != 0 || b != 0) { 1u8 } else { 0u8 }),
        a ^ b ^ 1 == (if (a != 0) == (b != 0) { 1u8 } else { 0u8 }),
        a ^ 1 == (if !(a != 0) { 1u8 } else { 0u8 }),
        (a & b) | ((a ^ 1) & c) == (if a != 0 { if b != 0 { 1u8 } else { 0u8 } } else { if c != 0 { 1u8 } else { 0u8 } }),
{
}

/// Evaluate one gate over 0/1 bytes.
#[inline(always)]
pub(crate) fn gate_bits(op: Op, a: u8, b: u8, c: u8) -> (v: u8)
    requires
        a <= 1,
        b <= 1,
        c <= 1,
    ensures
        v == gate_byte(op, a, b, c),
{
    proof {
        lemma_bytes(a, b, c);
    }
    match op {
        Op::And => a & b,
        Op::Or => a | b,
        Op::Xor => a ^ b,
        Op::Nand => (a & b) ^ 1,
        Op::Nor => (a | b) ^ 1,
        Op::Xnor => a ^ b ^ 1,
        Op::Not => a ^ 1,
        Op::Buf => a,
        Op::Mux => (a & b) | ((a ^ 1) & c),
    }
}

/// The settled value of a gate slot, from its operands' slots.
pub proof fn lemma_gate_slot(tape: Compiled, env: Env, s: int)
    requires
        tape.wf(),
        tape.gate_start <= s < tape.n(),
    ensures
        tape.gate_ok(s),
        tape.a@[s] < s,
        tape.b@[s] < s,
        tape.c@[s] < s,
        tape.value(env, s) == gate_fn(
            tape.ops@[s],
            tape.value(env, tape.a@[s] as int),
            tape.value(env, tape.b@[s] as int),
            tape.value(env, tape.c@[s] as int),
        ),
{
    assert(tape.gate_ok(s));
    assert(tape.net().nodes[s] == tape.slot_node(s));
}

/// An output taps input `k`'s slot exactly where its node is that input.
pub proof fn lemma_taps_input(tape: Compiled, k: int, s: int)
    requires
        tape.wf(),
        0 <= k < tape.input_slots@.len(),
        0 <= s < tape.n(),
    ensures
        s == tape.input_slots@[k] <==> tape.net().nodes[s] == Node::Input(k),
{
    assert(tape.input_slots@[k] < tape.gate_start);
    assert(tape.net().nodes[s] == tape.slot_node(s));
}

/// Power-on values stand for the power-on machine.
pub proof fn lemma_power_on(tape: Compiled, values: Seq<u8>, next: Seq<u8>)
    requires
        tape.wf(),
        values.len() == tape.n(),
        forall|s: int|
            0 <= s < tape.n() ==> #[trigger] values[s] == bit(
                power_on_value(tape.slot_node(s), tape.net().inits),
            ),
        next == tape.reg_initial@,
    ensures
        arrays_ok(tape, values, next),
        machine_of(tape, values, next) == Machine::power_on(tape.net()),
{
    let m = machine_of(tape, values, next);
    let p = Machine::power_on(tape.net());
    assert forall|k: int| 0 <= k < m.inputs.len() implies m.inputs[k] == p.inputs[k] by {
        let s = tape.input_slots@[k] as int;
        lemma_taps_input(tape, k, s);
        assert(values[s] == bit(power_on_value(tape.slot_node(s), tape.net().inits)));
    }
    assert forall|k: int| 0 <= k < m.outs.len() implies m.outs[k] == p.outs[k] by {
        let s = tape.output_slots@[k] as int;
        assert(tape.net().nodes[s] == tape.slot_node(s));
        assert(values[s] == bit(power_on_value(tape.slot_node(s), tape.net().inits)));
    }
    assert forall|s: int| 0 <= s < tape.gate_start implies (#[trigger] tape.sources@[s] matches Node::Const(
        v,
    ) ==> values[s] == bit(v)) by {
        assert(values[s] == bit(power_on_value(tape.slot_node(s), tape.net().inits)));
    }
    assert(m =~= p);
}

/// Writing an input slot is setting the input.
pub proof fn lemma_set_input(tape: Compiled, values: Seq<u8>, next: Seq<u8>, k: int, v: bool)
    requires
        arrays_ok(tape, values, next),
        0 <= k < tape.net().inputs,
    ensures
        arrays_ok(tape, values.update(tape.input_slots@[k] as int, bit(v)), next),
        machine_of(tape, values.update(tape.input_slots@[k] as int, bit(v)), next) == machine_of(
            tape,
            values,
            next,
        ).with_input(k, v),
{
    let slot = tape.input_slots@[k] as int;
    let after = values.update(slot, bit(v));
    assert(slot < tape.gate_start);
    let m1 = machine_of(tape, after, next);
    let m2 = machine_of(tape, values, next).with_input(k, v);
    assert forall|j: int| 0 <= j < m1.inputs.len() implies m1.inputs[j] == m2.inputs[j] by {
        lemma_taps_input(tape, k, tape.input_slots@[j] as int);
        lemma_taps_input(tape, j, tape.input_slots@[j] as int);
    }
    assert forall|j: int| 0 <= j < m1.outs.len() implies m1.outs[j] == m2.outs[j] by {
        lemma_taps_input(tape, k, tape.output_slots@[j] as int);
    }
    assert(m1 =~= m2);
    assert forall|s: int| 0 <= s < tape.gate_start implies (#[trigger] tape.sources@[s] matches Node::Const(
        c,
    ) ==> after[s] == bit(c)) by {
        lemma_taps_input(tape, k, s);
        assert(tape.net().nodes[s] == tape.sources@[s]);
    }
}

/// Settled slots and captured registers are a ticked machine.
pub proof fn lemma_ticked(tape: Compiled, before: Machine, values: Seq<u8>, next: Seq<u8>)
    requires
        tape.wf(),
        before.net == tape.net(),
        before.inputs.len() == tape.net().inputs,
        values.len() == tape.n(),
        settled_upto(tape, values, before.env(), tape.n()),
        next.len() == tape.net().drives.len(),
        forall|r: int| 0 <= r < next.len() ==> #[trigger] next[r] == values[tape.reg_in_slots@[r] as int],
    ensures
        arrays_ok(tape, values, next),
        machine_of(tape, values, next) == before.ticked(),
{
    let m = machine_of(tape, values, next);
    let env = before.env();
    let t = before.ticked();
    assert forall|k: int| 0 <= k < m.inputs.len() implies m.inputs[k] == t.inputs[k] by {
        let s = tape.input_slots@[k] as int;
        lemma_taps_input(tape, k, s);
        assert(values[s] == bit(tape.value(env, s)));
        assert(tape.value(env, s) == node_value(tape.net().nodes, env, s));
    }
    assert forall|k: int| 0 <= k < m.outs.len() implies m.outs[k] == t.outs[k] by {
        let s = tape.output_slots@[k] as int;
        assert(values[s] == bit(tape.value(env, s)));
    }
    assert forall|r: int| 0 <= r < m.state.len() implies m.state[r] == t.state[r] by {
        let s = tape.reg_in_slots@[r] as int;
        assert(next[r] == values[s]);
        assert(values[s] == bit(tape.value(env, s)));
    }
    assert(m =~= t);
    assert forall|r: int| 0 <= r < next.len() implies #[trigger] next[r] <= 1 by {
        assert(values[tape.reg_in_slots@[r] as int] <= 1);
    }
    assert forall|s: int| 0 <= s < tape.gate_start implies (#[trigger] tape.sources@[s] matches Node::Const(
        v,
    ) ==> values[s] == bit(v)) by {
        assert(values[s] == bit(tape.value(env, s)));
        assert(tape.net().nodes[s] == tape.sources@[s]);
    }
}

/// Sources that hold what the machine is about to see are settled.
pub proof fn lemma_sources_settled(tape: Compiled, m: Machine, values: Seq<u8>)
    requires
        tape.wf(),
        values.len() == tape.n(),
        bits(values),
        consts_hold(tape, values),
        forall|k: int|
            0 <= k < tape.input_slots@.len() ==> m.inputs[k] == (values[#[trigger] tape.input_slots@[k] as int]
                != 0),
        m.inputs.len() == tape.input_slots@.len(),
        m.state.len() == tape.reg_out_slots@.len(),
        forall|r: int|
            0 <= r < tape.reg_out_slots@.len() && #[trigger] tape.reg_out_slots@[r] != DEAD
                ==> values[tape.reg_out_slots@[r] as int] == bit(m.state[r]),
    ensures
        settled_upto(tape, values, m.env(), tape.gate_start as int),
{
    assert forall|s: int| 0 <= s < tape.gate_start implies #[trigger] values[s] == bit(
        tape.value(m.env(), s),
    ) by {
        assert(tape.net().nodes[s] == tape.sources@[s]);
        match tape.sources@[s] {
            Node::Input(k) => {
                assert(tape.input_slots@[k] == s);
            },
            Node::RegOut(r) => {
                assert(tape.reg_out_slots@[r] == s);
            },
            _ => {},
        }
    }
}

/// Apply the clock edge: register outputs take their pending values.
pub fn apply_edge(tape: &Compiled, values: &mut Vec<u8>, next: &Vec<u8>)
    requires
        arrays_ok(*tape, old(values)@, next@),
    ensures
        final(values)@.len() == tape.n(),
        bits(final(values)@),
        settled_upto(
            *tape,
            final(values)@,
            machine_of(*tape, old(values)@, next@).env(),
            tape.gate_start as int,
        ),
{
    let ghost m = machine_of(*tape, values@, next@);
    let ghost v0 = values@;
    let count: usize = tape.register_count();
    for r in 0..count
        invariant
            count == tape.reg_out_slots@.len(),
            arrays_ok(*tape, v0, next@),
            m == machine_of(*tape, v0, next@),
            values@.len() == tape.n(),
            bits(values@),
            forall|s: int|
                0 <= s < tape.n() && !(s < tape.gate_start && tape.sources@[s] is RegOut)
                    ==> #[trigger] values@[s] == v0[s],
            forall|j: int|
                0 <= j < r && #[trigger] tape.reg_out_slots@[j] != DEAD
                    ==> values@[tape.reg_out_slots@[j] as int] == bit(m.state[j]),
    {
        let slot: u32 = tape.reg_out_slots[r];
        if slot != DEAD {
            assert(next@[r as int] <= 1);
            values.set(slot as usize, next[r]);
            assert forall|j: int| 0 <= j < r + 1 && #[trigger] tape.reg_out_slots@[j] != DEAD implies values@[tape.reg_out_slots@[j] as int]
                == bit(m.state[j]) by {
                assert(tape.sources@[tape.reg_out_slots@[j] as int] == Node::RegOut(j));
                assert(tape.sources@[slot as int] == Node::RegOut(r as int));
            }
        }
    }
    proof {
        assert forall|k: int| 0 <= k < tape.input_slots@.len() implies m.inputs[k] == (values@[#[trigger] tape.input_slots@[k] as int]
            != 0) by {
            assert(tape.sources@[tape.input_slots@[k] as int] == Node::Input(k));
        }
        assert forall|s: int| 0 <= s < tape.gate_start implies (#[trigger] tape.sources@[s] matches Node::Const(
            v,
        ) ==> values@[s] == bit(v)) by {
            assert(tape.sources@[s] is Const ==> values@[s] == v0[s]);
        }
        lemma_sources_settled(*tape, m, values@);
    }
}

/// Evaluate a stretch of runs, everything before it being settled.
pub(crate) fn eval_runs(tape: &Compiled, values: &mut Vec<u8>, from: usize, to: usize, env: Ghost<Env>)
    requires
        tape.wf(),
        old(values)@.len() == tape.n(),
        from <= to <= tape.runs@.len(),
        settled_upto(*tape, old(values)@, env@, run_pos(tape.runs@, tape.n(), from as int)),
    ensures
        final(values)@.len() == tape.n(),
        settled_upto(*tape, final(values)@, env@, run_pos(tape.runs@, tape.n(), to as int)),
{
    for i in from..to
        invariant
            tape.wf(),
            from <= to <= tape.runs@.len(),
            values@.len() == tape.n(),
            settled_upto(*tape, values@, env@, run_pos(tape.runs@, tape.n(), i as int)),
    {
        let run = tape.runs[i];
        proof {
            assert(run_ok(tape.runs@, tape.n(), i as int));
            lemma_run_bounds(*tape, i as int);
        }
        for s in run.start..run.end
            invariant
                tape.wf(),
                0 <= i < tape.runs@.len(),
                run == tape.runs@[i as int],
                tape.gate_start <= run.start <= run.end <= tape.n(),
                values@.len() == tape.n(),
                settled_upto(*tape, values@, env@, s as int),
        {
            proof {
                lemma_gate_slot(*tape, env@, s as int);
                assert(tape.ops@[s as int] == run.op);
            }
            let at: usize = s as usize;
            let a: u8 = values[tape.a[at] as usize];
            let b: u8 = values[tape.b[at] as usize];
            let c: u8 = values[tape.c[at] as usize];
            values.set(at, gate_bits(run.op, a, b, c));
        }
    }
}

/// Where the runs lie.
pub proof fn lemma_run_bounds(tape: Compiled, i: int)
    requires
        tape.wf(),
        0 <= i < tape.runs@.len(),
    ensures
        tape.gate_start <= tape.runs@[i].start < tape.runs@[i].end <= tape.n(),
{
    lemma_run_low(tape, i);
    lemma_run_high(tape, i);
    assert(run_ok(tape.runs@, tape.n(), i));
}

proof fn lemma_run_low(tape: Compiled, i: int)
    requires
        tape.wf(),
        0 <= i < tape.runs@.len(),
    ensures
        tape.gate_start <= tape.runs@[i].start,
    decreases i,
{
    if i > 0 {
        lemma_run_low(tape, i - 1);
        assert(run_ok(tape.runs@, tape.n(), i - 1));
    }
}

proof fn lemma_run_high(tape: Compiled, i: int)
    requires
        tape.wf(),
        0 <= i < tape.runs@.len(),
    ensures
        tape.runs@[i].end <= tape.n(),
    decreases tape.runs@.len() - i,
{
    assert(run_ok(tape.runs@, tape.n(), i));
    if i + 1 < tape.runs@.len() {
        lemma_run_high(tape, i + 1);
        assert(run_ok(tape.runs@, tape.n(), i + 1));
    }
}

/// Latch: read every register's data input for the coming edge.
pub fn capture_next(tape: &Compiled, values: &Vec<u8>, next: &mut Vec<u8>)
    requires
        tape.wf(),
        values@.len() == tape.n(),
        old(next)@.len() == tape.net().drives.len(),
    ensures
        final(next)@.len() == tape.net().drives.len(),
        forall|r: int|
            0 <= r < final(next)@.len() ==> #[trigger] final(next)@[r] == values@[tape.reg_in_slots@[r] as int],
{
    let count: usize = tape.register_count();
    for r in 0..count
        invariant
            count == tape.reg_out_slots@.len(),
            tape.wf(),
            values@.len() == tape.n(),
            next@.len() == tape.net().drives.len(),
            forall|j: int| 0 <= j < r ==> #[trigger] next@[j] == values@[tape.reg_in_slots@[j] as int],
    {
        next.set(r, values[tape.reg_in_slots[r] as usize]);
    }
}

/// A copy of a list of bytes.
pub(crate) fn copy_bytes(from: &Vec<u8>) -> (to: Vec<u8>)
    ensures
        to@ == from@,
{
    let mut to: Vec<u8> = Vec::with_capacity(from.len());
    for i in 0..from.len()
        invariant
            to@ == from@.take(i as int),
    {
        to.push(from[i]);
        assert(from@.take(i + 1) =~= from@.take(i as int).push(from@[i as int]));
    }
    assert(from@.take(from@.len() as int) =~= from@);
    to
}

/// The dense engine.
pub struct ScalarEngine {
    tape: Arc<Compiled>,
    values: Vec<u8>,
    reg_scratch: Vec<u8>,
}

impl ScalarEngine {
    pub fn new(circuit: &Circuit) -> (e: Self)
        requires
            circuit.wf(),
        ensures
            e.inv(),
            same_machine(e.machine().net, circuit.net()),
            e.machine() == Machine::power_on(e.machine().net),
    {
        Self::with_tape(Arc::new(Compiled::new(circuit)))
    }

    pub fn with_tape(tape: Arc<Compiled>) -> (e: Self)
        requires
            tape.wf(),
        ensures
            e.inv(),
            e.machine() == Machine::power_on(tape.net()),
    {
        let values = tape.initial_values();
        let reg_scratch = copy_bytes(&tape.reg_initial);
        proof {
            lemma_power_on(shared(tape), values@, reg_scratch@);
        }
        Self { tape, values, reg_scratch }
    }

    /// Restore power-on state: constants, register initials, inputs low.
    pub fn reset(&mut self)
        requires
            old(self).inv(),
        ensures
            final(self).inv(),
            final(self).machine() == Machine::power_on(old(self).machine().net),
    {
        self.values = self.tape.initial_values();
        self.reg_scratch = copy_bytes(&self.tape.reg_initial);
        proof {
            lemma_power_on(shared(self.tape), self.values@, self.reg_scratch@);
        }
    }
}

impl Engine for ScalarEngine {
    closed spec fn inv(&self) -> bool {
        arrays_ok(shared(self.tape), self.values@, self.reg_scratch@)
    }

    closed spec fn machine(&self) -> Machine {
        machine_of(shared(self.tape), self.values@, self.reg_scratch@)
    }

    fn name(&self) -> (name: &'static str)
        ensures
            name@ == "scalar"@,
    {
        "scalar"
    }

    fn input_count(&self) -> (n: usize) {
        self.tape.input_count()
    }

    fn output_count(&self) -> (n: usize) {
        self.tape.output_count()
    }

    fn set_input(&mut self, index: usize, value: bool) {
        proof {
            lemma_set_input(shared(self.tape), self.values@, self.reg_scratch@, index as int, value);
        }
        let slot: u32 = self.tape.input_slots[index];
        self.values.set(slot as usize, if value { 1 } else { 0 });
    }

    fn output(&self, index: usize) -> (value: bool) {
        self.values[self.tape.output_slots[index] as usize] != 0
    }

    fn tick(&mut self) {
        let ghost m = self.machine();
        apply_edge(&self.tape, &mut self.values, &self.reg_scratch);
        let count: usize = self.tape.runs.len();
        eval_runs(&self.tape, &mut self.values, 0, count, Ghost(m.env()));
        capture_next(&self.tape, &self.values, &mut self.reg_scratch);
        proof {
            lemma_ticked(shared(self.tape), m, self.values@, self.reg_scratch@);
        }
    }
}

} // verus!
