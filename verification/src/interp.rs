//! The reference interpreter: one tick straight off the circuit.
use vstd::prelude::*;

use crate::circuit::Circuit;
use crate::entity::{ids, insts_get, insts_len, list_slice, node_of, regs_get, regs_len, InstData, Reg, Signal};
use crate::netlist::{arity_ok, deps, gate_fn, node_ordered, Env, GateOp};

verus! {

broadcast use {Signal::lemma_range, Reg::lemma_range};

/// Something that can tick a circuit.
pub trait Backend {
    /// Advance one clock cycle: `outputs` becomes the settled outputs and
    /// `state` the registers' next state.
    fn tick(&self, circuit: &Circuit, inputs: &[bool], state: &mut [bool], outputs: &mut [bool])
        requires
            circuit.wf(),
            inputs@.len() == circuit.net().inputs,
            old(state)@.len() == circuit.net().drives.len(),
            old(outputs)@.len() == circuit.net().outs.len(),
        ensures
            final(outputs)@ == circuit.net().outputs(Env { inputs: inputs@, state: old(state)@ }),
            final(state)@ == circuit.net().next_state(Env { inputs: inputs@, state: old(state)@ }),
    ;
}

/// Evaluates every node in schedule order.
#[derive(Debug, Clone, Copy)]
pub struct Interpreter;

/// The value of one gate.
pub fn eval_gate(op: GateOp, a: bool, b: bool, c: bool) -> (v: bool)
    ensures
        v == gate_fn(op, a, b, c),
{
    match op {
        GateOp::And => a && b,
        GateOp::Or => a || b,
        GateOp::Xor => a != b,
        GateOp::Not => !a,
        GateOp::Nand => !(a && b),
        GateOp::Nor => !(a || b),
        GateOp::Xnor => a == b,
        GateOp::Buf => a,
        GateOp::Mux => if a {
            b
        } else {
            c
        },
    }
}

/// The settled value of every node.
pub fn settle_all(circuit: &Circuit, inputs: &[bool], state: &[bool]) -> (values: Vec<bool>)
    requires
        circuit.wf(),
        inputs@.len() == circuit.net().inputs,
        state@.len() == circuit.net().drives.len(),
    ensures
        values@.len() == circuit.net().nodes.len(),
        forall|i: int|
            0 <= i < values@.len() ==> #[trigger] values@[i] == circuit.net().value(
                Env { inputs: inputs@, state: state@ },
                i,
            ),
{
    let ghost net = circuit.net();
    let ghost env = Env { inputs: inputs@, state: state@ };
    let n: usize = insts_len(&circuit.insts);
    let mut values: Vec<bool> = Vec::with_capacity(n);
    for i in 0..n
        invariant
            circuit.wf(),
            net == circuit.net(),
            n == net.nodes.len(),
            env == (Env { inputs: inputs@, state: state@ }),
            inputs@.len() == net.inputs,
            state@.len() == net.drives.len(),
            values@.len() == i,
            forall|j: int| 0 <= j < i ==> #[trigger] values@[j] == net.value(env, j),
    {
        let inst = insts_get(&circuit.insts, Signal::from_index(i));
        assert(node_of(inst.data, circuit.list_pool) == net.nodes[i as int]);
        assert(arity_ok(net.nodes[i as int]));
        assert(node_ordered(net.nodes, i as int));
        let v: bool = match &inst.data {
            InstData::Const { value } => *value,
            InstData::Input { index } => inputs[*index as usize],
            InstData::RegisterOutput { reg } => state[reg.as_u32() as usize],
            InstData::Gate { op, inputs: list } => {
                let items = list_slice(list, &circuit.list_pool);
                assert(deps(net.nodes[i as int]) == ids(items@));
                assert forall|k: int| 0 <= k < items@.len() implies (#[trigger] items@[k]).id() < i by {
                    assert(deps(net.nodes[i as int])[k] < i);
                }
                let a: bool = values[items[0].as_u32() as usize];
                let b: bool = items.len() > 1 && values[items[1].as_u32() as usize];
                let c: bool = items.len() > 2 && values[items[2].as_u32() as usize];
                eval_gate(*op, a, b, c)
            },
        };
        values.push(v);
    }
    values
}

impl Backend for Interpreter {
    fn tick(&self, circuit: &Circuit, inputs: &[bool], state: &mut [bool], outputs: &mut [bool]) {
        let ghost net = circuit.net();
        let ghost env = Env { inputs: inputs@, state: state@ };
        let values = settle_all(circuit, inputs, state);
        for k in 0..circuit.output_signals.len()
            invariant
                circuit.wf(),
                net == circuit.net(),
                values@.len() == net.nodes.len(),
                forall|j: int| 0 <= j < values@.len() ==> #[trigger] values@[j] == net.value(env, j),
                outputs@.len() == net.outs.len(),
                forall|j: int| 0 <= j < k ==> #[trigger] outputs@[j] == net.value(env, net.outs[j]),
        {
            assert(0 <= net.outs[k as int] < net.nodes.len());
            outputs[k] = values[circuit.output_signals[k].as_u32() as usize];
        }
        let count: usize = regs_len(&circuit.regs);
        for r in 0..count
            invariant
                circuit.wf(),
                net == circuit.net(),
                count == net.drives.len(),
                values@.len() == net.nodes.len(),
                forall|j: int| 0 <= j < values@.len() ==> #[trigger] values@[j] == net.value(env, j),
                state@.len() == net.drives.len(),
                forall|j: int| 0 <= j < r ==> #[trigger] state@[j] == net.value(env, net.drives[j]),
        {
            assert(0 <= net.drives[r as int] < net.nodes.len());
            let reg = regs_get(&circuit.regs, Reg::from_index(r));
            state[r] = values[reg.data_input.as_u32() as usize];
        }
        assert(outputs@ =~= net.outputs(env));
        assert(state@ =~= net.next_state(env));
    }
}

} // verus!
