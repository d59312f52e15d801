//! The tape: a circuit in levelized, op-run-scheduled form, stored as a
//! struct of arrays. Every engine runs on it.
//!
//! Slots hold values. Source slots (constants, inputs, register outputs)
//! come first, then the gates, level by level and grouped by gate kind
//! within a level. A tape is itself a netlist whose nodes are its slots.
use std::sync::Arc;

use vstd::prelude::*;

use crate::circuit::{MAX_SIGNALS, Circuit};
use crate::fold::{fold_ok, kept, live_nodes};
use crate::netlist::{gate_arity, Env, Netlist, Node};

pub use crate::netlist::GateOp as Op;

verus! {

/// The slot of a register whose output nothing reads.
pub const DEAD: u32 = 0xffff_ffff;

/// How many operands a gate kind reads.
pub fn arity(op: Op) -> (n: usize)
    ensures
        n == gate_arity(op),
{
    match op {
        Op::Not | Op::Buf => 1,
        Op::Mux => 3,
        _ => 2,
    }
}

/// Consecutive slots of one gate kind within a level.
#[derive(Debug, Clone, Copy)]
pub struct Run {
    pub op: Op,
    pub start: u32,
    pub end: u32,
}

/// The slots and the runs of one level. Level 0 holds the sources and has no
/// gates.
#[derive(Debug, Clone, Copy)]
pub struct Level {
    pub start: u32,
    pub end: u32,
    pub run_start: u32,
    pub run_end: u32,
}

pub struct Compiled {
    pub ops: Vec<Op>,
    pub a: Vec<u32>,
    pub b: Vec<u32>,
    pub c: Vec<u32>,
    pub gate_start: u32,
    pub slot_level: Vec<u32>,
    pub levels: Vec<Level>,
    pub runs: Vec<Run>,
    pub succ_offsets: Vec<u32>,
    pub succ: Vec<u32>,
    pub const_slots: Vec<(u32, u8)>,
    pub input_slots: Vec<u32>,
    /// Slot of each register's output, or [`DEAD`].
    pub reg_out_slots: Vec<u32>,
    pub reg_in_slots: Vec<u32>,
    pub reg_initial: Vec<u8>,
    pub output_slots: Vec<u32>,
    /// What each source slot stands for.
    pub sources: Ghost<Seq<Node>>,
}

/// The operand list of a gate that stores three operands, the unused ones
/// being copies of the first.
pub open spec fn operands(op: Op, a: int, b: int, c: int) -> Seq<int> {
    if gate_arity(op) == 1 {
        seq![a]
    } else if gate_arity(op) == 2 {
        seq![a, b]
    } else {
        seq![a, b, c]
    }
}

/// 0 or 1.
pub open spec fn bit(v: bool) -> u8 {
    if v {
        1
    } else {
        0
    }
}

/// Where run `i` starts; the end of the tape past the last run.
pub open spec fn run_pos(runs: Seq<Run>, n: int, i: int) -> int {
    if 0 <= i < runs.len() {
        runs[i].start as int
    } else {
        n
    }
}

/// Run `i` is not empty and ends where the next one starts.
pub open spec fn run_ok(runs: Seq<Run>, n: int, i: int) -> bool {
    runs[i].start < runs[i].end && runs[i].end == run_pos(runs, n, i + 1)
}

/// The runs tile the slots from `from` to `n`, each of one gate kind.
pub open spec fn runs_tile(runs: Seq<Run>, ops: Seq<Op>, from: int, n: int) -> bool {
    &&& run_pos(runs, n, 0) == from
    &&& forall|i: int| 0 <= i < runs.len() ==> #[trigger] run_ok(runs, n, i)
    &&& forall|i: int, s: int|
        0 <= i < runs.len() && runs[i].start <= s < runs[i].end && 0 <= s < ops.len()
            ==> #[trigger] ops[s] == (#[trigger] runs[i]).op
}

/// Level `l` is a stretch of runs.
pub open spec fn level_ok(levels: Seq<Level>, runs: Seq<Run>, n: int, l: int) -> bool {
    &&& levels[l].start <= levels[l].end
    &&& levels[l].run_start <= levels[l].run_end <= runs.len()
    &&& run_pos(runs, n, levels[l].run_start as int) == levels[l].start
    &&& run_pos(runs, n, levels[l].run_end as int) == levels[l].end
}

/// Level `l` starts where the one below it ends.
pub open spec fn level_joins(levels: Seq<Level>, l: int) -> bool {
    levels[l].start == levels[l - 1].end && levels[l].run_start == levels[l - 1].run_end
}

/// The levels tile all gate slots, and each level is a stretch of runs.
pub open spec fn levels_tile(levels: Seq<Level>, runs: Seq<Run>, from: int, n: int) -> bool {
    &&& levels.len() > 0
    &&& levels[0].start == from && levels[0].end == from
    &&& levels[0].run_start == 0 && levels[0].run_end == 0
    &&& levels.last().end == n
    &&& levels.last().run_end == runs.len()
    &&& forall|l: int| 0 <= l < levels.len() ==> #[trigger] level_ok(levels, runs, n, l)
    &&& forall|l: int| 0 < l < levels.len() ==> #[trigger] level_joins(levels, l)
}

impl Compiled {
    pub open spec fn n(&self) -> int {
        self.ops@.len() as int
    }

    /// What slot `s` computes.
    pub open spec fn slot_node(&self, s: int) -> Node {
        if s < self.gate_start {
            self.sources@[s]
        } else {
            Node::Gate(
                self.ops@[s],
                operands(self.ops@[s], self.a@[s] as int, self.b@[s] as int, self.c@[s] as int),
            )
        }
    }

    /// The tape as a netlist over slots.
    pub open spec fn net(&self) -> Netlist {
        Netlist {
            nodes: Seq::new(self.ops@.len(), |s: int| self.slot_node(s)),
            labels: Seq::new(self.ops@.len(), |s: int| None),
            drives: Seq::new(self.reg_in_slots@.len(), |r: int| self.reg_in_slots@[r] as int),
            inits: Seq::new(self.reg_initial@.len(), |r: int| self.reg_initial@[r] != 0),
            reg_labels: Seq::new(self.reg_in_slots@.len(), |r: int| None),
            outs: Seq::new(self.output_slots@.len(), |k: int| self.output_slots@[k] as int),
            inputs: self.input_slots@.len(),
        }
    }

    /// The settled value of slot `s`.
    pub open spec fn value(&self, env: Env, s: int) -> bool {
        self.net().value(env, s)
    }

    /// Gate slot `s` reads slot `x`.
    pub open spec fn reads(&self, s: int, x: int) -> bool {
        self.gate_start <= s < self.n() && operands(
            self.ops@[s],
            self.a@[s] as int,
            self.b@[s] as int,
            self.c@[s] as int,
        ).contains(x)
    }

    /// The columns have one entry per slot.
    pub open spec fn columns_ok(&self) -> bool {
        &&& self.a@.len() == self.n()
        &&& self.b@.len() == self.n()
        &&& self.c@.len() == self.n()
        &&& self.slot_level@.len() == self.n()
        &&& self.n() <= MAX_SIGNALS
        &&& self.gate_start <= self.n()
        &&& self.sources@.len() == self.gate_start
    }

    /// Gate slot `s` stands inside its level and reads earlier levels only.
    pub open spec fn gate_ok(&self, s: int) -> bool {
        let l = self.slot_level@[s] as int;
        &&& 1 <= l < self.levels@.len()
        &&& self.levels@[l].start <= s < self.levels@[l].end
        &&& self.a@[s] < self.levels@[l].start
        &&& self.b@[s] < self.levels@[l].start
        &&& self.c@[s] < self.levels@[l].start
        &&& self.slot_level@[self.a@[s] as int] < l
        &&& self.slot_level@[self.b@[s] as int] < l
        &&& self.slot_level@[self.c@[s] as int] < l
        &&& gate_arity(self.ops@[s]) < 2 ==> self.b@[s] == self.a@[s]
        &&& gate_arity(self.ops@[s]) < 3 ==> self.c@[s] == self.a@[s]
    }

    pub open spec fn gates_ok(&self) -> bool {
        &&& forall|s: int|
            0 <= s < self.gate_start ==> #[trigger] self.slot_level@[s] == 0
        &&& forall|s: int| self.gate_start <= s < self.n() ==> #[trigger] self.gate_ok(s)
        &&& levels_tile(self.levels@, self.runs@, self.gate_start as int, self.n())
        &&& self.levels@.len() <= MAX_SIGNALS + 1
        &&& runs_tile(self.runs@, self.ops@, self.gate_start as int, self.n())
    }

    /// The source tables and the source slots describe each other.
    pub open spec fn sources_ok(&self) -> bool {
        &&& forall|s: int| 0 <= s < self.sources@.len() ==> !((#[trigger] self.sources@[s]) is Gate)
        &&& forall|j: int|
            0 <= j < self.const_slots@.len() ==> (#[trigger] self.const_slots@[j]).0 < self.gate_start
                && self.const_slots@[j].1 <= 1 && self.sources@[self.const_slots@[j].0 as int]
                == Node::Const(self.const_slots@[j].1 == 1)
        &&& forall|s: int|
            0 <= s < self.sources@.len() && (#[trigger] self.sources@[s]) is Const ==> exists|j: int|
                0 <= j < self.const_slots@.len() && (#[trigger] self.const_slots@[j]).0 == s
        &&& forall|k: int|
            0 <= k < self.input_slots@.len() ==> (#[trigger] self.input_slots@[k]) < self.gate_start
                && self.sources@[self.input_slots@[k] as int] == Node::Input(k)
        &&& forall|s: int|
            0 <= s < self.sources@.len() ==> ((#[trigger] self.sources@[s]) matches Node::Input(k) ==> 0
                <= k < self.input_slots@.len() && self.input_slots@[k] == s)
        &&& forall|r: int|
            0 <= r < self.reg_out_slots@.len() && (#[trigger] self.reg_out_slots@[r]) != DEAD
                ==> self.reg_out_slots@[r] < self.gate_start && self.sources@[self.reg_out_slots@[r] as int]
                == Node::RegOut(r)
        &&& forall|s: int|
            0 <= s < self.sources@.len() ==> ((#[trigger] self.sources@[s]) matches Node::RegOut(r) ==> 0
                <= r < self.reg_out_slots@.len() && self.reg_out_slots@[r] == s)
    }

    /// Registers and outputs tap slots.
    pub open spec fn taps_ok(&self) -> bool {
        &&& self.reg_in_slots@.len() == self.reg_out_slots@.len()
        &&& self.reg_initial@.len() == self.reg_out_slots@.len()
        &&& self.reg_out_slots@.len() <= MAX_SIGNALS
        &&& forall|r: int| 0 <= r < self.reg_in_slots@.len() ==> #[trigger] self.reg_in_slots@[r] < self.n()
        &&& forall|r: int| 0 <= r < self.reg_initial@.len() ==> #[trigger] self.reg_initial@[r] <= 1
        &&& forall|k: int| 0 <= k < self.output_slots@.len() ==> #[trigger] self.output_slots@[k] < self.n()
    }

    /// The stretch of `succ` that belongs to slot `x`.
    pub open spec fn succ_of(&self, x: int) -> Seq<u32> {
        self.succ@.subrange(self.succ_offsets@[x] as int, self.succ_offsets@[x + 1] as int)
    }

    /// The successor table lists, for every slot, the gates that read it.
    pub open spec fn succ_ok(&self) -> bool {
        &&& self.succ_offsets@.len() == self.n() + 1
        &&& forall|x: int|
            0 <= x < self.n() ==> (#[trigger] self.succ_offsets@[x]) <= self.succ_offsets@[x + 1]
                <= self.succ@.len()
        &&& forall|x: int, s: u32|
            0 <= x < self.n() ==> (#[trigger] self.succ_of(x).contains(s) <==> self.reads(s as int, x))
    }

    /// What every tape satisfies.
    pub open spec fn wf(&self) -> bool {
        &&& self.columns_ok()
        &&& self.gates_ok()
        &&& self.sources_ok()
        &&& self.taps_ok()
        &&& self.succ_ok()
    }

    /// Compile a circuit. The tape holds what has to be computed, in slot
    /// order, and behaves as the circuit does.
    pub fn new(circuit: &Circuit) -> (tape: Compiled)
        requires
            circuit.wf(),
        ensures
            tape.wf(),
            tape.n() <= circuit.net().nodes.len(),
            same_machine(tape.net(), circuit.net()),
            lowered(circuit.net(), tape),
    {
        crate::lower::lower(circuit)
    }

    /// Number of slots.
    pub fn slot_count(&self) -> (n: usize)
        ensures
            n == self.n(),
    {
        self.ops.len()
    }

    pub fn input_count(&self) -> (n: usize)
        ensures
            n == self.net().inputs,
    {
        self.input_slots.len()
    }

    pub fn output_count(&self) -> (n: usize)
        ensures
            n == self.net().outs.len(),
    {
        self.output_slots.len()
    }

    pub fn register_count(&self) -> (n: usize)
        requires
            self.taps_ok(),
        ensures
            n == self.net().drives.len(),
    {
        self.reg_out_slots.len()
    }

    /// The gates that read slot `slot`.
    pub fn successors(&self, slot: u32) -> (gates: &[u32])
        requires
            self.wf(),
            slot < self.n(),
        ensures
            gates@ == self.succ_of(slot as int),
            forall|s: u32| gates@.contains(s) <==> self.reads(s as int, slot as int),
    {
        let lo: usize = self.succ_offsets[slot as usize] as usize;
        let hi: usize = self.succ_offsets[slot as usize + 1] as usize;
        vstd::slice::slice_subrange(self.succ.as_slice(), lo, hi)
    }

    /// Power-on values: constants and register initials in place, inputs and
    /// gates low.
    pub fn initial_values(&self) -> (values: Vec<u8>)
        requires
            self.columns_ok(),
            self.sources_ok(),
            self.taps_ok(),
        ensures
            values@.len() == self.n(),
            forall|s: int|
                0 <= s < self.n() ==> #[trigger] values@[s] == bit(
                    power_on_value(self.slot_node(s), self.net().inits),
                ),
    {
        let n: usize = self.slot_count();
        let mut values: Vec<u8> = Vec::with_capacity(n);
        for _i in 0..n
            invariant
                values@.len() == _i,
                forall|s: int| 0 <= s < _i ==> #[trigger] values@[s] == 0,
        {
            values.push(0);
        }
        for j in 0..self.const_slots.len()
            invariant
                self.columns_ok(),
                self.sources_ok(),
                n == self.n(),
                values@.len() == n,
                forall|s: int|
                    0 <= s < n ==> #[trigger] values@[s] == 0 || (s < self.gate_start
                        && self.sources@[s] is Const && values@[s] == bit(
                        power_on_value(self.slot_node(s), self.net().inits),
                    )),
                forall|i: int|
                    0 <= i < j ==> values@[(#[trigger] self.const_slots@[i]).0 as int]
                        == self.const_slots@[i].1,
        {
            let (slot, v) = self.const_slots[j];
            assert(self.const_slots@[j as int] == (slot, v));
            values.set(slot as usize, v);
            assert forall|i: int| 0 <= i < j + 1 implies values@[(#[trigger] self.const_slots@[i]).0 as int]
                == self.const_slots@[i].1 by {
                if self.const_slots@[i].0 == slot {
                    assert(self.sources@[self.const_slots@[i].0 as int] == Node::Const(
                        self.const_slots@[i].1 == 1,
                    ));
                }
            }
        }
        assert forall|s: int| 0 <= s < n && !(s < self.gate_start && self.sources@[s] is RegOut) implies #[trigger] values@[s]
            == bit(power_on_value(self.slot_node(s), self.net().inits)) by {
            if s < self.gate_start && self.sources@[s] is Const {
                let j = choose|j: int|
                    0 <= j < self.const_slots@.len() && (#[trigger] self.const_slots@[j]).0 == s;
                assert(values@[self.const_slots@[j].0 as int] == self.const_slots@[j].1);
            }
        }
        for r in 0..self.reg_out_slots.len()
            invariant
                self.columns_ok(),
                self.sources_ok(),
                self.taps_ok(),
                n == self.n(),
                values@.len() == n,
                forall|s: int|
                    0 <= s < n && !(s < self.gate_start && self.sources@[s] is RegOut)
                        ==> #[trigger] values@[s] == bit(
                        power_on_value(self.slot_node(s), self.net().inits),
                    ),
                forall|i: int|
                    0 <= i < r && #[trigger] self.reg_out_slots@[i] != DEAD
                        ==> values@[self.reg_out_slots@[i] as int] == self.reg_initial@[i],
        {
            let slot = self.reg_out_slots[r];
            if slot != DEAD {
                values.set(slot as usize, self.reg_initial[r]);
                assert forall|i: int| 0 <= i < r + 1 && #[trigger] self.reg_out_slots@[i] != DEAD implies values@[self.reg_out_slots@[i] as int]
                    == self.reg_initial@[i] by {
                    assert(self.sources@[self.reg_out_slots@[i] as int] == Node::RegOut(i));
                    assert(self.sources@[slot as int] == Node::RegOut(r as int));
                }
            }
        }
        assert forall|s: int| 0 <= s < n implies #[trigger] values@[s] == bit(
            power_on_value(self.slot_node(s), self.net().inits),
        ) by {
            if s < self.gate_start {
                if let Node::RegOut(r) = self.sources@[s] {
                    assert(self.reg_out_slots@[r] == s);
                    assert(values@[self.reg_out_slots@[r] as int] == self.reg_initial@[r]);
                    assert(self.net().inits[r] == (self.reg_initial@[r] != 0));
                }
            }
        }
        values
    }
}

/// The tape behind a shared handle.
pub open spec fn shared(tape: Arc<Compiled>) -> Compiled {
    *tape
}

/// What a node shows before the first tick: constants and register outputs
/// hold their values, everything else is low.
pub open spec fn power_on_value(node: Node, inits: Seq<bool>) -> bool {
    match node {
        Node::Const(v) => v,
        Node::RegOut(r) => 0 <= r < inits.len() && inits[r],
        _ => false,
    }
}

/// How a circuit is spread over the slots of a tape.
pub struct Lowering {
    /// The stand-in of each node.
    pub rep: Seq<u32>,
    /// The level of each node.
    pub level: Seq<u32>,
    /// Which nodes are live.
    pub live: Seq<bool>,
    /// The node of each slot.
    pub origin: Seq<int>,
}

/// The level of node `i`: sources are at 0, a gate is one above its highest
/// operand, and a node that another stands for is where its stand-in is.
pub open spec fn node_level(net: Netlist, rep: Seq<u32>, level: Seq<u32>, i: int) -> bool {
    if rep[i] != i {
        level[i] == level[rep[i] as int]
    } else {
        match net.nodes[i] {
            Node::Gate(_, ins) => {
                &&& forall|k: int|
                    0 <= k < ins.len() ==> level[rep[#[trigger] ins[k]] as int] < level[i]
                &&& exists|k: int|
                    0 <= k < ins.len() && level[rep[#[trigger] ins[k]] as int] + 1 == level[i]
            },
            _ => level[i] == 0,
        }
    }
}

/// The place of a node's kind in slot order: constants, inputs, registers,
/// gates.
pub open spec fn class(node: Node) -> int {
    match node {
        Node::Const(_) => 0,
        Node::Input(_) => 1,
        Node::RegOut(_) => 2,
        Node::Gate(..) => 3,
    }
}

/// The place of a gate kind within a level.
pub open spec fn op_place(op: Op) -> int {
    match op {
        Op::And => 0,
        Op::Or => 1,
        Op::Xor => 2,
        Op::Not => 3,
        Op::Nand => 4,
        Op::Nor => 5,
        Op::Xnor => 6,
        Op::Buf => 7,
        Op::Mux => 8,
    }
}

/// The place of a node's gate kind.
pub open spec fn kind_place(node: Node) -> int {
    match node {
        Node::Gate(op, _) => op_place(op),
        _ => 0,
    }
}

/// Slot order: by class, level, gate kind, and then as in the circuit.
pub open spec fn slot_before(net: Netlist, level: Seq<u32>, x: int, y: int) -> bool {
    let (m, n) = (net.nodes[x], net.nodes[y]);
    if class(m) != class(n) {
        class(m) < class(n)
    } else if level[x] != level[y] {
        level[x] < level[y]
    } else if kind_place(m) != kind_place(n) {
        kind_place(m) < kind_place(n)
    } else {
        x < y
    }
}

/// Slot `s` holds its node, reading the stand-ins of the node's operands.
pub open spec fn slot_from(net: Netlist, l: Lowering, tape: Compiled, s: int) -> bool {
    let i = l.origin[s];
    &&& 0 <= i < net.nodes.len()
    &&& kept(net, l.rep, l.live, i)
    &&& tape.slot_level@[s] == l.level[i]
    &&& match net.nodes[i] {
        Node::Gate(op, ins) => {
            &&& s >= tape.gate_start
            &&& tape.ops@[s] == op
            &&& l.origin[tape.a@[s] as int] == l.rep[ins[0]]
            &&& ins.len() > 1 ==> l.origin[tape.b@[s] as int] == l.rep[ins[1]]
            &&& ins.len() > 2 ==> l.origin[tape.c@[s] as int] == l.rep[ins[2]]
        },
        node => s < tape.gate_start && tape.sources@[s] == node,
    }
}

/// Run `k` and the one before it differ in level or gate kind.
pub open spec fn run_changes(runs: Seq<Run>, slot_level: Seq<u32>, k: int) -> bool {
    slot_level[runs[k - 1].start as int] != slot_level[runs[k].start as int] || runs[k - 1].op
        != runs[k].op
}

/// The tape of a netlist, slot by slot: every node that is computed has one
/// slot, in slot order, and nothing else has any.
pub open spec fn is_lowering(net: Netlist, l: Lowering, tape: Compiled) -> bool {
    &&& fold_ok(net, l.rep)
    &&& live_nodes(net, l.rep, l.live)
    &&& l.level.len() == net.nodes.len()
    &&& forall|i: int| 0 <= i < net.nodes.len() ==> #[trigger] node_level(net, l.rep, l.level, i)
    &&& l.origin.len() == tape.n()
    &&& forall|s: int| 0 <= s < tape.n() ==> #[trigger] slot_from(net, l, tape, s)
    &&& forall|i: int|
        0 <= i < net.nodes.len() && #[trigger] kept(net, l.rep, l.live, i) ==> l.origin.contains(i)
    &&& forall|s: int, t: int|
        0 <= s < t < tape.n() ==> slot_before(
            net,
            l.level,
            #[trigger] l.origin[s],
            #[trigger] l.origin[t],
        )
    &&& tape.output_slots@.len() == net.outs.len()
    &&& forall|k: int|
        0 <= k < net.outs.len() ==> l.origin[#[trigger] tape.output_slots@[k] as int] == net.outs[k]
    &&& tape.reg_in_slots@.len() == net.drives.len()
    &&& forall|r: int|
        0 <= r < net.drives.len() ==> l.origin[#[trigger] tape.reg_in_slots@[r] as int]
            == net.drives[r]
    &&& tape.reg_initial@ == Seq::new(net.inits.len(), |r: int| bit(net.inits[r]))
    &&& tape.input_slots@.len() == net.inputs
    &&& forall|j: int, k: int|
        0 <= j < k < tape.const_slots@.len() ==> (#[trigger] tape.const_slots@[j]).0 < (
        #[trigger] tape.const_slots@[k]).0
    &&& forall|i: int|
        0 <= i < net.nodes.len() && kept(net, l.rep, l.live, i) ==> #[trigger] l.level[i]
            < tape.levels@.len()
    &&& tape.levels@.len() == 1 || exists|i: int|
        0 <= i < net.nodes.len() && kept(net, l.rep, l.live, i) && #[trigger] l.level[i] + 1
            == tape.levels@.len()
    &&& forall|k: int|
        0 < k < tape.runs@.len() ==> #[trigger] run_changes(tape.runs@, tape.slot_level@, k)
}

/// The tape of a netlist.
pub open spec fn lowered(net: Netlist, tape: Compiled) -> bool {
    exists|l: Lowering| is_lowering(net, l, tape)
}

/// Two netlists that no user of an engine can tell apart: they have the same
/// taps, start alike, and agree on every tick. Outputs that tap a source tap
/// the same source, so they also agree between ticks.
pub open spec fn same_machine(m1: Netlist, m2: Netlist) -> bool {
    &&& m1.inputs == m2.inputs
    &&& m1.inits == m2.inits
    &&& m1.outs.len() == m2.outs.len()
    &&& m1.drives.len() == m2.drives.len()
    &&& forall|env: Env| #[trigger] m1.outputs(env) == m2.outputs(env)
    &&& forall|env: Env| #[trigger] m1.next_state(env) == m2.next_state(env)
    &&& forall|k: int|
        0 <= k < m1.outs.len() ==> {
            let x1 = m1.nodes[#[trigger] m1.outs[k]];
            let x2 = m2.nodes[m2.outs[k]];
            x1 == x2 || (x1 is Gate && x2 is Gate)
        }
}

} // verus!
