//! Circuits and the builder that makes them.
use vstd::prelude::*;
use vstd::string::StringExecFns;

use crate::entity::{
    ids, inst_seq, insts_get, insts_len, insts_new, insts_push, list_is_nil, list_items, list_live, list_new,
    list_push, list_slice, node_of, pool_lists, pool_new, pool_words, reg_seq, regs_get, regs_len,
    regs_new, regs_push, regs_set, InstData, InstMap, Instruction, Reg, RegMap, Register, Signal,
    SignalList, SignalPool,
};

use crate::kahn::{
    is_kahn_order, kahn_order_is_unique, lemma_gates_scheduled, lemma_onto, lemma_renumber_wf, nodes_of, places, rename,
    renumber, schedule, topo_order,
};
use crate::netlist::{
    acyclic, arity_ok, deps, gate_arity, gate_count, gate_nodes, lemma_gate_push, lemma_gates_grow,
    node_closed, GateOp, Netlist, Node,
};

verus! {

broadcast use {Signal::lemma_range, Reg::lemma_range};

/// How many signals a circuit may hold; they are numbered with 32 bits.
pub const MAX_SIGNALS: usize = 0xffff_fffe;

/// How many gates a circuit may hold: operand lists occupy four words of a
/// pool that is addressed with 32 bits.
pub const MAX_GATES: usize = 0x3fff_fffe;

/// A finished circuit. Instructions are in topological order: every operand
/// of a gate precedes it.
#[derive(Debug)]
pub struct Circuit {
    pub insts: InstMap,
    pub regs: RegMap,
    pub input_names: Vec<String>,
    pub output_names: Vec<String>,
    pub output_signals: Vec<Signal>,
    pub debug_names: Vec<String>,
    pub list_pool: SignalPool,
    pub input_count: u32,
    pub register_count: u32,
    /// How many outputs there are, modulo 2^32.
    pub output_count: u32,
}

#[derive(PartialEq, Eq, Copy, Clone, Debug)]
#[non_exhaustive]
pub enum Error {
    CycleDetected,
}

impl Error {
    /// What went wrong, in words.
    pub fn message(&self) -> (text: &'static str)
        ensures
            text@ == "Cycle detected in combinational logic"@,
    {
        match self {
            Error::CycleDetected => "Cycle detected in combinational logic",
        }
    }
}

/// The netlist that a map of instructions, a map of registers and a list of
/// outputs describe.
pub open spec fn net_of(
    insts: Seq<Instruction>,
    pool: SignalPool,
    regs: Seq<Register>,
    outs: Seq<Signal>,
    inputs: nat,
) -> Netlist {
    Netlist {
        nodes: Seq::new(insts.len(), |i: int| node_of(insts[i].data, pool)),
        labels: Seq::new(insts.len(), |i: int| insts[i].debug_name_index),
        drives: Seq::new(regs.len(), |r: int| regs[r].data_input.id()),
        inits: Seq::new(regs.len(), |r: int| regs[r].initial),
        reg_labels: Seq::new(regs.len(), |r: int| regs[r].name_index),
        outs: ids(outs),
        inputs,
    }
}

/// Every gate's operand list lives in the pool.
pub open spec fn lists_live(insts: Seq<Instruction>, pool: SignalPool) -> bool {
    forall|i: int|
        0 <= i < insts.len() ==> ((#[trigger] insts[i]).data matches InstData::Gate { inputs, .. }
            ==> !list_is_nil(inputs) && pool_lists(pool).contains_key(inputs))
}

impl Circuit {
    /// The netlist this circuit stands for.
    pub open spec fn net(&self) -> Netlist {
        net_of(
            inst_seq(self.insts),
            self.list_pool,
            reg_seq(self.regs),
            self.output_signals@,
            self.input_count as nat,
        )
    }

    /// What every finished circuit satisfies.
    pub open spec fn wf(&self) -> bool {
        &&& self.net().shaped()
        &&& self.net().ordered()
        &&& self.net().taps_closed()
        &&& lists_live(inst_seq(self.insts), self.list_pool)
        &&& self.net().nodes.len() <= MAX_SIGNALS
        &&& gate_count(self.net().nodes) <= MAX_GATES
        &&& self.net().drives.len() <= self.net().nodes.len()
        &&& self.register_count == self.net().drives.len()
        &&& self.output_count == self.net().outs.len() % 0x1_0000_0000
        &&& self.input_names@.len() == self.input_count
        &&& self.output_names@.len() == self.net().outs.len()
    }

    /// The state every register powers on with.
    pub fn initial_state(&self) -> (state: Vec<bool>)
        requires
            self.wf(),
        ensures
            state@ == self.net().inits,
    {
        let n = regs_len(&self.regs);
        let mut state: Vec<bool> = Vec::new();
        for r in 0..n
            invariant
                n == self.net().inits.len(),
                n <= MAX_SIGNALS,
                state@ == self.net().inits.take(r as int),
                self.net() == net_of(
                    inst_seq(self.insts),
                    self.list_pool,
                    reg_seq(self.regs),
                    self.output_signals@,
                    self.input_count as nat,
                ),
        {
            let key = Reg::from_index(r);
            state.push(regs_get(&self.regs, key).initial);
            assert(self.net().inits.take(r + 1) == self.net().inits.take(r as int).push(
                self.net().inits[r as int],
            ));
        }
        assert(self.net().inits.take(n as int) == self.net().inits);
        state
    }
}

/// A copy of a list of names.
fn copy_names(names: &Vec<String>) -> (copy: Vec<String>)
    ensures
        copy@.len() == names@.len(),
        forall|i: int| 0 <= i < names@.len() ==> (#[trigger] copy@[i])@ == names@[i]@,
{
    let mut copy: Vec<String> = Vec::with_capacity(names.len());
    for i in 0..names.len()
        invariant
            copy@.len() == i,
            forall|j: int| 0 <= j < i ==> (#[trigger] copy@[j])@ == names@[j]@,
    {
        copy.push(String::from_str(names[i].as_str()));
    }
    copy
}

/// A copy of a list of signals.
fn copy_signals(signals: &Vec<Signal>) -> (copy: Vec<Signal>)
    ensures
        copy@ == signals@,
{
    let mut copy: Vec<Signal> = Vec::with_capacity(signals.len());
    for i in 0..signals.len()
        invariant
            copy@ == signals@.take(i as int),
    {
        copy.push(signals[i]);
        assert(signals@.take(i + 1) =~= signals@.take(i as int).push(signals@[i as int]));
    }
    assert(signals@.take(signals@.len() as int) =~= signals@);
    copy
}

/// The same names.
pub open spec fn same_names(a: Seq<String>, b: Seq<String>) -> bool {
    a.len() == b.len() && forall|i: int| 0 <= i < a.len() ==> (#[trigger] a[i])@ == b[i]@
}

impl Clone for Circuit {
    fn clone(&self) -> (copy: Self)
        ensures
            copy.net() == self.net(),
            self.wf() ==> copy.wf(),
            same_names(copy.input_names@, self.input_names@),
            same_names(copy.output_names@, self.output_names@),
            same_names(copy.debug_names@, self.debug_names@),
    {
        let copy = Self {
            insts: self.insts.clone(),
            regs: self.regs.clone(),
            input_names: copy_names(&self.input_names),
            output_names: copy_names(&self.output_names),
            output_signals: copy_signals(&self.output_signals),
            debug_names: copy_names(&self.debug_names),
            list_pool: self.list_pool.clone(),
            input_count: self.input_count,
            register_count: self.register_count,
            output_count: self.output_count,
        };
        assert(copy.net() =~= self.net());
        copy
    }
}

/// Builds a [`Circuit`] node by node.
pub struct CircuitBuilder {
    insts: InstMap,
    regs: RegMap,
    input_names: Vec<String>,
    output_names: Vec<String>,
    output_signals: Vec<Signal>,
    debug_names: Vec<String>,
    list_pool: SignalPool,
    next_input_index: u32,
}

impl Default for CircuitBuilder {
    fn default() -> (b: Self)
        ensures
            b.inv(),
            b.net() == Netlist::empty(),
    {
        Self::new()
    }
}

impl CircuitBuilder {
    /// The netlist built so far.
    pub closed spec fn net(&self) -> Netlist {
        net_of(
            inst_seq(self.insts),
            self.list_pool,
            reg_seq(self.regs),
            self.output_signals@,
            self.next_input_index as nat,
        )
    }

    pub closed spec fn input_names(&self) -> Seq<String> {
        self.input_names@
    }

    pub closed spec fn output_names(&self) -> Seq<String> {
        self.output_names@
    }

    pub closed spec fn debug_names(&self) -> Seq<String> {
        self.debug_names@
    }

    /// What every builder satisfies, whatever signals it was handed.
    pub closed spec fn inv(&self) -> bool {
        &&& self.net().shaped()
        &&& lists_live(inst_seq(self.insts), self.list_pool)
        &&& pool_words(self.list_pool) <= 4 * self.gates()
        &&& self.gates() <= MAX_GATES
        &&& self.net().nodes.len() <= MAX_SIGNALS
        &&& self.net().drives.len() + self.net().inputs <= self.net().nodes.len()
        &&& self.input_names@.len() == self.next_input_index
        &&& self.output_names@.len() == self.output_signals@.len()
        &&& self.debug_names@.len() == self.net().drives.len()
    }

    /// How many gates the builder holds.
    pub open spec fn gates(&self) -> nat {
        gate_count(self.net().nodes)
    }

    /// Room for `k` more signals that are no gates.
    pub open spec fn source_room(&self, k: int) -> bool {
        self.net().nodes.len() + k <= MAX_SIGNALS
    }

    /// Room for `k` more signals, whatever they are.
    pub open spec fn room(&self, k: int) -> bool {
        self.source_room(k) && self.gates() + k <= MAX_GATES
    }

    /// The signal belongs to the builder.
    pub open spec fn has(&self, s: Signal) -> bool {
        s.id() < self.net().nodes.len()
    }

    /// The part of the invariant that callers can rely on.
    pub proof fn lemma_inv(&self)
        requires
            self.inv(),
        ensures
            self.net().shaped(),
            self.net().nodes.len() <= MAX_SIGNALS,
            self.gates() <= MAX_GATES,
            self.net().drives.len() + self.net().inputs <= self.net().nodes.len(),
            self.input_names().len() == self.net().inputs,
            self.output_names().len() == self.net().outs.len(),
            self.debug_names().len() == self.net().drives.len(),
    {
    }

    pub fn new() -> (b: Self)
        ensures
            b.inv(),
            b.net() == Netlist::empty(),
            b.input_names() == Seq::<String>::empty(),
            b.output_names() == Seq::<String>::empty(),
            b.debug_names() == Seq::<String>::empty(),
    {
        let b = Self {
            insts: insts_new(),
            regs: regs_new(),
            input_names: Vec::new(),
            output_names: Vec::new(),
            output_signals: Vec::new(),
            debug_names: Vec::new(),
            list_pool: pool_new(),
            next_input_index: 0,
        };
        assert(b.net() =~= Netlist::empty());
        b
    }

    /// Append an instruction that is no gate.
    fn push_source(&mut self, data: InstData, label: Option<u32>) -> (s: Signal)
        requires
            old(self).net().nodes.len() < MAX_SIGNALS,
            lists_live(inst_seq(old(self).insts), old(self).list_pool),
            !(data is Gate),
        ensures
            lists_live(inst_seq(final(self).insts), final(self).list_pool),
            final(self).list_pool == old(self).list_pool,
            final(self).regs == old(self).regs,
            final(self).input_names == old(self).input_names,
            final(self).output_names == old(self).output_names,
            final(self).output_signals == old(self).output_signals,
            final(self).debug_names == old(self).debug_names,
            final(self).next_input_index == old(self).next_input_index,
            final(self).net() == (Netlist {
                nodes: old(self).net().nodes.push(node_of(data, old(self).list_pool)),
                labels: old(self).net().labels.push(label),
                ..old(self).net()
            }),
            final(self).gates() == old(self).gates(),
            s.id() == old(self).net().nodes.len(),
    {
        let s = insts_push(&mut self.insts, Instruction { data, debug_name_index: label });
        assert(self.net() =~= Netlist {
            nodes: old(self).net().nodes.push(node_of(data, old(self).list_pool)),
            labels: old(self).net().labels.push(label),
            ..old(self).net()
        });
        proof {
            lemma_gate_push(old(self).net().nodes, node_of(data, old(self).list_pool));
        }
        s
    }

    /// Declare the next input. It keeps its value until it is changed.
    pub fn input<T: Into<String>>(&mut self, name: T) -> (s: Signal)
        requires
            old(self).inv(),
            old(self).source_room(1),
        ensures
            final(self).inv(),
            final(self).gates() == old(self).gates(),
            s.id() == old(self).net().nodes.len(),
            final(self).net() == (Netlist {
                nodes: old(self).net().nodes.push(Node::Input(old(self).net().inputs as int)),
                labels: old(self).net().labels.push(None),
                inputs: old(self).net().inputs + 1,
                ..old(self).net()
            }),
            final(self).input_names().len() == old(self).input_names().len() + 1,
            final(self).input_names().drop_last() == old(self).input_names(),
            call_ensures(T::into, (name,), final(self).input_names().last()),
            final(self).output_names() == old(self).output_names(),
            final(self).debug_names() == old(self).debug_names(),
    {
        let name: String = name.into();
        let s = self.input_named(name);
        assert(self.input_names().drop_last() =~= old(self).input_names());
        s
    }

    /// Declare the next input under the given name.
    pub(crate) fn input_named(&mut self, name: String) -> (s: Signal)
        requires
            old(self).inv(),
            old(self).source_room(1),
        ensures
            final(self).inv(),
            final(self).gates() == old(self).gates(),
            s.id() == old(self).net().nodes.len(),
            final(self).net() == (Netlist {
                nodes: old(self).net().nodes.push(Node::Input(old(self).net().inputs as int)),
                labels: old(self).net().labels.push(None),
                inputs: old(self).net().inputs + 1,
                ..old(self).net()
            }),
            final(self).input_names() == old(self).input_names().push(name),
            final(self).output_names() == old(self).output_names(),
            final(self).debug_names() == old(self).debug_names(),
    {
        let ghost before = self.net();
        let index = self.next_input_index;
        self.next_input_index = self.next_input_index + 1;
        self.input_names.push(name);
        let s = self.push_source(InstData::Input { index }, None);
        proof {
            assert(self.net() =~= Netlist {
                nodes: before.nodes.push(Node::Input(before.inputs as int)),
                labels: before.labels.push(None),
                inputs: before.inputs + 1,
                ..before
            });
            lemma_push_shaped(before, self.net(), Node::Input(before.inputs as int));
        }
        s
    }

    pub fn const_val(&mut self, value: bool) -> (s: Signal)
        requires
            old(self).inv(),
            old(self).source_room(1),
        ensures
            final(self).inv(),
            final(self).gates() == old(self).gates(),
            s.id() == old(self).net().nodes.len(),
            final(self).net() == (Netlist {
                nodes: old(self).net().nodes.push(Node::Const(value)),
                labels: old(self).net().labels.push(None),
                ..old(self).net()
            }),
            final(self).input_names() == old(self).input_names(),
            final(self).output_names() == old(self).output_names(),
            final(self).debug_names() == old(self).debug_names(),
    {
        let ghost before = self.net();
        let s = self.push_source(InstData::Const { value }, None);
        proof {
            lemma_push_shaped(before, self.net(), Node::Const(value));
        }
        s
    }

    /// Append a gate over the given operands.
    fn gate(&mut self, op: GateOp, ins: &[Signal]) -> (s: Signal)
        requires
            old(self).inv(),
            old(self).room(1),
            ins@.len() == gate_arity(op),
        ensures
            final(self).inv(),
            final(self).gate_added(old(self), op, ids(ins@), s),
    {
        let ghost before = self.net();
        let ghost pool0 = self.list_pool;
        let inputs = make_list(ins, &mut self.list_pool);
        let s = insts_push(
            &mut self.insts,
            Instruction { data: InstData::Gate { op, inputs }, debug_name_index: None },
        );
        proof {
            let node = Node::Gate(op, ids(ins@));
            lemma_gate_push(before.nodes, node);
            lemma_pool_grows(inst_seq(old(self).insts), pool0, self.list_pool, inputs, ins@);
            assert(self.net() =~= Netlist {
                nodes: before.nodes.push(node),
                labels: before.labels.push(None),
                ..before
            });
            lemma_push_shaped(before, self.net(), node);
        }
        s
    }

    /// The builder is `before` with one gate more, which is `s`.
    pub open spec fn gate_added(&self, before: &Self, op: GateOp, ins: Seq<int>, s: Signal) -> bool {
        &&& s.id() == before.net().nodes.len()
        &&& self.gates() == before.gates() + 1
        &&& self.net() == (Netlist {
            nodes: before.net().nodes.push(Node::Gate(op, ins)),
            labels: before.net().labels.push(None),
            ..before.net()
        })
        &&& self.input_names() == before.input_names()
        &&& self.output_names() == before.output_names()
        &&& self.debug_names() == before.debug_names()
    }

    pub fn unary(&mut self, op: GateOp, input: Signal) -> (s: Signal)
        requires
            old(self).inv(),
            old(self).room(1),
            op is Not || op is Buf,
        ensures
            final(self).inv(),
            final(self).gate_added(old(self), op, seq![input.id()], s),
    {
        let ins = [input];
        let s = self.gate(op, &ins);
        assert(ids(ins@) =~= seq![input.id()]);
        s
    }

    pub fn binary(&mut self, op: GateOp, a: Signal, b: Signal) -> (s: Signal)
        requires
            old(self).inv(),
            old(self).room(1),
            gate_arity(op) == 2,
        ensures
            final(self).inv(),
            final(self).gate_added(old(self), op, seq![a.id(), b.id()], s),
    {
        let s = self.gate(op, &[a, b]);
        assert(ids(seq![a, b]) =~= seq![a.id(), b.id()]);
        s
    }

    /// `if sel { then_val } else { else_val }`.
    pub fn mux(&mut self, sel: Signal, then_val: Signal, else_val: Signal) -> (s: Signal)
        requires
            old(self).inv(),
            old(self).room(1),
        ensures
            final(self).inv(),
            final(self).gate_added(
                old(self),
                GateOp::Mux,
                seq![sel.id(), then_val.id(), else_val.id()],
                s,
            ),
    {
        let s = self.gate(GateOp::Mux, &[sel, then_val, else_val]);
        assert(ids(seq![sel, then_val, else_val]) =~= seq![sel.id(), then_val.id(), else_val.id()]);
        s
    }

    pub fn and(&mut self, a: Signal, b: Signal) -> (s: Signal)
        requires
            old(self).inv(),
            old(self).room(1),
        ensures
            final(self).inv(),
            final(self).gate_added(old(self), GateOp::And, seq![a.id(), b.id()], s),
    {
        self.binary(GateOp::And, a, b)
    }

    pub fn or(&mut self, a: Signal, b: Signal) -> (s: Signal)
        requires
            old(self).inv(),
            old(self).room(1),
        ensures
            final(self).inv(),
            final(self).gate_added(old(self), GateOp::Or, seq![a.id(), b.id()], s),
    {
        self.binary(GateOp::Or, a, b)
    }

    pub fn xor(&mut self, a: Signal, b: Signal) -> (s: Signal)
        requires
            old(self).inv(),
            old(self).room(1),
        ensures
            final(self).inv(),
            final(self).gate_added(old(self), GateOp::Xor, seq![a.id(), b.id()], s),
    {
        self.binary(GateOp::Xor, a, b)
    }

    pub fn not(&mut self, a: Signal) -> (s: Signal)
        requires
            old(self).inv(),
            old(self).room(1),
        ensures
            final(self).inv(),
            final(self).gate_added(old(self), GateOp::Not, seq![a.id()], s),
    {
        self.unary(GateOp::Not, a)
    }

    pub fn buf(&mut self, a: Signal) -> (s: Signal)
        requires
            old(self).inv(),
            old(self).room(1),
        ensures
            final(self).inv(),
            final(self).gate_added(old(self), GateOp::Buf, seq![a.id()], s),
    {
        self.unary(GateOp::Buf, a)
    }

    pub fn nand(&mut self, a: Signal, b: Signal) -> (s: Signal)
        requires
            old(self).inv(),
            old(self).room(1),
        ensures
            final(self).inv(),
            final(self).gate_added(old(self), GateOp::Nand, seq![a.id(), b.id()], s),
    {
        self.binary(GateOp::Nand, a, b)
    }

    pub fn nor(&mut self, a: Signal, b: Signal) -> (s: Signal)
        requires
            old(self).inv(),
            old(self).room(1),
        ensures
            final(self).inv(),
            final(self).gate_added(old(self), GateOp::Nor, seq![a.id(), b.id()], s),
    {
        self.binary(GateOp::Nor, a, b)
    }

    pub fn xnor(&mut self, a: Signal, b: Signal) -> (s: Signal)
        requires
            old(self).inv(),
            old(self).room(1),
        ensures
            final(self).inv(),
            final(self).gate_added(old(self), GateOp::Xnor, seq![a.id(), b.id()], s),
    {
        self.binary(GateOp::Xnor, a, b)
    }

    /// A register and its output signal. `data` is the signal that feeds it.
    pub(crate) fn push_register(&mut self, name: String, data: Option<Signal>, initial: bool) -> (res: (Reg, Signal))
        requires
            old(self).inv(),
            old(self).source_room(1),
        ensures
            final(self).inv(),
            res.0.id() == old(self).net().drives.len(),
            res.1.id() == old(self).net().nodes.len(),
            final(self).register_added(
                old(self),
                match data {
                    Some(s) => s.id(),
                    None => old(self).net().nodes.len() as int,
                },
                initial,
            ),
            final(self).debug_names() == old(self).debug_names().push(name),
    {
        let ghost before = self.net();
        let name_index = self.debug_names.len() as u32;
        self.debug_names.push(name);
        let data_input = match data {
            Some(s) => s,
            None => Signal::from_index(insts_len(&self.insts)),
        };
        let reg = regs_push(
            &mut self.regs,
            Register { data_input, initial, name_index: Some(name_index) },
        );
        let s = self.push_source(InstData::RegisterOutput { reg }, Some(name_index));
        proof {
            assert(self.debug_names@.drop_last() =~= old(self).debug_names@);
            assert(self.net() =~= Netlist {
                nodes: before.nodes.push(Node::RegOut(before.drives.len() as int)),
                labels: before.labels.push(Some(before.drives.len() as u32)),
                drives: before.drives.push(data_input.id()),
                inits: before.inits.push(initial),
                reg_labels: before.reg_labels.push(Some(before.drives.len() as u32)),
                ..before
            });
            lemma_push_shaped(before, self.net(), Node::RegOut(before.drives.len() as int));
        }
        (reg, s)
    }

    /// The builder is `before` with one register more, driven by node `drive`.
    pub open spec fn register_added(&self, before: &Self, drive: int, initial: bool) -> bool {
        let k = before.net().drives.len();
        &&& self.gates() == before.gates()
        &&& self.net() == (Netlist {
            nodes: before.net().nodes.push(Node::RegOut(k as int)),
            labels: before.net().labels.push(Some(k as u32)),
            drives: before.net().drives.push(drive),
            inits: before.net().inits.push(initial),
            reg_labels: before.net().reg_labels.push(Some(k as u32)),
            ..before.net()
        })
        &&& self.input_names() == before.input_names()
        &&& self.output_names() == before.output_names()
        &&& self.debug_names().len() == before.debug_names().len() + 1
        &&& self.debug_names().drop_last() == before.debug_names()
    }

    /// A register fed by `data_input`; returns its output.
    pub fn register<T: Into<String>>(&mut self, name: T, data_input: Signal, initial: bool) -> (s: Signal)
        requires
            old(self).inv(),
            old(self).source_room(1),
        ensures
            final(self).inv(),
            s.id() == old(self).net().nodes.len(),
            final(self).register_added(old(self), data_input.id(), initial),
            call_ensures(T::into, (name,), final(self).debug_names().last()),
    {
        let name: String = name.into();
        let (_, s) = self.push_register(name, Some(data_input), initial);
        s
    }

    /// A register that holds its value until [`CircuitBuilder::drive`] feeds
    /// it; returns the register and its output.
    pub fn reg<T: Into<String>>(&mut self, name: T, initial: bool) -> (res: (Reg, Signal))
        requires
            old(self).inv(),
            old(self).source_room(1),
        ensures
            final(self).inv(),
            res.0.id() == old(self).net().drives.len(),
            res.1.id() == old(self).net().nodes.len(),
            final(self).register_added(old(self), old(self).net().nodes.len() as int, initial),
            call_ensures(T::into, (name,), final(self).debug_names().last()),
    {
        let name: String = name.into();
        self.push_register(name, None, initial)
    }

    /// Feed a register from `signal`.
    pub fn drive(&mut self, reg: Reg, signal: Signal)
        requires
            old(self).inv(),
            reg.id() < old(self).net().drives.len(),
        ensures
            final(self).inv(),
            final(self).net() == (Netlist {
                drives: old(self).net().drives.update(reg.id(), signal.id()),
                ..old(self).net()
            }),
            final(self).input_names() == old(self).input_names(),
            final(self).output_names() == old(self).output_names(),
            final(self).debug_names() == old(self).debug_names(),
    {
        let ghost before = self.net();
        let cur = *regs_get(&self.regs, reg);
        regs_set(&mut self.regs, reg, Register { data_input: signal, ..cur });
        proof {
            assert(self.net() =~= Netlist {
                drives: before.drives.update(reg.id(), signal.id()),
                ..before
            });
            assert forall|k: int| 0 <= k < before.inputs implies #[trigger] self.net().has_input(k) by {
                assert(before.has_input(k));
            }
            assert forall|r: int| 0 <= r < before.drives.len() implies #[trigger] self.net().has_reg(r) by {
                assert(before.has_reg(r));
            }
        }
    }

    /// Declare `signal` as the next output.
    pub fn output<T: Into<String>>(&mut self, name: T, signal: Signal)
        requires
            old(self).inv(),
        ensures
            final(self).inv(),
            final(self).net() == (Netlist {
                outs: old(self).net().outs.push(signal.id()),
                ..old(self).net()
            }),
            final(self).output_names().len() == old(self).output_names().len() + 1,
            final(self).output_names().drop_last() == old(self).output_names(),
            call_ensures(T::into, (name,), final(self).output_names().last()),
            final(self).input_names() == old(self).input_names(),
            final(self).debug_names() == old(self).debug_names(),
    {
        let name: String = name.into();
        self.output_named(name, signal);
        assert(self.output_names().drop_last() =~= old(self).output_names());
    }

    /// Declare `signal` as the next output, under the given name.
    pub(crate) fn output_named(&mut self, name: String, signal: Signal)
        requires
            old(self).inv(),
        ensures
            final(self).inv(),
            final(self).net() == (Netlist {
                outs: old(self).net().outs.push(signal.id()),
                ..old(self).net()
            }),
            final(self).output_names() == old(self).output_names().push(name),
            final(self).input_names() == old(self).input_names(),
            final(self).debug_names() == old(self).debug_names(),
    {
        let ghost before = self.net();
        self.output_names.push(name);
        self.output_signals.push(signal);
        proof {
            assert(self.net() =~= Netlist { outs: before.outs.push(signal.id()), ..before });
            assert forall|k: int| 0 <= k < before.inputs implies #[trigger] self.net().has_input(k) by {
                assert(before.has_input(k));
            }
            assert forall|r: int| 0 <= r < before.drives.len() implies #[trigger] self.net().has_reg(r) by {
                assert(before.has_reg(r));
            }
        }
    }

    /// Schedule the circuit. The order of the signals is fixed by the nodes
    /// (see [`schedule`]); the only error is a combinational cycle.
    pub fn finish(self) -> (res: Result<Circuit, Error>)
        requires
            self.inv(),
            self.net().closed_gates(),
            self.net().taps_closed(),
        ensures
            res is Err <==> !acyclic(self.net().nodes),
            res matches Ok(c) ==> c.wf() && is_kahn_order(
                self.net().nodes,
                schedule(self.net().nodes),
            ) && c.net() == renumber(self.net(), schedule(self.net().nodes)) && c.input_names@
                == self.input_names() && c.output_names@ == self.output_names() && c.debug_names@
                == self.debug_names(),
    {
        let ghost net = self.net();
        assert(nodes_of(self.insts, self.list_pool) =~= net.nodes);
        assert forall|i: int| 0 <= i < net.nodes.len() implies deps(#[trigger] net.nodes[i]).len() <= 3 by {
            assert(arity_ok(net.nodes[i]));
        }
        let order = match topo_order(&self.insts, &self.list_pool) {
            Ok(order) => order,
            Err(e) => {
                return Err(e);
            },
        };
        let ghost o = ids(order@);
        let n: usize = order.len();
        let register_count = regs_len(&self.regs) as u32;
        let output_count = (self.output_names.len() as u64 % 0x1_0000_0000) as u32;

        // old signal id -> position in the schedule (= new signal id)
        let mut remap: Vec<Signal> = Vec::with_capacity(n);
        for _i in 0..n
            invariant
                remap@.len() == _i,
        {
            remap.push(Signal::from_index(0));
        }
        for i in 0..n
            invariant
                n == order@.len(),
                n == net.nodes.len(),
                n <= MAX_SIGNALS,
                o == ids(order@),
                is_kahn_order(net.nodes, o),
                remap@.len() == n,
                forall|j: int| 0 <= j < i ==> remap@[#[trigger] o[j]].id() == j,
        {
            let old_index: usize = order[i].as_u32() as usize;
            assert(o[i as int] == old_index);
            assert forall|j: int| 0 <= j < i implies #[trigger] o[j] != old_index by {}
            remap.set(old_index, Signal::from_index(i));
        }
        assert forall|x: int| 0 <= x < n implies (#[trigger] remap@[x]).id() == o.index_of(x) by {
            lemma_onto(o, x);
            assert(remap@[o[o.index_of(x)]].id() == o.index_of(x));
        }

        proof {
            lemma_gates_scheduled(net, o);
        }
        let mut list_pool = pool_new();
        let mut insts = insts_new();
        for i in 0..n
            invariant
                n == order@.len(),
                n == net.nodes.len(),
                n <= MAX_SIGNALS,
                net == self.net(),
                self.inv(),
                net.closed_gates(),
                o == ids(order@),
                is_kahn_order(net.nodes, o),
                remap@.len() == n,
                forall|x: int| 0 <= x < n ==> (#[trigger] remap@[x]).id() == o.index_of(x),
                lists_live(inst_seq(insts), list_pool),
                pool_words(list_pool) <= 4 * gate_nodes(renumber(net, o).nodes, i as int),
                gate_nodes(renumber(net, o).nodes, n as int) == gate_count(net.nodes),
                inst_seq(insts).len() == i,
                forall|j: int|
                    0 <= j < i ==> node_of((#[trigger] inst_seq(insts)[j]).data, list_pool) == rename(
                        net.nodes[o[j]],
                        o,
                    ),
                forall|j: int|
                    0 <= j < i ==> (#[trigger] inst_seq(insts)[j]).debug_name_index == net.labels[o[j]],
        {
            let sig = order[i];
            assert(o[i as int] == sig.id());
            let ghost at = sig.id();
            proof {
                let new = renumber(net, o).nodes;
                assert(new[i as int] == rename(net.nodes[at], o));
                lemma_gates_grow(new, i + 1, n as int);
            }
            let inst = insts_get(&self.insts, sig);
            let ghost pool0 = list_pool;
            assert(node_of(inst.data, self.list_pool) == net.nodes[at]);
            assert(node_closed(net.nodes, at));
            assert(arity_ok(net.nodes[at]));
            let data = match &inst.data {
                InstData::Gate { op, inputs } => {
                    let items = list_slice(inputs, &self.list_pool);
                    let mut renamed: Vec<Signal> = Vec::new();
                    assert(deps(net.nodes[at]) == ids(items@));
                    for k in 0..items.len()
                        invariant
                            remap@.len() == n,
                            forall|x: int| 0 <= x < n ==> (#[trigger] remap@[x]).id() == o.index_of(x),
                            n == net.nodes.len(),
                            node_closed(net.nodes, at),
                            deps(net.nodes[at]) == ids(items@),
                            renamed@.len() == k,
                            forall|j: int|
                                0 <= j < k ==> (#[trigger] renamed@[j]).id() == o.index_of(ids(items@)[j]),
                    {
                        assert(0 <= deps(net.nodes[at])[k as int] < n);
                        renamed.push(remap[items[k].as_u32() as usize]);
                    }
                    let list = make_list(renamed.as_slice(), &mut list_pool);
                    proof {
                        lemma_pool_grows(inst_seq(insts), pool0, list_pool, list, renamed@);
                        assert(ids(renamed@) =~= places(ids(items@), o));
                    }
                    InstData::Gate { op: *op, inputs: list }
                },
                InstData::Const { value } => InstData::Const { value: *value },
                InstData::Input { index } => InstData::Input { index: *index },
                InstData::RegisterOutput { reg } => InstData::RegisterOutput { reg: *reg },
            };
            let ghost insts0 = inst_seq(insts);
            insts_push(&mut insts, Instruction { data, debug_name_index: inst.debug_name_index });
            assert forall|j: int| 0 <= j < i + 1 implies node_of(
                (#[trigger] inst_seq(insts)[j]).data,
                list_pool,
            ) == rename(net.nodes[o[j]], o) by {
                if j < i {
                    assert(inst_seq(insts)[j] == insts0[j]);
                }
            }
        }

        let mut regs = regs_new();
        let reg_count: usize = regs_len(&self.regs);
        for r in 0..reg_count
            invariant
                n == net.nodes.len(),
                net == self.net(),
                self.inv(),
                net.taps_closed(),
                reg_count == net.drives.len(),
                remap@.len() == n,
                forall|x: int| 0 <= x < n ==> (#[trigger] remap@[x]).id() == o.index_of(x),
                reg_seq(regs).len() == r,
                forall|j: int|
                    0 <= j < r ==> (#[trigger] reg_seq(regs)[j]).data_input.id() == o.index_of(
                        net.drives[j],
                    ) && reg_seq(regs)[j].initial == net.inits[j] && reg_seq(regs)[j].name_index
                        == net.reg_labels[j],
        {
            let reg = *regs_get(&self.regs, Reg::from_index(r));
            assert(reg.data_input.id() == net.drives[r as int]);
            regs_push(
                &mut regs,
                Register { data_input: remap[reg.data_input.as_u32() as usize], ..reg },
            );
        }

        let mut output_signals: Vec<Signal> = Vec::new();
        for k in 0..self.output_signals.len()
            invariant
                n == net.nodes.len(),
                net == self.net(),
                net.taps_closed(),
                remap@.len() == n,
                forall|x: int| 0 <= x < n ==> (#[trigger] remap@[x]).id() == o.index_of(x),
                output_signals@.len() == k,
                forall|j: int|
                    0 <= j < k ==> (#[trigger] output_signals@[j]).id() == o.index_of(net.outs[j]),
        {
            assert(self.output_signals@[k as int].id() == net.outs[k as int]);
            output_signals.push(remap[self.output_signals[k].as_u32() as usize]);
        }

        let c = Circuit {
            insts,
            regs,
            input_names: self.input_names,
            output_names: self.output_names,
            output_signals,
            debug_names: self.debug_names,
            list_pool,
            input_count: self.next_input_index,
            register_count,
            output_count,
        };
        proof {
            kahn_order_is_unique(net.nodes, o, schedule(net.nodes));
            lemma_renumber_wf(net, o);
            assert(c.net() =~= renumber(net, o));
        }
        Ok(c)
    }
}

/// A list that holds `ins`, in a block of its own.
fn make_list(ins: &[Signal], pool: &mut SignalPool) -> (list: SignalList)
    requires
        1 <= ins@.len() <= 3,
        pool_words(*old(pool)) + 8 <= u32::MAX,
    ensures
        !list_is_nil(list),
        !pool_lists(*old(pool)).contains_key(list),
        pool_lists(*final(pool)) == pool_lists(*old(pool)).insert(list, ins@),
        pool_words(*final(pool)) <= pool_words(*old(pool)) + 4,
{
    let ghost pool0 = *pool;
    let mut inputs: SignalList = list_new();
    for k in 0..ins.len()
        invariant
            ins@.len() <= 3,
            list_live(inputs, *pool),
            list_items(inputs, *pool) == ins@.take(k as int),
            k == 0 ==> list_is_nil(inputs) && *pool == pool0,
            k > 0 ==> !list_is_nil(inputs) && !pool_lists(pool0).contains_key(inputs) && pool_lists(
                *pool,
            ) == pool_lists(pool0).insert(inputs, ins@.take(k as int)),
            pool_words(*pool) <= pool_words(pool0) + (if k == 0 {
                0nat
            } else {
                4
            }),
            pool_words(pool0) + 8 <= u32::MAX,
    {
        list_push(&mut inputs, ins[k], pool);
        assert(ins@.take(k + 1) =~= ins@.take(k as int).push(ins@[k as int]));
        assert(pool_lists(*pool) =~= pool_lists(pool0).insert(inputs, ins@.take(k + 1)));
    }
    assert(ins@.take(ins@.len() as int) =~= ins@);
    inputs
}

/// A new list leaves every gate's operands alone.
proof fn lemma_pool_grows(insts: Seq<Instruction>, before: SignalPool, after: SignalPool, list: SignalList, items: Seq<Signal>)
    requires
        lists_live(insts, before),
        !pool_lists(before).contains_key(list),
        pool_lists(after) == pool_lists(before).insert(list, items),
    ensures
        lists_live(insts, after),
        forall|i: int|
            0 <= i < insts.len() ==> node_of((#[trigger] insts[i]).data, after) == node_of(
                insts[i].data,
                before,
            ),
{
    assert forall|i: int| 0 <= i < insts.len() implies node_of((#[trigger] insts[i]).data, after)
        == node_of(insts[i].data, before) by {
        match insts[i].data {
            InstData::Gate { inputs: l, .. } => {
                assert(pool_lists(before).contains_key(l));
            },
            _ => {},
        }
    }
}

/// Appending one well-shaped node keeps a netlist well-shaped.
proof fn lemma_push_shaped(before: Netlist, after: Netlist, node: Node)
    requires
        before.shaped(),
        after.nodes == before.nodes.push(node),
        after.labels.len() == before.labels.len() + 1,
        after.inits.len() == after.drives.len(),
        after.reg_labels.len() == after.drives.len(),
        arity_ok(node),
        match node {
            Node::Input(k) => k == before.inputs && after.inputs == before.inputs + 1
                && after.drives.len() == before.drives.len(),
            Node::RegOut(r) => r == before.drives.len() && after.drives.len() == before.drives.len() + 1
                && after.inputs == before.inputs,
            _ => after.inputs == before.inputs && after.drives.len() == before.drives.len(),
        },
    ensures
        after.shaped(),
{
    let n = before.nodes.len() as int;
    assert(after.nodes[n] == node);
    assert forall|k: int| 0 <= k < after.inputs implies #[trigger] after.has_input(k) by {
        if k < before.inputs {
            assert(before.has_input(k));
            let i = choose|i: int| 0 <= i < n && #[trigger] before.nodes[i] == Node::Input(k);
            assert(after.nodes[i] == Node::Input(k));
        }
    }
    assert forall|r: int| 0 <= r < after.drives.len() implies #[trigger] after.has_reg(r) by {
        if r < before.drives.len() {
            assert(before.has_reg(r));
            let i = choose|i: int| 0 <= i < n && #[trigger] before.nodes[i] == Node::RegOut(r);
            assert(after.nodes[i] == Node::RegOut(r));
        }
    }
    assert forall|i: int, j: int|
        0 <= i < after.nodes.len() && 0 <= j < after.nodes.len() && #[trigger] after.nodes[i]
            == #[trigger] after.nodes[j] && (after.nodes[i] is Input || after.nodes[i] is RegOut) implies i
        == j by {
        if i < n && j < n {
            assert(before.nodes[i] == before.nodes[j]);
        } else if i < n {
            assert(before.nodes[i] == node);
        } else if j < n {
            assert(before.nodes[j] == node);
        }
    }
}

/// A gate is appended behind what was there and reads its operands in order;
/// nothing else of the circuit changes.
pub proof fn gates_are_appended(
    before: CircuitBuilder,
    after: CircuitBuilder,
    op: GateOp,
    ins: Seq<int>,
    s: Signal,
)
    requires
        after.gate_added(&before, op, ins, s),
    ensures
        s.id() == before.net().nodes.len(),
        after.net().nodes == before.net().nodes.push(Node::Gate(op, ins)),
        after.net().drives == before.net().drives,
        after.net().inits == before.net().inits,
        after.net().outs == before.net().outs,
        after.net().inputs == before.net().inputs,
        after.input_names() == before.input_names(),
        after.output_names() == before.output_names(),
        after.debug_names() == before.debug_names(),
{
}

/// A register is appended behind those that were there, with its initial value
/// and the node that drives it, and its output behind the nodes; nothing else
/// of the circuit changes.
pub proof fn registers_are_appended(before: CircuitBuilder, after: CircuitBuilder, drive: int, initial: bool)
    requires
        after.register_added(&before, drive, initial),
    ensures
        after.net().nodes == before.net().nodes.push(Node::RegOut(before.net().drives.len() as int)),
        after.net().drives == before.net().drives.push(drive),
        after.net().inits == before.net().inits.push(initial),
        after.net().outs == before.net().outs,
        after.net().inputs == before.net().inputs,
        after.input_names() == before.input_names(),
        after.output_names() == before.output_names(),
        after.debug_names().len() == before.debug_names().len() + 1,
        after.debug_names().drop_last() == before.debug_names(),
{
}

/// What a finished circuit's parts add up to.
pub proof fn finished_circuits_add_up(c: Circuit)
    requires
        c.wf(),
    ensures
        c.register_count == c.net().drives.len(),
        c.output_count == c.net().outs.len() % 0x1_0000_0000,
        c.input_count == c.net().inputs,
        c.input_names@.len() == c.net().inputs,
        c.output_names@.len() == c.net().outs.len(),
{
}

} // verus!
