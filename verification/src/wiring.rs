//! From a board to its circuit.
use vstd::prelude::*;
use vstd::string::StringExecFns;

use crate::board::{
    carried, fed, filled_before, first_of, gate_of, gates_before, is_logic, kinds_before, label_of,
    north_of, source_kind, sources_before, west_of, Board, Cell, CellKind, CellPos, Grid,
};
use crate::circuit::{same_names, Circuit, CircuitBuilder, MAX_GATES, MAX_SIGNALS};
use crate::entity::{inst_seq, insts_get, insts_len, node_of, regs_len, InstData, Signal};
use crate::kahn::{
    is_kahn_order, lemma_gates_scheduled, lemma_onto, ordered_is_acyclic, rename, renumber, renumbering_keeps_behaviour,
    schedule,
};
use crate::names::{decimal, push_decimal};
use crate::netlist::{
    gate_nodes, lemma_gate_prefix, node_ordered, node_value, operand, Env, GateOp, Netlist, Node,
};

verus! {

broadcast use Signal::lemma_range;

/// The node of cell `k`: after ground and every filled cell before it.
pub open spec fn place(g: Grid, k: int) -> int {
    1 + filled_before(g.cells, k) as int
}

/// The node of a neighbour; ground where there is none.
pub open spec fn tap(g: Grid, from: Option<int>) -> int {
    match from {
        Some(j) => place(g, j),
        None => 0,
    }
}

/// The node that a cell becomes: an input, a register's output, or a gate
/// over its neighbours' nodes.
pub open spec fn cell_node(kind: CellKind, input: int, reg: int, west: int, north: int, first: int) -> Node {
    if source_kind(kind) {
        Node::Input(input)
    } else if kind == CellKind::Register {
        Node::RegOut(reg)
    } else if kind == CellKind::Not {
        Node::Gate(GateOp::Not, seq![first])
    } else {
        match gate_of(kind) {
            Some(op) => Node::Gate(op, seq![west, north]),
            None => Node::Gate(GateOp::Buf, seq![first]),
        }
    }
}

/// The node that cell `k` becomes.
pub open spec fn node_for(g: Grid, k: int) -> Node {
    cell_node(
        g.cells[k].kind,
        sources_before(g.cells, k) as int,
        kinds_before(g.cells, k, CellKind::Register) as int,
        tap(g, west_of(g, k)),
        tap(g, north_of(g, k)),
        tap(g, first_of(g, k)),
    )
}

/// The netlist with one cell more.
pub open spec fn with_cell(net: Netlist, kind: CellKind, node: Node, first: int) -> Netlist {
    let r = net.drives.len() as u32;
    if kind == CellKind::Empty {
        net
    } else if kind == CellKind::Register {
        Netlist {
            nodes: net.nodes.push(node),
            labels: net.labels.push(Some(r)),
            drives: net.drives.push(first),
            inits: net.inits.push(false),
            reg_labels: net.reg_labels.push(Some(r)),
            ..net
        }
    } else {
        Netlist {
            nodes: net.nodes.push(node),
            labels: net.labels.push(None),
            inputs: net.inputs + if source_kind(kind) {
                1nat
            } else {
                0nat
            },
            ..net
        }
    }
}

/// The netlist of the first `k` cells.
pub open spec fn drawn(g: Grid, k: int) -> Netlist
    decreases k,
{
    if k <= 0 {
        Netlist {
            nodes: seq![Node::Const(false)],
            labels: seq![None],
            drives: seq![],
            inits: seq![],
            reg_labels: seq![],
            outs: seq![0],
            inputs: 0,
        }
    } else {
        let before = drawn(g, k - 1);
        let kind = g.cells[k - 1].kind;
        let net = with_cell(before, kind, node_for(g, k - 1), tap(g, first_of(g, k - 1)));
        if kind == CellKind::Empty {
            net
        } else {
            Netlist { outs: net.outs.push(place(g, k - 1)), ..net }
        }
    }
}

/// Filled cells have increasing nodes.
proof fn lemma_place_grows(cells: Seq<Cell>, j: int, k: int)
    requires
        0 <= j < k,
        cells[j].kind != CellKind::Empty,
    ensures
        filled_before(cells, j) < filled_before(cells, k),
    decreases k,
{
    if j + 1 < k {
        lemma_place_grows(cells, j, k - 1);
    }
}

/// A neighbour's node precedes the cell's own.
proof fn lemma_tap(g: Grid, k: int, from: Option<int>)
    requires
        g.width > 0,
        0 <= k < g.cells.len(),
        from == west_of(g, k) || from == north_of(g, k) || from == first_of(g, k),
    ensures
        0 <= tap(g, from) < place(g, k),
        from matches Some(j) ==> 0 <= j < k && g.cells[j].kind != CellKind::Empty,
{
    if let Some(j) = from {
        assert(k % g.width <= k) by (nonlinear_arith)
            requires
                0 <= k,
                g.width > 0,
        ;
        lemma_place_grows(g.cells, j, k);
    }
}

pub open spec fn drawn_cell(g: Grid, net: Netlist, j: int) -> bool {
    g.cells[j].kind != CellKind::Empty ==> {
        &&& place(g, j) < net.nodes.len()
        &&& net.nodes[place(g, j)] == node_for(g, j)
        &&& g.cells[j].kind == CellKind::Register ==> {
            let r = kinds_before(g.cells, j, CellKind::Register) as int;
            r < net.drives.len() && net.drives[r] == tap(g, first_of(g, j))
        }
    }
}

/// The drawn netlist, node by node.
proof fn lemma_drawn(g: Grid, k: int)
    requires
        g.width > 0,
        0 <= k <= g.cells.len(),
    ensures
        drawn(g, k).nodes.len() == 1 + filled_before(g.cells, k),
        drawn(g, k).labels.len() == drawn(g, k).nodes.len(),
        drawn(g, k).outs.len() == drawn(g, k).nodes.len(),
        drawn(g, k).drives.len() == kinds_before(g.cells, k, CellKind::Register),
        drawn(g, k).inits == Seq::new(drawn(g, k).drives.len(), |r: int| false),
        drawn(g, k).inputs == sources_before(g.cells, k),
        drawn(g, k).nodes[0] == Node::Const(false),
        drawn(g, k).ordered(),
        drawn(g, k).taps_closed(),
        forall|i: int| 0 <= i < drawn(g, k).outs.len() ==> #[trigger] drawn(g, k).outs[i] == i,
        forall|j: int| 0 <= j < k ==> #[trigger] drawn_cell(g, drawn(g, k), j),
    decreases k,
{
    let net = drawn(g, k);
    if k == 0 {
        assert(net.inits =~= Seq::new(0, |r: int| false));
        assert forall|i: int| 0 <= i < net.nodes.len() implies #[trigger] node_ordered(net.nodes, i) by {
        }
    } else {
        let before = drawn(g, k - 1);
        lemma_drawn(g, k - 1);
        assert(net.inits =~= Seq::new(net.drives.len(), |r: int| false));
        lemma_tap(g, k - 1, west_of(g, k - 1));
        lemma_tap(g, k - 1, north_of(g, k - 1));
        lemma_tap(g, k - 1, first_of(g, k - 1));
        assert forall|i: int| 0 <= i < net.nodes.len() implies #[trigger] node_ordered(net.nodes, i) by {
            if i < before.nodes.len() {
                assert(node_ordered(before.nodes, i));
            }
        }
        assert forall|r: int| 0 <= r < net.drives.len() implies 0 <= #[trigger] net.drives[r]
            < net.nodes.len() by {
            if r < before.drives.len() {
                assert(net.drives[r] == before.drives[r]);
            }
        }
        assert forall|j: int| 0 <= j < k implies #[trigger] drawn_cell(g, net, j) by {
            if j < k - 1 {
                assert(drawn_cell(g, before, j));
            }
        }
    }
}

/// Every filled cell's node carries what the cell carries.
proof fn lemma_carried(g: Grid, n: int, env: Env, k: int)
    requires
        g.width > 0,
        0 <= k < n <= g.cells.len(),
        g.cells[k].kind != CellKind::Empty,
    ensures
        node_value(drawn(g, n).nodes, env, place(g, k)) == carried(g, env, k),
    decreases k, 1int,
{
    let nodes = drawn(g, n).nodes;
    lemma_drawn(g, n);
    assert(drawn_cell(g, drawn(g, n), k));
    lemma_fed(g, n, env, k, west_of(g, k));
    lemma_fed(g, n, env, k, north_of(g, k));
    lemma_fed(g, n, env, k, first_of(g, k));
    let kind = g.cells[k].kind;
    let p = place(g, k);
    assert(nodes[p] == node_for(g, k));
    if is_logic(kind) {
        if let Some(op) = gate_of(kind) {
            let ins = seq![tap(g, west_of(g, k)), tap(g, north_of(g, k))];
            assert(operand(ins, 0) == tap(g, west_of(g, k)));
            assert(operand(ins, 1) == tap(g, north_of(g, k)));
        } else {
            let ins = seq![tap(g, first_of(g, k))];
            assert(operand(ins, 0) == tap(g, first_of(g, k)));
        }
    }
}

/// A neighbour's node carries what the neighbour carries; ground is low.
proof fn lemma_fed(g: Grid, n: int, env: Env, k: int, from: Option<int>)
    requires
        g.width > 0,
        0 <= k < n <= g.cells.len(),
        from == west_of(g, k) || from == north_of(g, k) || from == first_of(g, k),
    ensures
        0 <= tap(g, from) < place(g, k),
        node_value(drawn(g, n).nodes, env, tap(g, from)) == match from {
            Some(j) => carried(g, env, j),
            None => false,
        },
        from matches Some(j) ==> 0 <= j < k,
    decreases k, 0int,
{
    lemma_tap(g, k, from);
    match from {
        Some(j) => {
            lemma_carried(g, n, env, j);
        },
        None => {
            lemma_drawn(g, n);
        },
    }
}


/// `LABEL_x_y`.
pub open spec fn source_name(kind: CellKind, x: int, y: int) -> Seq<char> {
    label_of(kind) + "_"@ + decimal(x as nat) + "_"@ + decimal(y as nat)
}

/// `dff_x_y`.
pub open spec fn register_name(x: int, y: int) -> Seq<char> {
    "dff_"@ + decimal(x as nat) + "_"@ + decimal(y as nat)
}

/// `cell_x_y_LABEL`.
pub open spec fn output_name(kind: CellKind, x: int, y: int) -> Seq<char> {
    "cell_"@ + decimal(x as nat) + "_"@ + decimal(y as nat) + "_"@ + label_of(kind)
}

fn coordinates(prefix: &str, x: usize, y: usize) -> (text: String)
    ensures
        text@ == prefix@ + decimal(x as nat) + "_"@ + decimal(y as nat),
{
    let mut text = String::from_str(prefix);
    push_decimal(&mut text, x as u64);
    text.append("_");
    push_decimal(&mut text, y as u64);
    text
}

fn name_source(kind: CellKind, x: usize, y: usize) -> (text: String)
    ensures
        text@ == source_name(kind, x as int, y as int),
{
    let mut prefix = String::from_str(kind.label());
    prefix.append("_");
    coordinates(prefix.as_str(), x, y)
}

fn name_output(kind: CellKind, x: usize, y: usize) -> (text: String)
    ensures
        text@ == output_name(kind, x as int, y as int),
{
    let mut text = coordinates("cell_", x, y);
    text.append("_");
    text.append(kind.label());
    text
}

/// How a source cell feeds the circuit.
#[derive(Debug, Clone, Copy, PartialEq, Eq, Structural)]
pub struct InputBinding {
    pub pos: CellPos,
    pub input_index: usize,
    pub value: bool,
    pub clock: bool,
}

/// A board's circuit.
#[derive(Debug)]
pub struct BoardCircuit {
    pub circuit: Circuit,
    /// The output that shows each cell, row by row.
    pub cell_outputs: Vec<Option<usize>>,
    /// The board's sources, row by row.
    pub input_bindings: Vec<InputBinding>,
    pub stats: CircuitStats,
}

impl Clone for BoardCircuit {
    fn clone(&self) -> (copy: Self)
        ensures
            copy.circuit.net() == self.circuit.net(),
            self.circuit.wf() ==> copy.circuit.wf(),
            same_names(copy.circuit.input_names@, self.circuit.input_names@),
            same_names(copy.circuit.output_names@, self.circuit.output_names@),
            same_names(copy.circuit.debug_names@, self.circuit.debug_names@),
            copy.cell_outputs@ == self.cell_outputs@,
            copy.input_bindings@ == self.input_bindings@,
            copy.stats == self.stats,
    {
        let mut cell_outputs: Vec<Option<usize>> = Vec::with_capacity(self.cell_outputs.len());
        for i in 0..self.cell_outputs.len()
            invariant
                cell_outputs@ == self.cell_outputs@.take(i as int),
        {
            cell_outputs.push(self.cell_outputs[i]);
            assert(cell_outputs@ =~= self.cell_outputs@.take(i + 1));
        }
        let mut input_bindings: Vec<InputBinding> = Vec::with_capacity(self.input_bindings.len());
        for i in 0..self.input_bindings.len()
            invariant
                input_bindings@ == self.input_bindings@.take(i as int),
        {
            input_bindings.push(self.input_bindings[i]);
            assert(input_bindings@ =~= self.input_bindings@.take(i + 1));
        }
        assert(cell_outputs@ =~= self.cell_outputs@);
        assert(input_bindings@ =~= self.input_bindings@);
        Self { circuit: self.circuit.clone(), cell_outputs, input_bindings, stats: self.stats }
    }
}

#[derive(Debug, Clone, Copy, PartialEq, Eq, Structural)]
pub struct CircuitStats {
    pub signals: usize,
    pub gates: usize,
    pub registers: usize,
    pub inputs: usize,
    pub outputs: usize,
}

#[derive(Debug, PartialEq, Eq)]
pub enum BoardError {
    Circuit(String),
    NoInputAt(CellPos),
}

impl Clone for BoardError {
    fn clone(&self) -> (copy: Self)
        ensures
            match *self {
                BoardError::Circuit(err) => copy matches BoardError::Circuit(text) && text@ == err@,
                BoardError::NoInputAt(pos) => copy == BoardError::NoInputAt(pos),
            },
    {
        match self {
            BoardError::Circuit(err) => BoardError::Circuit(String::from_str(err.as_str())),
            BoardError::NoInputAt(pos) => BoardError::NoInputAt(*pos),
        }
    }
}

impl BoardError {
    /// The error in words.
    pub open spec fn text(&self) -> Seq<char> {
        match self {
            BoardError::Circuit(err) => err@,
            BoardError::NoInputAt(pos) => "cell "@ + decimal(pos.x as nat) + ","@ + decimal(
                pos.y as nat,
            ) + " is not an input source"@,
        }
    }

    pub fn message(&self) -> (text: String)
        ensures
            text@ == self.text(),
    {
        match self {
            BoardError::Circuit(err) => String::from_str(err.as_str()),
            BoardError::NoInputAt(pos) => {
                let mut text = String::from_str("cell ");
                push_decimal(&mut text, pos.x as u64);
                text.append(",");
                push_decimal(&mut text, pos.y as u64);
                text.append(" is not an input source");
                text
            },
        }
    }
}

impl CircuitStats {
    pub(crate) fn from_circuit(circuit: &Circuit, outputs: usize) -> (stats: Self)
        requires
            circuit.wf(),
        ensures
            stats.signals == circuit.net().nodes.len(),
            stats.gates == gate_nodes(circuit.net().nodes, circuit.net().nodes.len() as int),
            stats.registers == circuit.net().drives.len(),
            stats.inputs == circuit.net().inputs,
            stats.outputs == outputs,
    {
        let signals: usize = insts_len(&circuit.insts);
        let mut gates: usize = 0;
        for i in 0..signals
            invariant
                gates <= i,
                signals == circuit.net().nodes.len(),
                signals == inst_seq(circuit.insts).len(),
                signals <= MAX_SIGNALS,
                gates == gate_nodes(circuit.net().nodes, i as int),
        {
            let inst = insts_get(&circuit.insts, Signal::from_index(i));
            assert(circuit.net().nodes[i as int] == node_of(inst.data, circuit.list_pool));
            if let InstData::Gate { .. } = inst.data {
                gates = gates + 1;
            }
        }
        Self {
            signals,
            gates,
            registers: regs_len(&circuit.regs),
            inputs: circuit.input_count as usize,
            outputs,
        }
    }
}

/// What a board's source cell `k` looks like from the circuit.
pub open spec fn binding_of(g: Grid, k: int) -> InputBinding {
    InputBinding {
        pos: CellPos { x: (k % g.width) as usize, y: (k / g.width) as usize },
        input_index: sources_before(g.cells, k) as usize,
        value: g.cells[k].input_value,
        clock: g.cells[k].kind == CellKind::Clock,
    }
}

/// The sources among the first `k` cells, row by row.
pub open spec fn bindings_of(g: Grid, k: int) -> Seq<InputBinding>
    decreases k,
{
    if k <= 0 {
        seq![]
    } else if source_kind(g.cells[k - 1].kind) {
        bindings_of(g, k - 1).push(binding_of(g, k - 1))
    } else {
        bindings_of(g, k - 1)
    }
}

/// The outputs of the first `k` cells: each filled cell has the next one.
pub open spec fn outputs_of(g: Grid, k: int) -> Seq<Option<usize>> {
    Seq::new(
        k as nat,
        |j: int|
            if g.cells[j].kind == CellKind::Empty {
                None
            } else {
                Some(place(g, j) as usize)
            },
    )
}

pub open spec fn stats_of(g: Grid) -> CircuitStats {
    let n = g.cells.len() as int;
    CircuitStats {
        signals: (1 + filled_before(g.cells, n)) as usize,
        gates: gates_before(g.cells, n) as usize,
        registers: kinds_before(g.cells, n, CellKind::Register) as usize,
        inputs: sources_before(g.cells, n) as usize,
        outputs: filled_before(g.cells, n) as usize,
    }
}

/// Input names of the sources among the first `k` cells.
pub open spec fn input_names_of(g: Grid, k: int) -> Seq<Seq<char>>
    decreases k,
{
    if k <= 0 {
        seq![]
    } else if source_kind(g.cells[k - 1].kind) {
        input_names_of(g, k - 1).push(
            source_name(g.cells[k - 1].kind, (k - 1) % g.width, (k - 1) / g.width),
        )
    } else {
        input_names_of(g, k - 1)
    }
}

/// Register names of the flip-flops among the first `k` cells.
pub open spec fn register_names_of(g: Grid, k: int) -> Seq<Seq<char>>
    decreases k,
{
    if k <= 0 {
        seq![]
    } else if g.cells[k - 1].kind == CellKind::Register {
        register_names_of(g, k - 1).push(register_name((k - 1) % g.width, (k - 1) / g.width))
    } else {
        register_names_of(g, k - 1)
    }
}

/// Output names of the first `k` cells; ground comes first.
pub open spec fn output_names_of(g: Grid, k: int) -> Seq<Seq<char>>
    decreases k,
{
    if k <= 0 {
        seq!["__ground"@]
    } else if g.cells[k - 1].kind != CellKind::Empty {
        output_names_of(g, k - 1).push(
            output_name(g.cells[k - 1].kind, (k - 1) % g.width, (k - 1) / g.width),
        )
    } else {
        output_names_of(g, k - 1)
    }
}

/// The texts of a list of strings.
pub open spec fn texts(names: Seq<String>) -> Seq<Seq<char>> {
    Seq::new(names.len(), |i: int| names[i]@)
}

/// Cell `k` taps an input, a register or a gate, as its kind asks.
pub open spec fn taps(net: Netlist, g: Grid, k: int) -> bool {
    let node = net.nodes[net.outs[place(g, k)]];
    let kind = g.cells[k].kind;
    &&& place(g, k) < net.outs.len()
    &&& if source_kind(kind) || kind == CellKind::Register {
        node == node_for(g, k)
    } else {
        node is Gate
    }
}

/// The netlist shows on output `place(g, k)` what cell `k` carries, and its
/// registers take what feeds the flip-flops.
pub open spec fn shows(net: Netlist, g: Grid) -> bool {
    let n = g.cells.len() as int;
    &&& net.outs.len() == 1 + filled_before(g.cells, n)
    &&& net.inputs == sources_before(g.cells, n)
    &&& net.drives.len() == kinds_before(g.cells, n, CellKind::Register)
    &&& net.inits == Seq::new(net.drives.len(), |r: int| false)
    &&& net.nodes[net.outs[0]] == Node::Const(false)
    &&& forall|k: int|
        0 <= k < n && g.cells[k].kind != CellKind::Empty ==> #[trigger] taps(net, g, k)
    &&& forall|env: Env, k: int|
        0 <= k < n && g.cells[k].kind != CellKind::Empty ==> net.outputs(env)[place(g, k)]
            == #[trigger] carried(g, env, k)
    &&& forall|env: Env, k: int|
        0 <= k < n && g.cells[k].kind == CellKind::Register ==> net.next_state(
            env,
        )[kinds_before(g.cells, k, CellKind::Register) as int] == #[trigger] fed(g, env, k)
}

/// The circuit of a board.
pub open spec fn is_circuit_of(bc: BoardCircuit, g: Grid) -> bool {
    let n = g.cells.len() as int;
    &&& bc.circuit.wf()
    &&& bc.circuit.net().nodes.len() == 1 + filled_before(g.cells, n)
    &&& gate_nodes(bc.circuit.net().nodes, bc.circuit.net().nodes.len() as int) == gates_before(g.cells, n)
    &&& shows(bc.circuit.net(), g)
    &&& texts(bc.circuit.input_names@) == input_names_of(g, n)
    &&& texts(bc.circuit.debug_names@) == register_names_of(g, n)
    &&& texts(bc.circuit.output_names@) == output_names_of(g, n)
    &&& bc.cell_outputs@ == outputs_of(g, n)
    &&& bc.input_bindings@ == bindings_of(g, n)
    &&& bc.stats == stats_of(g)
}

/// Scheduling keeps what the board's netlist shows.
proof fn lemma_scheduled(g: Grid, order: Seq<int>)
    requires
        g.width > 0,
        drawn(g, g.cells.len() as int).shaped(),
        is_kahn_order(drawn(g, g.cells.len() as int).nodes, order),
    ensures
        shows(renumber(drawn(g, g.cells.len() as int), order), g),
{
    let n = g.cells.len() as int;
    let net = drawn(g, n);
    let new = renumber(net, order);
    lemma_drawn(g, n);
    assert forall|i: int| 0 <= i < net.outs.len() implies new.nodes[#[trigger] new.outs[i]] == rename(
        net.nodes[i],
        order,
    ) by {
        assert(net.outs[i] == i);
        lemma_onto(order, i);
    }
    assert(new.nodes[new.outs[0]] == Node::Const(false));
    assert forall|k: int| 0 <= k < n && g.cells[k].kind != CellKind::Empty implies #[trigger] taps(
        new,
        g,
        k,
    ) by {
        assert(drawn_cell(g, net, k));
    }
    assert forall|env: Env, k: int|
        0 <= k < n && g.cells[k].kind != CellKind::Empty implies new.outputs(env)[place(g, k)]
        == #[trigger] carried(g, env, k) by {
        renumbering_keeps_behaviour(net, order, env);
        lemma_carried(g, n, env, k);
        assert(drawn_cell(g, net, k));
    }
    assert forall|env: Env, k: int|
        0 <= k < n && g.cells[k].kind == CellKind::Register implies new.next_state(
        env,
    )[kinds_before(g.cells, k, CellKind::Register) as int] == #[trigger] fed(g, env, k) by {
        renumbering_keeps_behaviour(net, order, env);
        lemma_fed(g, n, env, k, first_of(g, k));
        assert(drawn_cell(g, net, k));
    }
    assert(new.inits =~= Seq::new(new.drives.len(), |r: int| false));
}

/// The gates of the drawn netlist are the logic cells.
proof fn lemma_gates_drawn(g: Grid, k: int)
    requires
        g.width > 0,
        0 <= k <= g.cells.len(),
    ensures
        gate_nodes(drawn(g, k).nodes, drawn(g, k).nodes.len() as int) == gates_before(g.cells, k),
    decreases k,
{
    let nodes = drawn(g, k).nodes;
    if k == 0 {
        assert(gate_nodes(nodes, 1) == gate_nodes(nodes, 0));
    } else {
        lemma_gates_drawn(g, k - 1);
        lemma_drawn(g, k - 1);
        let before = drawn(g, k - 1).nodes;
        if g.cells[k - 1].kind != CellKind::Empty {
            lemma_gate_prefix(before, nodes, before.len() as int);
        }
    }
}

/// More cells hold no fewer gates.
proof fn lemma_logic_grows(cells: Seq<Cell>, j: int, k: int)
    requires
        0 <= j <= k,
    ensures
        gates_before(cells, j) <= gates_before(cells, k),
    decreases k - j,
{
    if j < k {
        lemma_logic_grows(cells, j, k - 1);
    }
}

/// Counts never exceed the number of cells.
pub proof fn lemma_counts(g: Grid, k: int)
    requires
        0 <= k,
    ensures
        filled_before(g.cells, k) <= k,
        gates_before(g.cells, k) + sources_before(g.cells, k) + kinds_before(
            g.cells,
            k,
            CellKind::Register,
        ) == filled_before(g.cells, k),
    decreases k,
{
    if k > 0 {
        lemma_counts(g, k - 1);
    }
}

/// As many bindings and names as sources.
pub proof fn lemma_bindings(g: Grid, k: int)
    requires
        0 <= k,
    ensures
        bindings_of(g, k).len() == sources_before(g.cells, k),
    decreases k,
{
    if k > 0 {
        lemma_bindings(g, k - 1);
    }
}

/// Names with one more where there is one.
spec fn one_more(names: Seq<String>, after: Seq<String>, more: bool, text: Seq<char>) -> bool {
    if more {
        texts(after) == texts(names).push(text)
    } else {
        after == names
    }
}

/// Add one cell to the circuit.
fn draw_cell(
    builder: &mut CircuitBuilder,
    kind: CellKind,
    x: usize,
    y: usize,
    west_input: Signal,
    north_input: Signal,
    first_input: Signal,
) -> (signal: Option<Signal>)
    requires
        old(builder).inv(),
        old(builder).source_room(1),
        is_logic(kind) ==> old(builder).room(1),
    ensures
        final(builder).inv(),
        signal is None <==> kind == CellKind::Empty,
        signal matches Some(s) ==> s.id() == old(builder).net().nodes.len(),
        final(builder).net() == with_cell(
            old(builder).net(),
            kind,
            cell_node(
                kind,
                old(builder).net().inputs as int,
                old(builder).net().drives.len() as int,
                west_input.id(),
                north_input.id(),
                first_input.id(),
            ),
            first_input.id(),
        ),
        one_more(
            old(builder).input_names(),
            final(builder).input_names(),
            source_kind(kind),
            source_name(kind, x as int, y as int),
        ),
        one_more(
            old(builder).debug_names(),
            final(builder).debug_names(),
            kind == CellKind::Register,
            register_name(x as int, y as int),
        ),
        final(builder).output_names() == old(builder).output_names(),
{
    let signal: Option<Signal> = match kind {
        CellKind::Empty => None,
        CellKind::Input | CellKind::Clock => Some(builder.input_named(name_source(kind, x, y))),
        CellKind::Wire | CellKind::Led => Some(builder.buf(first_input)),
        CellKind::Not => Some(builder.not(first_input)),
        CellKind::Register => {
            let name = coordinates("dff_", x, y);
            let (_, signal) = builder.push_register(name, Some(first_input), false);
            Some(signal)
        },
        kind => match kind.gate_op() {
            Some(op) => Some(builder.binary(op, west_input, north_input)),
            None => None,
        },
    };
    proof {
        if source_kind(kind) {
            assert(texts(builder.input_names()) =~= texts(old(builder).input_names()).push(
                source_name(kind, x as int, y as int),
            ));
        }
        if kind == CellKind::Register {
            assert(texts(builder.debug_names()) =~= texts(old(builder).debug_names()).push(
                register_name(x as int, y as int),
            ));
        }
    }
    signal
}

impl Board {
    /// Compile the board, row by row.
    pub fn compile(&self) -> (res: Result<BoardCircuit, BoardError>)
        requires
            self.inv(),
            self.grid().cells.len() < MAX_SIGNALS,
            gates_before(self.grid().cells, self.grid().cells.len() as int) <= MAX_GATES,
        ensures
            res matches Ok(bc) && is_circuit_of(bc, self.grid()),
    {
        let ghost g = self.grid();
        proof {
            self.lemma_inv();
        }
        let mut builder = CircuitBuilder::new();
        let ground = builder.const_val(false);
        builder.output_named(String::from_str("__ground"), ground);

        let cells = self.cells();
        let count: usize = cells.len();
        let width: usize = self.width();
        let mut signals: Vec<Option<Signal>> = Vec::with_capacity(count);
        let mut cell_outputs: Vec<Option<usize>> = Vec::with_capacity(count);
        let mut input_bindings: Vec<InputBinding> = Vec::new();
        let mut output_index: usize = 1;
        proof {
            assert(builder.net() =~= drawn(g, 0));
            assert(texts(builder.output_names()) =~= output_names_of(g, 0));
            assert(texts(builder.input_names()) =~= input_names_of(g, 0));
            assert(texts(builder.debug_names()) =~= register_names_of(g, 0));
            assert(cell_outputs@ =~= outputs_of(g, 0));
        }

        for k in 0..count
            invariant
                g == self.grid(),
                g.ok(),
                cells@ == g.cells,
                count == cells@.len(),
                count < MAX_SIGNALS,
                gates_before(g.cells, count as int) <= MAX_GATES,
                width == g.width,
                builder.inv(),
                builder.net() == drawn(g, k as int),
                texts(builder.input_names()) == input_names_of(g, k as int),
                texts(builder.debug_names()) == register_names_of(g, k as int),
                texts(builder.output_names()) == output_names_of(g, k as int),
                ground.id() == 0,
                signals@.len() == k,
                forall|j: int|
                    0 <= j < k ==> match #[trigger] signals@[j] {
                        Some(s) => g.cells[j].kind != CellKind::Empty && s.id() == place(g, j),
                        None => g.cells[j].kind == CellKind::Empty,
                    },
                cell_outputs@ == outputs_of(g, k as int),
                input_bindings@ == bindings_of(g, k as int),
                output_index == place(g, k as int),
        {
            let x: usize = k % width;
            let y: usize = k / width;
            let cell = cells[k];
            assert(x <= k) by (nonlinear_arith)
                requires
                    x == k % width,
                    width > 0,
            ;
            proof {
                lemma_counts(g, k as int);
                lemma_bindings(g, k as int);
                lemma_drawn(g, k as int);
                lemma_gates_drawn(g, k as int);
                lemma_logic_grows(g.cells, k + 1, count as int);
                lemma_tap(g, k as int, west_of(g, k as int));
                lemma_tap(g, k as int, north_of(g, k as int));
                lemma_tap(g, k as int, first_of(g, k as int));
            }
            let west: Option<Signal> = if x > 0 {
                signals[k - 1]
            } else {
                None
            };
            let north: Option<Signal> = if k >= width {
                signals[k - width]
            } else {
                None
            };
            let west_input = match west {
                Some(s) => s,
                None => ground,
            };
            let north_input = match north {
                Some(s) => s,
                None => ground,
            };
            let first_input = match west {
                Some(s) => s,
                None => north_input,
            };
            assert(west_input.id() == tap(g, west_of(g, k as int)));
            assert(north_input.id() == tap(g, north_of(g, k as int)));
            assert(first_input.id() == tap(g, first_of(g, k as int)));

            let signal = draw_cell(&mut builder, cell.kind, x, y, west_input, north_input, first_input);
            if cell.kind.is_source() {
                let input_index: usize = input_bindings.len();
                input_bindings.push(
                    InputBinding {
                        pos: CellPos::new(x, y),
                        input_index,
                        value: cell.input_value,
                        clock: cell.kind == CellKind::Clock,
                    },
                );
            }
            proof {
                assert(texts(builder.input_names()) =~= input_names_of(g, k + 1));
                assert(texts(builder.debug_names()) =~= register_names_of(g, k + 1));
                assert(input_bindings@ =~= bindings_of(g, k + 1));
            }

            signals.push(signal);
            if let Some(s) = signal {
                cell_outputs.push(Some(output_index));
                output_index = output_index + 1;
                builder.output_named(name_output(cell.kind, x, y), s);
            } else {
                cell_outputs.push(None);
            }
            proof {
                assert(builder.net() =~= drawn(g, k + 1));
                assert(texts(builder.output_names()) =~= output_names_of(g, k + 1));
                assert(cell_outputs@ =~= outputs_of(g, k + 1));
            }
        }

        let ghost net = builder.net();
        proof {
            lemma_drawn(g, count as int);
            lemma_counts(g, count as int);
            builder.lemma_inv();
            ordered_is_acyclic(net);
        }
        let circuit = match builder.finish() {
            Ok(circuit) => circuit,
            Err(err) => {
                return Err(BoardError::Circuit(String::from_str(err.message())));
            },
        };
        proof {
            lemma_scheduled(g, schedule(net.nodes));
            lemma_gates_scheduled(net, schedule(net.nodes));
            lemma_gates_drawn(g, count as int);
        }
        let stats = CircuitStats::from_circuit(&circuit, output_index - 1);
        Ok(BoardCircuit { circuit, cell_outputs, input_bindings, stats })
    }
}

/// What errors say.
pub proof fn errors_say_what_went_wrong(err: String, pos: CellPos)
    ensures
        BoardError::Circuit(err).text() == err@,
        BoardError::NoInputAt(pos).text() == "cell "@ + decimal(pos.x as nat) + ","@ + decimal(pos.y as nat)
            + " is not an input source"@,
{
}

/// Cell `k` stands in the lists where the cells before it leave off.
proof fn lemma_listed(g: Grid, n: int, k: int)
    requires
        0 <= k < n,
    ensures
        input_names_of(g, n).len() == sources_before(g.cells, n),
        bindings_of(g, n).len() == sources_before(g.cells, n),
        register_names_of(g, n).len() == kinds_before(g.cells, n, CellKind::Register),
        output_names_of(g, n).len() == 1 + filled_before(g.cells, n),
        output_names_of(g, n)[0] == "__ground"@,
        source_kind(g.cells[k].kind) ==> sources_before(g.cells, k) < sources_before(g.cells, n) && input_names_of(
            g,
            n,
        )[sources_before(g.cells, k) as int] == source_name(g.cells[k].kind, k % g.width, k / g.width)
            && bindings_of(g, n)[sources_before(g.cells, k) as int] == binding_of(g, k),
        g.cells[k].kind == CellKind::Register ==> kinds_before(g.cells, k, CellKind::Register) < kinds_before(
            g.cells,
            n,
            CellKind::Register,
        ) && register_names_of(g, n)[kinds_before(g.cells, k, CellKind::Register) as int] == register_name(
            k % g.width,
            k / g.width,
        ),
        g.cells[k].kind != CellKind::Empty ==> filled_before(g.cells, k) < filled_before(g.cells, n)
            && output_names_of(g, n)[1 + filled_before(g.cells, k) as int] == output_name(
            g.cells[k].kind,
            k % g.width,
            k / g.width,
        ),
    decreases n,
{
    lemma_lists_len(g, n);
    lemma_lists_len(g, n - 1);
    if k < n - 1 {
        lemma_listed(g, n - 1, k);
    }
}

proof fn lemma_lists_len(g: Grid, n: int)
    requires
        0 <= n,
    ensures
        input_names_of(g, n).len() == sources_before(g.cells, n),
        bindings_of(g, n).len() == sources_before(g.cells, n),
        register_names_of(g, n).len() == kinds_before(g.cells, n, CellKind::Register),
        output_names_of(g, n).len() == 1 + filled_before(g.cells, n),
        output_names_of(g, n)[0] == "__ground"@,
    decreases n,
{
    if n > 0 {
        lemma_lists_len(g, n - 1);
    }
}

/// What the circuit of a board computes, cell by cell. Every filled cell has an
/// output, numbered row by row after the ground. Sources show their input and
/// flip-flops their register, both numbered row by row. Wires, lamps and
/// inverters read the west neighbour's output, or the north one's where the
/// west has none; binary gates read both; a missing neighbour reads low. A
/// flip-flop's register takes what a wire in its place would show.
pub proof fn boards_compile_cell_by_cell(bc: BoardCircuit, g: Grid, env: Env, k: int)
    requires
        is_circuit_of(bc, g),
        g.ok(),
        g.cells.len() < usize::MAX,
        0 <= k < g.cells.len(),
    ensures
        bc.cell_outputs@.len() == g.cells.len(),
        g.cells[k].kind == CellKind::Empty ==> bc.cell_outputs@[k] is None,
        g.cells[k].kind != CellKind::Empty ==> bc.cell_outputs@[k] == Some(
            (1 + filled_before(g.cells, k)) as usize,
        ),
        ({
            let net = bc.circuit.net();
            let shown = |j: int| net.outputs(env)[1 + filled_before(g.cells, j) as int];
            let west = k % g.width != 0 && g.cells[k - 1].kind != CellKind::Empty;
            let north = k >= g.width && g.cells[k - g.width].kind != CellKind::Empty;
            let w = west && shown(k - 1);
            let n = north && shown(k - g.width);
            let first = if west {
                w
            } else {
                n
            };
            let v = shown(k);
            let i = sources_before(g.cells, k) as int;
            let r = kinds_before(g.cells, k, CellKind::Register) as int;
            &&& net.outs.len() == 1 + filled_before(g.cells, g.cells.len() as int)
            &&& net.inputs == sources_before(g.cells, g.cells.len() as int)
            &&& net.drives.len() == kinds_before(g.cells, g.cells.len() as int, CellKind::Register)
            &&& (g.cells[k].kind == CellKind::Input || g.cells[k].kind == CellKind::Clock) && i < env.inputs.len()
                ==> v == env.inputs[i]
            &&& g.cells[k].kind == CellKind::Register && r < env.state.len() ==> v == env.state[r]
            &&& g.cells[k].kind == CellKind::Register ==> r < net.drives.len() && net.next_state(env)[r] == first
                && !net.inits[r]
            &&& g.cells[k].kind == CellKind::Wire ==> v == first
            &&& g.cells[k].kind == CellKind::Led ==> v == first
            &&& g.cells[k].kind == CellKind::Not ==> v == !first
            &&& g.cells[k].kind == CellKind::And ==> (v <==> w && n)
            &&& g.cells[k].kind == CellKind::Or ==> (v <==> w || n)
            &&& g.cells[k].kind == CellKind::Xor ==> (v <==> w != n)
            &&& g.cells[k].kind == CellKind::Nand ==> (!v <==> w && n)
        }),
{
    let n = g.cells.len() as int;
    let net = bc.circuit.net();
    assert(0 <= k % g.width <= k) by (nonlinear_arith)
        requires
            0 <= k,
            g.width > 0,
    ;
    crate::board::cells_carry_by_kind(g, env, k);
    lemma_listed(g, n, k);
    let c = carried(g, env, k);
    let c1 = carried(g, env, k - 1);
    let c2 = carried(g, env, k - g.width);
    let f = fed(g, env, k);
    if g.cells[k].kind != CellKind::Empty {
        assert(net.outputs(env)[place(g, k)] == c);
    }
    if k % g.width != 0 && g.cells[k - 1].kind != CellKind::Empty {
        assert(net.outputs(env)[place(g, k - 1)] == c1);
    }
    if k >= g.width && g.cells[k - g.width].kind != CellKind::Empty {
        assert(net.outputs(env)[place(g, k - g.width)] == c2);
    }
}

/// What the parts of a board's circuit are called, and how sources are bound:
/// every one by its column and row.
pub proof fn boards_name_their_parts(bc: BoardCircuit, g: Grid, k: int)
    requires
        is_circuit_of(bc, g),
        g.ok(),
        g.cells.len() < usize::MAX,
        0 <= k < g.cells.len(),
    ensures
        bc.circuit.output_names@[0]@ == "__ground"@,
        ({
            let (x, y) = (k % g.width, k / g.width);
            let p = 1 + filled_before(g.cells, k) as int;
            let i = sources_before(g.cells, k) as int;
            let r = kinds_before(g.cells, k, CellKind::Register) as int;
            let label = label_of(g.cells[k].kind);
            &&& g.cells[k].kind != CellKind::Empty ==> bc.circuit.output_names@[p]@ == "cell_"@ + decimal(x as nat)
                + "_"@ + decimal(y as nat) + "_"@ + label
            &&& g.cells[k].kind == CellKind::Input || g.cells[k].kind == CellKind::Clock ==> {
                &&& bc.circuit.input_names@[i]@ == label + "_"@ + decimal(x as nat) + "_"@ + decimal(y as nat)
                &&& bc.input_bindings@[i].pos.x == x
                &&& bc.input_bindings@[i].pos.y == y
                &&& bc.input_bindings@[i].input_index == i
                &&& bc.input_bindings@[i].value == g.cells[k].input_value
                &&& bc.input_bindings@[i].clock == (g.cells[k].kind == CellKind::Clock)
            }
            &&& g.cells[k].kind == CellKind::Register ==> bc.circuit.debug_names@[r]@ == "dff_"@ + decimal(x as nat)
                + "_"@ + decimal(y as nat)
        }),
        bc.circuit.output_names@.len() == 1 + filled_before(g.cells, g.cells.len() as int),
        bc.circuit.input_names@.len() == sources_before(g.cells, g.cells.len() as int),
        bc.input_bindings@.len() == sources_before(g.cells, g.cells.len() as int),
        bc.circuit.debug_names@.len() == kinds_before(g.cells, g.cells.len() as int, CellKind::Register),
{
    let n = g.cells.len() as int;
    lemma_listed(g, n, k);
    lemma_counts(g, k);
    assert(0 <= k % g.width <= k && 0 <= k / g.width <= k) by (nonlinear_arith)
        requires
            0 <= k,
            g.width > 0,
    ;
    let c = bc.circuit;
    assert(texts(c.output_names@)[0] == c.output_names@[0]@);
    if g.cells[k].kind != CellKind::Empty {
        let p = 1 + filled_before(g.cells, k);
        assert(texts(c.output_names@)[p as int] == c.output_names@[p as int]@);
    }
    if source_kind(g.cells[k].kind) {
        let i = sources_before(g.cells, k) as int;
        assert(texts(c.input_names@)[i] == c.input_names@[i]@);
    }
    if g.cells[k].kind == CellKind::Register {
        let r = kinds_before(g.cells, k, CellKind::Register) as int;
        assert(texts(c.debug_names@)[r] == c.debug_names@[r]@);
    }
    assert(texts(c.output_names@).len() == c.output_names@.len());
    assert(texts(c.input_names@).len() == c.input_names@.len());
    assert(texts(c.debug_names@).len() == c.debug_names@.len());
}

/// The statistics of a board: a signal for every filled cell and the ground, an
/// output for every filled cell, an input for every source, a register for
/// every flip-flop, a gate for every other filled cell.
pub proof fn statistics_count_cells(bc: BoardCircuit, g: Grid)
    requires
        g.cells.len() < usize::MAX,
    ensures
        ({
            let n = g.cells.len() as int;
            let filled = n - kinds_before(g.cells, n, CellKind::Empty);
            let sources = kinds_before(g.cells, n, CellKind::Input) + kinds_before(g.cells, n, CellKind::Clock);
            &&& stats_of(g).signals == 1 + filled
            &&& stats_of(g).outputs == filled
            &&& stats_of(g).inputs == sources
            &&& stats_of(g).registers == kinds_before(g.cells, n, CellKind::Register)
            &&& stats_of(g).gates == filled - sources - kinds_before(g.cells, n, CellKind::Register)
        }),
        is_circuit_of(bc, g) ==> bc.stats == stats_of(g),
{
    let n = g.cells.len() as int;
    lemma_counts(g, n);
    crate::board::lemma_sums(g.cells, n);
}

} // verus!
