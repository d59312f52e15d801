//! The mathematical model of a synchronous circuit.
//!
//! A [`Netlist`] is what a circuit or a circuit builder stands for: a
//! sequence of nodes, the node that drives each register, the registers'
//! power-on values, and the observed nodes. Every contract about what a
//! circuit computes is stated over [`Netlist::value`].
use vstd::prelude::*;

verus! {

/// The nine gate kinds.
#[derive(Debug, Clone, Copy, PartialEq, Eq, Hash, Structural)]
pub enum GateOp {
    And,
    Or,
    Xor,
    Not,
    Nand,
    Nor,
    Xnor,
    Buf,
    Mux,
}

/// Number of operands a gate kind reads.
pub open spec fn gate_arity(op: GateOp) -> nat {
    match op {
        GateOp::Not | GateOp::Buf => 1,
        GateOp::Mux => 3,
        _ => 2,
    }
}

/// The boolean function of a gate kind. `Mux` reads `if a { b } else { c }`.
pub open spec fn gate_fn(op: GateOp, a: bool, b: bool, c: bool) -> bool {
    match op {
        GateOp::And => a && b,
        GateOp::Or => a || b,
        GateOp::Xor => a != b,
        GateOp::Not => !a,
        GateOp::Nand => !(a && b),
        GateOp::Nor => !(a || b),
        GateOp::Xnor => a == b,
        GateOp::Buf => a,
        GateOp::Mux => if a { b } else { c },
    }
}

/// One node of a netlist; operands are node indices.
pub enum Node {
    Const(bool),
    Input(int),
    Gate(GateOp, Seq<int>),
    RegOut(int),
}

/// What the sources of a circuit hold during one tick.
pub struct Env {
    pub inputs: Seq<bool>,
    pub state: Seq<bool>,
}

#[verifier::ext_equal]
pub struct Netlist {
    pub nodes: Seq<Node>,
    /// Debug-name index of each node.
    pub labels: Seq<Option<u32>>,
    /// Node that feeds each register's next state.
    pub drives: Seq<int>,
    pub inits: Seq<bool>,
    /// Debug-name index of each register.
    pub reg_labels: Seq<Option<u32>>,
    /// Observed nodes, in declaration order.
    pub outs: Seq<int>,
    /// Number of inputs declared.
    pub inputs: nat,
}

/// The operands of a node.
pub open spec fn deps(node: Node) -> Seq<int> {
    match node {
        Node::Gate(_, ins) => ins,
        _ => Seq::empty(),
    }
}

/// Operand `k` of a gate, or -1 where it has none.
pub open spec fn operand(ins: Seq<int>, k: int) -> int {
    if 0 <= k < ins.len() {
        ins[k]
    } else {
        -1
    }
}

/// Value of node `i`. An operand that does not precede its gate reads false.
pub open spec fn node_value(nodes: Seq<Node>, env: Env, i: int) -> bool
    decreases i,
{
    if i < 0 || i >= nodes.len() {
        false
    } else {
        match nodes[i] {
            Node::Const(v) => v,
            Node::Input(k) => 0 <= k < env.inputs.len() && env.inputs[k],
            Node::RegOut(r) => 0 <= r < env.state.len() && env.state[r],
            Node::Gate(op, ins) => {
                let a = operand(ins, 0);
                let b = operand(ins, 1);
                let c = operand(ins, 2);
                gate_fn(
                    op,
                    0 <= a < i && node_value(nodes, env, a),
                    0 <= b < i && node_value(nodes, env, b),
                    0 <= c < i && node_value(nodes, env, c),
                )
            },
        }
    }
}

/// A gate has the number of operands its kind asks for.
pub open spec fn arity_ok(node: Node) -> bool {
    node matches Node::Gate(op, ins) ==> ins.len() == gate_arity(op)
}

/// Every operand precedes its gate.
pub open spec fn node_ordered(nodes: Seq<Node>, i: int) -> bool {
    forall|k: int| 0 <= k < deps(nodes[i]).len() ==> 0 <= #[trigger] deps(nodes[i])[k] < i
}

/// Every operand is a node.
pub open spec fn node_closed(nodes: Seq<Node>, i: int) -> bool {
    forall|k: int| 0 <= k < deps(nodes[i]).len() ==> 0 <= #[trigger] deps(nodes[i])[k] < nodes.len()
}

/// Some ranking of the nodes puts every operand strictly below its gate.
pub open spec fn is_ranking(nodes: Seq<Node>, rank: Seq<nat>) -> bool {
    &&& rank.len() == nodes.len()
    &&& forall|i: int, k: int|
        #![trigger deps(nodes[i])[k]]
        0 <= i < nodes.len() && 0 <= k < deps(nodes[i]).len() ==> rank[deps(nodes[i])[k]] < rank[i]
}

/// No purely combinational cycle.
pub open spec fn acyclic(nodes: Seq<Node>) -> bool {
    exists|rank: Seq<nat>| is_ranking(nodes, rank)
}

impl Netlist {
    pub open spec fn empty() -> Netlist {
        Netlist {
            nodes: Seq::empty(),
            labels: Seq::empty(),
            drives: Seq::empty(),
            inits: Seq::empty(),
            reg_labels: Seq::empty(),
            outs: Seq::empty(),
            inputs: 0,
        }
    }

    pub open spec fn value(self, env: Env, i: int) -> bool {
        node_value(self.nodes, env, i)
    }

    /// The observed values, settled before the clock edge.
    pub open spec fn outputs(self, env: Env) -> Seq<bool> {
        Seq::new(self.outs.len(), |k: int| self.value(env, self.outs[k]))
    }

    /// What the registers hold after the clock edge.
    pub open spec fn next_state(self, env: Env) -> Seq<bool> {
        Seq::new(self.drives.len(), |r: int| self.value(env, self.drives[r]))
    }

    /// Input `k` and register `r` each have exactly one node, gates have
    /// their arity, and the side tables have matching lengths.
    pub open spec fn shaped(self) -> bool {
        &&& self.labels.len() == self.nodes.len()
        &&& self.inits.len() == self.drives.len()
        &&& self.reg_labels.len() == self.drives.len()
        &&& forall|i: int| 0 <= i < self.nodes.len() ==> arity_ok(#[trigger] self.nodes[i])
        &&& forall|i: int|
            0 <= i < self.nodes.len() ==> ((#[trigger] self.nodes[i]) matches Node::Input(k) ==> 0
                <= k < self.inputs)
        &&& forall|i: int|
            0 <= i < self.nodes.len() ==> ((#[trigger] self.nodes[i]) matches Node::RegOut(r) ==> 0
                <= r < self.drives.len())
        &&& forall|k: int| 0 <= k < self.inputs ==> #[trigger] self.has_input(k)
        &&& forall|r: int| 0 <= r < self.drives.len() ==> #[trigger] self.has_reg(r)
        &&& forall|i: int, j: int|
            0 <= i < self.nodes.len() && 0 <= j < self.nodes.len() && #[trigger] self.nodes[i]
                == #[trigger] self.nodes[j] && (self.nodes[i] is Input || self.nodes[i] is RegOut)
                ==> i == j
    }

    pub open spec fn has_input(self, k: int) -> bool {
        exists|i: int| 0 <= i < self.nodes.len() && #[trigger] self.nodes[i] == Node::Input(k)
    }

    pub open spec fn has_reg(self, r: int) -> bool {
        exists|i: int| 0 <= i < self.nodes.len() && #[trigger] self.nodes[i] == Node::RegOut(r)
    }

    /// Every operand precedes its gate.
    pub open spec fn ordered(self) -> bool {
        forall|i: int| 0 <= i < self.nodes.len() ==> #[trigger] node_ordered(self.nodes, i)
    }

    /// Every operand is a node.
    pub open spec fn closed_gates(self) -> bool {
        forall|i: int| 0 <= i < self.nodes.len() ==> #[trigger] node_closed(self.nodes, i)
    }

    /// Every register is driven by a node and every output observes one.
    pub open spec fn taps_closed(self) -> bool {
        &&& forall|r: int|
            0 <= r < self.drives.len() ==> 0 <= #[trigger] self.drives[r] < self.nodes.len()
        &&& forall|k: int| 0 <= k < self.outs.len() ==> 0 <= #[trigger] self.outs[k] < self.nodes.len()
    }
}

/// `after` is `before` with more nodes appended.
pub open spec fn grows(before: Seq<Node>, after: Seq<Node>) -> bool {
    &&& before.len() <= after.len()
    &&& forall|i: int| 0 <= i < before.len() ==> #[trigger] after[i] == before[i]
}

/// Appending nodes leaves the earlier values alone.
pub proof fn growing_keeps_values(before: Seq<Node>, after: Seq<Node>, env: Env, i: int)
    requires
        grows(before, after),
        i < before.len(),
    ensures
        node_value(after, env, i) == node_value(before, env, i),
    decreases i,
{
    if 0 <= i {
        match before[i] {
            Node::Gate(_, ins) => {
                let a = operand(ins, 0);
                let b = operand(ins, 1);
                let c = operand(ins, 2);
                if 0 <= a < i {
                    growing_keeps_values(before, after, env, a);
                }
                if 0 <= b < i {
                    growing_keeps_values(before, after, env, b);
                }
                if 0 <= c < i {
                    growing_keeps_values(before, after, env, c);
                }
            },
            _ => {},
        }
    }
}

/// How many of the first `k` nodes are gates.
pub open spec fn gate_nodes(nodes: Seq<Node>, k: int) -> nat
    decreases k,
{
    if k <= 0 {
        0
    } else {
        gate_nodes(nodes, k - 1) + if nodes[k - 1] is Gate {
            1nat
        } else {
            0nat
        }
    }
}

/// The positions of the gates among the first `k` nodes.
pub open spec fn gate_places(nodes: Seq<Node>, k: int) -> Set<int> {
    Set::new(|i: int| 0 <= i < k && nodes[i] is Gate)
}

pub proof fn lemma_gate_places(nodes: Seq<Node>, k: int)
    requires
        0 <= k <= nodes.len(),
    ensures
        gate_places(nodes, k).finite(),
        gate_places(nodes, k).len() == gate_nodes(nodes, k),
    decreases k,
{
    if k == 0 {
        assert(gate_places(nodes, k) =~= Set::empty());
    } else {
        lemma_gate_places(nodes, k - 1);
        if nodes[k - 1] is Gate {
            assert(gate_places(nodes, k) =~= gate_places(nodes, k - 1).insert(k - 1));
        } else {
            assert(gate_places(nodes, k) =~= gate_places(nodes, k - 1));
        }
    }
}

/// Netlists that start alike have the same gates there.
pub proof fn lemma_gate_prefix(a: Seq<Node>, b: Seq<Node>, k: int)
    requires
        0 <= k <= a.len(),
        k <= b.len(),
        forall|i: int| 0 <= i < k ==> #[trigger] a[i] == b[i],
    ensures
        gate_nodes(a, k) == gate_nodes(b, k),
    decreases k,
{
    if k > 0 {
        lemma_gate_prefix(a, b, k - 1);
    }
}

/// How many gates there are.
pub open spec fn gate_count(nodes: Seq<Node>) -> nat {
    gate_nodes(nodes, nodes.len() as int)
}

/// One more node is one more gate, or none.
pub proof fn lemma_gate_push(nodes: Seq<Node>, node: Node)
    ensures
        gate_count(nodes.push(node)) == gate_count(nodes) + if node is Gate {
            1nat
        } else {
            0nat
        },
{
    lemma_gate_prefix(nodes, nodes.push(node), nodes.len() as int);
}

/// More nodes have no fewer gates.
pub proof fn lemma_gates_grow(nodes: Seq<Node>, j: int, k: int)
    requires
        0 <= j <= k,
    ensures
        gate_nodes(nodes, j) <= gate_nodes(nodes, k),
    decreases k - j,
{
    if j < k {
        lemma_gates_grow(nodes, j, k - 1);
    }
}

/// What a node settles to: constants show their value, inputs and registers what
/// they hold, and gates their function of the nodes they read. `Mux` shows its
/// second operand where the first is on, else the third.
pub proof fn nodes_settle(nodes: Seq<Node>, env: Env, i: int)
    requires
        0 <= i < nodes.len(),
        nodes[i] matches Node::Gate(_, ins) ==> forall|k: int| 0 <= k < ins.len() ==> 0 <= #[trigger] ins[k] < i,
    ensures
        match nodes[i] {
            Node::Const(v) => node_value(nodes, env, i) == v,
            Node::Input(k) => 0 <= k < env.inputs.len() ==> node_value(nodes, env, i) == env.inputs[k],
            Node::RegOut(r) => 0 <= r < env.state.len() ==> node_value(nodes, env, i) == env.state[r],
            Node::Gate(op, ins) => {
                let v = node_value(nodes, env, i);
                match op {
                    GateOp::Not => ins.len() == 1 ==> v != node_value(nodes, env, ins[0]),
                    GateOp::Buf => ins.len() == 1 ==> v == node_value(nodes, env, ins[0]),
                    GateOp::Mux => ins.len() == 3 ==> v == node_value(
                        nodes,
                        env,
                        if node_value(nodes, env, ins[0]) {
                            ins[1]
                        } else {
                            ins[2]
                        },
                    ),
                    _ => ins.len() == 2 ==> {
                        let a = node_value(nodes, env, ins[0]);
                        let b = node_value(nodes, env, ins[1]);
                        &&& op == GateOp::And ==> (v <==> a && b)
                        &&& op == GateOp::Or ==> (v <==> a || b)
                        &&& op == GateOp::Xor ==> (v <==> a != b)
                        &&& op == GateOp::Nand ==> (!v <==> a && b)
                        &&& op == GateOp::Nor ==> (!v <==> a || b)
                        &&& op == GateOp::Xnor ==> (v <==> a == b)
                    },
                }
            },
        },
{
}

/// Every gate kind reads a fixed number of nodes.
pub proof fn gates_read_their_operands(op: GateOp)
    ensures
        op == GateOp::Not || op == GateOp::Buf ==> gate_arity(op) == 1,
        op == GateOp::Mux ==> gate_arity(op) == 3,
        op != GateOp::Not && op != GateOp::Buf && op != GateOp::Mux ==> gate_arity(op) == 2,
{
}

/// A circuit shows what its observed nodes settle to, and its registers take
/// what the nodes that drive them settle to.
pub proof fn circuits_show_and_latch(net: Netlist, env: Env)
    ensures
        net.outputs(env).len() == net.outs.len(),
        net.next_state(env).len() == net.drives.len(),
        forall|k: int|
            0 <= k < net.outs.len() ==> #[trigger] net.outputs(env)[k] == node_value(net.nodes, env, net.outs[k]),
        forall|r: int|
            0 <= r < net.drives.len() ==> #[trigger] net.next_state(env)[r] == node_value(
                net.nodes,
                env,
                net.drives[r],
            ),
        forall|i: int| #[trigger] net.value(env, i) == node_value(net.nodes, env, i),
{
}

/// Gates that feed themselves, over any number of others, are a cycle.
pub proof fn loops_are_cycles(nodes: Seq<Node>, path: Seq<int>)
    requires
        path.len() > 1,
        path[0] == path.last(),
        forall|j: int| 0 <= j < path.len() ==> 0 <= #[trigger] path[j] < nodes.len(),
        forall|j: int|
            0 <= j < path.len() - 1 ==> (nodes[#[trigger] path[j]] matches Node::Gate(_, ins) && ins.contains(
                path[j + 1],
            )),
    ensures
        !acyclic(nodes),
{
    if acyclic(nodes) {
        let rank = choose|rank: Seq<nat>| is_ranking(nodes, rank);
        lemma_ranks_fall(nodes, rank, path, path.len() - 1);
    }
}

proof fn lemma_ranks_fall(nodes: Seq<Node>, rank: Seq<nat>, path: Seq<int>, j: int)
    requires
        is_ranking(nodes, rank),
        0 <= j < path.len(),
        forall|j: int| 0 <= j < path.len() ==> 0 <= #[trigger] path[j] < nodes.len(),
        forall|j: int|
            0 <= j < path.len() - 1 ==> (nodes[#[trigger] path[j]] matches Node::Gate(_, ins) && ins.contains(
                path[j + 1],
            )),
    ensures
        rank[path[j]] + j <= rank[path[0]],
    decreases j,
{
    if j > 0 {
        lemma_ranks_fall(nodes, rank, path, j - 1);
        let x = path[j - 1];
        let ins = deps(nodes[x]);
        assert(ins.contains(path[j - 1 + 1]));
        let k = choose|k: int| 0 <= k < ins.len() && ins[k] == path[j];
        assert(rank[deps(nodes[x])[k]] < rank[x]);
    }
}

/// Gates that read earlier nodes only are no cycle.
pub proof fn orders_are_no_cycles(nodes: Seq<Node>)
    requires
        forall|i: int|
            0 <= i < nodes.len() ==> (#[trigger] nodes[i] matches Node::Gate(_, ins) ==> forall|k: int|
                0 <= k < ins.len() ==> 0 <= #[trigger] ins[k] < i),
    ensures
        acyclic(nodes),
{
    let rank = Seq::new(nodes.len(), |i: int| i as nat);
    assert(is_ranking(nodes, rank));
}

} // verus!
