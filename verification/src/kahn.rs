//! The schedule of a circuit: Kahn's algorithm, breadth first.
//!
//! The order is fixed by the nodes alone. Nodes without operands come first;
//! every other node is placed by its last operand to be placed, and nodes
//! that share that operand, or have none, keep their creation order.
use vstd::prelude::*;

use crate::circuit::{lists_live, Error};
use crate::entity::{
    ids, inst_seq, insts_get, insts_len, list_slice, node_of, InstData, InstMap, Signal,
    SignalPool,
};
use crate::netlist::{
    acyclic, arity_ok, deps, gate_fn, gate_nodes, gate_places, is_ranking, lemma_gate_places, node_closed, node_ordered, operand, Env, Netlist, Node,
};

verus! {

broadcast use Signal::lemma_range;

/// `x` is one of the first `h` entries.
pub open spec fn among(order: Seq<int>, h: int, x: int) -> bool {
    exists|p: int| 0 <= p < h && #[trigger] order[p] == x
}

/// Where the last of `ins` stands in `order`; -1 where there is none.
pub open spec fn last_dep(order: Seq<int>, ins: Seq<int>) -> int
    decreases ins.len(),
{
    if ins.len() == 0 {
        -1
    } else {
        let rest = last_dep(order, ins.drop_last());
        let p = order.index_of(ins.last());
        if rest < p {
            p
        } else {
            rest
        }
    }
}

/// Node `x` is scheduled before node `y`.
pub open spec fn kahn_lt(nodes: Seq<Node>, order: Seq<int>, x: int, y: int) -> bool {
    let lx = last_dep(order, deps(nodes[x]));
    let ly = last_dep(order, deps(nodes[y]));
    lx < ly || (lx == ly && x < y)
}

/// Every operand of `order[i]` stands before position `i`.
pub open spec fn deps_placed(nodes: Seq<Node>, order: Seq<int>, i: int) -> bool {
    forall|k: int|
        0 <= k < deps(nodes[order[i]]).len() ==> among(
            order,
            i,
            #[trigger] deps(nodes[order[i]])[k],
        )
}

/// `order` lists every node once, operands first, in breadth-first order.
pub open spec fn is_kahn_order(nodes: Seq<Node>, order: Seq<int>) -> bool {
    &&& order.len() == nodes.len()
    &&& order.no_duplicates()
    &&& forall|i: int| 0 <= i < order.len() ==> 0 <= #[trigger] order[i] < nodes.len()
    &&& forall|i: int| 0 <= i < order.len() ==> #[trigger] deps_placed(nodes, order, i)
    &&& forall|i: int, j: int|
        0 <= i < j < order.len() ==> kahn_lt(nodes, order, #[trigger] order[i], #[trigger] order[j])
}

/// The breadth-first order of the nodes, where they have one.
pub open spec fn schedule(nodes: Seq<Node>) -> Seq<int> {
    choose|order: Seq<int>| is_kahn_order(nodes, order)
}

/// A node with its operands renamed to their positions in `order`.
pub open spec fn rename(node: Node, order: Seq<int>) -> Node {
    match node {
        Node::Gate(op, ins) => Node::Gate(op, places(ins, order)),
        _ => node,
    }
}

/// The positions of `xs` in `order`.
pub open spec fn places(xs: Seq<int>, order: Seq<int>) -> Seq<int> {
    Seq::new(xs.len(), |k: int| order.index_of(xs[k]))
}

/// The netlist with its nodes listed in `order`.
pub open spec fn renumber(net: Netlist, order: Seq<int>) -> Netlist {
    Netlist {
        nodes: Seq::new(order.len(), |i: int| rename(net.nodes[order[i]], order)),
        labels: Seq::new(order.len(), |i: int| net.labels[order[i]]),
        drives: places(net.drives, order),
        inits: net.inits,
        reg_labels: net.reg_labels,
        outs: places(net.outs, order),
        inputs: net.inputs,
    }
}

/// A scheduled netlist keeps its shape, and operands precede their gates.
pub proof fn lemma_renumber_wf(net: Netlist, order: Seq<int>)
    requires
        net.shaped(),
        net.taps_closed(),
        is_kahn_order(net.nodes, order),
    ensures
        renumber(net, order).shaped(),
        renumber(net, order).ordered(),
        renumber(net, order).taps_closed(),
{
    let new = renumber(net, order);
    assert forall|i: int| 0 <= i < new.nodes.len() implies arity_ok(#[trigger] new.nodes[i])
        && node_ordered(new.nodes, i) && (new.nodes[i] matches Node::Input(k) ==> 0 <= k < new.inputs) && (
    new.nodes[i] matches Node::RegOut(r) ==> 0 <= r < new.drives.len()) by {
        let old_node = net.nodes[order[i]];
        assert(arity_ok(old_node));
        assert(deps_placed(net.nodes, order, i));
        assert forall|k: int| 0 <= k < deps(new.nodes[i]).len() implies 0 <= #[trigger] deps(
            new.nodes[i],
        )[k] < i by {
            let x = deps(net.nodes[order[i]])[k];
            assert(among(order, i, x));
            let q = choose|q: int| 0 <= q < i && #[trigger] order[q] == x;
            lemma_index_of(order, q);
        }
    }
    assert forall|i: int| 0 <= i < new.nodes.len() implies #[trigger] node_ordered(new.nodes, i) by {
        assert(arity_ok(new.nodes[i]));
    }
    assert forall|k: int| 0 <= k < new.inputs implies #[trigger] new.has_input(k) by {
        assert(net.has_input(k));
        let i = choose|i: int| 0 <= i < net.nodes.len() && #[trigger] net.nodes[i] == Node::Input(k);
        lemma_onto(order, i);
        assert(new.nodes[order.index_of(i)] == Node::Input(k));
    }
    assert forall|r: int| 0 <= r < new.drives.len() implies #[trigger] new.has_reg(r) by {
        assert(net.has_reg(r));
        let i = choose|i: int| 0 <= i < net.nodes.len() && #[trigger] net.nodes[i] == Node::RegOut(r);
        lemma_onto(order, i);
        assert(new.nodes[order.index_of(i)] == Node::RegOut(r));
    }
    assert forall|i: int, j: int|
        0 <= i < new.nodes.len() && 0 <= j < new.nodes.len() && #[trigger] new.nodes[i]
            == #[trigger] new.nodes[j] && (new.nodes[i] is Input || new.nodes[i] is RegOut) implies i
        == j by {
        assert(net.nodes[order[i]] == net.nodes[order[j]]);
    }
    assert forall|r: int| 0 <= r < new.drives.len() implies 0 <= #[trigger] new.drives[r]
        < new.nodes.len() by {
        lemma_onto(order, net.drives[r]);
    }
    assert forall|k: int| 0 <= k < new.outs.len() implies 0 <= #[trigger] new.outs[k]
        < new.nodes.len() by {
        lemma_onto(order, net.outs[k]);
    }
}

/// `x` stands at `p` in a list without duplicates.
pub proof fn lemma_index_of(order: Seq<int>, p: int)
    requires
        order.no_duplicates(),
        0 <= p < order.len(),
    ensures
        order.index_of(order[p]) == p,
{
    let q = order.index_of(order[p]);
    assert(order.contains(order[p]));
    assert(order[q] == order[p]);
}

/// A list of `n` distinct numbers below `n` holds each of them.
pub proof fn lemma_onto(order: Seq<int>, x: int)
    requires
        order.no_duplicates(),
        forall|i: int| 0 <= i < order.len() ==> 0 <= #[trigger] order[i] < order.len(),
        0 <= x < order.len(),
    ensures
        order.contains(x),
        0 <= order.index_of(x) < order.len(),
        order[order.index_of(x)] == x,
{
    let n = order.len() as int;
    let s = order.to_set();
    order.unique_seq_to_set();
    let full = vstd::set_lib::set_int_range(0, n);
    vstd::set_lib::lemma_int_range(0, n);
    assert(s.subset_of(full)) by {
        assert forall|v: int| s.contains(v) implies full.contains(v) by {
            let i = choose|i: int| 0 <= i < order.len() && order[i] == v;
        }
    }
    if !order.contains(x) {
        let less = full.remove(x);
        assert(s.subset_of(less));
        vstd::set_lib::lemma_len_subset(s, less);
    }
}

/// `last_dep` only looks at where the operands stand.
proof fn lemma_last_dep_agree(o1: Seq<int>, o2: Seq<int>, ins: Seq<int>)
    requires
        forall|k: int| 0 <= k < ins.len() ==> o1.index_of(#[trigger] ins[k]) == o2.index_of(ins[k]),
    ensures
        last_dep(o1, ins) == last_dep(o2, ins),
    decreases ins.len(),
{
    if ins.len() > 0 {
        let rest = ins.drop_last();
        assert forall|k: int| 0 <= k < rest.len() implies o1.index_of(#[trigger] rest[k])
            == o2.index_of(rest[k]) by {
            assert(rest[k] == ins[k]);
        }
        lemma_last_dep_agree(o1, o2, rest);
        assert(ins.last() == ins[ins.len() - 1]);
    }
}

/// `last_dep` is the largest of the operands' positions.
proof fn lemma_last_dep_bound(order: Seq<int>, ins: Seq<int>, h: int)
    requires
        h >= -1,
        forall|k: int| 0 <= k < ins.len() ==> order.index_of(#[trigger] ins[k]) <= h,
    ensures
        last_dep(order, ins) <= h,
        (exists|k: int| 0 <= k < ins.len() && order.index_of(#[trigger] ins[k]) == h) ==> last_dep(
            order,
            ins,
        ) == h,
    decreases ins.len(),
{
    if ins.len() > 0 {
        let rest = ins.drop_last();
        assert forall|k: int| 0 <= k < rest.len() implies order.index_of(#[trigger] rest[k]) <= h by {
            assert(rest[k] == ins[k]);
        }
        assert(ins.last() == ins[ins.len() - 1]);
        lemma_last_dep_bound(order, rest, h);
        if exists|k: int| 0 <= k < ins.len() && order.index_of(#[trigger] ins[k]) == h {
            let k = choose|k: int| 0 <= k < ins.len() && order.index_of(#[trigger] ins[k]) == h;
            if k < rest.len() {
                assert(rest[k] == ins[k]);
            }
        }
    }
}

/// Positions of the first entries do not change when a list grows.
proof fn lemma_index_stable(o1: Seq<int>, o2: Seq<int>, m: int, x: int)
    requires
        o1.no_duplicates(),
        o2.no_duplicates(),
        0 <= m <= o1.len(),
        m <= o2.len(),
        forall|i: int| 0 <= i < m ==> o1[i] == o2[i],
        among(o1, m, x),
    ensures
        o1.index_of(x) == o2.index_of(x),
        0 <= o1.index_of(x) < m,
{
    let p = choose|p: int| 0 <= p < m && #[trigger] o1[p] == x;
    lemma_index_of(o1, p);
    lemma_index_of(o2, p);
}

/// A node list has at most one breadth-first order: scheduling is a
/// function of the nodes, so compiling the same circuit twice gives the same
/// numbering.
pub proof fn kahn_order_is_unique(nodes: Seq<Node>, o1: Seq<int>, o2: Seq<int>)
    requires
        is_kahn_order(nodes, o1),
        is_kahn_order(nodes, o2),
    ensures
        o1 == o2,
{
    lemma_prefix_unique(nodes, o1, o2, nodes.len());
    assert(o1 =~= o2);
}

proof fn lemma_prefix_unique(nodes: Seq<Node>, o1: Seq<int>, o2: Seq<int>, m: nat)
    requires
        is_kahn_order(nodes, o1),
        is_kahn_order(nodes, o2),
        m <= nodes.len(),
    ensures
        forall|i: int| 0 <= i < m ==> o1[i] == o2[i],
    decreases m,
{
    if m > 0 {
        let t = m - 1;
        lemma_prefix_unique(nodes, o1, o2, t as nat);
        let x = o1[t];
        let y = o2[t];
        if x != y {
            lemma_onto(o1, y);
            lemma_onto(o2, x);
            let p = o1.index_of(y);
            let q = o2.index_of(x);
            assert(p > t) by {
                if p < t {
                    assert(o2[p] == y);
                }
            }
            assert(q > t) by {
                if q < t {
                    assert(o1[q] == x);
                }
            }
            assert(kahn_lt(nodes, o1, o1[t], o1[p]));
            assert(kahn_lt(nodes, o2, o2[t], o2[q]));
            assert(deps_placed(nodes, o1, t));
            assert(deps_placed(nodes, o2, t));
            let dx = deps(nodes[x]);
            let dy = deps(nodes[y]);
            assert forall|k: int| 0 <= k < dx.len() implies o1.index_of(#[trigger] dx[k])
                == o2.index_of(dx[k]) by {
                lemma_index_stable(o1, o2, t, dx[k]);
            }
            assert forall|k: int| 0 <= k < dy.len() implies o1.index_of(#[trigger] dy[k])
                == o2.index_of(dy[k]) by {
                lemma_index_stable(o2, o1, t, dy[k]);
            }
            lemma_last_dep_agree(o1, o2, dx);
            lemma_last_dep_agree(o1, o2, dy);
        }
    }
}

/// A complete schedule shows that there is no combinational cycle.
pub proof fn lemma_kahn_acyclic(nodes: Seq<Node>, order: Seq<int>)
    requires
        is_kahn_order(nodes, order),
    ensures
        acyclic(nodes),
{
    let rank = Seq::new(nodes.len(), |i: int| order.index_of(i) as nat);
    assert forall|i: int, k: int|
        #![trigger deps(nodes[i])[k]]
        0 <= i < nodes.len() && 0 <= k < deps(nodes[i]).len() implies rank[deps(nodes[i])[k]]
        < rank[i] by {
        lemma_onto(order, i);
        let p = order.index_of(i);
        assert(deps_placed(nodes, order, p));
        assert(order[p] == i);
        let d = deps(nodes[order[p]])[k];
        let q = choose|q: int| 0 <= q < p && #[trigger] order[q] == d;
        lemma_index_of(order, q);
    }
    assert(is_ranking(nodes, rank));
}

/// Where every operand precedes its gate there is no cycle: circuits built
/// without forward references always schedule.
pub proof fn ordered_is_acyclic(net: Netlist)
    requires
        net.ordered(),
    ensures
        acyclic(net.nodes),
        net.closed_gates(),
{
    let rank = Seq::new(net.nodes.len(), |i: int| i as nat);
    assert forall|i: int, k: int|
        #![trigger deps(net.nodes[i])[k]]
        0 <= i < net.nodes.len() && 0 <= k < deps(net.nodes[i]).len() implies rank[deps(net.nodes[i])[k]]
        < rank[i] by {
        assert(node_ordered(net.nodes, i));
    }
    assert(is_ranking(net.nodes, rank));
    assert forall|i: int| 0 <= i < net.nodes.len() implies #[trigger] node_closed(net.nodes, i) by {
        assert(node_ordered(net.nodes, i));
    }
}

/// `vals` gives every node the value its definition asks for.
pub open spec fn settled(nodes: Seq<Node>, env: Env, vals: Seq<bool>) -> bool {
    &&& vals.len() == nodes.len()
    &&& forall|i: int| 0 <= i < nodes.len() ==> #[trigger] vals[i] == settle(nodes[i], env, vals)
}

/// The value a node's definition gives it, its operands holding `vals`.
pub open spec fn settle(node: Node, env: Env, vals: Seq<bool>) -> bool {
    match node {
        Node::Const(v) => v,
        Node::Input(k) => 0 <= k < env.inputs.len() && env.inputs[k],
        Node::RegOut(r) => 0 <= r < env.state.len() && env.state[r],
        Node::Gate(op, ins) => gate_fn(
            op,
            pick(vals, operand(ins, 0)),
            pick(vals, operand(ins, 1)),
            pick(vals, operand(ins, 2)),
        ),
    }
}

pub open spec fn pick(vals: Seq<bool>, i: int) -> bool {
    0 <= i < vals.len() && vals[i]
}

/// The values of a renumbered netlist, listed by original node.
pub open spec fn values_by_origin(net: Netlist, order: Seq<int>, env: Env) -> Seq<bool> {
    Seq::new(net.nodes.len(), |i: int| renumber(net, order).value(env, order.index_of(i)))
}

/// Scheduling keeps the meaning: the values of the scheduled circuit satisfy
/// every node's definition in the unscheduled one.
pub proof fn renumbering_settles(net: Netlist, order: Seq<int>, env: Env)
    requires
        net.shaped(),
        is_kahn_order(net.nodes, order),
    ensures
        settled(net.nodes, env, values_by_origin(net, order, env)),
{
    let new = renumber(net, order);
    let vals = values_by_origin(net, order, env);
    assert forall|i: int| 0 <= i < net.nodes.len() implies #[trigger] vals[i] == settle(
        net.nodes[i],
        env,
        vals,
    ) by {
        lemma_onto(order, i);
        let p = order.index_of(i);
        assert(new.nodes[p] == rename(net.nodes[i], order));
        assert(deps_placed(net.nodes, order, p));
        match net.nodes[i] {
            Node::Gate(op, ins) => {
                assert(deps(net.nodes[order[p]]) == ins);
                assert forall|k: int| 0 <= k < ins.len() implies 0 <= order.index_of(#[trigger] ins[k])
                    < p && 0 <= ins[k] < net.nodes.len() by {
                    assert(among(order, p, deps(net.nodes[order[p]])[k]));
                    let q = choose|q: int| 0 <= q < p && #[trigger] order[q] == ins[k];
                    lemma_index_of(order, q);
                }
            },
            _ => {},
        }
    }
}

/// Without combinational cycles the definitions have one solution only.
pub proof fn settled_is_unique(nodes: Seq<Node>, env: Env, v1: Seq<bool>, v2: Seq<bool>)
    requires
        acyclic(nodes),
        settled(nodes, env, v1),
        settled(nodes, env, v2),
    ensures
        v1 == v2,
{
    let rank = choose|rank: Seq<nat>| is_ranking(nodes, rank);
    assert forall|i: int| 0 <= i < nodes.len() implies v1[i] == v2[i] by {
        lemma_settled_at(nodes, env, v1, v2, rank, i);
    }
    assert(v1 =~= v2);
}

proof fn lemma_settled_at(
    nodes: Seq<Node>,
    env: Env,
    v1: Seq<bool>,
    v2: Seq<bool>,
    rank: Seq<nat>,
    i: int,
)
    requires
        is_ranking(nodes, rank),
        settled(nodes, env, v1),
        settled(nodes, env, v2),
        0 <= i < nodes.len(),
    ensures
        v1[i] == v2[i],
    decreases rank[i],
{
    match nodes[i] {
        Node::Gate(op, ins) => {
            assert(deps(nodes[i]) == ins);
            assert forall|k: int| 0 <= k < 3 implies pick(v1, #[trigger] operand(ins, k)) == pick(
                v2,
                operand(ins, k),
            ) by {
                let x = operand(ins, k);
                if 0 <= x < nodes.len() {
                    assert(deps(nodes[i])[k] == x);
                    lemma_settled_at(nodes, env, v1, v2, rank, x);
                }
            }
            assert(v1[i] == settle(nodes[i], env, v1));
            assert(v2[i] == settle(nodes[i], env, v2));
            let _ = (operand(ins, 0), operand(ins, 1), operand(ins, 2));
        },
        _ => {
            assert(v1[i] == settle(nodes[i], env, v1));
            assert(v2[i] == settle(nodes[i], env, v2));
        },
    }
}

/// Where operands precede their gates, scheduling keeps every value.
pub proof fn renumbering_keeps_value(net: Netlist, order: Seq<int>, env: Env, i: int)
    requires
        net.shaped(),
        net.ordered(),
        is_kahn_order(net.nodes, order),
        0 <= i < net.nodes.len(),
    ensures
        renumber(net, order).value(env, order.index_of(i)) == net.value(env, i),
{
    let vals = Seq::new(net.nodes.len(), |j: int| net.value(env, j));
    assert forall|j: int| 0 <= j < net.nodes.len() implies #[trigger] vals[j] == settle(
        net.nodes[j],
        env,
        vals,
    ) by {
        assert(node_ordered(net.nodes, j));
        match net.nodes[j] {
            Node::Gate(op, ins) => {
                assert forall|k: int| 0 <= k < ins.len() implies 0 <= #[trigger] ins[k] < j by {
                    assert(0 <= deps(net.nodes[j])[k] < j);
                }
            },
            _ => {},
        }
    }
    lemma_kahn_acyclic(net.nodes, order);
    renumbering_settles(net, order, env);
    settled_is_unique(net.nodes, env, vals, values_by_origin(net, order, env));
    assert(vals[i] == values_by_origin(net, order, env)[i]);
}

/// Where operands precede their gates and every tap is a node, scheduling
/// keeps what the circuit outputs and what its registers become.
pub proof fn renumbering_keeps_behaviour(net: Netlist, order: Seq<int>, env: Env)
    requires
        net.shaped(),
        net.ordered(),
        net.taps_closed(),
        is_kahn_order(net.nodes, order),
    ensures
        renumber(net, order).outputs(env) == net.outputs(env),
        renumber(net, order).next_state(env) == net.next_state(env),
        renumber(net, order).inits == net.inits,
{
    let new = renumber(net, order);
    assert forall|k: int| 0 <= k < net.outs.len() implies new.outputs(env)[k] == net.outputs(env)[k] by {
        renumbering_keeps_value(net, order, env, net.outs[k]);
    }
    assert forall|r: int| 0 <= r < net.drives.len() implies new.next_state(env)[r] == net.next_state(
        env,
    )[r] by {
        renumbering_keeps_value(net, order, env, net.drives[r]);
    }
    assert(new.outputs(env) =~= net.outputs(env));
    assert(new.next_state(env) =~= net.next_state(env));
}

/// How often `x` occurs in `xs`.
pub open spec fn occ(xs: Seq<int>, x: int) -> nat
    decreases xs.len(),
{
    if xs.len() == 0 {
        0
    } else {
        occ(xs.drop_last(), x) + if xs.last() == x {
            1nat
        } else {
            0nat
        }
    }
}

/// How many of the operands are not among the first `h` scheduled nodes.
spec fn pend(ins: Seq<int>, q: Seq<int>, h: int) -> nat
    decreases ins.len(),
{
    if ins.len() == 0 {
        0
    } else {
        pend(ins.drop_last(), q, h) + if among(q, h, ins.last()) {
            0nat
        } else {
            1nat
        }
    }
}

proof fn lemma_occ_take(xs: Seq<int>, k: int, x: int)
    requires
        0 <= k < xs.len(),
    ensures
        occ(xs.take(k + 1), x) == occ(xs.take(k), x) + if xs[k] == x {
            1nat
        } else {
            0nat
        },
{
    assert(xs.take(k + 1).drop_last() =~= xs.take(k));
    assert(xs.take(k + 1).last() == xs[k]);
}

proof fn lemma_occ_mono(xs: Seq<int>, k: int, x: int)
    requires
        0 <= k <= xs.len(),
    ensures
        occ(xs.take(k), x) <= occ(xs, x),
    decreases xs.len() - k,
{
    if k < xs.len() {
        lemma_occ_take(xs, k, x);
        lemma_occ_mono(xs, k + 1, x);
    } else {
        assert(xs.take(k) =~= xs);
    }
}

proof fn lemma_occ_push(xs: Seq<int>, y: int, x: int)
    ensures
        occ(xs.push(y), x) == occ(xs, x) + if y == x {
            1nat
        } else {
            0nat
        },
{
    assert(xs.push(y).drop_last() =~= xs);
}

proof fn lemma_pend_step(ins: Seq<int>, q: Seq<int>, h: int)
    requires
        0 <= h < q.len(),
        q.no_duplicates(),
    ensures
        pend(ins, q, h + 1) + occ(ins, q[h]) == pend(ins, q, h),
    decreases ins.len(),
{
    if ins.len() > 0 {
        lemma_pend_step(ins.drop_last(), q, h);
        let x = ins.last();
        if x == q[h] {
            assert(among(q, h + 1, x));
            assert(!among(q, h, x));
        } else if among(q, h, x) {
            let p = choose|p: int| 0 <= p < h && #[trigger] q[p] == x;
            assert(among(q, h + 1, x));
        } else {
            assert(!among(q, h + 1, x));
        }
    }
}

proof fn lemma_pend_start(ins: Seq<int>, q: Seq<int>)
    ensures
        pend(ins, q, 0) == ins.len(),
    decreases ins.len(),
{
    if ins.len() > 0 {
        lemma_pend_start(ins.drop_last(), q);
        assert(!among(q, 0, ins.last()));
    }
}

proof fn lemma_pend_grow(ins: Seq<int>, q: Seq<int>, x: int, h: int)
    requires
        0 <= h <= q.len(),
    ensures
        pend(ins, q.push(x), h) == pend(ins, q, h),
    decreases ins.len(),
{
    if ins.len() > 0 {
        lemma_pend_grow(ins.drop_last(), q, x, h);
        let y = ins.last();
        if among(q, h, y) {
            let p = choose|p: int| 0 <= p < h && #[trigger] q[p] == y;
            assert(q.push(x)[p] == y);
        }
        if among(q.push(x), h, y) {
            let p = choose|p: int| 0 <= p < h && #[trigger] q.push(x)[p] == y;
            assert(q[p] == y);
        }
    }
}

proof fn lemma_pend_zero(ins: Seq<int>, q: Seq<int>, h: int)
    ensures
        pend(ins, q, h) == 0 <==> forall|k: int|
            0 <= k < ins.len() ==> among(q, h, #[trigger] ins[k]),
    decreases ins.len(),
{
    if ins.len() > 0 {
        let rest = ins.drop_last();
        lemma_pend_zero(rest, q, h);
        if pend(ins, q, h) == 0 {
            assert forall|k: int| 0 <= k < ins.len() implies among(q, h, #[trigger] ins[k]) by {
                if k < rest.len() {
                    assert(rest[k] == ins[k]);
                }
            }
        }
        if forall|k: int| 0 <= k < ins.len() ==> among(q, h, #[trigger] ins[k]) {
            assert forall|k: int| 0 <= k < rest.len() implies among(q, h, #[trigger] rest[k]) by {
                assert(rest[k] == ins[k]);
            }
            assert(among(q, h, ins[ins.len() - 1]));
        }
    }
}

/// Nodes that a complete run leaves out lie on or behind a cycle.
proof fn lemma_stuck(nodes: Seq<Node>, q: Seq<int>, rank: Seq<nat>, d: int)
    requires
        is_ranking(nodes, rank),
        forall|i: int| 0 <= i < nodes.len() ==> #[trigger] node_closed(nodes, i),
        forall|i: int|
            0 <= i < nodes.len() ==> (pend(#[trigger] deps(nodes[i]), q, q.len() as int) == 0 ==> q.contains(i)),
        0 <= d < nodes.len(),
    ensures
        q.contains(d),
    decreases rank[d],
{
    let ins = deps(nodes[d]);
    assert(node_closed(nodes, d));
    assert forall|k: int| 0 <= k < ins.len() implies among(q, q.len() as int, #[trigger] ins[k]) by {
        assert(rank[deps(nodes[d])[k]] < rank[d]);
        lemma_stuck(nodes, q, rank, ins[k]);
        let p = choose|p: int| 0 <= p < q.len() && q[p] == ins[k];
        assert(q[p] == ins[k]);
    }
    lemma_pend_zero(ins, q, q.len() as int);
}

proof fn lemma_incomplete(nodes: Seq<Node>, q: Seq<int>)
    requires
        forall|i: int| 0 <= i < nodes.len() ==> #[trigger] node_closed(nodes, i),
        forall|i: int|
            0 <= i < nodes.len() ==> (pend(#[trigger] deps(nodes[i]), q, q.len() as int) == 0 ==> q.contains(i)),
        q.no_duplicates(),
        q.len() < nodes.len(),
    ensures
        !acyclic(nodes),
{
    if acyclic(nodes) {
        let rank = choose|rank: Seq<nat>| is_ranking(nodes, rank);
        let full = vstd::set_lib::set_int_range(0, nodes.len() as int);
        vstd::set_lib::lemma_int_range(0, nodes.len() as int);
        assert forall|d: int| full.contains(d) implies q.to_set().contains(d) by {
            lemma_stuck(nodes, q, rank, d);
        }
        q.unique_seq_to_set();
        vstd::set_lib::lemma_len_subset(full, q.to_set());
    }
}

/// The nodes a map of instructions stands for.
pub open spec fn nodes_of(insts: InstMap, pool: SignalPool) -> Seq<Node> {
    Seq::new(inst_seq(insts).len(), |i: int| node_of(inst_seq(insts)[i].data, pool))
}

/// The dependents of every node, up to operand `k` of node `i`.
spec fn table_ok(nodes: Seq<Node>, dependents: Seq<Vec<Signal>>, i: int, k: int) -> bool {
    &&& dependents.len() == nodes.len()
    &&& forall|x: int, d: int|
        #![trigger occ(ids(dependents[x]@), d)]
        0 <= x < nodes.len() && 0 <= d < nodes.len() ==> occ(ids(dependents[x]@), d) == if d < i {
            occ(deps(nodes[d]), x)
        } else if d == i {
            occ(deps(nodes[d]).take(k), x)
        } else {
            0
        }
    &&& forall|x: int, e: int|
        #![trigger dependents[x]@[e]]
        0 <= x < nodes.len() && 0 <= e < dependents[x]@.len() ==> 0 <= dependents[x]@[e].id() <= i
            && dependents[x]@[e].id() < nodes.len()
    &&& forall|x: int, e: int, f: int|
        #![trigger dependents[x]@[e], dependents[x]@[f]]
        0 <= x < nodes.len() && 0 <= e <= f < dependents[x]@.len() ==> dependents[x]@[e].id()
            <= dependents[x]@[f].id()
}

proof fn lemma_table_push(
    nodes: Seq<Node>,
    before: Seq<Vec<Signal>>,
    after: Seq<Vec<Signal>>,
    i: int,
    k: int,
    sig: Signal,
)
    requires
        table_ok(nodes, before, i, k),
        0 <= i < nodes.len(),
        0 <= k < deps(nodes[i]).len(),
        0 <= deps(nodes[i])[k] < nodes.len(),
        sig.id() == i,
        after.len() == before.len(),
        forall|x: int|
            0 <= x < nodes.len() && x != deps(nodes[i])[k] ==> #[trigger] after[x] == before[x],
        after[deps(nodes[i])[k]]@ == before[deps(nodes[i])[k]]@.push(sig),
    ensures
        table_ok(nodes, after, i, k + 1),
{
    let y = deps(nodes[i])[k];
    assert forall|x: int, d: int|
        #![trigger occ(ids(after[x]@), d)]
        0 <= x < nodes.len() && 0 <= d < nodes.len() implies occ(ids(after[x]@), d) == if d < i {
        occ(deps(nodes[d]), x)
    } else if d == i {
        occ(deps(nodes[d]).take(k + 1), x)
    } else {
        0
    } by {
        lemma_occ_take(deps(nodes[i]), k, x);
        if x == y {
            assert(ids(after[x]@) =~= ids(before[x]@).push(i));
            lemma_occ_push(ids(before[x]@), i, d);
        }
    }
    assert forall|x: int, e: int, f: int|
        #![trigger after[x]@[e], after[x]@[f]]
        0 <= x < nodes.len() && 0 <= e <= f < after[x]@.len() implies after[x]@[e].id()
        <= after[x]@[f].id() by {
        if x != y || f < before[x]@.len() {
            assert(before[x]@[e].id() <= before[x]@[f].id());
        } else if e < before[x]@.len() {
            assert(before[x]@[e].id() <= i);
        }
    }
    assert forall|x: int, e: int|
        #![trigger after[x]@[e]]
        0 <= x < nodes.len() && 0 <= e < after[x]@.len() implies 0 <= after[x]@[e].id() <= i
        && after[x]@[e].id() < nodes.len() by {
        if x != y || e < before[x]@.len() {
            assert(0 <= before[x]@[e].id() <= i);
        }
    }
}

/// The queue so far: distinct nodes in schedule order, the operands of each
/// standing before it.
spec fn queue_ok(nodes: Seq<Node>, q: Seq<int>) -> bool {
    &&& q.no_duplicates()
    &&& forall|i: int| 0 <= i < q.len() ==> 0 <= #[trigger] q[i] < nodes.len()
    &&& forall|i: int| 0 <= i < q.len() ==> #[trigger] deps_placed(nodes, q, i)
    &&& forall|i: int, j: int|
        0 <= i < j < q.len() ==> kahn_lt(nodes, q, #[trigger] q[i], #[trigger] q[j])
}

/// Extending the queue by a node whose last operand is at position `h`.
proof fn lemma_queue_push(nodes: Seq<Node>, q: Seq<int>, h: int, d: int)
    requires
        queue_ok(nodes, q),
        -1 <= h < q.len() || (h == -1),
        0 <= d < nodes.len(),
        !q.contains(d),
        forall|k: int| 0 <= k < deps(nodes[d]).len() ==> among(q, h + 1, #[trigger] deps(nodes[d])[k]),
        h >= 0 ==> deps(nodes[d]).contains(q[h]),
        forall|i: int|
            0 <= i < q.len() ==> last_dep(q, deps(nodes[#[trigger] q[i]])) < h || (last_dep(
                q,
                deps(nodes[q[i]]),
            ) == h && q[i] < d),
    ensures
        queue_ok(nodes, q.push(d)),
        last_dep(q.push(d), deps(nodes[d])) == h,
        forall|i: int|
            0 <= i < q.len() ==> last_dep(q.push(d), deps(nodes[#[trigger] q[i]])) == last_dep(
                q,
                deps(nodes[q[i]]),
            ),
{
    let r = q.push(d);
    assert(r.no_duplicates()) by {
        assert forall|i: int, j: int| 0 <= i < r.len() && 0 <= j < r.len() && i != j implies r[i] != r[j] by {
            if i == q.len() {
                assert(q[j] != d);
            } else if j == q.len() {
                assert(q[i] != d);
            }
        }
    }
    assert forall|i: int| 0 <= i < q.len() implies last_dep(r, deps(nodes[#[trigger] q[i]])) == last_dep(
        q,
        deps(nodes[q[i]]),
    ) && deps_placed(nodes, r, i) by {
        let ins = deps(nodes[q[i]]);
        assert(deps_placed(nodes, q, i));
        assert forall|k: int| 0 <= k < ins.len() implies r.index_of(#[trigger] ins[k]) == q.index_of(
            ins[k],
        ) && among(r, i, ins[k]) by {
            assert(among(q, i, deps(nodes[q[i]])[k]));
            lemma_index_stable(q, r, i, ins[k]);
            let p = choose|p: int| 0 <= p < i && #[trigger] q[p] == ins[k];
            assert(r[p] == ins[k]);
        }
        lemma_last_dep_agree(r, q, ins);
        assert(r[i] == q[i]);
    }
    let ins = deps(nodes[d]);
    assert forall|k: int| 0 <= k < ins.len() implies r.index_of(#[trigger] ins[k]) <= h && among(
        r,
        q.len() as int,
        ins[k],
    ) by {
        let p = choose|p: int| 0 <= p < h + 1 && #[trigger] q[p] == ins[k];
        assert(r[p] == ins[k]);
        lemma_index_of(r, p);
    }
    if h >= 0 {
        let k = choose|k: int| 0 <= k < ins.len() && ins[k] == q[h];
        assert(r[h] == q[h]);
        lemma_index_of(r, h);
        assert(r.index_of(ins[k]) == h);
    } else if ins.len() > 0 {
        assert(among(q, 0, ins[0]));
    }
    lemma_last_dep_bound(r, ins, h);
    assert(last_dep(r, ins) == h);
    assert(deps_placed(nodes, r, q.len() as int));
    assert forall|i: int| 0 <= i < r.len() implies #[trigger] deps_placed(nodes, r, i) by {
        if i < q.len() {
            assert(q[i] == r[i]);
        }
    }
    assert forall|i: int, j: int| 0 <= i < j < r.len() implies kahn_lt(
        nodes,
        r,
        #[trigger] r[i],
        #[trigger] r[j],
    ) by {
        assert(r[i] == q[i]);
        if j < q.len() {
            assert(r[j] == q[j]);
            assert(kahn_lt(nodes, q, q[i], q[j]));
        }
    }
}

/// Kahn's algorithm over the combinational graph, deterministic by
/// processing signals in creation order. Register outputs are sources (they
/// read the previous tick's state), so cycles through registers are fine;
/// only purely combinational cycles are rejected.
pub(crate) fn topo_order(insts: &InstMap, pool: &SignalPool) -> (res: Result<Vec<Signal>, Error>)
    requires
        lists_live(inst_seq(*insts), *pool),
        inst_seq(*insts).len() <= crate::circuit::MAX_SIGNALS,
        forall|i: int|
            0 <= i < nodes_of(*insts, *pool).len() ==> #[trigger] node_closed(nodes_of(*insts, *pool), i),
        forall|i: int|
            0 <= i < nodes_of(*insts, *pool).len() ==> deps(
                #[trigger] nodes_of(*insts, *pool)[i],
            ).len() <= 3,
    ensures
        res is Err <==> !acyclic(nodes_of(*insts, *pool)),
        res matches Ok(order) ==> is_kahn_order(nodes_of(*insts, *pool), ids(order@)),
{
    let ghost nodes = nodes_of(*insts, *pool);
    let n: usize = insts_len(insts);
    let mut in_degree: Vec<u32> = Vec::with_capacity(n);
    let mut dependents: Vec<Vec<Signal>> = Vec::with_capacity(n);
    for i in 0..n
        invariant
            in_degree@.len() == i,
            dependents@.len() == i,
            forall|x: int| 0 <= x < i ==> #[trigger] in_degree@[x] == 0,
            forall|x: int| 0 <= x < i ==> (#[trigger] dependents@[x])@ == Seq::<Signal>::empty(),
    {
        in_degree.push(0);
        dependents.push(Vec::new());
    }
    assert forall|x: int, d: int|
        #![trigger occ(ids(dependents@[x]@), d)]
        0 <= x < n && 0 <= d < n implies occ(ids(dependents@[x]@), d) == 0 by {
        assert(ids(dependents@[x]@) =~= Seq::empty());
    }
    proof {
        if n > 0 {
            assert forall|x: int| #[trigger] occ(deps(nodes[0]).take(0), x) == 0 by {}
        }
    }
    for i in 0..n
        invariant
            n == nodes.len(),
            n <= crate::circuit::MAX_SIGNALS,
            nodes == nodes_of(*insts, *pool),
            lists_live(inst_seq(*insts), *pool),
            forall|d: int| 0 <= d < n ==> #[trigger] node_closed(nodes, d),
            forall|d: int| 0 <= d < n ==> deps(#[trigger] nodes[d]).len() <= 3,
            in_degree@.len() == n,
            forall|d: int|
                0 <= d < n ==> #[trigger] in_degree@[d] == if d < i {
                    deps(nodes[d]).len()
                } else {
                    0
                },
            table_ok(nodes, dependents@, i as int, 0),
    {
        let sig = Signal::from_index(i);
        assert(node_closed(nodes, i as int));
        match &insts_get(insts, sig).data {
            InstData::Gate { inputs, .. } => {
                let items = list_slice(inputs, pool);
                assert(ids(items@) == deps(nodes[i as int]));
                in_degree.set(i, items.len() as u32);
                for k in 0..items.len()
                    invariant
                        n == nodes.len(),
                        0 <= i < n,
                        ids(items@) == deps(nodes[i as int]),
                        node_closed(nodes, i as int),
                        sig.id() == i,
                        table_ok(nodes, dependents@, i as int, k as int),
                {
                    assert(0 <= deps(nodes[i as int])[k as int] < nodes.len());
                    let ghost before = dependents@;
                    let at: usize = items[k].as_u32() as usize;
                    let ghost cell = dependents@[at as int]@;
                    dependents[at].push(sig);
                    proof {
                        assert(dependents@[at as int]@ == cell.push(sig));
                        lemma_table_push(nodes, before, dependents@, i as int, k as int, sig);
                    }
                }
            },
            _ => {},
        }
        proof {
            let t = deps(nodes[i as int]);
            assert(t.take(t.len() as int) =~= t);
            assert forall|x: int, d: int|
                #![trigger occ(ids(dependents@[x]@), d)]
                0 <= x < n && 0 <= d < n implies occ(ids(dependents@[x]@), d) == if d < i + 1 {
                occ(deps(nodes[d]), x)
            } else {
                0
            } by {}
            assert forall|d: int, x: int| #[trigger] occ(deps(nodes[d]).take(0), x) == 0 by {}
            assert(table_ok(nodes, dependents@, i + 1, 0));
        }
    }

    let mut order: Vec<Signal> = Vec::with_capacity(n);
    for i in 0..n
        invariant
            n == nodes.len(),
            n <= crate::circuit::MAX_SIGNALS,
            in_degree@.len() == n,
            forall|d: int| 0 <= d < n ==> #[trigger] in_degree@[d] == deps(nodes[d]).len(),
            queue_ok(nodes, ids(order@)),
            forall|e: int|
                0 <= e < order@.len() ==> last_dep(
                    ids(order@),
                    deps(nodes[#[trigger] ids(order@)[e]]),
                ) == -1 && ids(order@)[e] < i,
            forall|d: int|
                0 <= d < n ==> (#[trigger] ids(order@).contains(d) <==> d < i && deps(nodes[d]).len() == 0),
    {
        if in_degree[i] == 0 {
            let ghost q = ids(order@);
            let sig = Signal::from_index(i);
            order.push(sig);
            proof {
                assert(ids(order@) =~= q.push(i as int));
                lemma_queue_push(nodes, q, -1, i as int);
                lemma_push_contains(q, i as int);
                assert forall|e: int| 0 <= e < order@.len() implies last_dep(
                    ids(order@),
                    deps(nodes[#[trigger] ids(order@)[e]]),
                ) == -1 && ids(order@)[e] < i + 1 by {
                    if e < q.len() {
                        assert(ids(order@)[e] == q[e]);
                    }
                }
            }
        }
    }

    let mut head: usize = 0;
    proof {
        lemma_bounded(ids(order@), n as int);
        assert forall|d: int| 0 <= d < n implies #[trigger] in_degree@[d] == pend(
            deps(nodes[d]),
            ids(order@),
            0,
        ) by {
            lemma_pend_start(deps(nodes[d]), ids(order@));
        }
    }
    while head < order.len()
        invariant
            n == nodes.len(),
            n <= crate::circuit::MAX_SIGNALS,
            head <= order@.len(),
            in_degree@.len() == n,
            table_ok(nodes, dependents@, n as int, 0),
            queue_ok(nodes, ids(order@)),
            forall|d: int|
                0 <= d < n ==> #[trigger] in_degree@[d] == pend(
                    deps(nodes[d]),
                    ids(order@),
                    head as int,
                ),
            forall|d: int| 0 <= d < n ==> (#[trigger] ids(order@).contains(d) <==> in_degree@[d] == 0),
            forall|e: int|
                0 <= e < order@.len() ==> last_dep(
                    ids(order@),
                    deps(nodes[#[trigger] ids(order@)[e]]),
                ) < head,
            order@.len() <= n,
        decreases n - head,
    {
        let at: usize = order[head].as_u32() as usize;
        let ghost q0 = ids(order@);
        let ghost h = head as int;
        let ghost dl = ids(dependents@[at as int]@);
        assert(q0[h] == at);
        assert(0 <= at < n);
        let len: usize = dependents[at].len();
        for k in 0..len
            invariant
                n == nodes.len(),
                n <= crate::circuit::MAX_SIGNALS,
                0 <= at < n,
                h == head,
                0 <= h < ids(order@).len(),
                ids(order@)[h] == at,
                dl == ids(dependents@[at as int]@),
                len == dl.len(),
                in_degree@.len() == n,
                table_ok(nodes, dependents@, n as int, 0),
                queue_ok(nodes, ids(order@)),
                forall|d: int|
                    0 <= d < n ==> #[trigger] in_degree@[d] + occ(dl.take(k as int), d) == pend(
                        deps(nodes[d]),
                        ids(order@),
                        h,
                    ),
                forall|d: int|
                    0 <= d < n ==> (#[trigger] ids(order@).contains(d) <==> in_degree@[d] == 0),
                forall|e: int|
                    0 <= e < order@.len() ==> {
                        let l = last_dep(ids(order@), deps(nodes[#[trigger] ids(order@)[e]]));
                        l < h || (l == h && k > 0 && ids(order@)[e] <= dl[k - 1])
                    },
                order@.len() <= n,
        {
            let ghost q = ids(order@);
            let dep = dependents[at][k];
            let d: usize = dep.as_u32() as usize;
            proof {
                assert(dl[k as int] == d);
                assert(0 <= dependents@[at as int]@[k as int].id() < nodes.len());
                lemma_occ_take(dl, k as int, d as int);
                lemma_occ_mono(dl, k + 1, d as int);
                lemma_pend_step(deps(nodes[d as int]), q, h);
                assert(occ(ids(dependents@[at as int]@), d as int) == occ(deps(nodes[d as int]), at as int));
                assert(in_degree@[d as int] + occ(dl.take(k as int), d as int) == pend(
                    deps(nodes[d as int]),
                    q,
                    h,
                ));
            }
            let ghost deg0 = in_degree@;
            in_degree.set(d, in_degree[d] - 1);
            proof {
                assert forall|y: int| 0 <= y < n implies #[trigger] in_degree@[y] + occ(dl.take(k + 1), y)
                    == pend(deps(nodes[y]), q, h) by {
                    lemma_occ_take(dl, k as int, y);
                    assert(deg0[y] + occ(dl.take(k as int), y) == pend(deps(nodes[y]), q, h));
                }
                assert forall|e: int| 0 <= e < q.len() implies {
                    let l = last_dep(q, deps(nodes[#[trigger] q[e]]));
                    l < h || (l == h && q[e] <= dl[k as int])
                } by {
                    if k > 0 {
                        assert(dependents@[at as int]@[k - 1].id() <= dependents@[at as int]@[k as int].id());
                    }
                }
                assert(!q.contains(d as int));
            }
            if in_degree[d] == 0 {
                order.push(dep);
                proof {
                    assert(ids(order@) =~= q.push(d as int));
                    lemma_pend_zero(deps(nodes[d as int]), q, h + 1);
                    if !deps(nodes[d as int]).contains(at as int) {
                        lemma_occ_absent(deps(nodes[d as int]), at as int);
                    }
                    assert forall|i: int| 0 <= i < q.len() implies last_dep(
                        q,
                        deps(nodes[#[trigger] q[i]]),
                    ) < h || (last_dep(q, deps(nodes[q[i]])) == h && q[i] < d) by {
                        assert(q[i] != d) by {
                            if q[i] == d {
                                assert(q.contains(d as int));
                            }
                        }
                    }
                    lemma_queue_push(nodes, q, h, d as int);
                    lemma_push_contains(q, d as int);
                    lemma_bounded(ids(order@), n as int);
                    assert forall|y: int| 0 <= y < n implies #[trigger] in_degree@[y] + occ(
                        dl.take(k + 1),
                        y,
                    ) == pend(deps(nodes[y]), ids(order@), h) by {
                        lemma_pend_grow(deps(nodes[y]), q, d as int, h);
                    }
                    assert forall|e: int| 0 <= e < order@.len() implies {
                        let l = last_dep(ids(order@), deps(nodes[#[trigger] ids(order@)[e]]));
                        l < h || (l == h && ids(order@)[e] <= dl[k as int])
                    } by {
                        if e < q.len() {
                            assert(ids(order@)[e] == q[e]);
                        }
                    }
                }
            }
        }
        proof {
            assert(dl.take(len as int) =~= dl);
            assert forall|d: int| 0 <= d < n implies #[trigger] in_degree@[d] == pend(
                deps(nodes[d]),
                ids(order@),
                h + 1,
            ) by {
                lemma_pend_step(deps(nodes[d]), ids(order@), h);
                assert(occ(ids(dependents@[at as int]@), d) == occ(deps(nodes[d]), at as int));
            }
        }
        head = head + 1;
    }
    if order.len() != n {
        proof {
            let q = ids(order@);
            assert forall|i: int| 0 <= i < nodes.len() && pend(#[trigger] deps(nodes[i]), q, q.len() as int)
                == 0 implies q.contains(i) by {
                assert(in_degree@[i] == 0);
            }
            lemma_incomplete(nodes, q);
        }
        return Err(Error::CycleDetected);
    }
    proof {
        lemma_kahn_acyclic(nodes, ids(order@));
    }
    Ok(order)
}

proof fn lemma_push_contains(q: Seq<int>, d: int)
    ensures
        forall|y: int| #[trigger] q.push(d).contains(y) <==> q.contains(y) || y == d,
{
    assert forall|y: int| #[trigger] q.push(d).contains(y) <==> q.contains(y) || y == d by {
        if q.contains(y) {
            let p = choose|p: int| 0 <= p < q.len() && q[p] == y;
            assert(q.push(d)[p] == y);
        }
        if y == d {
            assert(q.push(d)[q.len() as int] == y);
        }
    }
}

proof fn lemma_occ_absent(xs: Seq<int>, x: int)
    requires
        !xs.contains(x),
    ensures
        occ(xs, x) == 0,
    decreases xs.len(),
{
    if xs.len() > 0 {
        let rest = xs.drop_last();
        assert forall|i: int| 0 <= i < rest.len() implies rest[i] != x by {
            assert(rest[i] == xs[i]);
        }
        lemma_occ_absent(rest, x);
        assert(xs[xs.len() - 1] == xs.last());
    }
}

/// Distinct numbers below `n` are at most `n`.
pub proof fn lemma_bounded(q: Seq<int>, n: int)
    requires
        0 <= n,
        q.no_duplicates(),
        forall|i: int| 0 <= i < q.len() ==> 0 <= #[trigger] q[i] < n,
    ensures
        q.len() <= n,
{
    let full = vstd::set_lib::set_int_range(0, n);
    vstd::set_lib::lemma_int_range(0, n);
    q.unique_seq_to_set();
    assert forall|v: int| q.to_set().contains(v) implies full.contains(v) by {
        let i = choose|i: int| 0 <= i < q.len() && q[i] == v;
    }
    vstd::set_lib::lemma_len_subset(q.to_set(), full);
}

/// Scheduling keeps the number of gates.
pub proof fn lemma_gates_scheduled(net: Netlist, order: Seq<int>)
    requires
        is_kahn_order(net.nodes, order),
    ensures
        gate_nodes(renumber(net, order).nodes, net.nodes.len() as int) == gate_nodes(
            net.nodes,
            net.nodes.len() as int,
        ),
{
    let n = net.nodes.len() as int;
    let new = renumber(net, order).nodes;
    lemma_gate_places(new, n);
    lemma_gate_places(net.nodes, n);
    let f = |i: int| order[i];
    let a = gate_places(new, n);
    let b = gate_places(net.nodes, n);
    assert(vstd::relations::injective_on(f, a));
    assert forall|x: int| #[trigger] b.contains(x) implies a.map(f).contains(x) by {
        lemma_onto(order, x);
        assert(a.contains(order.index_of(x)));
        assert(f(order.index_of(x)) == x);
    }
    assert(a.map(f) =~= b);
    vstd::set_lib::lemma_map_size(a, b, f);
}

/// A schedule lists every node once, and every node a gate reads before it.
pub proof fn schedules_put_operands_first(nodes: Seq<Node>, order: Seq<int>, x: int, k: int)
    requires
        is_kahn_order(nodes, order),
        0 <= x < nodes.len(),
        nodes[x] matches Node::Gate(_, ins) && 0 <= k < ins.len(),
    ensures
        order.len() == nodes.len(),
        order.no_duplicates(),
        forall|y: int| 0 <= y < nodes.len() ==> #[trigger] order.contains(y),
        nodes[x] matches Node::Gate(_, ins) ==> order.index_of(ins[k]) < order.index_of(x),
{
    assert forall|y: int| 0 <= y < nodes.len() implies #[trigger] order.contains(y) by {
        lemma_onto(order, y);
    }
    lemma_onto(order, x);
    let p = order.index_of(x);
    assert(deps_placed(nodes, order, p));
    let d = deps(nodes[x])[k];
    assert(among(order, p, deps(nodes[order[p]])[k]));
    let q = choose|q: int| 0 <= q < p && #[trigger] order[q] == d;
    assert(order.index_of(d) == q) by {
        lemma_onto(order, d);
    }
}

/// `last_dep` is where the last operand stands.
proof fn lemma_last_dep(order: Seq<int>, ins: Seq<int>)
    ensures
        forall|k: int| 0 <= k < ins.len() ==> order.index_of(#[trigger] ins[k]) <= last_dep(order, ins),
        last_dep(order, ins) == -1 || exists|k: int|
            0 <= k < ins.len() && order.index_of(#[trigger] ins[k]) == last_dep(order, ins),
        ins.len() == 0 ==> last_dep(order, ins) == -1,
    decreases ins.len(),
{
    if ins.len() > 0 {
        let rest = ins.drop_last();
        lemma_last_dep(order, rest);
        assert forall|k: int| 0 <= k < ins.len() implies order.index_of(#[trigger] ins[k]) <= last_dep(
            order,
            ins,
        ) by {
            if k < rest.len() {
                assert(rest[k] == ins[k]);
            }
        }
        if last_dep(order, ins) != -1 {
            if last_dep(order, rest) == last_dep(order, ins) {
                let k = choose|k: int| 0 <= k < rest.len() && order.index_of(#[trigger] rest[k]) == last_dep(order, rest);
                assert(ins[k] == rest[k]);
            } else {
                assert(ins[ins.len() - 1] == ins.last());
            }
        }
    }
}

/// Schedules are breadth first: what waits for a node that is placed later is
/// placed later itself. In particular nodes that read nothing come first.
pub proof fn later_operands_wait_longer(nodes: Seq<Node>, order: Seq<int>, x: int, y: int, e: int)
    requires
        is_kahn_order(nodes, order),
        0 <= x < nodes.len(),
        0 <= y < nodes.len(),
        nodes[y] matches Node::Gate(_, ins) && ins.contains(e),
        nodes[x] matches Node::Gate(_, ins) ==> forall|k: int|
            0 <= k < ins.len() ==> order.index_of(#[trigger] ins[k]) < order.index_of(e),
    ensures
        order.index_of(x) < order.index_of(y),
{
    let (dx, dy) = (deps(nodes[x]), deps(nodes[y]));
    lemma_last_dep(order, dx);
    lemma_last_dep(order, dy);
    let k = choose|k: int| 0 <= k < dy.len() && dy[k] == e;
    assert(order.index_of(dy[k]) <= last_dep(order, dy));
    lemma_onto(order, x);
    lemma_onto(order, y);
    schedules_put_operands_first(nodes, order, y, k);
    assert(order.contains(e)) by {
        assert(deps_placed(nodes, order, order.index_of(y)));
        assert(among(order, order.index_of(y), deps(nodes[order[order.index_of(y)]])[k]));
    }
    assert(order.index_of(e) >= 0);
    assert(last_dep(order, dx) < last_dep(order, dy));
    let (i, j) = (order.index_of(x), order.index_of(y));
    if j < i {
        assert(kahn_lt(nodes, order, order[j], order[i]));
    }
}

/// Nodes that read nothing keep the order in which they were made.
pub proof fn sources_keep_creation_order(nodes: Seq<Node>, order: Seq<int>, x: int, y: int)
    requires
        is_kahn_order(nodes, order),
        0 <= x < y < nodes.len(),
        !(nodes[x] is Gate),
        !(nodes[y] is Gate),
    ensures
        order.index_of(x) < order.index_of(y),
{
    lemma_onto(order, x);
    lemma_onto(order, y);
    let (i, j) = (order.index_of(x), order.index_of(y));
    if j < i {
        assert(kahn_lt(nodes, order, order[j], order[i]));
    }
}

/// Gates of which the last operand to be placed is the same, `e`, keep the order
/// in which they were made.
pub proof fn ties_keep_creation_order(nodes: Seq<Node>, order: Seq<int>, x: int, y: int, e: int)
    requires
        is_kahn_order(nodes, order),
        0 <= x < y < nodes.len(),
        nodes[x] matches Node::Gate(_, ins) && ins.contains(e) && forall|k: int|
            0 <= k < ins.len() ==> order.index_of(#[trigger] ins[k]) <= order.index_of(e),
        nodes[y] matches Node::Gate(_, ins) && ins.contains(e) && forall|k: int|
            0 <= k < ins.len() ==> order.index_of(#[trigger] ins[k]) <= order.index_of(e),
    ensures
        order.index_of(x) < order.index_of(y),
{
    let (dx, dy) = (deps(nodes[x]), deps(nodes[y]));
    lemma_last_dep(order, dx);
    lemma_last_dep(order, dy);
    lemma_onto(order, x);
    lemma_onto(order, y);
    let kx = choose|k: int| 0 <= k < dx.len() && dx[k] == e;
    let ky = choose|k: int| 0 <= k < dy.len() && dy[k] == e;
    assert(order.index_of(dx[kx]) <= last_dep(order, dx));
    assert(order.index_of(dy[ky]) <= last_dep(order, dy));
    assert(deps_placed(nodes, order, order.index_of(y)));
    assert(among(order, order.index_of(y), deps(nodes[order[order.index_of(y)]])[ky]));
    assert(order.contains(e));
    assert(order.index_of(e) >= 0);
    assert(last_dep(order, dx) == last_dep(order, dy));
    let (i, j) = (order.index_of(x), order.index_of(y));
    if j < i {
        assert(kahn_lt(nodes, order, order[j], order[i]));
    }
}

/// A scheduled circuit is the same circuit with its nodes renumbered: gates
/// keep their kind and read the same nodes under their new numbers, and so do
/// registers and outputs.
pub proof fn renumbering_moves_nodes(net: Netlist, order: Seq<int>, x: int)
    requires
        net.shaped(),
        net.taps_closed(),
        is_kahn_order(net.nodes, order),
        0 <= x < net.nodes.len(),
    ensures
        renumber(net, order).nodes.len() == net.nodes.len(),
        match net.nodes[x] {
            Node::Gate(op, ins) => renumber(net, order).nodes[order.index_of(x)] matches Node::Gate(p, moved) && p
                == op && moved.len() == ins.len() && forall|k: int|
                0 <= k < ins.len() ==> #[trigger] moved[k] == order.index_of(ins[k]),
            _ => renumber(net, order).nodes[order.index_of(x)] == net.nodes[x],
        },
        renumber(net, order).labels[order.index_of(x)] == net.labels[x],
        renumber(net, order).inits == net.inits,
        renumber(net, order).reg_labels == net.reg_labels,
        renumber(net, order).inputs == net.inputs,
        renumber(net, order).drives.len() == net.drives.len(),
        renumber(net, order).outs.len() == net.outs.len(),
        forall|r: int|
            0 <= r < net.drives.len() ==> #[trigger] renumber(net, order).drives[r] == order.index_of(net.drives[r]),
        forall|k: int|
            0 <= k < net.outs.len() ==> #[trigger] renumber(net, order).outs[k] == order.index_of(net.outs[k]),
{
    lemma_onto(order, x);
}

} // verus!
