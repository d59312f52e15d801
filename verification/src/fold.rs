//! Which gates of a circuit are computed, and which stand in for others.
//!
//! A gate that nothing observes is left out where a constant operand makes
//! it equal to another operand, or where an earlier gate computes the same
//! function of the same operands. What no output and no register depends on
//! is left out too. Outputs and what feeds a register always stand for
//! themselves.
use vstd::prelude::*;

use crate::circuit::MAX_SIGNALS;
use crate::compile::{operands, Op};
use crate::netlist::{arity_ok, deps, gate_arity, gate_fn, node_value, Env, Netlist, Node};

verus! {

/// A node with its operands in fixed places; unused ones copy the first.
#[derive(Debug, Clone, Copy)]
pub(crate) enum Cell {
    Const(bool),
    Input(u32),
    Reg(u32),
    Gate(Op, u32, u32, u32),
}

pub(crate) open spec fn cell_node(cell: Cell) -> Node {
    match cell {
        Cell::Const(v) => Node::Const(v),
        Cell::Input(k) => Node::Input(k as int),
        Cell::Reg(r) => Node::RegOut(r as int),
        Cell::Gate(op, a, b, c) => Node::Gate(op, operands(op, a as int, b as int, c as int)),
    }
}

/// The cells describe the nodes.
pub(crate) open spec fn cells_ok(nodes: Seq<Node>, cells: Seq<Cell>) -> bool {
    &&& cells.len() == nodes.len()
    &&& forall|i: int| 0 <= i < cells.len() ==> cell_node(#[trigger] cells[i]) == nodes[i]
    &&& forall|i: int|
        0 <= i < cells.len() ==> ((#[trigger] cells[i]) matches Cell::Gate(op, a, b, c) ==> a < i && b < i
            && c < i && (gate_arity(op) < 2 ==> b == a) && (gate_arity(op) < 3 ==> c == a))
}

/// Folding: node `i` always has the value of node `rep[i]`. Sources and
/// observed nodes stand for themselves.
pub(crate) open spec fn rep_ok(net: Netlist, rep: Seq<u32>) -> bool {
    &&& rep.len() == net.nodes.len()
    &&& forall|i: int| 0 <= i < rep.len() ==> rep_at(net, rep, i)
    &&& forall|k: int| 0 <= k < net.outs.len() ==> rep[#[trigger] net.outs[k]] == net.outs[k]
}

pub(crate) open spec fn rep_at(net: Netlist, rep: Seq<u32>, i: int) -> bool {
    &&& #[trigger] rep[i] <= i
    &&& rep[rep[i] as int] == rep[i]
    &&& !(net.nodes[i] is Gate) ==> rep[i] == i
    &&& forall|env: Env| #[trigger] net.value(env, i) == net.value(env, rep[i] as int)
}

/// One of three values, by place.
pub open spec fn nth3(k: int, a: bool, b: bool, c: bool) -> bool {
    if k == 0 {
        a
    } else if k == 1 {
        b
    } else {
        c
    }
}

/// A gate equals its operand at place `k` on these values, if they agree
/// with what is known of its first two operands.
pub open spec fn stands_at(op: Op, ca: Option<bool>, cb: Option<bool>, k: int, va: bool, vb: bool, vc: bool) -> bool {
    (ca matches Some(v) ==> va == v) && (cb matches Some(v) ==> vb == v) ==> gate_fn(op, va, vb, vc)
        == nth3(k, va, vb, vc)
}

/// A gate always equals its operand at place `k`, given what is known of its
/// first two operands.
pub open spec fn stands(op: Op, ca: Option<bool>, cb: Option<bool>, k: int) -> bool {
    &&& 0 <= k < 3
    &&& forall|va: bool, vb: bool, vc: bool| #[trigger] stands_at(op, ca, cb, k, va, vb, vc)
}

/// Gate kinds that a constant operand can reduce.
pub open spec fn folds(op: Op) -> bool {
    op == Op::And || op == Op::Or || op == Op::Xor || op == Op::Mux
}

/// The place of the operand that a gate always equals. A constant first
/// operand decides where it can, then a constant second one.
pub open spec fn is_place(op: Op, ca: Option<bool>, cb: Option<bool>, k: int) -> bool {
    &&& folds(op)
    &&& stands(op, ca, cb, k)
    &&& stands(op, ca, None, k) || ((forall|j: int| !#[trigger] stands(op, ca, None, j)) && stands(
        op,
        None,
        cb,
        k,
    ))
}

/// Case by case.
pub proof fn lemma_stands(op: Op, ca: Option<bool>, cb: Option<bool>, k: int)
    requires
        stands(op, ca, cb, k),
    ensures
        stands_at(op, ca, cb, k, true, true, true),
        stands_at(op, ca, cb, k, true, true, false),
        stands_at(op, ca, cb, k, true, false, true),
        stands_at(op, ca, cb, k, true, false, false),
        stands_at(op, ca, cb, k, false, true, true),
        stands_at(op, ca, cb, k, false, true, false),
        stands_at(op, ca, cb, k, false, false, true),
        stands_at(op, ca, cb, k, false, false, false),
{
}

/// The place of the operand that a gate always equals. A constant first
/// operand decides where it can, then a constant second one.
fn folded(op: Op, ca: Option<bool>, cb: Option<bool>) -> (place: Option<usize>)
    ensures
        place is Some <==> exists|k: int| #[trigger] is_place(op, ca, cb, k),
        place matches Some(k) ==> is_place(op, ca, cb, k as int),
{
    let place: Option<usize> = match op {
        Op::And => match (ca, cb) {
            (Some(v), _) => Some(if v { 1 } else { 0 }),
            (_, Some(v)) => Some(if v { 0 } else { 1 }),
            _ => None,
        },
        Op::Or => match (ca, cb) {
            (Some(v), _) => Some(if v { 0 } else { 1 }),
            (_, Some(v)) => Some(if v { 1 } else { 0 }),
            _ => None,
        },
        Op::Xor => match (ca, cb) {
            (Some(false), _) => Some(1),
            (_, Some(false)) => Some(0),
            _ => None,
        },
        Op::Mux => match ca {
            Some(v) => Some(if v { 1 } else { 2 }),
            None => None,
        },
        _ => None,
    };
    proof {
        if let Some(k) = place {
            assert(stands(op, ca, cb, k as int));
            assert(stands(op, ca, None, k as int) || stands(op, None, cb, k as int));
            if !stands(op, ca, None, k as int) {
                assert(stands(op, None, cb, k as int));
                assert forall|j: int| !#[trigger] stands(op, ca, None, j) by {
                    if stands(op, ca, None, j) {
                        lemma_stands(op, ca, None, j);
                    }
                }
            }
            assert(is_place(op, ca, cb, k as int));
        } else if folds(op) {
            assert forall|k: int| !#[trigger] stands(op, ca, cb, k) by {
                if stands(op, ca, cb, k) {
                    lemma_stands(op, ca, cb, k);
                }
            }
        }
    }
    place
}

/// The constant a cell holds.
fn known(cell: Cell) -> (v: Option<bool>)
    ensures
        v == (match cell {
            Cell::Const(v) => Some(v),
            _ => None,
        }),
{
    match cell {
        Cell::Const(v) => Some(v),
        _ => None,
    }
}

/// The value of a gate cell in terms of its operands' values.
pub(crate) proof fn lemma_gate_value(nodes: Seq<Node>, cells: Seq<Cell>, env: Env, i: int)
    requires
        cells_ok(nodes, cells),
        0 <= i < nodes.len(),
        cells[i] is Gate,
    ensures
        cells[i] matches Cell::Gate(op, a, b, c) ==> node_value(nodes, env, i) == gate_fn(
            op,
            node_value(nodes, env, a as int),
            node_value(nodes, env, b as int),
            node_value(nodes, env, c as int),
        ),
{
    assert(cell_node(cells[i]) == nodes[i]);
}

pub(crate) open spec fn max3(a: u32, b: u32, c: u32) -> u32 {
    if a >= b && a >= c {
        a
    } else if b >= c {
        b
    } else {
        c
    }
}

/// Node `i` is an output or feeds a register.
pub open spec fn tapped(net: Netlist, i: int) -> bool {
    net.outs.contains(i) || net.drives.contains(i)
}

/// The constant that node `i` is.
pub open spec fn constant(net: Netlist, i: int) -> Option<bool> {
    match net.nodes[i] {
        Node::Const(v) => Some(v),
        _ => None,
    }
}

/// What is known of operand `q` of a gate.
pub open spec fn operand_constant(net: Netlist, rep: Seq<u32>, i: int, q: int) -> Option<bool> {
    if q < deps(net.nodes[i]).len() {
        constant(net, rep[deps(net.nodes[i])[q]] as int)
    } else {
        None
    }
}

/// A constant operand makes gate `i` equal to its operand at place `k`.
pub open spec fn decided(net: Netlist, rep: Seq<u32>, i: int, k: int) -> bool {
    net.nodes[i] matches Node::Gate(op, _) && is_place(
        op,
        operand_constant(net, rep, i, 0),
        operand_constant(net, rep, i, 1),
        k,
    )
}

/// Kinds whose two operands can be swapped.
pub open spec fn commutes(op: Op) -> bool {
    gate_arity(op) == 2
}

/// Gates `x` and `i` compute the same function of the same operands.
pub open spec fn twins(net: Netlist, rep: Seq<u32>, x: int, i: int) -> bool {
    match (net.nodes[x], net.nodes[i]) {
        (Node::Gate(p, xs), Node::Gate(q, ys)) => p == q && xs.len() == ys.len() && ((forall|k: int|
            0 <= k < xs.len() ==> rep[#[trigger] xs[k]] == rep[ys[k]]) || (commutes(p) && rep[xs[0]]
            == rep[ys[1]] && rep[xs[1]] == rep[ys[0]])),
        _ => false,
    }
}

/// The first node that stands for itself and computes what gate `i` does.
pub open spec fn first_twin(net: Netlist, rep: Seq<u32>, i: int, j: int) -> bool {
    &&& 0 <= j <= i
    &&& j < i ==> rep[j] == j && twins(net, rep, j, i)
    &&& forall|x: int| 0 <= x < j && rep[x] == x ==> !#[trigger] twins(net, rep, x, i)
}

/// Node `rep[i]` stands for node `i`: the operand that a constant leaves of
/// it, or the first gate that computes the same. Sources and observed nodes
/// stand for themselves.
pub open spec fn stands_for(net: Netlist, rep: Seq<u32>, i: int) -> bool {
    if tapped(net, i) || !(net.nodes[i] is Gate) {
        rep[i] == i
    } else if exists|k: int| #[trigger] decided(net, rep, i, k) {
        exists|k: int| #[trigger]
            decided(net, rep, i, k) && rep[i] == rep[deps(net.nodes[i])[k]]
    } else {
        first_twin(net, rep, i, rep[i] as int)
    }
}

/// Every node has its stand-in.
pub open spec fn fold_ok(net: Netlist, rep: Seq<u32>) -> bool {
    &&& rep.len() == net.nodes.len()
    &&& forall|i: int| 0 <= i < rep.len() ==> #[trigger] stands_for(net, rep, i)
}

/// The rule for node `j` reads earlier stand-ins only.
proof fn lemma_stable(net: Netlist, r1: Seq<u32>, r2: Seq<u32>, j: int)
    requires
        0 <= j < r1.len(),
        j < r2.len(),
        j < net.nodes.len(),
        forall|x: int| 0 <= x <= j ==> #[trigger] r1[x] == r2[x],
        forall|x: int, k: int|
            0 <= x <= j && 0 <= k < deps(#[trigger] net.nodes[x]).len() ==> 0 <= #[trigger] deps(
                net.nodes[x],
            )[k] < x,
        forall|x: int| 0 <= x <= j ==> arity_ok(#[trigger] net.nodes[x]),
        stands_for(net, r1, j),
    ensures
        stands_for(net, r2, j),
{
    let ins = deps(net.nodes[j]);
    assert forall|q: int| #[trigger] operand_constant(net, r1, j, q) == operand_constant(net, r2, j, q)
        || q < 0 by {
        if 0 <= q < ins.len() {
            assert(r1[ins[q]] == r2[ins[q]]);
        }
    }
    assert(operand_constant(net, r1, j, 0) == operand_constant(net, r2, j, 0));
    assert(operand_constant(net, r1, j, 1) == operand_constant(net, r2, j, 1));
    assert forall|k: int| #[trigger] decided(net, r1, j, k) == decided(net, r2, j, k) by {}
    assert forall|x: int| 0 <= x < j implies twins(net, r1, x, j) == #[trigger] twins(net, r2, x, j) by {
        if let (Node::Gate(p, xs), Node::Gate(q, ys)) = (net.nodes[x], net.nodes[j]) {
            assert(arity_ok(net.nodes[x]));
            assert(arity_ok(net.nodes[j]));
            assert forall|k: int| 0 <= k < xs.len() implies r1[#[trigger] xs[k]] == r2[xs[k]] by {
                assert(deps(net.nodes[x])[k] < x);
            }
            assert forall|k: int| 0 <= k < ys.len() implies r1[#[trigger] ys[k]] == r2[ys[k]] by {
                assert(deps(net.nodes[j])[k] < j);
            }
        }
    }
    if !(tapped(net, j) || !(net.nodes[j] is Gate)) {
        if exists|k: int| #[trigger] decided(net, r1, j, k) {
            let k = choose|k: int| #[trigger]
                decided(net, r1, j, k) && r1[j] == r1[deps(net.nodes[j])[k]];
            assert(decided(net, r2, j, k));
            lemma_place_in(net, r1, j, k);
            assert(arity_ok(net.nodes[j]));
            assert(deps(net.nodes[j])[k] < j);
            assert(r2[j] == r2[deps(net.nodes[j])[k]]);
        } else {
            assert forall|k: int| !#[trigger] decided(net, r2, j, k) by {
                assert(decided(net, r1, j, k) == decided(net, r2, j, k));
            }
            assert(first_twin(net, r1, j, r1[j] as int));
            assert(first_twin(net, r2, j, r2[j] as int)) by {
                if r1[j] < j {
                    assert(twins(net, r2, r1[j] as int, j));
                }
                assert forall|x: int| 0 <= x < r2[j] && r2[x] == x implies !#[trigger] twins(
                    net,
                    r2,
                    x,
                    j,
                ) by {
                    assert(r1[x] == r2[x]);
                    assert(!twins(net, r1, x, j));
                }
            }
        }
    }
}

/// A decided place is that of an operand.
pub proof fn lemma_place_in(net: Netlist, rep: Seq<u32>, i: int, k: int)
    requires
        decided(net, rep, i, k),
    ensures
        0 <= k < gate_arity(net.nodes[i]->Gate_0),
{
    let op = net.nodes[i]->Gate_0;
    let ca = operand_constant(net, rep, i, 0);
    let cb = operand_constant(net, rep, i, 1);
    lemma_stands(op, ca, cb, k);
}

/// The highest operand of a gate; gates that compute the same have it in
/// common.
spec fn top_operand(cells: Seq<Cell>, rep: Seq<u32>, j: int) -> u32 {
    match cells[j] {
        Cell::Gate(_, a, b, c) => max3(rep[a as int], rep[b as int], rep[c as int]),
        _ => 0,
    }
}

/// The cell of `j` is a gate that stands for itself, listed under `x`.
spec fn lists_under(cells: Seq<Cell>, rep: Seq<u32>, x: int, j: int) -> bool {
    cells[j] is Gate && rep[j] == j && top_operand(cells, rep, j) == x
}

/// The gates that stand for themselves, listed under their highest operands.
spec fn lists_ok(cells: Seq<Cell>, rep: Seq<u32>, lists: Seq<Vec<u32>>) -> bool {
    &&& lists.len() == cells.len()
    &&& forall|x: int, j: u32|
        0 <= x < lists.len() ==> (#[trigger] lists[x]@.contains(j) <==> j < rep.len() && lists_under(
            cells,
            rep,
            x,
            j as int,
        ))
    &&& forall|x: int, p: int, q: int|
        #![trigger lists[x]@[p], lists[x]@[q]]
        0 <= x < lists.len() && 0 <= p < q < lists[x]@.len() ==> lists[x]@[p] < lists[x]@[q]
}

/// Gates over the same stand-ins.
spec fn cell_twins(rep: Seq<u32>, x: Cell, y: Cell) -> bool {
    match (x, y) {
        (Cell::Gate(p, a, b, c), Cell::Gate(q, d, e, f)) => p == q && ((rep[a as int] == rep[d as int]
            && rep[b as int] == rep[e as int] && rep[c as int] == rep[f as int]) || (commutes(p)
            && rep[a as int] == rep[e as int] && rep[b as int] == rep[d as int])),
        _ => false,
    }
}

proof fn lemma_cell_twins(net: Netlist, cells: Seq<Cell>, rep: Seq<u32>, x: int, i: int)
    requires
        cells_ok(net.nodes, cells),
        0 <= x < cells.len(),
        0 <= i < cells.len(),
    ensures
        twins(net, rep, x, i) == cell_twins(rep, cells[x], cells[i]),
        twins(net, rep, x, i) ==> top_operand(cells, rep, x) == top_operand(cells, rep, i),
{
    assert(cell_node(cells[x]) == net.nodes[x]);
    assert(cell_node(cells[i]) == net.nodes[i]);
    if let (Cell::Gate(p, a, b, c), Cell::Gate(q, d, e, f)) = (cells[x], cells[i]) {
        let xs = operands(p, a as int, b as int, c as int);
        let ys = operands(q, d as int, e as int, f as int);
        if p == q {
            let straight = forall|k: int| 0 <= k < xs.len() ==> rep[#[trigger] xs[k]] == rep[ys[k]];
            if straight {
                assert(rep[xs[0]] == rep[ys[0]]);
                if xs.len() > 1 {
                    assert(rep[xs[1]] == rep[ys[1]]);
                }
                if xs.len() > 2 {
                    assert(rep[xs[2]] == rep[ys[2]]);
                }
            }
            if rep[a as int] == rep[d as int] && rep[b as int] == rep[e as int] && rep[c as int]
                == rep[f as int] {
                assert forall|k: int| 0 <= k < xs.len() implies rep[#[trigger] xs[k]] == rep[ys[k]] by {
                    assert(k == 0 || k == 1 || k == 2);
                }
            }
        }
    }
}

/// The first gate that computes what gate `i` does.
fn find_twin(
    net: Ghost<Netlist>,
    cells: &Vec<Cell>,
    rep: &Vec<u32>,
    lists: &Vec<Vec<u32>>,
    i: usize,
) -> (j: u32)
    requires
        cells_ok(net@.nodes, cells@),
        cells@.len() <= MAX_SIGNALS,
        rep@.len() == i,
        i < cells@.len(),
        cells@[i as int] is Gate,
        forall|x: int| 0 <= x < i ==> #[trigger] rep@[x] <= x,
        lists_ok(cells@, rep@, lists@),
    ensures
        j <= i,
        j < i ==> rep@[j as int] == j && twins(net@, rep@, j as int, i as int),
        forall|x: int| 0 <= x < j && rep@[x] == x ==> !#[trigger] twins(net@, rep@, x, i as int),
{
    let (op, a, b, c) = match cells[i] {
        Cell::Gate(op, a, b, c) => (op, a, b, c),
        _ => {
            return i as u32;
        },
    };
    let ra: u32 = rep[a as usize];
    let rb: u32 = rep[b as usize];
    let rc: u32 = rep[c as usize];
    let pair: bool = crate::compile::arity(op) == 2;
    let top: u32 = if ra >= rb && ra >= rc {
        ra
    } else if rb >= rc {
        rb
    } else {
        rc
    };
    assert(top == top_operand(cells@, rep@, i as int));
    let ghost list = lists@[top as int]@;
    let count: usize = lists[top as usize].len();
    for p in 0..count
        invariant
            cells_ok(net@.nodes, cells@),
            rep@.len() == i,
            i < cells@.len(),
            cells@[i as int] == Cell::Gate(op, a, b, c),
            lists_ok(cells@, rep@, lists@),
            top < lists@.len(),
            list == lists@[top as int]@,
            count == list.len(),
            forall|x: int| 0 <= x < i ==> #[trigger] rep@[x] <= x,
            ra == rep@[a as int],
            rb == rep@[b as int],
            rc == rep@[c as int],
            pair == commutes(op),
            top == top_operand(cells@, rep@, i as int),
            forall|q: int| 0 <= q < p ==> !twins(net@, rep@, #[trigger] list[q] as int, i as int),
    {
        let j: u32 = lists[top as usize][p];
        proof {
            assert(lists@[top as int]@[p as int] == j);
            assert(lists@[top as int]@.contains(j));
            lemma_cell_twins(net@, cells@, rep@, j as int, i as int);
        }
        if let Cell::Gate(op2, a2, b2, c2) = cells[j as usize] {
            let (xa, xb, xc) = (rep[a2 as usize], rep[b2 as usize], rep[c2 as usize]);
            if op2 == op && ((xa == ra && xb == rb && xc == rc) || (pair && xa == rb && xb == ra)) {
                proof {
                    assert forall|x: int| 0 <= x < j && rep@[x] == x implies !#[trigger] twins(
                        net@,
                        rep@,
                        x,
                        i as int,
                    ) by {
                        lemma_cell_twins(net@, cells@, rep@, x, i as int);
                        if twins(net@, rep@, x, i as int) {
                            assert(cells@[x] is Gate);
                            assert(lists@[top as int]@.contains(x as u32));
                            let q = choose|q: int| 0 <= q < list.len() && list[q] == x as u32;
                            if q >= p {
                                assert(q == p || lists@[top as int]@[p as int] < lists@[top as int]@[q]);
                            }
                        }
                    }
                }
                return j;
            }
        }
    }
    proof {
        assert forall|x: int| 0 <= x < i && rep@[x] == x implies !#[trigger] twins(
            net@,
            rep@,
            x,
            i as int,
        ) by {
            lemma_cell_twins(net@, cells@, rep@, x, i as int);
            if twins(net@, rep@, x, i as int) {
                assert(cells@[x] is Gate);
                assert(lists@[top as int]@.contains(x as u32));
                let q = choose|q: int| 0 <= q < list.len() && list[q] == x as u32;
                assert(!twins(net@, rep@, list[q] as int, i as int));
            }
        }
    }
    i as u32
}

/// Gates that compute the same have the same value.
proof fn lemma_twin_value(net: Netlist, cells: Seq<Cell>, rep: Seq<u32>, env: Env, x: int, i: int)
    requires
        cells_ok(net.nodes, cells),
        0 <= x < cells.len(),
        0 <= i < cells.len(),
        twins(net, rep, x, i),
        rep.len() >= x,
        rep.len() >= i,
        forall|j: int| 0 <= j < rep.len() ==> rep_at(net, rep, j),
    ensures
        net.value(env, x) == net.value(env, i),
{
    lemma_cell_twins(net, cells, rep, x, i);
    lemma_gate_value(net.nodes, cells, env, x);
    lemma_gate_value(net.nodes, cells, env, i);
    if let (Cell::Gate(p, a, b, c), Cell::Gate(q, d, e, f)) = (cells[x], cells[i]) {
        assert(rep_at(net, rep, a as int) && rep_at(net, rep, b as int) && rep_at(net, rep, c as int));
        assert(rep_at(net, rep, d as int) && rep_at(net, rep, e as int) && rep_at(net, rep, f as int));
        assert(net.value(env, a as int) == net.value(env, rep[a as int] as int));
        assert(net.value(env, b as int) == net.value(env, rep[b as int] as int));
        assert(net.value(env, c as int) == net.value(env, rep[c as int] as int));
        assert(net.value(env, d as int) == net.value(env, rep[d as int] as int));
        assert(net.value(env, e as int) == net.value(env, rep[e as int] as int));
        assert(net.value(env, f as int) == net.value(env, rep[f as int] as int));
    }
}

/// Which nodes are outputs or feed a register.
fn tapped_nodes(net: Ghost<Netlist>, n: usize, outs: &Vec<u32>, drives: &Vec<u32>) -> (marks: Vec<bool>)
    requires
        net@.taps_closed(),
        n == net@.nodes.len(),
        n <= MAX_SIGNALS,
        outs@.len() == net@.outs.len(),
        forall|k: int| 0 <= k < outs@.len() ==> #[trigger] outs@[k] == net@.outs[k],
        drives@.len() == net@.drives.len(),
        forall|k: int| 0 <= k < drives@.len() ==> #[trigger] drives@[k] == net@.drives[k],
    ensures
        marks@.len() == n,
        forall|i: int| 0 <= i < n ==> #[trigger] marks@[i] == tapped(net@, i),
{
    let mut marks: Vec<bool> = Vec::with_capacity(n);
    for i in 0..n
        invariant
            marks@.len() == i,
            forall|j: int| 0 <= j < i ==> !#[trigger] marks@[j],
    {
        marks.push(false);
    }
    for k in 0..outs.len()
        invariant
            n == net@.nodes.len(),
            marks@.len() == n,
            net@.taps_closed(),
            outs@.len() == net@.outs.len(),
            forall|k: int| 0 <= k < outs@.len() ==> #[trigger] outs@[k] == net@.outs[k],
            forall|j: int| 0 <= j < k ==> marks@[#[trigger] net@.outs[j]],
            forall|i: int| 0 <= i < n && #[trigger] marks@[i] ==> tapped(net@, i),
    {
        assert(0 <= net@.outs[k as int] < n);
        marks.set(outs[k] as usize, true);
        assert(net@.outs.contains(outs@[k as int] as int));
    }
    for k in 0..drives.len()
        invariant
            n == net@.nodes.len(),
            marks@.len() == n,
            net@.taps_closed(),
            drives@.len() == net@.drives.len(),
            forall|k: int| 0 <= k < drives@.len() ==> #[trigger] drives@[k] == net@.drives[k],
            forall|j: int| 0 <= j < net@.outs.len() ==> marks@[#[trigger] net@.outs[j]],
            forall|j: int| 0 <= j < k ==> marks@[#[trigger] net@.drives[j]],
            forall|i: int| 0 <= i < n && #[trigger] marks@[i] ==> tapped(net@, i),
    {
        assert(0 <= net@.drives[k as int] < n);
        marks.set(drives[k] as usize, true);
        assert(net@.drives.contains(drives@[k as int] as int));
    }
    marks
}

/// Listing gate `i`, which stands for itself.
proof fn lemma_listed(
    cells: Seq<Cell>,
    rep: Seq<u32>,
    before: Seq<Vec<u32>>,
    after: Seq<Vec<u32>>,
    i: u32,
    x: int,
)
    requires
        lists_ok(cells, rep, before),
        rep.len() == i,
        i < cells.len(),
        cells[i as int] is Gate,
        0 <= x < before.len(),
        forall|j: int|
            0 <= j < cells.len() ==> (#[trigger] cells[j] matches Cell::Gate(_, a, b, c) ==> a < j && b < j
                && c < j),
        x == top_operand(cells, rep, i as int),
        after.len() == before.len(),
        after[x]@ == before[x]@.push(i),
        forall|y: int| 0 <= y < before.len() && y != x ==> #[trigger] after[y] == before[y],
    ensures
        lists_ok(cells, rep.push(i), after),
{
    let rep2 = rep.push(i);
    lemma_unlisted(cells, rep, before, i, i);
    assert(lists_under(cells, rep2, x, i as int));
    assert forall|y: int, j: u32| 0 <= y < after.len() implies (#[trigger] after[y]@.contains(j) <==> j
        < rep2.len() && lists_under(cells, rep2, y, j as int)) by {
        assert(before[y]@.contains(j) <==> j < rep.len() && lists_under(cells, rep, y, j as int));
        if j < i {
            assert(lists_under(cells, rep, y, j as int) == lists_under(cells, rep2, y, j as int)) by {
                assert(cells[j as int] is Gate || !(cells[j as int] is Gate));
            }
        }
        if y == x {
            let old_list = before[x]@;
            if old_list.contains(j) {
                let p = choose|p: int| 0 <= p < old_list.len() && old_list[p] == j;
                assert(after[x]@[p] == j);
            }
            if j == i {
                assert(after[x]@[old_list.len() as int] == j);
            }
        }
    }
    assert forall|y: int, p: int, q: int|
        #![trigger after[y]@[p], after[y]@[q]]
        0 <= y < after.len() && 0 <= p < q < after[y]@.len() implies after[y]@[p] < after[y]@[q] by {
        if y == x && q == before[x]@.len() {
            assert(before[x]@.contains(before[x]@[p]));
        } else {
            assert(before[y]@[p] < before[y]@[q]);
        }
    }
}

/// A node that is not listed leaves the lists as they are.
proof fn lemma_unlisted(cells: Seq<Cell>, rep: Seq<u32>, lists: Seq<Vec<u32>>, i: u32, t: u32)
    requires
        lists_ok(cells, rep, lists),
        rep.len() == i,
        i < cells.len(),
        forall|j: int|
            0 <= j < cells.len() ==> (#[trigger] cells[j] matches Cell::Gate(_, a, b, c) ==> a < j && b < j
                && c < j),
    ensures
        !(cells[i as int] is Gate) || t != i ==> lists_ok(cells, rep.push(t), lists),
{
    let rep2 = rep.push(t);
    if !(cells[i as int] is Gate) || t != i {
        assert forall|y: int, j: u32| 0 <= y < lists.len() implies (#[trigger] lists[y]@.contains(j) <==> j
            < rep2.len() && lists_under(cells, rep2, y, j as int)) by {
            assert(lists[y]@.contains(j) <==> j < rep.len() && lists_under(cells, rep, y, j as int));
            if j < i {
                assert(cells[j as int] is Gate || !(cells[j as int] is Gate));
            }
        }
    }
}

/// Find the stand-in of every node.
#[verifier::rlimit(60)]
pub(crate) fn fold(net: Ghost<Netlist>, cells: &Vec<Cell>, outs: &Vec<u32>, drives: &Vec<u32>) -> (rep: Vec<
    u32,
>)
    requires
        net@.shaped(),
        net@.taps_closed(),
        cells_ok(net@.nodes, cells@),
        cells@.len() <= MAX_SIGNALS,
        outs@.len() == net@.outs.len(),
        forall|k: int| 0 <= k < outs@.len() ==> #[trigger] outs@[k] == net@.outs[k],
        drives@.len() == net@.drives.len(),
        forall|k: int| 0 <= k < drives@.len() ==> #[trigger] drives@[k] == net@.drives[k],
    ensures
        rep_ok(net@, rep@),
        fold_ok(net@, rep@),
{
    let n: usize = cells.len();
    let marks = tapped_nodes(net, n, outs, drives);
    let mut lists: Vec<Vec<u32>> = Vec::with_capacity(n);
    for i in 0..n
        invariant
            lists@.len() == i,
            forall|x: int| 0 <= x < i ==> (#[trigger] lists@[x])@ == Seq::<u32>::empty(),
    {
        lists.push(Vec::new());
    }
    let mut rep: Vec<u32> = Vec::with_capacity(n);
    proof {
        lemma_operands_lower(net@, cells@);
    }
    for i in 0..n
        invariant
            n == cells@.len(),
            n <= MAX_SIGNALS,
            net@.shaped(),
            marks@.len() == n,
            forall|j: int| 0 <= j < n ==> #[trigger] marks@[j] == tapped(net@, j),
            cells_ok(net@.nodes, cells@),
            forall|x: int, k: int|
                0 <= x < n && 0 <= k < deps(#[trigger] net@.nodes[x]).len() ==> 0 <= #[trigger] deps(
                    net@.nodes[x],
                )[k] < x,
            rep@.len() == i,
            lists_ok(cells@, rep@, lists@),
            forall|j: int| 0 <= j < i ==> rep_at(net@, rep@, j),
            forall|j: int| 0 <= j < i ==> #[trigger] stands_for(net@, rep@, j),
    {
        let ghost rep0 = rep@;
        let ghost lists0 = lists@;
        let target: u32 = if marks[i] {
            i as u32
        } else {
            stand_in(net, cells, &rep, &lists, i)
        };
        assert(cell_node(cells@[i as int]) == net@.nodes[i as int]);
        if let Cell::Gate(_, a, b, c) = cells[i] {
            if target as usize == i {
                assert(rep_at(net@, rep@, a as int) && rep_at(net@, rep@, b as int) && rep_at(
                    net@,
                    rep@,
                    c as int,
                ));
                let (ra, rb, rc) = (rep[a as usize], rep[b as usize], rep[c as usize]);
                let top: u32 = if ra >= rb && ra >= rc {
                    ra
                } else if rb >= rc {
                    rb
                } else {
                    rc
                };
                lists[top as usize].push(i as u32);
                proof {
                    lemma_listed(cells@, rep0, lists0, lists@, i as u32, top as int);
                }
            } else {
                proof {
                    lemma_unlisted(cells@, rep0, lists0, i as u32, target);
                }
            }
        } else {
            proof {
                lemma_unlisted(cells@, rep0, lists0, i as u32, target);
            }
        }
        rep.push(target);
        proof {
            assert forall|j: int| 0 <= j < i + 1 implies rep_at(net@, rep@, j) by {
                if j < i {
                    assert(rep_at(net@, rep0, j));
                    assert(rep@[j] == rep0[j]);
                    assert(rep0[j] <= j);
                } else if target < i {
                    assert(rep0[target as int] == target);
                }
            }
            assert forall|j: int| 0 <= j < i + 1 implies #[trigger] stands_for(net@, rep@, j) by {
                if j < i {
                    lemma_stable(net@, rep0, rep@, j);
                } else {
                    lemma_stable(net@, rep0.push(target), rep@, j);
                }
            }
        }
    }
    proof {
        assert forall|k: int| 0 <= k < net@.outs.len() implies rep@[#[trigger] net@.outs[k]]
            == net@.outs[k] by {
            assert(tapped(net@, net@.outs[k]));
            assert(stands_for(net@, rep@, net@.outs[k]));
        }
    }
    rep
}

/// Operands precede their gates.
proof fn lemma_operands_lower(net: Netlist, cells: Seq<Cell>)
    requires
        cells_ok(net.nodes, cells),
    ensures
        forall|x: int, k: int|
            0 <= x < cells.len() && 0 <= k < deps(#[trigger] net.nodes[x]).len() ==> 0 <= #[trigger] deps(
                net.nodes[x],
            )[k] < x,
{
    assert forall|x: int, k: int| 0 <= x < cells.len() && 0 <= k < deps(#[trigger] net.nodes[x]).len() implies 0
        <= #[trigger] deps(net.nodes[x])[k] < x by {
        assert(cell_node(cells[x]) == net.nodes[x]);
    }
}

/// The stand-in of node `i`, which nothing observes.
fn stand_in(
    net: Ghost<Netlist>,
    cells: &Vec<Cell>,
    rep: &Vec<u32>,
    lists: &Vec<Vec<u32>>,
    i: usize,
) -> (target: u32)
    requires
        cells_ok(net@.nodes, cells@),
        cells@.len() <= MAX_SIGNALS,
        rep@.len() == i,
        i < cells@.len(),
        !tapped(net@, i as int),
        lists_ok(cells@, rep@, lists@),
        forall|j: int| 0 <= j < i ==> rep_at(net@, rep@, j),
    ensures
        target <= i,
        target < i ==> rep@[target as int] == target,
        !(net@.nodes[i as int] is Gate) ==> target == i,
        forall|env: Env| #[trigger] net@.value(env, i as int) == net@.value(env, target as int),
        stands_for(net@, rep@.push(target), i as int),
{
    let ghost nodes = net@.nodes;
    assert(cell_node(cells@[i as int]) == nodes[i as int]);
    assert forall|x: int| 0 <= x < rep@.len() implies #[trigger] rep@[x] <= x by {
        assert(rep_at(net@, rep@, x));
    }
    if let Cell::Gate(op, a, b, c) = cells[i] {
        assert(rep_at(net@, rep@, a as int) && rep_at(net@, rep@, b as int) && rep_at(
            net@,
            rep@,
            c as int,
        ));
        let ca = known(cells[rep[a as usize] as usize]);
        let cb = known(cells[rep[b as usize] as usize]);
        proof {
            let x = rep@[a as int] as int;
            let y = rep@[b as int] as int;
            assert(cell_node(cells@[x]) == nodes[x]);
            assert(cell_node(cells@[y]) == nodes[y]);
            assert(ca == constant(net@, x));
            assert(cb == constant(net@, y));
        }
        match folded(op, ca, cb) {
            Some(k) => {
                let t: u32 = if k == 0 {
                    a
                } else if k == 1 {
                    b
                } else {
                    c
                };
                assert(rep_at(net@, rep@, t as int));
                assert(rep_at(net@, rep@, rep@[t as int] as int));
                let target: u32 = rep[t as usize];
                proof {
                    let full = rep@.push(target);
                    assert(operand_constant(net@, full, i as int, 0) == ca);
                    assert(operand_constant(net@, full, i as int, 1) == cb);
                    assert(decided(net@, full, i as int, k as int));
                    lemma_place_in(net@, full, i as int, k as int);
                    assert(deps(nodes[i as int])[k as int] == t);
                    assert(full[i as int] == full[t as int]);
                    assert forall|env: Env| #[trigger] net@.value(env, i as int) == net@.value(
                        env,
                        target as int,
                    ) by {
                        let va = net@.value(env, a as int);
                        let vb = net@.value(env, b as int);
                        let vc = net@.value(env, c as int);
                        assert(net@.value(env, t as int) == net@.value(env, target as int));
                        assert(net@.value(env, rep@[a as int] as int) == va);
                        assert(net@.value(env, rep@[b as int] as int) == vb);
                        lemma_gate_value(net@.nodes, cells@, env, i as int);
                        assert(stands_at(op, ca, cb, k as int, va, vb, vc));
                    }
                }
                target
            },
            None => {
                let target: u32 = find_twin(net, cells, rep, lists, i);
                proof {
                    let full = rep@.push(target);
                    assert forall|k: int| !#[trigger] decided(net@, full, i as int, k) by {
                        if decided(net@, full, i as int, k) {
                            assert(operand_constant(net@, full, i as int, 0) == ca);
                            assert(operand_constant(net@, full, i as int, 1) == cb);
                            assert(is_place(op, ca, cb, k));
                        }
                    }
                    assert forall|x: int| 0 <= x < i implies #[trigger] twins(net@, full, x, i as int)
                        == twins(net@, rep@, x, i as int) by {
                        lemma_cell_twins(net@, cells@, full, x, i as int);
                        lemma_cell_twins(net@, cells@, rep@, x, i as int);
                        assert(cells@[x] is Gate || !(cells@[x] is Gate));
                    }
                    assert(first_twin(net@, full, i as int, target as int));
                    if target < i {
                        assert forall|env: Env| #[trigger] net@.value(env, i as int) == net@.value(
                            env,
                            target as int,
                        ) by {
                            lemma_twin_value(net@, cells@, rep@, env, target as int, i as int);
                        }
                    }
                }
                target
            },
        }
    } else {
        i as u32
    }
}

/// Gate `j`, which stands for itself, reads the stand-in `i`.
pub open spec fn reads_stand_in(net: Netlist, rep: Seq<u32>, j: int, i: int) -> bool {
    &&& net.nodes[j] is Gate
    &&& rep[j] == j
    &&& exists|k: int| 0 <= k < deps(net.nodes[j]).len() && rep[#[trigger] deps(net.nodes[j])[k]] == i
}

/// Node `i` is live: observed, or read by a gate that is live.
pub open spec fn live_node(net: Netlist, rep: Seq<u32>, live: Seq<bool>, i: int) -> bool {
    live[i] <==> tapped(net, i) || exists|j: int|
        0 <= j < net.nodes.len() && live[j] && #[trigger] reads_stand_in(net, rep, j, i)
}

/// Exactly the live nodes are marked.
pub open spec fn live_nodes(net: Netlist, rep: Seq<u32>, live: Seq<bool>) -> bool {
    &&& live.len() == net.nodes.len()
    &&& forall|i: int| 0 <= i < live.len() ==> #[trigger] live_node(net, rep, live, i)
}

/// Node `i` is computed: it stands for itself, and it is a constant, an
/// input, or live.
pub open spec fn kept(net: Netlist, rep: Seq<u32>, live: Seq<bool>, i: int) -> bool {
    rep[i] == i && (net.nodes[i] is Const || net.nodes[i] is Input || live[i])
}

/// Node `i` is observed, or read by a live gate from `from` on.
spec fn reached(net: Netlist, rep: Seq<u32>, live: Seq<bool>, from: int, i: int) -> bool {
    tapped(net, i) || exists|j: int|
        from <= j < net.nodes.len() && live[j] && #[trigger] reads_stand_in(net, rep, j, i)
}

/// A gate reads earlier nodes only.
pub(crate) proof fn lemma_reads_lower(net: Netlist, cells: Seq<Cell>, rep: Seq<u32>, j: int, i: int)
    requires
        cells_ok(net.nodes, cells),
        rep_ok(net, rep),
        0 <= j < cells.len(),
    ensures
        reads_stand_in(net, rep, j, i) ==> 0 <= i < j,
        (cells[j] matches Cell::Gate(_, a, b, c) && rep[j] == j) ==> {
            let (a, b, c) = (cells[j]->Gate_1, cells[j]->Gate_2, cells[j]->Gate_3);
            reads_stand_in(net, rep, j, i) <==> (i == rep[a as int] || i == rep[b as int] || i
                == rep[c as int])
        },
{
    assert(cell_node(cells[j]) == net.nodes[j]);
    if let Cell::Gate(op, a, b, c) = cells[j] {
        let ins = operands(op, a as int, b as int, c as int);
        assert(deps(net.nodes[j]) == ins);
        assert(rep_at(net, rep, a as int) && rep_at(net, rep, b as int) && rep_at(net, rep, c as int));
        assert(ins[0] == a);
        assert(ins.len() > 1 ==> ins[1] == b);
        assert(ins.len() > 2 ==> ins[2] == c);
        if reads_stand_in(net, rep, j, i) {
            let k = choose|k: int| 0 <= k < ins.len() && rep[#[trigger] deps(net.nodes[j])[k]] == i;
            assert(k == 0 || k == 1 || k == 2);
        }
        if rep[j] == j {
            if i == rep[a as int] {
                assert(rep[deps(net.nodes[j])[0]] == i);
            }
            if i == rep[b as int] {
                assert(rep[deps(net.nodes[j])[if ins.len() > 1 {
                    1
                } else {
                    0
                }]] == i);
            }
            if i == rep[c as int] {
                assert(rep[deps(net.nodes[j])[if ins.len() > 2 {
                    2
                } else {
                    0
                }]] == i);
            }
        }
    }
}

/// Mark the live nodes.
pub(crate) fn mark_live(
    net: Ghost<Netlist>,
    cells: &Vec<Cell>,
    rep: &Vec<u32>,
    outs: &Vec<u32>,
    drives: &Vec<u32>,
) -> (live: Vec<bool>)
    requires
        net@.taps_closed(),
        cells_ok(net@.nodes, cells@),
        cells@.len() <= MAX_SIGNALS,
        rep_ok(net@, rep@),
        outs@.len() == net@.outs.len(),
        forall|k: int| 0 <= k < outs@.len() ==> #[trigger] outs@[k] == net@.outs[k],
        drives@.len() == net@.drives.len(),
        forall|k: int| 0 <= k < drives@.len() ==> #[trigger] drives@[k] == net@.drives[k],
    ensures
        live_nodes(net@, rep@, live@),
{
    let n: usize = cells.len();
    let mut live = tapped_nodes(net, n, outs, drives);
    let mut at: usize = n;
    assert forall|i: int| 0 <= i < n implies #[trigger] live@[i] == reached(net@, rep@, live@, n as int, i) by {}
    while at > 0
        invariant
            at <= n,
            n == cells@.len(),
            live@.len() == n,
            cells_ok(net@.nodes, cells@),
            rep_ok(net@, rep@),
            forall|i: int|
                0 <= i < n ==> #[trigger] live@[i] == reached(net@, rep@, live@, at as int, i),
        decreases at,
    {
        let ghost before = live@;
        at = at - 1;
        assert(rep_at(net@, rep@, at as int));
        if live[at] && rep[at] as usize == at {
            if let Cell::Gate(_, a, b, c) = cells[at] {
                assert(rep_at(net@, rep@, a as int) && rep_at(net@, rep@, b as int) && rep_at(
                    net@,
                    rep@,
                    c as int,
                ));
                live.set(rep[a as usize] as usize, true);
                live.set(rep[b as usize] as usize, true);
                live.set(rep[c as usize] as usize, true);
            }
        }
        proof {
            assert forall|i: int| 0 <= i < n implies #[trigger] live@[i] == reached(
                net@,
                rep@,
                live@,
                at as int,
                i,
            ) by {
                assert(before[i] == reached(net@, rep@, before, at + 1, i));
                assert(cell_node(cells@[at as int]) == net@.nodes[at as int]);
                lemma_reads_lower(net@, cells@, rep@, at as int, i);
                if before[i] && !tapped(net@, i) {
                    let j = choose|j: int|
                        at + 1 <= j < n && before[j] && #[trigger] reads_stand_in(net@, rep@, j, i);
                    assert(live@[j] && reads_stand_in(net@, rep@, j, i));
                }
                if live@[i] && !before[i] {
                    assert(live@[at as int] && reads_stand_in(net@, rep@, at as int, i));
                }
                if reached(net@, rep@, live@, at as int, i) && !tapped(net@, i) {
                    let j = choose|j: int|
                        at <= j < n && live@[j] && #[trigger] reads_stand_in(net@, rep@, j, i);
                    if j > at {
                        assert(before[j]);
                        assert(reached(net@, rep@, before, at + 1, i));
                    }
                }
            }
        }
    }
    proof {
        assert forall|i: int| 0 <= i < n implies #[trigger] live_node(net@, rep@, live@, i) by {
            assert(live@[i] == reached(net@, rep@, live@, 0, i));
        }
    }
    live
}

} // verus!
