//! What the tape of a circuit is.
//!
//! A circuit has one tape. Nothing on it is decided by a constant, computed
//! twice or computed in vain, except what the circuit's user observes.
use vstd::prelude::*;

use crate::compile::{
    is_lowering, lowered, node_level, slot_before, slot_from, Compiled, Lowering, Op,
};
use crate::fold::{
    commutes, decided, first_twin, fold_ok, is_place, kept, lemma_place_in, lemma_stands, live_node,
    live_nodes, operand_constant, reads_stand_in, stands, stands_for, tapped, twins,
};
use crate::netlist::{arity_ok, deps, gate_arity, node_ordered, Netlist, Node};

verus! {

/// The constant in a slot.
pub open spec fn slot_constant(tape: Compiled, x: int) -> Option<bool> {
    match tape.slot_node(x) {
        Node::Const(v) => Some(v),
        _ => None,
    }
}

/// Slot `s` is an output or feeds a register.
pub open spec fn slot_tapped(tape: Compiled, s: int) -> bool {
    tape.output_slots@.contains(s as u32) || tape.reg_in_slots@.contains(s as u32)
}

/// A stand-in is never later, and stands for itself.
pub proof fn lemma_stand_in(net: Netlist, rep: Seq<u32>, i: int)
    requires
        net.shaped(),
        net.ordered(),
        fold_ok(net, rep),
        0 <= i < rep.len(),
    ensures
        rep[i] <= i,
        rep[rep[i] as int] == rep[i],
    decreases i,
{
    assert(stands_for(net, rep, i));
    if rep[i] != i {
        if exists|k: int| #[trigger] decided(net, rep, i, k) {
            let k = choose|k: int| #[trigger]
                decided(net, rep, i, k) && rep[i] == rep[deps(net.nodes[i])[k]];
            lemma_place_in(net, rep, i, k);
            assert(arity_ok(net.nodes[i]));
            assert(node_ordered(net.nodes, i));
            lemma_stand_in(net, rep, deps(net.nodes[i])[k]);
        }
    }
}

/// Different slots hold different nodes.
proof fn lemma_origin_apart(net: Netlist, l: Lowering, tape: Compiled, s: int, t: int)
    requires
        is_lowering(net, l, tape),
        0 <= s < tape.n(),
        0 <= t < tape.n(),
        l.origin[s] == l.origin[t],
    ensures
        s == t,
{
    if s < t {
        assert(slot_before(net, l.level, l.origin[s], l.origin[t]));
    } else if t < s {
        assert(slot_before(net, l.level, l.origin[t], l.origin[s]));
    }
}

/// A slot is tapped where its node is.
proof fn lemma_slot_tapped(net: Netlist, l: Lowering, tape: Compiled, s: int)
    requires
        tape.wf(),
        is_lowering(net, l, tape),
        0 <= s < tape.n(),
        tapped(net, l.origin[s]),
    ensures
        slot_tapped(tape, s),
{
    let i = l.origin[s];
    if net.outs.contains(i) {
        let k = choose|k: int| 0 <= k < net.outs.len() && net.outs[k] == i;
        let t = tape.output_slots@[k];
        assert(l.origin[t as int] == i);
        lemma_origin_apart(net, l, tape, s, t as int);
        assert(tape.output_slots@.contains(s as u32));
    } else {
        let k = choose|k: int| 0 <= k < net.drives.len() && net.drives[k] == i;
        let t = tape.reg_in_slots@[k];
        assert(l.origin[t as int] == i);
        lemma_origin_apart(net, l, tape, s, t as int);
        assert(tape.reg_in_slots@.contains(s as u32));
    }
}

/// A slot's constant is its node's.
proof fn lemma_slot_constant(net: Netlist, l: Lowering, tape: Compiled, x: int)
    requires
        tape.wf(),
        is_lowering(net, l, tape),
        0 <= x < tape.n(),
    ensures
        slot_constant(tape, x) == crate::fold::constant(net, l.origin[x]),
{
    assert(slot_from(net, l, tape, x));
}

/// No and, or, xor or mux on a tape is decided by a constant operand, unless
/// it is an output or feeds a register.
pub proof fn no_constant_decides(net: Netlist, tape: Compiled, s: int, k: int)
    requires
        net.shaped(),
        net.ordered(),
        tape.wf(),
        lowered(net, tape),
        tape.gate_start <= s < tape.n(),
        !slot_tapped(tape, s),
    ensures
        !is_place(
            tape.ops@[s],
            slot_constant(tape, tape.a@[s] as int),
            slot_constant(tape, tape.b@[s] as int),
            k,
        ),
{
    let l = choose|l: Lowering| is_lowering(net, l, tape);
    let i = l.origin[s];
    assert(slot_from(net, l, tape, s));
    assert(tape.gate_ok(s));
    assert(stands_for(net, l.rep, i));
    assert(arity_ok(net.nodes[i]));
    assert(node_ordered(net.nodes, i));
    if tapped(net, i) {
        lemma_slot_tapped(net, l, tape, s);
    }
    if is_place(
        tape.ops@[s],
        slot_constant(tape, tape.a@[s] as int),
        slot_constant(tape, tape.b@[s] as int),
        k,
    ) {
        lemma_slot_constant(net, l, tape, tape.a@[s] as int);
        lemma_slot_constant(net, l, tape, tape.b@[s] as int);
        assert(operand_constant(net, l.rep, i, 0) == slot_constant(tape, tape.a@[s] as int));
        assert(operand_constant(net, l.rep, i, 1) == slot_constant(tape, tape.b@[s] as int));
        assert(decided(net, l.rep, i, k));
        let j = choose|j: int| #[trigger]
            decided(net, l.rep, i, j) && l.rep[i] == l.rep[deps(net.nodes[i])[j]];
        lemma_place_in(net, l.rep, i, j);
        lemma_stand_in(net, l.rep, deps(net.nodes[i])[j]);
    }
}

/// Two gates of a tape read the same operands, for a kind whose operands can
/// be swapped in either order.
pub open spec fn same_gate(tape: Compiled, s: int, t: int) -> bool {
    &&& tape.ops@[s] == tape.ops@[t]
    &&& (tape.a@[s] == tape.a@[t] && tape.b@[s] == tape.b@[t] && tape.c@[s] == tape.c@[t]) || (commutes(
        tape.ops@[s],
    ) && tape.a@[s] == tape.b@[t] && tape.b@[s] == tape.a@[t])
}

/// No gate of a tape computes what an earlier one does, unless it is an
/// output or feeds a register.
pub proof fn gates_are_shared(net: Netlist, tape: Compiled, s: int, t: int)
    requires
        net.shaped(),
        net.ordered(),
        tape.wf(),
        lowered(net, tape),
        tape.gate_start <= s < t < tape.n(),
        same_gate(tape, s, t),
    ensures
        slot_tapped(tape, t),
{
    let l = choose|l: Lowering| is_lowering(net, l, tape);
    let (x, y) = (l.origin[s], l.origin[t]);
    assert(slot_from(net, l, tape, s));
    assert(slot_from(net, l, tape, t));
    assert(tape.gate_ok(s));
    assert(tape.gate_ok(t));
    assert(arity_ok(net.nodes[x]));
    assert(arity_ok(net.nodes[y]));
    assert(node_ordered(net.nodes, y));
    assert(slot_before(net, l.level, x, y));
    assert(node_level(net, l.rep, l.level, x));
    assert(node_level(net, l.rep, l.level, y));
    let (xs, ys) = (deps(net.nodes[x]), deps(net.nodes[y]));
    assert(twins(net, l.rep, x, y)) by {
        if tape.a@[s] == tape.a@[t] && tape.b@[s] == tape.b@[t] && tape.c@[s] == tape.c@[t] {
            assert forall|k: int| 0 <= k < xs.len() implies l.rep[#[trigger] xs[k]] == l.rep[ys[k]] by {
                assert(k == 0 || k == 1 || k == 2);
            }
        }
    }
    assert(l.level[x] == l.level[y]) by {
        lemma_same_levels(net, l, x, y);
        lemma_same_levels(net, l, y, x);
    }
    assert(x < y);
    assert(stands_for(net, l.rep, y));
    if tapped(net, y) {
        lemma_slot_tapped(net, l, tape, t);
    } else if exists|k: int| #[trigger] decided(net, l.rep, y, k) {
        let k = choose|k: int| #[trigger]
            decided(net, l.rep, y, k) && l.rep[y] == l.rep[deps(net.nodes[y])[k]];
        lemma_place_in(net, l.rep, y, k);
        lemma_stand_in(net, l.rep, deps(net.nodes[y])[k]);
    } else {
        assert(first_twin(net, l.rep, y, y));
        assert(l.rep[x] == x);
    }
}

/// A gate with the operands of another is no higher.
proof fn lemma_same_levels(net: Netlist, l: Lowering, x: int, y: int)
    requires
        net.shaped(),
        0 <= x < net.nodes.len(),
        0 <= y < net.nodes.len(),
        twins(net, l.rep, x, y) || twins(net, l.rep, y, x),
        l.rep[x] == x,
        l.rep[y] == y,
        node_level(net, l.rep, l.level, x),
        node_level(net, l.rep, l.level, y),
    ensures
        l.level[x] <= l.level[y],
{
    let (xs, ys) = (deps(net.nodes[x]), deps(net.nodes[y]));
    assert(arity_ok(net.nodes[x]));
    assert(arity_ok(net.nodes[y]));
    let k = choose|k: int|
        0 <= k < xs.len() && l.level[l.rep[#[trigger] xs[k]] as int] + 1 == l.level[x];
    if l.rep[xs[k]] == l.rep[ys[k]] {
        assert(l.level[l.rep[ys[k]] as int] < l.level[y]);
    } else {
        assert(xs.len() == 2);
        assert(l.rep[xs[k]] == l.rep[ys[1 - k]]);
        assert(l.level[l.rep[ys[1 - k]] as int] < l.level[y]);
    }
}

/// A constant leaves one place.
proof fn lemma_one_place(op: Op, ca: Option<bool>, cb: Option<bool>, j: int, k: int)
    requires
        is_place(op, ca, cb, j),
        is_place(op, ca, cb, k),
    ensures
        j == k,
{
    lemma_stands(op, ca, cb, j);
    lemma_stands(op, ca, cb, k);
    if stands(op, ca, None, j) {
        lemma_stands(op, ca, None, j);
    }
    if stands(op, ca, None, k) {
        lemma_stands(op, ca, None, k);
    }
    if stands(op, None, cb, j) {
        lemma_stands(op, None, cb, j);
    }
    if stands(op, None, cb, k) {
        lemma_stands(op, None, cb, k);
    }
}

/// A netlist has one folding.
proof fn lemma_one_folding(net: Netlist, r1: Seq<u32>, r2: Seq<u32>, i: int)
    requires
        net.shaped(),
        net.ordered(),
        fold_ok(net, r1),
        fold_ok(net, r2),
        0 <= i <= net.nodes.len(),
    ensures
        forall|j: int| 0 <= j < i ==> #[trigger] r1[j] == r2[j],
    decreases i,
{
    if i > 0 {
        let j = i - 1;
        lemma_one_folding(net, r1, r2, j);
        assert(stands_for(net, r1, j));
        assert(stands_for(net, r2, j));
        assert(arity_ok(net.nodes[j]));
        assert(node_ordered(net.nodes, j));
        let ins = deps(net.nodes[j]);
        assert forall|q: int| 0 <= q < ins.len() implies r1[#[trigger] ins[q]] == r2[ins[q]] by {}
        assert(operand_constant(net, r1, j, 0) == operand_constant(net, r2, j, 0));
        assert(operand_constant(net, r1, j, 1) == operand_constant(net, r2, j, 1));
        assert forall|k: int| #[trigger] decided(net, r1, j, k) == decided(net, r2, j, k) by {}
        if !tapped(net, j) && net.nodes[j] is Gate {
            if exists|k: int| #[trigger] decided(net, r1, j, k) {
                let k1 = choose|k: int| #[trigger] decided(net, r1, j, k) && r1[j] == r1[ins[k]];
                assert(decided(net, r2, j, k1));
                let k2 = choose|k: int| #[trigger] decided(net, r2, j, k) && r2[j] == r2[ins[k]];
                lemma_one_place(
                    net.nodes[j]->Gate_0,
                    operand_constant(net, r2, j, 0),
                    operand_constant(net, r2, j, 1),
                    k1,
                    k2,
                );
                lemma_place_in(net, r1, j, k1);
            } else {
                assert forall|k: int| !#[trigger] decided(net, r2, j, k) by {
                    assert(decided(net, r1, j, k) == decided(net, r2, j, k));
                }
                assert forall|x: int| 0 <= x < j implies #[trigger] twins(net, r1, x, j) == twins(
                    net,
                    r2,
                    x,
                    j,
                ) by {
                    assert(node_ordered(net.nodes, x));
                    assert(arity_ok(net.nodes[x]));
                    let xs = deps(net.nodes[x]);
                    assert forall|q: int| 0 <= q < xs.len() implies r1[#[trigger] xs[q]] == r2[xs[q]] by {}
                }
                let (a, b) = (r1[j] as int, r2[j] as int);
                if a < b {
                    assert(!twins(net, r2, a, j));
                    assert(twins(net, r1, a, j));
                } else if b < a {
                    assert(!twins(net, r1, b, j));
                    assert(twins(net, r2, b, j));
                }
            }
        }
    }
}

/// A folding has one levelling.
proof fn lemma_one_levelling(net: Netlist, rep: Seq<u32>, l1: Seq<u32>, l2: Seq<u32>, i: int)
    requires
        net.shaped(),
        net.ordered(),
        fold_ok(net, rep),
        l1.len() == net.nodes.len(),
        l2.len() == net.nodes.len(),
        forall|j: int| 0 <= j < net.nodes.len() ==> #[trigger] node_level(net, rep, l1, j),
        forall|j: int| 0 <= j < net.nodes.len() ==> #[trigger] node_level(net, rep, l2, j),
        0 <= i <= net.nodes.len(),
    ensures
        forall|j: int| 0 <= j < i ==> #[trigger] l1[j] == l2[j],
    decreases i,
{
    if i > 0 {
        let j = i - 1;
        lemma_one_levelling(net, rep, l1, l2, j);
        assert(node_level(net, rep, l1, j));
        assert(node_level(net, rep, l2, j));
        lemma_stand_in(net, rep, j);
        if rep[j] == j && net.nodes[j] is Gate {
            let ins = deps(net.nodes[j]);
            assert(node_ordered(net.nodes, j));
            assert forall|k: int| 0 <= k < ins.len() implies l1[rep[#[trigger] ins[k]] as int]
                == l2[rep[ins[k]] as int] by {
                lemma_stand_in(net, rep, ins[k]);
            }
            let p = choose|k: int| 0 <= k < ins.len() && l1[rep[#[trigger] ins[k]] as int] + 1 == l1[j];
            let q = choose|k: int| 0 <= k < ins.len() && l2[rep[#[trigger] ins[k]] as int] + 1 == l2[j];
            assert(l2[rep[ins[p]] as int] < l2[j]);
            assert(l1[rep[ins[q]] as int] < l1[j]);
        } else if rep[j] != j {
            assert(l1[rep[j] as int] == l2[rep[j] as int]);
        }
    }
}

/// A folding has one set of live nodes.
proof fn lemma_one_liveness(net: Netlist, rep: Seq<u32>, l1: Seq<bool>, l2: Seq<bool>, i: int)
    requires
        net.shaped(),
        net.ordered(),
        fold_ok(net, rep),
        live_nodes(net, rep, l1),
        live_nodes(net, rep, l2),
        0 <= i <= net.nodes.len(),
    ensures
        forall|j: int| i <= j < net.nodes.len() ==> #[trigger] l1[j] == l2[j],
    decreases net.nodes.len() - i,
{
    if i < net.nodes.len() {
        lemma_one_liveness(net, rep, l1, l2, i + 1);
        assert(live_node(net, rep, l1, i));
        assert(live_node(net, rep, l2, i));
        if l1[i] && !tapped(net, i) {
            let j = choose|j: int|
                0 <= j < net.nodes.len() && l1[j] && #[trigger] reads_stand_in(net, rep, j, i);
            lemma_reader_later(net, rep, j, i);
            assert(l2[j] && reads_stand_in(net, rep, j, i));
        }
        if l2[i] && !tapped(net, i) {
            let j = choose|j: int|
                0 <= j < net.nodes.len() && l2[j] && #[trigger] reads_stand_in(net, rep, j, i);
            lemma_reader_later(net, rep, j, i);
            assert(l1[j] && reads_stand_in(net, rep, j, i));
        }
    }
}

/// A gate stands behind what it reads.
proof fn lemma_reader_later(net: Netlist, rep: Seq<u32>, j: int, i: int)
    requires
        net.shaped(),
        net.ordered(),
        fold_ok(net, rep),
        0 <= j < net.nodes.len(),
        reads_stand_in(net, rep, j, i),
    ensures
        i < j,
{
    let k = choose|k: int|
        0 <= k < deps(net.nodes[j]).len() && rep[#[trigger] deps(net.nodes[j])[k]] == i;
    assert(node_ordered(net.nodes, j));
    lemma_stand_in(net, rep, deps(net.nodes[j])[k]);
}

/// Every gate of a tape is read by another, unless it is an output or feeds a
/// register.
pub proof fn gates_are_read(net: Netlist, tape: Compiled, s: int) -> (t: int)
    requires
        net.shaped(),
        net.ordered(),
        tape.wf(),
        lowered(net, tape),
        tape.gate_start <= s < tape.n(),
        !slot_tapped(tape, s),
    ensures
        tape.reads(t, s),
{
    let l = choose|l: Lowering| is_lowering(net, l, tape);
    let i = l.origin[s];
    assert(slot_from(net, l, tape, s));
    assert(live_node(net, l.rep, l.live, i));
    if tapped(net, i) {
        lemma_slot_tapped(net, l, tape, s);
    }
    let j = choose|j: int|
        0 <= j < net.nodes.len() && l.live[j] && #[trigger] reads_stand_in(net, l.rep, j, i);
    assert(kept(net, l.rep, l.live, j));
    assert(l.origin.contains(j));
    let t = choose|t: int| 0 <= t < l.origin.len() && l.origin[t] == j;
    assert(slot_from(net, l, tape, t));
    assert(tape.gate_ok(t));
    assert(arity_ok(net.nodes[j]));
    let k = choose|k: int|
        0 <= k < deps(net.nodes[j]).len() && l.rep[#[trigger] deps(net.nodes[j])[k]] == i;
    let ins = crate::compile::operands(
        tape.ops@[t],
        tape.a@[t] as int,
        tape.b@[t] as int,
        tape.c@[t] as int,
    );
    assert(k == 0 || k == 1 || k == 2);
    lemma_origin_apart(net, l, tape, s, ins[k]);
    assert(ins[k] == s);
    t
}

/// Ordered lists of the same nodes are the same list.
proof fn lemma_one_order(net: Netlist, level: Seq<u32>, a: Seq<int>, b: Seq<int>, s: int)
    requires
        forall|p: int, q: int|
            0 <= p < q < a.len() ==> slot_before(net, level, #[trigger] a[p], #[trigger] a[q]),
        forall|p: int, q: int|
            0 <= p < q < b.len() ==> slot_before(net, level, #[trigger] b[p], #[trigger] b[q]),
        forall|p: int| 0 <= p < a.len() ==> b.contains(#[trigger] a[p]),
        forall|p: int| 0 <= p < b.len() ==> a.contains(#[trigger] b[p]),
        0 <= s <= a.len(),
    ensures
        s <= b.len(),
        forall|p: int| 0 <= p < s ==> #[trigger] a[p] == b[p],
    decreases s,
{
    if s > 0 {
        let t = s - 1;
        lemma_one_order(net, level, a, b, t);
        assert(b.contains(a[t]));
        let p = choose|p: int| 0 <= p < b.len() && b[p] == a[t];
        if p < t {
            assert(a[p] == b[p]);
            assert(slot_before(net, level, a[p], a[t]));
        } else if p > t {
            assert(a.contains(b[t]));
            let q = choose|q: int| 0 <= q < a.len() && a[q] == b[t];
            assert(slot_before(net, level, b[t], b[p]));
            if q < t {
                assert(a[q] == b[q]);
                assert(slot_before(net, level, b[q], b[t]));
            } else if q > t {
                assert(slot_before(net, level, a[t], a[q]));
            }
        }
    }
}

/// A circuit has one tape: two tapes of it agree in every column, source and
/// tap.
pub proof fn tape_is_determined(net: Netlist, t1: Compiled, t2: Compiled)
    requires
        net.shaped(),
        net.ordered(),
        t1.wf(),
        t2.wf(),
        lowered(net, t1),
        lowered(net, t2),
    ensures
        t1.n() == t2.n(),
        t1.gate_start == t2.gate_start,
        t1.sources@ == t2.sources@,
        t1.slot_level@ == t2.slot_level@,
        t1.output_slots@ == t2.output_slots@,
        t1.reg_in_slots@ == t2.reg_in_slots@,
        t1.reg_initial@ == t2.reg_initial@,
        t1.levels@.len() == t2.levels@.len(),
        forall|s: int|
            t1.gate_start <= s < t1.n() ==> #[trigger] t1.ops@[s] == t2.ops@[s] && t1.a@[s] == t2.a@[s]
                && t1.b@[s] == t2.b@[s] && t1.c@[s] == t2.c@[s],
{
    let n = net.nodes.len() as int;
    let l1 = choose|l: Lowering| is_lowering(net, l, t1);
    let l2 = choose|l: Lowering| is_lowering(net, l, t2);
    lemma_one_folding(net, l1.rep, l2.rep, n);
    assert(l1.rep =~= l2.rep);
    lemma_one_levelling(net, l1.rep, l1.level, l2.level, n);
    assert(l1.level =~= l2.level);
    lemma_one_liveness(net, l1.rep, l1.live, l2.live, 0);
    assert(l1.live =~= l2.live);
    assert forall|p: int| 0 <= p < l1.origin.len() implies l2.origin.contains(#[trigger] l1.origin[p]) by {
        assert(slot_from(net, l1, t1, p));
        assert(kept(net, l2.rep, l2.live, l1.origin[p]));
    }
    assert forall|p: int| 0 <= p < l2.origin.len() implies l1.origin.contains(#[trigger] l2.origin[p]) by {
        assert(slot_from(net, l2, t2, p));
        assert(kept(net, l1.rep, l1.live, l2.origin[p]));
    }
    lemma_one_order(net, l1.level, l1.origin, l2.origin, l1.origin.len() as int);
    lemma_one_order(net, l1.level, l2.origin, l1.origin, l2.origin.len() as int);
    assert(l1.origin =~= l2.origin);
    assert forall|s: int| 0 <= s < t1.n() implies (s < t1.gate_start <==> s < t2.gate_start)
        && #[trigger] t1.slot_level@[s] == t2.slot_level@[s] by {
        assert(slot_from(net, l1, t1, s));
        assert(slot_from(net, l2, t2, s));
    }
    assert(t1.gate_start == t2.gate_start) by {
        let (x, y) = (t1.gate_start as int, t2.gate_start as int);
        if x < y {
            assert(t1.slot_level@[x] == t2.slot_level@[x]);
        } else if y < x {
            assert(t1.slot_level@[y] == t2.slot_level@[y]);
        }
    }
    assert(t1.slot_level@ =~= t2.slot_level@);
    assert forall|s: int| 0 <= s < t1.gate_start implies t1.sources@[s] == t2.sources@[s] by {
        assert(slot_from(net, l1, t1, s));
        assert(slot_from(net, l2, t2, s));
    }
    assert(t1.sources@ =~= t2.sources@);
    assert forall|s: int| t1.gate_start <= s < t1.n() implies #[trigger] t1.ops@[s] == t2.ops@[s]
        && t1.a@[s] == t2.a@[s] && t1.b@[s] == t2.b@[s] && t1.c@[s] == t2.c@[s] by {
        assert(slot_from(net, l1, t1, s));
        assert(slot_from(net, l2, t2, s));
        assert(t1.gate_ok(s));
        assert(t2.gate_ok(s));
        assert(arity_ok(net.nodes[l1.origin[s]]));
        lemma_origin_apart(net, l1, t1, t1.a@[s] as int, t2.a@[s] as int);
        if gate_arity(t1.ops@[s]) > 1 {
            lemma_origin_apart(net, l1, t1, t1.b@[s] as int, t2.b@[s] as int);
        }
        if gate_arity(t1.ops@[s]) > 2 {
            lemma_origin_apart(net, l1, t1, t1.c@[s] as int, t2.c@[s] as int);
        }
    }
    assert forall|k: int| 0 <= k < net.outs.len() implies t1.output_slots@[k] == t2.output_slots@[k] by {
        let (x, y) = (t1.output_slots@[k], t2.output_slots@[k]);
        lemma_origin_apart(net, l1, t1, x as int, y as int);
    }
    assert(t1.output_slots@ =~= t2.output_slots@);
    assert forall|r: int| 0 <= r < net.drives.len() implies t1.reg_in_slots@[r] == t2.reg_in_slots@[r] by {
        let (x, y) = (t1.reg_in_slots@[r], t2.reg_in_slots@[r]);
        lemma_origin_apart(net, l1, t1, x as int, y as int);
    }
    assert(t1.reg_in_slots@ =~= t2.reg_in_slots@);
    let (x, y) = (t1.levels@.len(), t2.levels@.len());
    if x != 1 {
        let i = choose|i: int|
            0 <= i < n && kept(net, l1.rep, l1.live, i) && #[trigger] l1.level[i] + 1 == x;
        assert(l2.level[i] < y);
    }
    if y != 1 {
        let i = choose|i: int|
            0 <= i < n && kept(net, l2.rep, l2.live, i) && #[trigger] l2.level[i] + 1 == y;
        assert(l1.level[i] < x);
    }
}

} // verus!
