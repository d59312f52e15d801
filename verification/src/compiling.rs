//! What compiling keeps of a circuit: which gates another node stands for,
//! which nodes get a slot, and in what order.
use vstd::prelude::*;

use crate::compile::{is_lowering, slot_before, slot_from, Compiled, Lowering, Op};
use crate::fold::{
    constant, decided, first_twin, fold_ok, is_place, kept, lemma_stands, live_node, operand_constant,
    reads_stand_in, stands, stands_for, tapped, twins,
};
use crate::netlist::{deps, Netlist, Node};

verus! {

/// The places at which a gate can equal an operand, kind by kind.
proof fn lemma_places(op: Op, ca: Option<bool>, cb: Option<bool>, k: int)
    requires
        is_place(op, ca, cb, k),
    ensures
        op == Op::And && ca == Some(true) ==> k == 1,
        op == Op::And && ca == Some(false) ==> k == 0,
        op == Op::And && ca is None && cb == Some(true) ==> k == 0,
        op == Op::And && ca is None && cb == Some(false) ==> k == 1,
        op == Op::Or && ca == Some(true) ==> k == 0,
        op == Op::Or && ca == Some(false) ==> k == 1,
        op == Op::Or && ca is None && cb == Some(true) ==> k == 1,
        op == Op::Or && ca is None && cb == Some(false) ==> k == 0,
        op == Op::Xor && ca == Some(false) ==> k == 1,
        op == Op::Xor && ca is None && cb == Some(false) ==> k == 0,
        op == Op::Mux && ca == Some(true) ==> k == 1,
        op == Op::Mux && ca == Some(false) ==> k == 2,
        op == Op::And || op == Op::Or || op == Op::Xor || op == Op::Mux,
        op == Op::And || op == Op::Or ==> ca is Some || cb is Some,
        op == Op::Xor ==> ca == Some(false) || cb == Some(false),
        op == Op::Mux ==> ca is Some,
{
    lemma_stands(op, ca, cb, k);
    if stands(op, ca, None, k) {
        lemma_stands(op, ca, None, k);
    } else {
        lemma_stands(op, None, cb, k);
        if op == Op::And && ca is Some {
            assert(stands(op, ca, None, if ca == Some(true) {
                1
            } else {
                0
            }));
        }
        if op == Op::Or && ca is Some {
            assert(stands(op, ca, None, if ca == Some(true) {
                0
            } else {
                1
            }));
        }
        if op == Op::Xor && ca == Some(false) {
            assert(stands(op, ca, None, 1));
        }
        if op == Op::Mux && ca is Some {
            assert(stands(op, ca, None, if ca == Some(true) {
                1
            } else {
                2
            }));
        }
    }
}

/// A gate over two operands that nothing taps and one of whose operands is
/// constant is replaced: an and with 1, an or or a xor with 0 by the other
/// operand, an and with 0 and an or with 1 by the constant.
pub proof fn constants_fold_gates(net: Netlist, rep: Seq<u32>, i: int, a: int, b: int)
    requires
        fold_ok(net, rep),
        0 <= i < net.nodes.len(),
        !net.outs.contains(i),
        !net.drives.contains(i),
    ensures
        ({
            let x = net.nodes[rep[a] as int];
            let y = net.nodes[rep[b] as int];
            &&& net.nodes[i] == Node::Gate(Op::And, seq![a, b]) ==> {
                &&& x == Node::Const(true) ==> rep[i] == rep[b]
                &&& x == Node::Const(false) ==> rep[i] == rep[a]
                &&& !(x is Const) && y == Node::Const(true) ==> rep[i] == rep[a]
                &&& !(x is Const) && y == Node::Const(false) ==> rep[i] == rep[b]
            }
            &&& net.nodes[i] == Node::Gate(Op::Or, seq![a, b]) ==> {
                &&& x == Node::Const(true) ==> rep[i] == rep[a]
                &&& x == Node::Const(false) ==> rep[i] == rep[b]
                &&& !(x is Const) && y == Node::Const(true) ==> rep[i] == rep[b]
                &&& !(x is Const) && y == Node::Const(false) ==> rep[i] == rep[a]
            }
            &&& net.nodes[i] == Node::Gate(Op::Xor, seq![a, b]) ==> {
                &&& x == Node::Const(false) ==> rep[i] == rep[b]
                &&& !(x is Const) && y == Node::Const(false) ==> rep[i] == rep[a]
            }
        }),
{
    let x = net.nodes[rep[a] as int];
    let y = net.nodes[rep[b] as int];
    assert(stands_for(net, rep, i));
    if let Node::Gate(op, ins) = net.nodes[i] {
        if (op == Op::And || op == Op::Or || op == Op::Xor) && ins == seq![a, b] {
            assert(deps(net.nodes[i]) == seq![a, b]);
            let ca = operand_constant(net, rep, i, 0);
            let cb = operand_constant(net, rep, i, 1);
            assert(ca == constant(net, rep[a] as int));
            assert(cb == constant(net, rep[b] as int));
            let place: int = if op == Op::And {
                if ca is Some {
                    if ca == Some(true) {
                        1
                    } else {
                        0
                    }
                } else if cb == Some(true) {
                    0
                } else {
                    1
                }
            } else if op == Op::Or {
                if ca is Some {
                    if ca == Some(true) {
                        0
                    } else {
                        1
                    }
                } else if cb == Some(true) {
                    1
                } else {
                    0
                }
            } else if ca is Some {
                1
            } else {
                0
            };
            if (op != Op::Xor && (ca is Some || cb is Some)) || (op == Op::Xor && (ca == Some(false) || (ca is None
                && cb == Some(false)))) {
                lemma_is_place(op, ca, cb, place);
                assert(decided(net, rep, i, place));
                let k = choose|k: int| #[trigger]
                    decided(net, rep, i, k) && rep[i] == rep[deps(net.nodes[i])[k]];
                lemma_places(op, ca, cb, k);
            }
        }
    }
}

/// These are places.
proof fn lemma_is_place(op: Op, ca: Option<bool>, cb: Option<bool>, k: int)
    requires
        ({
            ||| op == Op::And && ca == Some(true) && k == 1
            ||| op == Op::And && ca == Some(false) && k == 0
            ||| op == Op::And && ca is None && cb == Some(true) && k == 0
            ||| op == Op::And && ca is None && cb == Some(false) && k == 1
            ||| op == Op::Or && ca == Some(true) && k == 0
            ||| op == Op::Or && ca == Some(false) && k == 1
            ||| op == Op::Or && ca is None && cb == Some(true) && k == 1
            ||| op == Op::Or && ca is None && cb == Some(false) && k == 0
            ||| op == Op::Xor && ca == Some(false) && k == 1
            ||| op == Op::Xor && ca is None && cb == Some(false) && k == 0
            ||| op == Op::Mux && ca == Some(true) && k == 1
            ||| op == Op::Mux && ca == Some(false) && k == 2
        }),
    ensures
        is_place(op, ca, cb, k),
{
    assert(stands(op, ca, cb, k));
    if ca is Some {
        assert(stands(op, ca, None, k));
    } else {
        assert(stands(op, None, cb, k));
        assert forall|j: int| !#[trigger] stands(op, ca, None, j) by {
            if stands(op, ca, None, j) {
                lemma_stands(op, ca, None, j);
            }
        }
    }
}

/// A mux that nothing taps and whose select is constant is replaced by the
/// operand that it selects.
pub proof fn constants_settle_muxes(net: Netlist, rep: Seq<u32>, i: int, s: int, a: int, b: int)
    requires
        fold_ok(net, rep),
        0 <= i < net.nodes.len(),
        !net.outs.contains(i),
        !net.drives.contains(i),
        net.nodes[i] == Node::Gate(Op::Mux, seq![s, a, b]),
    ensures
        net.nodes[rep[s] as int] == Node::Const(true) ==> rep[i] == rep[a],
        net.nodes[rep[s] as int] == Node::Const(false) ==> rep[i] == rep[b],
{
    assert(stands_for(net, rep, i));
    assert(deps(net.nodes[i]) == seq![s, a, b]);
    let ca = operand_constant(net, rep, i, 0);
    let cb = operand_constant(net, rep, i, 1);
    assert(ca == constant(net, rep[s] as int));
    if ca is Some {
        let place: int = if ca == Some(true) {
            1
        } else {
            2
        };
        lemma_is_place(Op::Mux, ca, cb, place);
        assert(decided(net, rep, i, place));
        let k = choose|k: int| #[trigger]
            decided(net, rep, i, k) && rep[i] == rep[deps(net.nodes[i])[k]];
        lemma_places(Op::Mux, ca, cb, k);
    }
}

/// Of gates that compute the same and that no constant decides, the first one
/// is computed: a gate over two operands is the same whichever way round it
/// reads them.
pub proof fn repeated_gates_are_shared(
    net: Netlist,
    rep: Seq<u32>,
    x: int,
    i: int,
    op: Op,
    a: int,
    b: int,
    c: int,
    d: int,
)
    requires
        fold_ok(net, rep),
        0 <= x < i < net.nodes.len(),
        rep[x] == x,
        !net.outs.contains(i),
        !net.drives.contains(i),
        op == Op::And || op == Op::Or || op == Op::Xor || op == Op::Nand || op == Op::Nor || op == Op::Xnor,
        net.nodes[x] == Node::Gate(op, seq![a, b]),
        net.nodes[i] == Node::Gate(op, seq![c, d]),
        (rep[a] == rep[c] && rep[b] == rep[d]) || (rep[a] == rep[d] && rep[b] == rep[c]),
        !(net.nodes[rep[c] as int] is Const),
        !(net.nodes[rep[d] as int] is Const),
    ensures
        rep[i] <= x,
        rep[rep[i] as int] == rep[i],
        net.nodes[rep[i] as int] matches Node::Gate(same, _) && same == op,
{
    assert(stands_for(net, rep, i));
    assert(deps(net.nodes[i]) == seq![c, d]);
    assert(operand_constant(net, rep, i, 0) is None);
    assert(operand_constant(net, rep, i, 1) is None);
    assert forall|k: int| !#[trigger] decided(net, rep, i, k) by {
        if decided(net, rep, i, k) {
            lemma_places(op, None, None, k);
        }
    }
    assert(first_twin(net, rep, i, rep[i] as int));
    assert(twins(net, rep, x, i));
    assert(twins(net, rep, rep[i] as int, i));
}

/// A gate that nothing decides and that nothing before it computes stands for
/// itself, and so does everything that is tapped or a source.
pub proof fn other_nodes_stand_for_themselves(net: Netlist, rep: Seq<u32>, i: int)
    requires
        fold_ok(net, rep),
        0 <= i < net.nodes.len(),
    ensures
        net.outs.contains(i) ==> rep[i] == i,
        net.drives.contains(i) ==> rep[i] == i,
        !(net.nodes[i] is Gate) ==> rep[i] == i,
        net.nodes[i] is Gate ==> ({
            let op = net.nodes[i]->Gate_0;
            (op == Op::Not || op == Op::Buf || op == Op::Nand || op == Op::Nor || op == Op::Xnor) && (forall|x: int|
                0 <= x < i && #[trigger] rep[x] == x ==> !(net.nodes[x] is Gate && net.nodes[x]->Gate_0 == op))
                ==> rep[i] == i
        }),
{
    assert(stands_for(net, rep, i));
    if !(tapped(net, i) || !(net.nodes[i] is Gate)) {
        let op = net.nodes[i]->Gate_0;
        if exists|k: int| #[trigger] decided(net, rep, i, k) {
            let k = choose|k: int| #[trigger]
                decided(net, rep, i, k) && rep[i] == rep[deps(net.nodes[i])[k]];
            let ca = operand_constant(net, rep, i, 0);
            let cb = operand_constant(net, rep, i, 1);
            lemma_places(op, ca, cb, k);
        } else {
            let j = rep[i] as int;
            assert(first_twin(net, rep, i, j));
            if j < i {
                assert(rep[j] == j);
                assert(twins(net, rep, j, i));
            }
        }
    }
}

/// Slots go by class: constants, then inputs, then registers, then gates; gates
/// by level, and within a level by kind; what is alike keeps its order.
pub proof fn slots_are_sorted(net: Netlist, l: Lowering, tape: Compiled, s: int, t: int)
    requires
        is_lowering(net, l, tape),
        0 <= s < t < tape.n(),
    ensures
        ({
            let (i, j) = (l.origin[s], l.origin[t]);
            let (x, y) = (net.nodes[i], net.nodes[j]);
            &&& y is Const ==> x is Const
            &&& y is Input ==> x is Const || x is Input
            &&& y is RegOut ==> !(x is Gate)
            &&& x is Gate ==> y is Gate
            &&& x is Gate ==> l.level[i] <= l.level[j]
            &&& (x is Const && y is Const) || (x is Input && y is Input) || (x is RegOut && y is RegOut) ==> l.level[i]
                < l.level[j] || (l.level[i] == l.level[j] && i < j)
            &&& x is Gate && l.level[i] == l.level[j] ==> {
                let (op, same) = (x->Gate_0, y->Gate_0);
                &&& op == same ==> i < j
                &&& op == Op::Or ==> same != Op::And
                &&& op == Op::Xor ==> same != Op::And && same != Op::Or
                &&& op == Op::Not ==> same != Op::And && same != Op::Or && same != Op::Xor
                &&& op == Op::Nand ==> same == Op::Nand || same == Op::Nor || same == Op::Xnor || same == Op::Buf
                    || same == Op::Mux
                &&& op == Op::Nor ==> same == Op::Nor || same == Op::Xnor || same == Op::Buf || same == Op::Mux
                &&& op == Op::Xnor ==> same == Op::Xnor || same == Op::Buf || same == Op::Mux
                &&& op == Op::Buf ==> same == Op::Buf || same == Op::Mux
                &&& op == Op::Mux ==> same == Op::Mux
            }
        }),
{
    let (i, j) = (l.origin[s], l.origin[t]);
    assert(slot_before(net, l.level, i, j));
}

/// A slot computes its node: the same gate over the slots of the operands'
/// stand-ins, or the same source.
pub proof fn slots_hold_their_nodes(net: Netlist, l: Lowering, tape: Compiled, s: int)
    requires
        is_lowering(net, l, tape),
        0 <= s < tape.n(),
    ensures
        l.rep[l.origin[s]] == l.origin[s],
        net.nodes[l.origin[s]] matches Node::Gate(op, ins) ==> {
            &&& tape.ops@[s] == op
            &&& l.origin[tape.a@[s] as int] == l.rep[ins[0]]
            &&& ins.len() > 1 ==> l.origin[tape.b@[s] as int] == l.rep[ins[1]]
            &&& ins.len() > 2 ==> l.origin[tape.c@[s] as int] == l.rep[ins[2]]
            &&& l.live[l.origin[s]]
        },
        !(net.nodes[l.origin[s]] is Gate) ==> tape.sources@[s] == net.nodes[l.origin[s]],
{
    assert(slot_from(net, l, tape, s));
}

/// What an output or a register taps has a slot, and so has whatever a gate
/// with a slot reads; every constant and every input has one too.
pub proof fn what_is_needed_has_a_slot(net: Netlist, l: Lowering, tape: Compiled, i: int, j: int, k: int)
    requires
        is_lowering(net, l, tape),
        0 <= i < net.nodes.len(),
    ensures
        net.outs.contains(i) || net.drives.contains(i) ==> l.origin.contains(i),
        net.nodes[i] is Const || net.nodes[i] is Input ==> l.origin.contains(i),
        l.rep[i] == i && 0 <= j < net.nodes.len() && l.origin.contains(j) && net.nodes[j] is Gate && 0 <= k < deps(
            net.nodes[j],
        ).len() && l.rep[deps(net.nodes[j])[k]] == i ==> l.origin.contains(i),
{
    assert(stands_for(net, l.rep, i));
    assert(live_node(net, l.rep, l.live, i));
    if net.outs.contains(i) || net.drives.contains(i) {
        assert(kept(net, l.rep, l.live, i));
    }
    if net.nodes[i] is Const || net.nodes[i] is Input {
        assert(kept(net, l.rep, l.live, i));
    }
    if l.rep[i] == i && 0 <= j < net.nodes.len() && l.origin.contains(j) && net.nodes[j] is Gate && 0 <= k < deps(
        net.nodes[j],
    ).len() && l.rep[deps(net.nodes[j])[k]] == i {
        let s = choose|s: int| 0 <= s < l.origin.len() && l.origin[s] == j;
        assert(slot_from(net, l, tape, s));
        assert(reads_stand_in(net, l.rep, j, i));
        assert(kept(net, l.rep, l.live, i));
    }
}

/// A register or a gate has a slot only if something needs it: it is tapped, or
/// a gate that is live reads it.
pub proof fn what_nothing_needs_is_left_out(net: Netlist, l: Lowering, tape: Compiled, i: int)
    requires
        is_lowering(net, l, tape),
        0 <= i < net.nodes.len(),
        l.origin.contains(i),
        net.nodes[i] is Gate || net.nodes[i] is RegOut,
        !net.outs.contains(i),
        !net.drives.contains(i),
    ensures
        exists|j: int, k: int|
            0 <= j < net.nodes.len() && l.live[j] && 0 <= k < deps(net.nodes[j]).len() && l.rep[#[trigger] deps(
                net.nodes[j],
            )[k]] == i,
{
    let s = choose|s: int| 0 <= s < l.origin.len() && l.origin[s] == i;
    assert(slot_from(net, l, tape, s));
    assert(live_node(net, l.rep, l.live, i));
    let j = choose|j: int|
        0 <= j < net.nodes.len() && l.live[j] && #[trigger] reads_stand_in(net, l.rep, j, i);
    let k = choose|k: int|
        0 <= k < deps(net.nodes[j]).len() && l.rep[#[trigger] deps(net.nodes[j])[k]] == i;
    assert(l.rep[deps(net.nodes[j])[k]] == i);
}

} // verus!
