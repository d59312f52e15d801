//! What the wires of a circuit under construction carry.
//!
//! Statements are about every netlist that extends the builder's, so they
//! stay true while the circuit grows.
use vstd::arithmetic::power2::pow2;
use vstd::prelude::*;

use crate::circuit::CircuitBuilder;
use crate::entity::Signal;
use crate::netlist::{gate_fn, grows, node_ordered, node_value, operand, Env, GateOp, Node};

verus! {

broadcast use Signal::lemma_range;

/// What wire `s` carries.
#[verifier::inline]
pub open spec fn on(nodes: Seq<Node>, env: Env, s: Signal) -> bool {
    node_value(nodes, env, s.id())
}

/// What the wires of a word carry.
pub open spec fn word_on(nodes: Seq<Node>, env: Env, w: Seq<Signal>) -> Seq<bool> {
    Seq::new(w.len(), |i: int| on(nodes, env, w[i]))
}

/// `after` has all of `before`'s nodes, in place.
#[verifier::opaque]
pub open spec fn keeps(before: Seq<Node>, after: Seq<Node>) -> bool {
    grows(before, after)
}

pub broadcast proof fn lemma_keeps_chain(a: Seq<Node>, b: Seq<Node>, c: Seq<Node>)
    requires
        #[trigger] keeps(a, b),
        #[trigger] keeps(b, c),
    ensures
        keeps(a, c),
{
    reveal(keeps);
}

pub broadcast proof fn lemma_keeps_self(a: Seq<Node>)
    ensures
        #[trigger] keeps(a, a),
{
    reveal(keeps);
}

/// The builder can be extended and schedules without a cycle.
pub open spec fn tidy(b: &CircuitBuilder) -> bool {
    b.inv() && b.net().ordered()
}

/// Every wire of the word is in the builder.
pub open spec fn has_all(b: &CircuitBuilder, w: Seq<Signal>) -> bool {
    forall|i: int| 0 <= i < w.len() ==> b.has(#[trigger] w[i])
}

/// `after` is `before` with `k` more gates or constants.
pub open spec fn built(before: &CircuitBuilder, after: &CircuitBuilder, k: int) -> bool {
    &&& after.net().nodes.len() == before.net().nodes.len() + k
    &&& before.gates() <= after.gates() <= before.gates() + k
    &&& k >= 0
    &&& keeps(before.net().nodes, after.net().nodes)
    &&& after.net().drives == before.net().drives
    &&& after.net().inits == before.net().inits
    &&& after.net().reg_labels == before.net().reg_labels
    &&& after.net().outs == before.net().outs
    &&& after.net().inputs == before.net().inputs
    &&& after.input_names() == before.input_names()
    &&& after.output_names() == before.output_names()
    &&& after.debug_names() == before.debug_names()
}

/// Wires stay in the builder as it grows.
pub broadcast proof fn lemma_has_all_grows(
    before: &CircuitBuilder,
    after: &CircuitBuilder,
    k: int,
    w: Seq<Signal>,
)
    requires
        #[trigger] has_all(before, w),
        #[trigger] built(before, after, k),
    ensures
        has_all(after, w),
{
    assert forall|i: int| 0 <= i < w.len() implies after.has(#[trigger] w[i]) by {
        assert(before.has(w[i]));
    }
}

/// A gate carries its function of what its operands carry, from now on.
pub broadcast proof fn lemma_gate(
    before: &CircuitBuilder,
    after: &CircuitBuilder,
    op: GateOp,
    ins: Seq<int>,
    s: Signal,
)
    requires
        #[trigger] after.gate_added(before, op, ins, s),
        before.net().ordered(),
        forall|k: int| 0 <= k < ins.len() ==> 0 <= #[trigger] ins[k] < before.net().nodes.len(),
    ensures
        built(before, after, 1),
        after.net().ordered(),
        after.has(s),
        forall|nodes: Seq<Node>, env: Env|
            keeps(after.net().nodes, nodes) ==> #[trigger] on(nodes, env, s) == gate_fn(
                op,
                node_value(nodes, env, operand(ins, 0)),
                node_value(nodes, env, operand(ins, 1)),
                node_value(nodes, env, operand(ins, 2)),
            ),
{
    reveal(keeps);
    let n = before.net().nodes.len() as int;
    assert forall|i: int| 0 <= i < after.net().nodes.len() implies #[trigger] node_ordered(
        after.net().nodes,
        i,
    ) by {
        if i < n {
            assert(node_ordered(before.net().nodes, i));
            assert(after.net().nodes[i] == before.net().nodes[i]);
        }
    }
    assert forall|nodes: Seq<Node>, env: Env| keeps(after.net().nodes, nodes) implies #[trigger] on(
        nodes,
        env,
        s,
    ) == gate_fn(
        op,
        node_value(nodes, env, operand(ins, 0)),
        node_value(nodes, env, operand(ins, 1)),
        node_value(nodes, env, operand(ins, 2)),
    ) by {
        assert(nodes[n] == after.net().nodes[n]);
    }
}

/// A constant carries its value.
pub(crate) fn const_bit(b: &mut CircuitBuilder, value: bool) -> (s: Signal)
    requires
        tidy(old(b)),
        old(b).source_room(1),
    ensures
        tidy(final(b)),
        built(old(b), final(b), 1),
        final(b).gates() == old(b).gates(),
        final(b).has(s),
        forall|nodes: Seq<Node>, env: Env|
            keeps(final(b).net().nodes, nodes) ==> #[trigger] on(nodes, env, s) == value,
{
    let s = b.const_val(value);
    proof {
        reveal(keeps);
        let n = old(b).net().nodes.len() as int;
        assert forall|i: int| 0 <= i < b.net().nodes.len() implies #[trigger] node_ordered(
            b.net().nodes,
            i,
        ) by {
            if i < n {
                assert(node_ordered(old(b).net().nodes, i));
                assert(b.net().nodes[i] == old(b).net().nodes[i]);
            }
        }
        assert forall|nodes: Seq<Node>, env: Env| keeps(b.net().nodes, nodes) implies #[trigger] on(
            nodes,
            env,
            s,
        ) == value by {
            assert(nodes[n] == b.net().nodes[n]);
        }
    }
    s
}

/// A word's wires as a number, least significant bit first.
pub open spec fn num(bits: Seq<bool>) -> nat
    decreases bits.len(),
{
    if bits.len() == 0 {
        0
    } else {
        num(bits.drop_last()) + if bits.last() {
            pow2((bits.len() - 1) as nat)
        } else {
            0
        }
    }
}

/// A word of `n` wires counts below `2^n`.
pub proof fn lemma_num_bound(bits: Seq<bool>)
    ensures
        num(bits) < pow2(bits.len()),
    decreases bits.len(),
{
    vstd::arithmetic::power2::lemma2_to64();
    if bits.len() > 0 {
        lemma_num_bound(bits.drop_last());
        vstd::arithmetic::power2::lemma_pow2_unfold(bits.len());
    }
}

/// One more, most significant, bit.
pub proof fn lemma_num_take(bits: Seq<bool>, i: int)
    requires
        0 <= i < bits.len(),
    ensures
        num(bits.take(i + 1)) == num(bits.take(i)) + if bits[i] {
            pow2(i as nat)
        } else {
            0
        },
{
    assert(bits.take(i + 1).drop_last() =~= bits.take(i));
    assert(bits.take(i + 1).last() == bits[i]);
}

/// Wires as numbers: wire `i` counts for the `i`-th power of two.
pub proof fn wires_are_binary_digits(bits: Seq<bool>, v: bool)
    ensures
        num(Seq::empty()) == 0,
        num(bits.push(v)) == num(bits) + (if v {
            pow2(bits.len())
        } else {
            0
        }),
{
    assert(bits.push(v).drop_last() =~= bits);
}

/// A word carries what its wires settle to, and circuits that grow keep what they
/// have.
pub proof fn words_carry_their_wires(nodes: Seq<Node>, more: Seq<Node>, env: Env, w: Seq<Signal>, i: int)
    requires
        0 <= i < w.len(),
    ensures
        word_on(nodes, env, w).len() == w.len(),
        word_on(nodes, env, w)[i] == node_value(nodes, env, w[i].id()),
        on(nodes, env, w[i]) == node_value(nodes, env, w[i].id()),
        keeps(nodes, more) <==> nodes.len() <= more.len() && more.take(nodes.len() as int) == nodes,
{
    reveal(keeps);
    if keeps(nodes, more) {
        assert(more.take(nodes.len() as int) =~= nodes);
    }
    if nodes.len() <= more.len() && more.take(nodes.len() as int) == nodes {
        assert forall|j: int| 0 <= j < nodes.len() implies #[trigger] more[j] == nodes[j] by {
            assert(more.take(nodes.len() as int)[j] == more[j]);
        }
    }
}

} // verus!
