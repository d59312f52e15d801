//! Word-level RTL helpers over the bit-level [`CircuitBuilder`]: multi-bit
//! constants, muxes, decoders, ripple-carry adders, comparators and barrel
//! shifters. A word is a vector of wires, least significant bit first.
//!
//! Each contract says what the new wires carry in every netlist that extends
//! the builder's, whatever its inputs and registers hold.
use vstd::arithmetic::power2::pow2;
use vstd::prelude::*;

use crate::circuit::CircuitBuilder;
use crate::entity::Signal;
use crate::isa::bit_of;
use crate::netlist::{Env, Node};
use crate::wires::{
    built, const_bit, has_all, keeps, lemma_gate, lemma_keeps_chain, lemma_keeps_self,
    lemma_num_bound, lemma_num_take, num, on, tidy, word_on,
};

verus! {

broadcast use {Signal::lemma_range, lemma_keeps_chain, lemma_keeps_self, lemma_gate};

pub const XLEN: usize = 32;

/// A machine word as individual wires, least significant bit first.
pub type Word = Vec<Signal>;

/// Constant word, one constant cell per bit.
pub fn constant(b: &mut CircuitBuilder, value: u32) -> (w: Word)
    requires
        tidy(old(b)),
        old(b).source_room(32),
    ensures
        tidy(final(b)),
        built(old(b), final(b), 32),
        final(b).gates() == old(b).gates(),
        has_all(final(b), w@),
        w@.len() == 32,
        forall|nodes: Seq<Node>, env: Env, i: int|
            keeps(final(b).net().nodes, nodes) && 0 <= i < 32 ==> #[trigger] on(nodes, env, w@[i])
                == bit_of(value, i),
{
    let mut w: Word = Vec::with_capacity(XLEN);
    for i in 0..XLEN
        invariant
            tidy(b),
            old(b).source_room(32),
            built(old(b), b, i as int),
            b.gates() == old(b).gates(),
            has_all(b, w@),
            w@.len() == i,
            forall|nodes: Seq<Node>, env: Env, j: int|
                keeps(b.net().nodes, nodes) && 0 <= j < i ==> #[trigger] on(nodes, env, w@[j]) == bit_of(
                    value,
                    j,
                ),
    {
        let s = const_bit(b, (value >> (i as u32)) & 1 == 1);
        w.push(s);
    }
    w
}

/// Per-bit 2:1 mux: `sel ? then_w : else_w`.
pub fn mux_word(b: &mut CircuitBuilder, sel: Signal, then_w: &[Signal], else_w: &[Signal]) -> (w: Word)
    requires
        tidy(old(b)),
        old(b).has(sel),
        has_all(old(b), then_w@),
        has_all(old(b), else_w@),
        then_w@.len() == else_w@.len(),
        old(b).room(then_w@.len() as int),
    ensures
        tidy(final(b)),
        built(old(b), final(b), then_w@.len() as int),
        has_all(final(b), w@),
        w@.len() == then_w@.len(),
        forall|nodes: Seq<Node>, env: Env, i: int|
            keeps(final(b).net().nodes, nodes) && 0 <= i < w@.len() ==> #[trigger] on(nodes, env, w@[i])
                == if on(nodes, env, sel) {
                on(nodes, env, then_w@[i])
            } else {
                on(nodes, env, else_w@[i])
            },
{
    let mut w: Word = Vec::with_capacity(then_w.len());
    for i in 0..then_w.len()
        invariant
            tidy(b),
            b.has(sel),
            has_all(old(b), then_w@),
            has_all(old(b), else_w@),
            then_w@.len() == else_w@.len(),
            old(b).room(then_w@.len() as int),
            built(old(b), b, i as int),
            has_all(b, w@),
            w@.len() == i,
            forall|nodes: Seq<Node>, env: Env, j: int|
                keeps(b.net().nodes, nodes) && 0 <= j < i ==> #[trigger] on(nodes, env, w@[j]) == if on(
                    nodes,
                    env,
                    sel,
                ) {
                    on(nodes, env, then_w@[j])
                } else {
                    on(nodes, env, else_w@[j])
                },
    {
        assert(old(b).has(then_w@[i as int]) && old(b).has(else_w@[i as int]));
        let s = b.mux(sel, then_w[i], else_w[i]);
        w.push(s);
    }
    w
}

/// A copy of a word: the same wires.
pub(crate) fn same_wires(w: &[Signal]) -> (copy: Word)
    ensures
        copy@ == w@,
{
    let mut copy: Word = Vec::with_capacity(w.len());
    for i in 0..w.len()
        invariant
            copy@ == w@.take(i as int),
    {
        copy.push(w[i]);
        assert(w@.take(i + 1) =~= w@.take(i as int).push(w@[i as int]));
    }
    assert(w@.take(w@.len() as int) =~= w@);
    copy
}

/// Every item is a word of `width` wires of the builder.
pub open spec fn table_ok(b: &CircuitBuilder, items: Seq<Word>, width: int) -> bool {
    forall|k: int| 0 <= k < items.len() ==> (#[trigger] items[k])@.len() == width && has_all(b, items[k]@)
}

/// `items[sel]` for the runtime value of `sel` (LSB first);
/// `items.len()` must equal `1 << sel.len()`.
pub fn mux_tree(b: &mut CircuitBuilder, sel: &[Signal], items: &[Word]) -> (w: Word)
    requires
        tidy(old(b)),
        has_all(old(b), sel@),
        items@.len() == pow2(sel@.len()),
        table_ok(old(b), items@, items@[0]@.len() as int),
        old(b).room((items@.len() - 1) * items@[0]@.len()),
    ensures
        tidy(final(b)),
        built(old(b), final(b), (items@.len() - 1) * items@[0]@.len()),
        has_all(final(b), w@),
        w@.len() == items@[0]@.len(),
        forall|nodes: Seq<Node>, env: Env, i: int|
            keeps(final(b).net().nodes, nodes) && 0 <= i < w@.len() ==> #[trigger] on(nodes, env, w@[i])
                == on(nodes, env, items@[num(word_on(nodes, env, sel@)) as int]@[i]),
    decreases sel@.len(),
{
    proof {
        vstd::arithmetic::power2::lemma2_to64();
    }
    if sel.len() == 0 {
        let w = same_wires(items[0].as_slice());
        assert(has_all(b, items@[0]@));
        assert((items@.len() - 1) * items@[0]@.len() == 0) by (nonlinear_arith)
            requires
                items@.len() == 1,
        ;
        return w;
    }
    let ghost width = items@[0]@.len() as int;
    let last: usize = sel.len() - 1;
    let rest = vstd::slice::slice_subrange(sel, 0, last);
    let msb: Signal = sel[last];
    let half: usize = items.len() / 2;
    proof {
        vstd::arithmetic::power2::lemma_pow2_unfold(sel@.len());
        vstd::arithmetic::power2::lemma_pow2_pos(last as nat);
        assert(items@.len() == 2 * half);
        assert((2 * half - 1) * width == (half - 1) * width + (half - 1) * width + width)
            by (nonlinear_arith);
        assert((half - 1) * width >= 0) by (nonlinear_arith)
            requires
                half >= 1,
                width >= 0,
        ;
    }
    let low = vstd::slice::slice_subrange(items, 0, half);
    let high = vstd::slice::slice_subrange(items, half, items.len());
    assert forall|k: int| 0 <= k < half implies (#[trigger] low@[k])@.len() == width && has_all(b, low@[k]@) by {
        assert(low@[k] == items@[k]);
    }
    assert(low@[0]@.len() == width);
    let lo = mux_tree(b, rest, low);
    let ghost b1 = *b;
    assert forall|k: int| 0 <= k < half implies (#[trigger] high@[k])@.len() == width && has_all(b, high@[k]@) by {
        assert(high@[k] == items@[half + k]);
        assert(has_all(old(b), items@[half + k]@));
        assert forall|i: int| 0 <= i < high@[k]@.len() implies b.has(#[trigger] high@[k]@[i]) by {
            assert(old(b).has(items@[half + k]@[i]));
        }
    }
    assert(high@[0]@.len() == width);
    assert forall|i: int| 0 <= i < rest@.len() implies b.has(#[trigger] rest@[i]) by {
        assert(old(b).has(sel@[i]));
    }
    let hi = mux_tree(b, rest, high);
    assert(old(b).has(sel@[last as int]));
    assert forall|i: int| 0 <= i < lo@.len() implies b.has(#[trigger] lo@[i]) by {
        assert(b1.has(lo@[i]));
    }
    let w = mux_word(b, msb, hi.as_slice(), lo.as_slice());
    assert forall|nodes: Seq<Node>, env: Env, i: int|
        keeps(b.net().nodes, nodes) && 0 <= i < w@.len() implies #[trigger] on(nodes, env, w@[i]) == on(
        nodes,
        env,
        items@[num(word_on(nodes, env, sel@)) as int]@[i],
    ) by {
        let bits = word_on(nodes, env, sel@);
        let low_bits = word_on(nodes, env, rest@);
        assert(bits.drop_last() =~= low_bits);
        assert(bits.last() == on(nodes, env, msb));
        lemma_num_bound(low_bits);
        let k = num(low_bits) as int;
        assert(on(nodes, env, lo@[i]) == on(nodes, env, low@[k]@[i]));
        assert(on(nodes, env, hi@[i]) == on(nodes, env, high@[k]@[i]));
        assert(low@[k] == items@[k]);
        assert(high@[k] == items@[half + k]);
    }
    w
}

/// The number of nodes a decoder of `n` lines' worth of selectors takes.
pub open spec fn decoder_size(n: nat) -> nat
    decreases n,
{
    if n == 0 {
        1
    } else {
        decoder_size((n - 1) as nat) + 1 + pow2(n)
    }
}

/// One-hot decode: line `k` is true iff `sel` (LSB first) reads `k`.
pub fn decoder(b: &mut CircuitBuilder, sel: &[Signal]) -> (lines: Vec<Signal>)
    requires
        tidy(old(b)),
        has_all(old(b), sel@),
        old(b).room(decoder_size(sel@.len()) as int),
    ensures
        tidy(final(b)),
        built(old(b), final(b), decoder_size(sel@.len()) as int),
        has_all(final(b), lines@),
        lines@.len() == pow2(sel@.len()),
        forall|nodes: Seq<Node>, env: Env, k: int|
            keeps(final(b).net().nodes, nodes) && 0 <= k < lines@.len() ==> #[trigger] on(
                nodes,
                env,
                lines@[k],
            ) == (num(word_on(nodes, env, sel@)) == k),
{
    proof {
        vstd::arithmetic::power2::lemma2_to64();
        lemma_decoder_size(0, sel@.len());
    }
    let first = const_bit(b, true);
    let mut lines: Vec<Signal> = vec![first];
    assert forall|nodes: Seq<Node>, env: Env, k: int|
        keeps(b.net().nodes, nodes) && 0 <= k < lines@.len() implies #[trigger] on(nodes, env, lines@[k])
        == (num(word_on(nodes, env, sel@).take(0)) == k) by {}
    for i in 0..sel.len()
        invariant
            tidy(b),
            has_all(old(b), sel@),
            old(b).room(decoder_size(sel@.len()) as int),
            built(old(b), b, decoder_size(i as nat) as int),
            has_all(b, lines@),
            lines@.len() == pow2(i as nat),
            forall|nodes: Seq<Node>, env: Env, k: int|
                keeps(b.net().nodes, nodes) && 0 <= k < lines@.len() ==> #[trigger] on(nodes, env, lines@[k])
                    == (num(word_on(nodes, env, sel@).take(i as int)) == k),
    {
        proof {
            lemma_decoder_size((i + 1) as nat, sel@.len());
            vstd::arithmetic::power2::lemma_pow2_unfold((i + 1) as nat);
        }
        let ghost b0 = *b;
        let s: Signal = sel[i];
        assert(old(b).has(sel@[i as int]));
        let ns = b.not(s);
        let ghost half = lines@.len() as int;
        let mut next: Vec<Signal> = Vec::new();
        for j in 0..lines.len()
            invariant
                tidy(b),
                b.has(s),
                b.has(ns),
                half == lines@.len(),
                has_all(&b0, lines@),
                keeps(b0.net().nodes, b.net().nodes),
                built(&b0, b, 1 + j),
                b0.room(1 + 2 * half),
                next@.len() == j,
                has_all(b, next@),
                forall|nodes: Seq<Node>, env: Env|
                    keeps(b.net().nodes, nodes) ==> #[trigger] on(nodes, env, ns) == !on(nodes, env, s),
                forall|nodes: Seq<Node>, env: Env, k: int|
                    keeps(b.net().nodes, nodes) && 0 <= k < j ==> #[trigger] on(nodes, env, next@[k]) == (!on(
                        nodes,
                        env,
                        s,
                    ) && on(nodes, env, lines@[k])),
        {
            assert(b0.has(lines@[j as int]));
            let g = b.and(ns, lines[j]);
            next.push(g);
        }
        for j in 0..lines.len()
            invariant
                tidy(b),
                b.has(s),
                half == lines@.len(),
                has_all(&b0, lines@),
                built(&b0, b, 1 + half + j),
                b0.room(1 + 2 * half),
                next@.len() == half + j,
                has_all(b, next@),
                forall|nodes: Seq<Node>, env: Env, k: int|
                    keeps(b.net().nodes, nodes) && 0 <= k < half + j ==> #[trigger] on(nodes, env, next@[k])
                        == (if k < half {
                        !on(nodes, env, s) && on(nodes, env, lines@[k])
                    } else {
                        on(nodes, env, s) && on(nodes, env, lines@[k - half])
                    }),
        {
            assert(b0.has(lines@[j as int]));
            let g = b.and(s, lines[j]);
            next.push(g);
        }
        proof {
            assert forall|nodes: Seq<Node>, env: Env, k: int|
                keeps(b.net().nodes, nodes) && 0 <= k < next@.len() implies #[trigger] on(
                nodes,
                env,
                next@[k],
            ) == (num(word_on(nodes, env, sel@).take(i + 1)) == k) by {
                let bits = word_on(nodes, env, sel@);
                lemma_num_take(bits, i as int);
                lemma_num_bound(bits.take(i as int));
                assert(bits[i as int] == on(nodes, env, s));
                if k < half {
                    assert(on(nodes, env, lines@[k]) == (num(bits.take(i as int)) == k));
                } else {
                    assert(on(nodes, env, lines@[k - half]) == (num(bits.take(i as int)) == k - half));
                }
            }
        }
        lines = next;
    }
    proof {
        assert forall|nodes: Seq<Node>, env: Env, k: int|
            keeps(b.net().nodes, nodes) && 0 <= k < lines@.len() implies #[trigger] on(nodes, env, lines@[k])
            == (num(word_on(nodes, env, sel@)) == k) by {
            let bits = word_on(nodes, env, sel@);
            assert(bits.take(sel@.len() as int) =~= bits);
        }
    }
    lines
}

pub proof fn lemma_decoder_size(m: nat, n: nat)
    requires
        m <= n,
    ensures
        decoder_size(m) <= decoder_size(n),
        1 <= decoder_size(m),
    decreases n,
{
    if m < n {
        lemma_decoder_size(m, (n - 1) as nat);
    } else if m > 0 {
        lemma_decoder_size((m - 1) as nat, (m - 1) as nat);
    }
}

/// How many of the low `n` bits are clear.
pub open spec fn zeros(value: u32, n: nat) -> nat
    decreases n,
{
    if n == 0 {
        0
    } else {
        zeros(value, (n - 1) as nat) + if bit_of(value, n - 1) {
            0nat
        } else {
            1nat
        }
    }
}

/// True iff `bits` (LSB first) equals the constant `value`.
pub fn match_bits(b: &mut CircuitBuilder, bits: &[Signal], value: u32) -> (s: Signal)
    requires
        tidy(old(b)),
        has_all(old(b), bits@),
        1 <= bits@.len() <= 32,
        old(b).room(2 * bits@.len() as int),
    ensures
        tidy(final(b)),
        built(old(b), final(b), bits@.len() - 1 + zeros(value, bits@.len())),
        final(b).has(s),
        forall|nodes: Seq<Node>, env: Env|
            keeps(final(b).net().nodes, nodes) ==> #[trigger] on(nodes, env, s) == (forall|i: int|
                0 <= i < bits@.len() ==> on(nodes, env, #[trigger] bits@[i]) == bit_of(value, i)),
{
    let mut acc: Option<Signal> = None;
    for i in 0..bits.len()
        invariant
            tidy(b),
            has_all(old(b), bits@),
            bits@.len() <= 32,
            old(b).room(2 * bits@.len() as int),
            i > 0 ==> built(old(b), b, i - 1 + zeros(value, i as nat)),
            i == 0 ==> *b == *old(b),
            zeros(value, i as nat) <= i,
            acc is None <==> i == 0,
            acc matches Some(s) ==> b.has(s),
            acc matches Some(s) ==> forall|nodes: Seq<Node>, env: Env|
                keeps(b.net().nodes, nodes) ==> #[trigger] on(nodes, env, s) == (forall|j: int|
                    0 <= j < i ==> on(nodes, env, #[trigger] bits@[j]) == bit_of(value, j)),
    {
        let bit: Signal = bits[i];
        let ghost b0 = *b;
        assert(old(b).has(bits@[i as int]));
        let wanted: bool = (value >> (i as u32)) & 1 == 1;
        let term = if wanted {
            bit
        } else {
            b.not(bit)
        };
        proof {
            assert forall|nodes: Seq<Node>, env: Env| keeps(b.net().nodes, nodes) implies #[trigger] on(
                nodes,
                env,
                term,
            ) == (on(nodes, env, bits@[i as int]) == bit_of(value, i as int)) by {}
        }
        let ghost b1 = *b;
        let ghost prior = acc;
        acc = Some(
            match acc {
                Some(prev) => b.and(prev, term),
                None => term,
            },
        );
        proof {
            let s = acc->0;
            assert forall|nodes: Seq<Node>, env: Env| keeps(b.net().nodes, nodes) implies #[trigger] on(
                nodes,
                env,
                s,
            ) == (forall|j: int|
                0 <= j < i + 1 ==> on(nodes, env, #[trigger] bits@[j]) == bit_of(value, j)) by {
                assert(keeps(b1.net().nodes, nodes));
                assert(keeps(b0.net().nodes, nodes));
                assert(on(nodes, env, term) == (on(nodes, env, bits@[i as int]) == bit_of(value, i as int)));
                if prior is Some {
                    let p = prior->0;
                    assert(on(nodes, env, s) == (on(nodes, env, p) && on(nodes, env, term)));
                }
            }
        }
    }
    match acc {
        Some(s) => s,
        None => bits[0],
    }
}

pub fn word_not(b: &mut CircuitBuilder, a: &[Signal]) -> (w: Word)
    requires
        tidy(old(b)),
        has_all(old(b), a@),
        old(b).room(a@.len() as int),
    ensures
        tidy(final(b)),
        built(old(b), final(b), a@.len() as int),
        has_all(final(b), w@),
        w@.len() == a@.len(),
        forall|nodes: Seq<Node>, env: Env, i: int|
            keeps(final(b).net().nodes, nodes) && 0 <= i < w@.len() ==> #[trigger] on(nodes, env, w@[i])
                == !on(nodes, env, a@[i]),
{
    let mut w: Word = Vec::with_capacity(a.len());
    for i in 0..a.len()
        invariant
            tidy(b),
            has_all(old(b), a@),
            old(b).room(a@.len() as int),
            built(old(b), b, i as int),
            has_all(b, w@),
            w@.len() == i,
            forall|nodes: Seq<Node>, env: Env, j: int|
                keeps(b.net().nodes, nodes) && 0 <= j < i ==> #[trigger] on(nodes, env, w@[j]) == !on(
                    nodes,
                    env,
                    a@[j],
                ),
    {
        assert(old(b).has(a@[i as int]));
        let s = b.not(a[i]);
        w.push(s);
    }
    w
}

/// The length of the shorter word.
pub open spec fn shorter(a: Seq<Signal>, x: Seq<Signal>) -> int {
    if a.len() <= x.len() {
        a.len() as int
    } else {
        x.len() as int
    }
}

/// The length of the shorter word.
fn shorter_len(a: &[Signal], x: &[Signal]) -> (n: usize)
    ensures
        n == shorter(a@, x@),
{
    if a.len() <= x.len() {
        a.len()
    } else {
        x.len()
    }
}

pub fn word_and(b: &mut CircuitBuilder, a: &[Signal], x: &[Signal]) -> (w: Word)
    requires
        tidy(old(b)),
        has_all(old(b), a@),
        has_all(old(b), x@),
        old(b).room(shorter(a@, x@)),
    ensures
        tidy(final(b)),
        built(old(b), final(b), shorter(a@, x@)),
        has_all(final(b), w@),
        w@.len() == shorter(a@, x@),
        forall|nodes: Seq<Node>, env: Env, i: int|
            keeps(final(b).net().nodes, nodes) && 0 <= i < w@.len() ==> #[trigger] on(nodes, env, w@[i])
                == (on(nodes, env, a@[i]) && on(nodes, env, x@[i])),
{
    let n: usize = shorter_len(a, x);
    let mut w: Word = Vec::with_capacity(n);
    for i in 0..n
        invariant
            tidy(b),
            n == shorter(a@, x@),
            has_all(old(b), a@),
            has_all(old(b), x@),
            old(b).room(n as int),
            built(old(b), b, i as int),
            has_all(b, w@),
            w@.len() == i,
            forall|nodes: Seq<Node>, env: Env, j: int|
                keeps(b.net().nodes, nodes) && 0 <= j < i ==> #[trigger] on(nodes, env, w@[j]) == (on(nodes, env, a@[j]) && on(nodes, env, x@[j])),
    {
        assert(old(b).has(a@[i as int]) && old(b).has(x@[i as int]));
        let s = b.and(a[i], x[i]);
        w.push(s);
    }
    w
}

pub fn word_or(b: &mut CircuitBuilder, a: &[Signal], x: &[Signal]) -> (w: Word)
    requires
        tidy(old(b)),
        has_all(old(b), a@),
        has_all(old(b), x@),
        old(b).room(shorter(a@, x@)),
    ensures
        tidy(final(b)),
        built(old(b), final(b), shorter(a@, x@)),
        has_all(final(b), w@),
        w@.len() == shorter(a@, x@),
        forall|nodes: Seq<Node>, env: Env, i: int|
            keeps(final(b).net().nodes, nodes) && 0 <= i < w@.len() ==> #[trigger] on(nodes, env, w@[i])
                == (on(nodes, env, a@[i]) || on(nodes, env, x@[i])),
{
    let n: usize = shorter_len(a, x);
    let mut w: Word = Vec::with_capacity(n);
    for i in 0..n
        invariant
            tidy(b),
            n == shorter(a@, x@),
            has_all(old(b), a@),
            has_all(old(b), x@),
            old(b).room(n as int),
            built(old(b), b, i as int),
            has_all(b, w@),
            w@.len() == i,
            forall|nodes: Seq<Node>, env: Env, j: int|
                keeps(b.net().nodes, nodes) && 0 <= j < i ==> #[trigger] on(nodes, env, w@[j]) == (on(nodes, env, a@[j]) || on(nodes, env, x@[j])),
    {
        assert(old(b).has(a@[i as int]) && old(b).has(x@[i as int]));
        let s = b.or(a[i], x[i]);
        w.push(s);
    }
    w
}

pub fn word_xor(b: &mut CircuitBuilder, a: &[Signal], x: &[Signal]) -> (w: Word)
    requires
        tidy(old(b)),
        has_all(old(b), a@),
        has_all(old(b), x@),
        old(b).room(shorter(a@, x@)),
    ensures
        tidy(final(b)),
        built(old(b), final(b), shorter(a@, x@)),
        has_all(final(b), w@),
        w@.len() == shorter(a@, x@),
        forall|nodes: Seq<Node>, env: Env, i: int|
            keeps(final(b).net().nodes, nodes) && 0 <= i < w@.len() ==> #[trigger] on(nodes, env, w@[i])
                == (on(nodes, env, a@[i]) != on(nodes, env, x@[i])),
{
    let n: usize = shorter_len(a, x);
    let mut w: Word = Vec::with_capacity(n);
    for i in 0..n
        invariant
            tidy(b),
            n == shorter(a@, x@),
            has_all(old(b), a@),
            has_all(old(b), x@),
            old(b).room(n as int),
            built(old(b), b, i as int),
            has_all(b, w@),
            w@.len() == i,
            forall|nodes: Seq<Node>, env: Env, j: int|
                keeps(b.net().nodes, nodes) && 0 <= j < i ==> #[trigger] on(nodes, env, w@[j]) == (on(nodes, env, a@[j]) != on(nodes, env, x@[j])),
    {
        assert(old(b).has(a@[i as int]) && old(b).has(x@[i as int]));
        let s = b.xor(a[i], x[i]);
        w.push(s);
    }
    w
}

/// Ripple-carry adder; returns `(sum, carry_out)`.
pub fn adder(b: &mut CircuitBuilder, a: &[Signal], x: &[Signal], carry_in: Signal) -> (res: (Word, Signal))
    requires
        tidy(old(b)),
        has_all(old(b), a@),
        has_all(old(b), x@),
        old(b).has(carry_in),
        old(b).room(5 * shorter(a@, x@)),
    ensures
        tidy(final(b)),
        built(old(b), final(b), 5 * shorter(a@, x@)),
        has_all(final(b), res.0@),
        final(b).has(res.1),
        res.0@.len() == shorter(a@, x@),
        forall|nodes: Seq<Node>, env: Env|
            keeps(final(b).net().nodes, nodes) ==> #[trigger] sums(
                word_on(nodes, env, a@),
                word_on(nodes, env, x@),
                on(nodes, env, carry_in),
                word_on(nodes, env, res.0@),
                on(nodes, env, res.1),
            ),
{
    let n: usize = shorter_len(a, x);
    let mut carry: Signal = carry_in;
    let mut sum: Word = Vec::with_capacity(n);
    proof {
        vstd::arithmetic::power2::lemma2_to64();
        assert forall|nodes: Seq<Node>, env: Env| keeps(b.net().nodes, nodes) implies #[trigger] sums(
            word_on(nodes, env, a@),
            word_on(nodes, env, x@),
            on(nodes, env, carry_in),
            word_on(nodes, env, sum@),
            on(nodes, env, carry),
        ) by {}
    }
    for i in 0..n
        invariant
            tidy(b),
            n == shorter(a@, x@),
            has_all(old(b), a@),
            has_all(old(b), x@),
            old(b).has(carry_in),
            old(b).room(5 * n),
            built(old(b), b, 5 * i),
            has_all(b, sum@),
            b.has(carry),
            sum@.len() == i,
            forall|nodes: Seq<Node>, env: Env|
                keeps(b.net().nodes, nodes) ==> #[trigger] sums(
                    word_on(nodes, env, a@),
                    word_on(nodes, env, x@),
                    on(nodes, env, carry_in),
                    word_on(nodes, env, sum@),
                    on(nodes, env, carry),
                ),
    {
        let ghost sum0 = sum@;
        let ghost carry0 = carry;
        assert(old(b).has(a@[i as int]) && old(b).has(x@[i as int]));
        let (p, q) = (a[i], x[i]);
        let pxq = b.xor(p, q);
        let s = b.xor(pxq, carry);
        sum.push(s);
        let generate = b.and(p, q);
        let propagate = b.and(pxq, carry);
        carry = b.or(generate, propagate);
        proof {
            assert forall|nodes: Seq<Node>, env: Env| keeps(b.net().nodes, nodes) implies #[trigger] sums(
                word_on(nodes, env, a@),
                word_on(nodes, env, x@),
                on(nodes, env, carry_in),
                word_on(nodes, env, sum@),
                on(nodes, env, carry),
            ) by {
                let (va, vx) = (word_on(nodes, env, a@), word_on(nodes, env, x@));
                let (vs0, vs) = (word_on(nodes, env, sum0), word_on(nodes, env, sum@));
                let (cin, c0, c1) = (on(nodes, env, carry_in), on(nodes, env, carry0), on(nodes, env, carry));
                assert(sums(va, vx, cin, vs0, c0));
                assert(vs =~= vs0.push(on(nodes, env, s)));
                assert(va[i as int] == on(nodes, env, p));
                assert(vx[i as int] == on(nodes, env, q));
                lemma_full_adder(va, vx, cin, vs0, c0, on(nodes, env, s), c1);
            }
        }
    }
    (sum, carry)
}

/// `sum` and the carry out of its top are `a + x + carry_in`, over the bits
/// that `sum` covers.
pub open spec fn sums(a: Seq<bool>, x: Seq<bool>, carry_in: bool, sum: Seq<bool>, carry: bool) -> bool {
    num(sum) + (if carry {
        pow2(sum.len())
    } else {
        0
    }) == num(a.take(sum.len() as int)) + num(x.take(sum.len() as int)) + (if carry_in {
        1nat
    } else {
        0nat
    })
}

/// One full adder extends a sum by one bit.
pub proof fn lemma_full_adder(
    a: Seq<bool>,
    x: Seq<bool>,
    cin: bool,
    sum: Seq<bool>,
    c0: bool,
    s: bool,
    c1: bool,
)
    requires
        sums(a, x, cin, sum, c0),
        sum.len() < a.len(),
        sum.len() < x.len(),
        s == ((a[sum.len() as int] != x[sum.len() as int]) != c0),
        c1 == ((a[sum.len() as int] && x[sum.len() as int]) || ((a[sum.len() as int] != x[sum.len() as int])
            && c0)),
    ensures
        sums(a, x, cin, sum.push(s), c1),
{
    let i = sum.len() as int;
    lemma_num_take(a, i);
    lemma_num_take(x, i);
    assert(sum.push(s).drop_last() =~= sum);
    vstd::arithmetic::power2::lemma_pow2_unfold((i + 1) as nat);
}

/// `a + x`, carry discarded.
pub fn add(b: &mut CircuitBuilder, a: &[Signal], x: &[Signal]) -> (w: Word)
    requires
        tidy(old(b)),
        has_all(old(b), a@),
        has_all(old(b), x@),
        old(b).room(1 + 5 * shorter(a@, x@)),
    ensures
        tidy(final(b)),
        built(old(b), final(b), 1 + 5 * shorter(a@, x@)),
        has_all(final(b), w@),
        w@.len() == shorter(a@, x@),
        forall|nodes: Seq<Node>, env: Env|
            keeps(final(b).net().nodes, nodes) ==> num(#[trigger] word_on(nodes, env, w@)) == (num(
                word_on(nodes, env, a@).take(w@.len() as int),
            ) + num(word_on(nodes, env, x@).take(w@.len() as int))) % pow2(w@.len()),
{
    let zero = const_bit(b, false);
    assert forall|i: int| 0 <= i < a@.len() implies b.has(#[trigger] a@[i]) by {
        assert(old(b).has(a@[i]));
    }
    assert forall|i: int| 0 <= i < x@.len() implies b.has(#[trigger] x@[i]) by {
        assert(old(b).has(x@[i]));
    }
    let (w, carry) = adder(b, a, x, zero);
    proof {
        assert forall|nodes: Seq<Node>, env: Env| keeps(b.net().nodes, nodes) implies num(
            #[trigger] word_on(nodes, env, w@),
        ) == (num(word_on(nodes, env, a@).take(w@.len() as int)) + num(
            word_on(nodes, env, x@).take(w@.len() as int),
        )) % pow2(w@.len()) by {
            let (va, vx, vs) = (word_on(nodes, env, a@), word_on(nodes, env, x@), word_on(nodes, env, w@));
            assert(sums(va, vx, on(nodes, env, zero), vs, on(nodes, env, carry)));
            assert(!on(nodes, env, zero));
            lemma_num_bound(vs);
            let total = num(va.take(w@.len() as int)) + num(vx.take(w@.len() as int));
            let m = pow2(w@.len());
            if on(nodes, env, carry) {
                vstd::arithmetic::div_mod::lemma_fundamental_div_mod_converse(
                    total as int,
                    m as int,
                    1,
                    num(vs) as int,
                );
            } else {
                vstd::arithmetic::div_mod::lemma_small_mod(total, m);
            }
        }
    }
    w
}

/// OR of all bits, as a balanced tree.
pub fn reduce_or(b: &mut CircuitBuilder, bits: &[Signal]) -> (s: Signal)
    requires
        tidy(old(b)),
        has_all(old(b), bits@),
        bits@.len() > 0,
        old(b).room(bits@.len() - 1),
    ensures
        tidy(final(b)),
        built(old(b), final(b), bits@.len() - 1),
        final(b).has(s),
        forall|nodes: Seq<Node>, env: Env|
            keeps(final(b).net().nodes, nodes) ==> #[trigger] on(nodes, env, s) == any(
                word_on(nodes, env, bits@),
            ),
{
    let mut layer: Vec<Signal> = same_wires(bits);
    while layer.len() > 1
        invariant
            tidy(b),
            old(b).room(bits@.len() - 1),
            layer@.len() >= 1,
            layer@.len() <= bits@.len(),
            built(old(b), b, bits@.len() - layer@.len()),
            has_all(b, layer@),
            forall|nodes: Seq<Node>, env: Env|
                keeps(b.net().nodes, nodes) ==> any(#[trigger] word_on(nodes, env, layer@)) == any(
                    word_on(nodes, env, bits@),
                ),
        decreases layer@.len(),
    {
        let ghost b0 = *b;
        let mut next: Vec<Signal> = Vec::new();
        let mut i: usize = 0;
        while i < layer.len()
            invariant
                tidy(b),
                layer@.len() <= bits@.len() <= usize::MAX,
                old(b).room(bits@.len() - 1),
                built(old(b), &b0, bits@.len() - layer@.len()),
                layer@.len() > 1,
                i <= layer@.len(),
                i % 2 == 0 || i == layer@.len(),
                next@.len() == (i + 1) / 2,
                built(&b0, b, i as int / 2),
                has_all(&b0, layer@),
                has_all(b, next@),
                forall|nodes: Seq<Node>, env: Env|
                    keeps(b.net().nodes, nodes) ==> any(#[trigger] word_on(nodes, env, next@)) == any(
                        word_on(nodes, env, layer@).take(i as int),
                    ),
            decreases layer@.len() - i,
        {
            let ghost next0 = next@;
            assert(b0.has(layer@[i as int]));
            if layer.len() - i >= 2 {
                assert(b0.has(layer@[i + 1]));
                let g = b.or(layer[i], layer[i + 1]);
                next.push(g);
                proof {
                    assert forall|nodes: Seq<Node>, env: Env| keeps(b.net().nodes, nodes) implies any(
                        #[trigger] word_on(nodes, env, next@),
                    ) == any(word_on(nodes, env, layer@).take(i + 2)) by {
                        let vl = word_on(nodes, env, layer@);
                        assert(word_on(nodes, env, next@) =~= word_on(nodes, env, next0).push(
                            on(nodes, env, g),
                        ));
                        assert(vl.take(i + 2) =~= vl.take(i as int).push(vl[i as int]).push(vl[i + 1]));
                        lemma_any_push(word_on(nodes, env, next0), on(nodes, env, g));
                        lemma_any_push(vl.take(i as int), vl[i as int]);
                        lemma_any_push(vl.take(i as int).push(vl[i as int]), vl[i + 1]);
                    }
                }
                i = i + 2;
            } else {
                next.push(layer[i]);
                proof {
                    assert forall|nodes: Seq<Node>, env: Env| keeps(b.net().nodes, nodes) implies any(
                        #[trigger] word_on(nodes, env, next@),
                    ) == any(word_on(nodes, env, layer@).take(i + 1)) by {
                        let vl = word_on(nodes, env, layer@);
                        assert(word_on(nodes, env, next@) =~= word_on(nodes, env, next0).push(vl[i as int]));
                        assert(vl.take(i + 1) =~= vl.take(i as int).push(vl[i as int]));
                        lemma_any_push(word_on(nodes, env, next0), vl[i as int]);
                        lemma_any_push(vl.take(i as int), vl[i as int]);
                    }
                }
                i = i + 1;
            }
        }
        proof {
            assert forall|nodes: Seq<Node>, env: Env| keeps(b.net().nodes, nodes) implies any(
                #[trigger] word_on(nodes, env, next@),
            ) == any(word_on(nodes, env, bits@)) by {
                let vl = word_on(nodes, env, layer@);
                assert(vl.take(layer@.len() as int) =~= vl);
                assert(any(vl) == any(word_on(nodes, env, bits@)));
            }
        }
        layer = next;
    }
    proof {
        assert(b.has(layer@[0]));
        assert forall|nodes: Seq<Node>, env: Env| keeps(b.net().nodes, nodes) implies #[trigger] on(
            nodes,
            env,
            layer@[0],
        ) == any(word_on(nodes, env, bits@)) by {
            let vl = word_on(nodes, env, layer@);
            assert(any(vl) == any(word_on(nodes, env, bits@)));
            assert(vl[0] == on(nodes, env, layer@[0]));
        }
    }
    layer[0]
}

/// Some bit is set.
pub open spec fn any(bits: Seq<bool>) -> bool {
    exists|i: int| 0 <= i < bits.len() && #[trigger] bits[i]
}

proof fn lemma_any_push(bits: Seq<bool>, v: bool)
    ensures
        any(bits.push(v)) == (any(bits) || v),
{
    let more = bits.push(v);
    if any(bits) {
        let i = choose|i: int| 0 <= i < bits.len() && #[trigger] bits[i];
        assert(more[i]);
    }
    if v {
        assert(more[bits.len() as int]);
    }
    if any(more) && !v {
        let i = choose|i: int| 0 <= i < more.len() && #[trigger] more[i];
        assert(bits[i]);
    }
}

/// True iff the two words are bit-for-bit equal, over the length of the
/// shorter.
pub fn equal(b: &mut CircuitBuilder, a: &[Signal], x: &[Signal]) -> (s: Signal)
    requires
        tidy(old(b)),
        has_all(old(b), a@),
        has_all(old(b), x@),
        shorter(a@, x@) > 0,
        old(b).room(2 * shorter(a@, x@)),
    ensures
        tidy(final(b)),
        built(old(b), final(b), 2 * shorter(a@, x@)),
        final(b).has(s),
        forall|nodes: Seq<Node>, env: Env|
            keeps(final(b).net().nodes, nodes) ==> #[trigger] on(nodes, env, s) == (forall|i: int|
                0 <= i < shorter(a@, x@) ==> on(nodes, env, #[trigger] a@[i]) == on(nodes, env, x@[i])),
{
    let diff = word_xor(b, a, x);
    let any_bit = reduce_or(b, diff.as_slice());
    let s = b.not(any_bit);
    proof {
        assert forall|nodes: Seq<Node>, env: Env| keeps(b.net().nodes, nodes) implies #[trigger] on(
            nodes,
            env,
            s,
        ) == (forall|i: int|
            0 <= i < shorter(a@, x@) ==> on(nodes, env, #[trigger] a@[i]) == on(nodes, env, x@[i])) by {
            let vd = word_on(nodes, env, diff@);
            assert(on(nodes, env, any_bit) == any(vd));
            if any(vd) {
                let i = choose|i: int| 0 <= i < vd.len() && #[trigger] vd[i];
                assert(on(nodes, env, diff@[i]));
                assert(on(nodes, env, a@[i]) != on(nodes, env, x@[i]));
            } else {
                assert forall|i: int| 0 <= i < shorter(a@, x@) implies on(nodes, env, #[trigger] a@[i]) == on(
                    nodes,
                    env,
                    x@[i],
                ) by {
                    assert(!vd[i]);
                    assert(on(nodes, env, diff@[i]) == (on(nodes, env, a@[i]) != on(nodes, env, x@[i])));
                }
            }
        }
    }
    s
}

/// A wire shifted left by `amount` places, zero fill.
pub open spec fn shl_bit(a: Seq<bool>, amount: int, i: int) -> bool {
    i >= amount && a[i - amount]
}

/// A wire shifted right by `amount` places, vacated places taking `fill`.
pub open spec fn shr_bit(a: Seq<bool>, amount: int, fill: bool, i: int) -> bool {
    if i + amount < a.len() {
        a[i + amount]
    } else {
        fill
    }
}

/// Powers of two up to the 32nd fit a machine word.
proof fn lemma_stage(stage: nat)
    requires
        stage < 32,
    ensures
        1 <= pow2(stage) <= 0x8000_0000,
        stage + 1 < 32 ==> pow2(stage + 1) == 2 * pow2(stage),
{
    vstd::arithmetic::power2::lemma2_to64();
    vstd::arithmetic::power2::lemma_pow2_pos(stage);
    vstd::arithmetic::power2::lemma_pow2_unfold(stage + 1);
    if stage < 31 {
        vstd::arithmetic::power2::lemma_pow2_strictly_increases(stage, 31);
    }
}

/// Logical left barrel shifter, zero fill; `amount` is LSB first.
pub fn shift_left(b: &mut CircuitBuilder, a: &[Signal], amount: &[Signal]) -> (w: Word)
    requires
        tidy(old(b)),
        has_all(old(b), a@),
        has_all(old(b), amount@),
        amount@.len() <= 32,
        old(b).room(1 + (a@.len() * amount@.len()) as int),
    ensures
        tidy(final(b)),
        built(old(b), final(b), 1 + (a@.len() * amount@.len()) as int),
        has_all(final(b), w@),
        w@.len() == a@.len(),
        forall|nodes: Seq<Node>, env: Env, i: int|
            keeps(final(b).net().nodes, nodes) && 0 <= i < w@.len() ==> #[trigger] on(nodes, env, w@[i])
                == shl_bit(
                word_on(nodes, env, a@),
                num(word_on(nodes, env, amount@)) as int,
                i,
            ),
{
    proof {
        assert(a@.len() * amount@.len() >= 0) by (nonlinear_arith);
        vstd::arithmetic::power2::lemma2_to64();
    }
    let zero = const_bit(b, false);
    let ghost b1 = *b;
    let mut cur: Word = same_wires(a);
    let mut by: usize = 1;
    proof {
        assert forall|nodes: Seq<Node>, env: Env, i: int|
            keeps(b.net().nodes, nodes) && 0 <= i < cur@.len() implies #[trigger] on(nodes, env, cur@[i])
            == shl_bit(
            word_on(nodes, env, a@),
            num(word_on(nodes, env, amount@).take(0)) as int,
            i,
        ) by {
            assert(word_on(nodes, env, a@)[i] == on(nodes, env, a@[i]));
        }
        assert forall|i: int| 0 <= i < cur@.len() implies b.has(#[trigger] cur@[i]) by {
            assert(old(b).has(a@[i]));
        }
        assert(a@.len() * 0 == 0);
    }
    for stage in 0..amount.len()
        invariant
            tidy(b),
            has_all(old(b), a@),
            has_all(old(b), amount@),
            amount@.len() <= 32,
            old(b).room(1 + (a@.len() * amount@.len()) as int),
            built(old(b), b, 1 + (a@.len() * stage) as int),
            b.has(zero),
            keeps(b1.net().nodes, b.net().nodes),
            forall|nodes: Seq<Node>, env: Env|
                keeps(b1.net().nodes, nodes) ==> #[trigger] on(nodes, env, zero) == false,
            has_all(b, cur@),
            cur@.len() == a@.len(),
            stage < amount@.len() ==> by == pow2(stage as nat),
            forall|nodes: Seq<Node>, env: Env, i: int|
                keeps(b.net().nodes, nodes) && 0 <= i < cur@.len() ==> #[trigger] on(nodes, env, cur@[i])
                    == shl_bit(
                    word_on(nodes, env, a@),
                    num(word_on(nodes, env, amount@).take(stage as int)) as int,
                    i,
                ),
    {
        proof {
            lemma_stage(stage as nat);
            assert(a@.len() * (stage + 1) == a@.len() * stage + a@.len()) by (nonlinear_arith);
            assert(a@.len() * (stage + 1) <= a@.len() * amount@.len()) by (nonlinear_arith)
                requires
                    stage + 1 <= amount@.len(),
            ;
        }
        let ghost b0 = *b;
        let ghost cur0 = cur@;
        let s: Signal = amount[stage];
        assert(old(b).has(amount@[stage as int]));
        let mut shifted: Word = Vec::with_capacity(cur.len());
        for i in 0..cur.len()
            invariant
                has_all(b, cur@),
                b.has(zero),
                shifted@.len() == i,
                has_all(b, shifted@),
                forall|j: int|
                    0 <= j < i ==> #[trigger] shifted@[j] == if j >= by {
                        cur@[j - by]
                    } else {
                        zero
                    },
        {
            if i >= by {
                assert(b.has(cur@[i - by]));
                shifted.push(cur[i - by]);
            } else {
                shifted.push(zero);
            }
        }
        cur = mux_word(b, s, shifted.as_slice(), cur.as_slice());
        proof {
            assert forall|nodes: Seq<Node>, env: Env, i: int|
                keeps(b.net().nodes, nodes) && 0 <= i < cur@.len() implies #[trigger] on(nodes, env, cur@[i])
                == shl_bit(
                word_on(nodes, env, a@),
                num(word_on(nodes, env, amount@).take(stage + 1)) as int,
                i,
            ) by {
                let va = word_on(nodes, env, a@);
                let vm = word_on(nodes, env, amount@);
                lemma_num_take(vm, stage as int);
                assert(vm[stage as int] == on(nodes, env, s));
                let amt = num(vm.take(stage as int)) as int;
                assert(keeps(b0.net().nodes, nodes));
                assert(on(nodes, env, cur0[i]) == shl_bit(va, amt, i));
                if i >= by {
                    assert(shifted@[i] == cur0[i - by]);
                    assert(on(nodes, env, cur0[i - by]) == shl_bit(va, amt, i - by));
                } else {
                    assert(shifted@[i] == zero);
                }
            }
        }
        if stage + 1 < amount.len() {
            proof {
                lemma_stage((stage + 1) as nat);
            }
            by = by * 2;
        }
    }
    proof {
        assert forall|nodes: Seq<Node>, env: Env, i: int|
            keeps(b.net().nodes, nodes) && 0 <= i < cur@.len() implies #[trigger] on(nodes, env, cur@[i])
            == shl_bit(word_on(nodes, env, a@), num(word_on(nodes, env, amount@)) as int, i) by {
            let vm = word_on(nodes, env, amount@);
            assert(vm.take(amount@.len() as int) =~= vm);
        }
    }
    cur
}

/// Right barrel shifter; vacated bits take `fill` (zero for SRL, the sign
/// bit for SRA).
pub fn shift_right(b: &mut CircuitBuilder, a: &[Signal], amount: &[Signal], fill: Signal) -> (w: Word)
    requires
        tidy(old(b)),
        has_all(old(b), a@),
        has_all(old(b), amount@),
        old(b).has(fill),
        amount@.len() <= 32,
        a@.len() <= 0x4000_0000,
        old(b).room((a@.len() * amount@.len()) as int),
    ensures
        tidy(final(b)),
        built(old(b), final(b), (a@.len() * amount@.len()) as int),
        has_all(final(b), w@),
        w@.len() == a@.len(),
        forall|nodes: Seq<Node>, env: Env, i: int|
            keeps(final(b).net().nodes, nodes) && 0 <= i < w@.len() ==> #[trigger] on(nodes, env, w@[i])
                == shr_bit(
                word_on(nodes, env, a@),
                num(word_on(nodes, env, amount@)) as int,
                on(nodes, env, fill),
                i,
            ),
{
    let mut cur: Word = same_wires(a);
    let mut by: usize = 1;
    proof {
        assert(a@.len() * amount@.len() >= 0) by (nonlinear_arith);
        vstd::arithmetic::power2::lemma2_to64();
        assert forall|nodes: Seq<Node>, env: Env, i: int|
            keeps(b.net().nodes, nodes) && 0 <= i < cur@.len() implies #[trigger] on(nodes, env, cur@[i])
            == shr_bit(
            word_on(nodes, env, a@),
            num(word_on(nodes, env, amount@).take(0)) as int,
            on(nodes, env, fill),
            i,
        ) by {
            assert(word_on(nodes, env, a@)[i] == on(nodes, env, a@[i]));
        }
        assert(a@.len() * 0 == 0);
    }
    for stage in 0..amount.len()
        invariant
            tidy(b),
            has_all(old(b), a@),
            has_all(old(b), amount@),
            old(b).has(fill),
            amount@.len() <= 32,
            a@.len() <= 0x4000_0000,
            old(b).room((a@.len() * amount@.len()) as int),
            built(old(b), b, (a@.len() * stage) as int),
            has_all(b, cur@),
            cur@.len() == a@.len(),
            stage < amount@.len() ==> by == pow2(stage as nat),
            forall|nodes: Seq<Node>, env: Env, i: int|
                keeps(b.net().nodes, nodes) && 0 <= i < cur@.len() ==> #[trigger] on(nodes, env, cur@[i])
                    == shr_bit(
                    word_on(nodes, env, a@),
                    num(word_on(nodes, env, amount@).take(stage as int)) as int,
                    on(nodes, env, fill),
                    i,
                ),
    {
        proof {
            lemma_stage(stage as nat);
            assert(a@.len() * (stage + 1) == a@.len() * stage + a@.len()) by (nonlinear_arith);
            assert(a@.len() * (stage + 1) <= a@.len() * amount@.len()) by (nonlinear_arith)
                requires
                    stage + 1 <= amount@.len(),
            ;
        }
        let ghost b0 = *b;
        let ghost cur0 = cur@;
        let s: Signal = amount[stage];
        assert(old(b).has(amount@[stage as int]));
        let n: usize = cur.len();
        let mut shifted: Word = Vec::with_capacity(n);
        for i in 0..n
            invariant
                n == cur@.len(),
                n <= 0x4000_0000,
                by <= 0x8000_0000,
                has_all(b, cur@),
                b.has(fill),
                shifted@.len() == i,
                has_all(b, shifted@),
                forall|j: int|
                    0 <= j < i ==> #[trigger] shifted@[j] == if j + by < n {
                        cur@[j + by]
                    } else {
                        fill
                    },
        {
            if i + by < n {
                assert(b.has(cur@[i + by]));
                shifted.push(cur[i + by]);
            } else {
                shifted.push(fill);
            }
        }
        cur = mux_word(b, s, shifted.as_slice(), cur.as_slice());
        proof {
            assert forall|nodes: Seq<Node>, env: Env, i: int|
                keeps(b.net().nodes, nodes) && 0 <= i < cur@.len() implies #[trigger] on(nodes, env, cur@[i])
                == shr_bit(
                word_on(nodes, env, a@),
                num(word_on(nodes, env, amount@).take(stage + 1)) as int,
                on(nodes, env, fill),
                i,
            ) by {
                let va = word_on(nodes, env, a@);
                let vm = word_on(nodes, env, amount@);
                let vf = on(nodes, env, fill);
                lemma_num_take(vm, stage as int);
                assert(vm[stage as int] == on(nodes, env, s));
                let amt = num(vm.take(stage as int)) as int;
                assert(keeps(b0.net().nodes, nodes));
                assert(on(nodes, env, cur0[i]) == shr_bit(va, amt, vf, i));
                if i + by < n {
                    assert(shifted@[i] == cur0[i + by]);
                    assert(on(nodes, env, cur0[i + by]) == shr_bit(va, amt, vf, i + by));
                } else {
                    assert(shifted@[i] == fill);
                }
            }
        }
        if stage + 1 < amount.len() {
            proof {
                lemma_stage((stage + 1) as nat);
            }
            by = by * 2;
        }
    }
    proof {
        assert forall|nodes: Seq<Node>, env: Env, i: int|
            keeps(b.net().nodes, nodes) && 0 <= i < cur@.len() implies #[trigger] on(nodes, env, cur@[i])
            == shr_bit(
            word_on(nodes, env, a@),
            num(word_on(nodes, env, amount@)) as int,
            on(nodes, env, fill),
            i,
        ) by {
            let vm = word_on(nodes, env, amount@);
            assert(vm.take(amount@.len() as int) =~= vm);
        }
    }
    cur
}

/// Sums are binary: the sum's bits and its carry, worth the next power of two,
/// make the two numbers and the carry in.
pub proof fn sums_add_up(a: Seq<bool>, x: Seq<bool>, carry_in: bool, sum: Seq<bool>, carry: bool)
    requires
        a.len() == sum.len(),
        x.len() == sum.len(),
    ensures
        sums(a, x, carry_in, sum, carry) <==> num(a) + num(x) + (if carry_in {
            1int
        } else {
            0
        }) == num(sum) + (if carry {
            pow2(sum.len()) as int
        } else {
            0
        }),
{
    assert(a.take(sum.len() as int) =~= a);
    assert(x.take(sum.len() as int) =~= x);
}

/// Shifts move bits up or down and fill what they vacate.
pub proof fn shifts_move_bits(a: Seq<bool>, amount: int, fill: bool, i: int)
    requires
        0 <= i < a.len(),
        0 <= amount,
    ensures
        i < amount ==> !shl_bit(a, amount, i),
        i >= amount ==> shl_bit(a, amount, i) == a[i - amount],
        i + amount >= a.len() ==> shr_bit(a, amount, fill, i) == fill,
        i + amount < a.len() ==> shr_bit(a, amount, fill, i) == a[i + amount],
{
}

/// A word has a bit set exactly if it is not zero, and bits of machine words count
/// from the lowest.
pub proof fn bits_of_words(bits: Seq<bool>, w: u32, i: u32, a: Seq<Signal>, x: Seq<Signal>)
    requires
        i < 32,
    ensures
        !any(bits) <==> forall|k: int| 0 <= k < bits.len() ==> !#[trigger] bits[k],
        bit_of(w, i as int) <==> (w >> i) & 1 == 1,
        shorter(a, x) <= a.len(),
        shorter(a, x) <= x.len(),
        shorter(a, x) == a.len() || shorter(a, x) == x.len(),
{
}

} // verus!
