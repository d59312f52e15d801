//! Why one native add settles a whole carry chain.
use vstd::arithmetic::power2::pow2;
use vstd::prelude::*;

use crate::gather::wbit;
use crate::rtl::sums;
use crate::wires::{lemma_num_bound, num};
use crate::words::lemma_num_parity;

verus! {

proof fn lemma_low_bit(x: u64)
    by (bit_vector)
    ensures
        x & 1 == x % 2,
{
}

/// Bit `k` is the parity of the word divided by `2^k`.
proof fn lemma_wbit_parity(x: u64, k: int)
    requires
        0 <= k < 64,
    ensures
        wbit(x, k) == ((x as nat / pow2(k as nat)) % 2 == 1),
{
    vstd::arithmetic::power2::lemma_pow2_pos(k as nat);
    lemma_pow2_fits(k as nat);
    vstd::bits::lemma_u64_shr_is_div(x, k as u64);
    lemma_low_bit(x >> (k as u64));
}

proof fn lemma_pow2_fits(k: nat)
    requires
        k < 64,
    ensures
        pow2(k) <= u64::MAX,
{
    vstd::arithmetic::power2::lemma2_to64();
    vstd::arithmetic::power2::lemma_pow2_strictly_increases(k, 64);
}

/// The bits of the number that `v` counts are `v`, then zeros.
pub proof fn lemma_bits_of_num(v: Seq<bool>, w: u64, k: int)
    requires
        v.len() <= 64,
        num(v) == w,
        0 <= k < 64,
    ensures
        wbit(w, k) == (k < v.len() && v[k]),
{
    lemma_wbit_parity(w, k);
    if k < v.len() {
        lemma_num_parity(v, k);
    } else {
        lemma_num_bound(v);
        if v.len() < k {
            vstd::arithmetic::power2::lemma_pow2_strictly_increases(v.len(), k as nat);
        }
        vstd::arithmetic::div_mod::lemma_basic_div(w as int, pow2(k as nat) as int);
    }
}

proof fn lemma_num_low64(v: Seq<bool>, x: u64)
    requires
        v.len() <= 64,
        forall|i: int| 0 <= i < v.len() ==> #[trigger] v[i] == wbit(x, i),
    ensures
        num(v) == x as nat % pow2(v.len()),
    decreases v.len(),
{
    vstd::arithmetic::power2::lemma2_to64();
    if v.len() > 0 {
        let k = (v.len() - 1) as nat;
        let low = v.drop_last();
        assert forall|i: int| 0 <= i < low.len() implies #[trigger] low[i] == wbit(x, i) by {
            assert(v[i] == wbit(x, i));
        }
        lemma_num_low64(low, x);
        lemma_wbit_parity(x, k as int);
        vstd::arithmetic::power2::lemma_pow2_pos(k);
        vstd::arithmetic::power2::lemma_pow2_unfold(v.len());
        vstd::arithmetic::div_mod::lemma_mod_breakdown(x as int, pow2(k) as int, 2);
        assert(v.last() == wbit(x, k as int));
        let q = (x as nat / pow2(k)) % 2;
        assert(pow2(v.len()) == pow2(k) * 2);
        assert(x as nat % pow2(v.len()) == pow2(k) * q + x as nat % pow2(k));
        assert(q == 0 ==> pow2(k) * q == 0) by (nonlinear_arith);
        assert(q == 1 ==> pow2(k) * q == pow2(k)) by (nonlinear_arith);
    } else {
        assert(x as nat % 1 == 0);
    }
}

/// Padding with zeros does not change what a word counts.
proof fn lemma_num_padded(v: Seq<bool>, u: Seq<bool>)
    requires
        v.len() <= u.len(),
        forall|i: int| 0 <= i < u.len() ==> #[trigger] u[i] == (i < v.len() && v[i]),
    ensures
        num(u) == num(v),
    decreases u.len(),
{
    if v.len() < u.len() {
        let less = u.drop_last();
        assert(!u.last()) by {
            assert(u[u.len() - 1] == false);
        }
        assert forall|i: int| 0 <= i < less.len() implies #[trigger] less[i] == (i < v.len() && v[i]) by {
            assert(u[i] == less[i]);
        }
        lemma_num_padded(v, less);
    } else {
        assert(u =~= v);
    }
}

/// A word whose bits are `v`, then zeros, is the number that `v` counts.
pub proof fn lemma_num_of_bits(v: Seq<bool>, w: u64)
    requires
        v.len() <= 64,
        forall|k: int| 0 <= k < 64 ==> #[trigger] wbit(w, k) == (k < v.len() && v[k]),
    ensures
        num(v) == w,
{
    let u = Seq::new(64, |k: int| wbit(w, k));
    lemma_num_low64(u, w);
    lemma_num_padded(v, u);
    vstd::arithmetic::power2::lemma2_to64();
    vstd::arithmetic::div_mod::lemma_small_mod(w as nat, pow2(64));
}

/// Addition modulo 2^64.
pub open spec fn wadd64(a: u64, b: u64) -> u64 {
    if a + b > u64::MAX {
        (a + b - 0x1_0000_0000_0000_0000) as u64
    } else {
        (a + b) as u64
    }
}

/// One native add of two gathered operand words and a carry-in bit leaves
/// the chain's sums in the low bits and its carry-out just above them.
pub proof fn lemma_add_settles_chain(
    p: Seq<bool>,
    q: Seq<bool>,
    cin: bool,
    sum: Seq<bool>,
    carry: bool,
    a: u64,
    b: u64,
    c: u64,
)
    requires
        p.len() == q.len(),
        sum.len() == p.len(),
        p.len() <= 63,
        sums(p, q, cin, sum, carry),
        forall|k: int| 0 <= k < 64 ==> #[trigger] wbit(a, k) == (k < p.len() && p[k]),
        forall|k: int| 0 <= k < 64 ==> #[trigger] wbit(b, k) == (k < q.len() && q[k]),
        forall|k: int| 0 <= k < 64 ==> #[trigger] wbit(c, k) == (k == 0 && cin),
    ensures
        forall|k: int|
            0 <= k < sum.len() ==> wbit(wadd64(wadd64(a, b), c), k) == #[trigger] sum[k],
        wbit(wadd64(wadd64(a, b), c), sum.len() as int) == carry,
{
    vstd::arithmetic::power2::lemma2_to64();
    let n = p.len();
    assert(p.take(n as int) =~= p);
    assert(q.take(n as int) =~= q);
    lemma_num_of_bits(p, a);
    lemma_num_of_bits(q, b);
    let one = seq![cin];
    assert forall|k: int| 0 <= k < 64 implies #[trigger] wbit(c, k) == (k < one.len() && one[k]) by {}
    lemma_num_of_bits(one, c);
    assert(num(one) == if cin {
        1nat
    } else {
        0
    }) by {
        assert(one.drop_last() =~= Seq::<bool>::empty());
        reveal_with_fuel(num, 2);
    }
    lemma_num_bound(p);
    lemma_num_bound(q);
    lemma_num_bound(sum);
    if n < 63 {
        vstd::arithmetic::power2::lemma_pow2_strictly_increases(n, 63);
    }
    vstd::arithmetic::power2::lemma_pow2_unfold(64);
    let full = sum.push(carry);
    assert(full.drop_last() =~= sum);
    let w = wadd64(wadd64(a, b), c);
    assert(num(full) == w);
    assert forall|k: int| 0 <= k < sum.len() implies wbit(w, k) == #[trigger] sum[k] by {
        lemma_bits_of_num(full, w, k);
        assert(full[k] == sum[k]);
    }
    lemma_bits_of_num(full, w, n as int);
}

} // verus!
