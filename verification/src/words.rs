//! 32-bit words and their bits.
use vstd::arithmetic::power2::pow2;
use vstd::prelude::*;

use crate::isa::{
    bit_of, byte_shift, imm_b, imm_i, imm_j, imm_s, imm_u, load_value, opcode_of, rd_of, rs1_of,
    rs2_of, f3_of, shift_right_arith, signed, store_mask, store_merge, wadd, word_index, wsub,
};
use crate::wires::{lemma_num_bound, num};

verus! {

/// The bits `v` are the low bits of `x`.
pub open spec fn spells(v: Seq<bool>, x: u32) -> bool {
    forall|i: int| 0 <= i < v.len() ==> #[trigger] v[i] == bit_of(x, i)
}

proof fn lemma_low_bit(x: u32)
    by (bit_vector)
    ensures
        x & 1 == x % 2,
{
}

/// Bit `k` is the parity of the word divided by `2^k`.
pub proof fn lemma_bit_is_parity(x: u32, k: int)
    requires
        0 <= k < 32,
    ensures
        bit_of(x, k) == ((x as nat / pow2(k as nat)) % 2 == 1),
{
    vstd::arithmetic::power2::lemma2_to64();
    vstd::arithmetic::power2::lemma_pow2_pos(k as nat);
    vstd::bits::lemma_u32_shr_is_div(x, k as u32);
    lemma_low_bit(x >> (k as u32));
}

/// The low bits of a word, as a number.
pub proof fn lemma_num_low(v: Seq<bool>, x: u32)
    requires
        v.len() <= 32,
        spells(v, x),
    ensures
        num(v) == x as nat % pow2(v.len()),
    decreases v.len(),
{
    vstd::arithmetic::power2::lemma2_to64();
    if v.len() > 0 {
        let k = (v.len() - 1) as nat;
        let low = v.drop_last();
        assert forall|i: int| 0 <= i < low.len() implies #[trigger] low[i] == bit_of(x, i) by {
            assert(v[i] == bit_of(x, i));
        }
        lemma_num_low(low, x);
        lemma_bit_is_parity(x, k as int);
        vstd::arithmetic::power2::lemma_pow2_pos(k);
        vstd::arithmetic::power2::lemma_pow2_unfold(v.len());
        vstd::arithmetic::div_mod::lemma_mod_breakdown(x as int, pow2(k) as int, 2);
        assert(v.last() == bit_of(x, k as int));
        let q = (x as nat / pow2(k)) % 2;
        assert(pow2(v.len()) == pow2(k) * 2);
        assert(x as nat % pow2(v.len()) == pow2(k) * q + x as nat % pow2(k));
        assert(q == 0 ==> pow2(k) * q == 0) by (nonlinear_arith);
        assert(q == 1 ==> pow2(k) * q == pow2(k)) by (nonlinear_arith);
    } else {
        assert(x as nat % 1 == 0);
    }
}

/// A full word spells the number it counts.
pub proof fn lemma_word_num(v: Seq<bool>, x: u32)
    requires
        v.len() == 32,
        spells(v, x),
    ensures
        num(v) == x,
{
    vstd::arithmetic::power2::lemma2_to64();
    lemma_num_low(v, x);
    vstd::arithmetic::div_mod::lemma_small_mod(x as nat, pow2(32));
}

pub proof fn lemma_num_parity(v: Seq<bool>, k: int)
    requires
        0 <= k < v.len(),
    ensures
        ((num(v) / pow2(k as nat)) % 2 == 1) == v[k],
    decreases v.len(),
{
    let n = (v.len() - 1) as nat;
    let low = v.drop_last();
    let p = pow2(k as nat) as int;
    vstd::arithmetic::power2::lemma_pow2_pos(k as nat);
    lemma_num_bound(low);
    if k < n {
        lemma_num_parity(low, k);
        assert(low[k] == v[k]);
        if v.last() {
            let m = pow2((n - k) as nat) as int;
            vstd::arithmetic::power2::lemma_pow2_adds(k as nat, (n - k) as nat);
            vstd::arithmetic::power2::lemma_pow2_unfold((n - k) as nat);
            let h = pow2((n - k - 1) as nat) as int;
            assert(m == 2 * h);
            vstd::arithmetic::div_mod::lemma_hoist_over_denominator(num(low) as int, m, p as nat);
            assert(num(v) == num(low) + m * p) by (nonlinear_arith)
                requires
                    num(v) == num(low) + pow2(n),
                    pow2(n) == p * m,
            ;
            assert(num(v) as int / p == num(low) as int / p + m);
            assert((num(low) as int / p + 2 * h) % 2 == (num(low) as int / p) % 2) by {
                vstd::arithmetic::div_mod::lemma_mod_multiples_vanish(h, num(low) as int / p, 2);
            }
        }
    } else {
        if v.last() {
            vstd::arithmetic::div_mod::lemma_fundamental_div_mod_converse(
                num(v) as int,
                p,
                1,
                num(low) as int,
            );
        } else {
            vstd::arithmetic::div_mod::lemma_basic_div(num(v) as int, p);
        }
    }
}

/// The bits of the number a full word counts are the word.
pub proof fn lemma_num_spells(v: Seq<bool>)
    requires
        v.len() == 32,
    ensures
        num(v) <= u32::MAX,
        spells(v, num(v) as u32),
{
    vstd::arithmetic::power2::lemma2_to64();
    lemma_num_bound(v);
    let x = num(v) as u32;
    assert forall|i: int| 0 <= i < v.len() implies #[trigger] v[i] == bit_of(x, i) by {
        lemma_num_parity(v, i);
        lemma_bit_is_parity(x, i);
    }
}

/// Words with the same bits are the same.
pub proof fn lemma_same_bits(x: u32, y: u32)
    requires
        forall|i: int| 0 <= i < 32 ==> #[trigger] bit_of(x, i) == bit_of(y, i),
    ensures
        x == y,
{
    let v = Seq::new(32, |i: int| bit_of(x, i));
    lemma_word_num(v, x);
    lemma_word_num(v, y);
}

proof fn lemma_logic_bits(a: u32, b: u32, i: u32)
    by (bit_vector)
    requires
        i < 32,
    ensures
        ((a ^ b) >> i) & 1 == 1 <==> ((a >> i) & 1 == 1) != ((b >> i) & 1 == 1),
        ((a | b) >> i) & 1 == 1 <==> (a >> i) & 1 == 1 || (b >> i) & 1 == 1,
        ((a & b) >> i) & 1 == 1 <==> (a >> i) & 1 == 1 && (b >> i) & 1 == 1,
        ((!a) >> i) & 1 == 1 <==> !((a >> i) & 1 == 1),
        (0u32 >> i) & 1 == 0,
        (1u32 >> i) & 1 == 1 <==> i == 0,
        (0xffff_ffffu32 >> i) & 1 == 1,
        ((a & !1u32) >> i) & 1 == 1 <==> i != 0 && (a >> i) & 1 == 1,
{
}

/// Bitwise operations, bit by bit.
pub proof fn lemma_bits_of_logic(a: u32, b: u32, i: int)
    requires
        0 <= i < 32,
    ensures
        bit_of(a ^ b, i) == (bit_of(a, i) != bit_of(b, i)),
        bit_of(a | b, i) == (bit_of(a, i) || bit_of(b, i)),
        bit_of(a & b, i) == (bit_of(a, i) && bit_of(b, i)),
        bit_of(!a, i) == !bit_of(a, i),
        !bit_of(0, i),
        bit_of(1, i) == (i == 0),
        bit_of(a & !1u32, i) == (i != 0 && bit_of(a, i)),
{
    lemma_logic_bits(a, b, i as u32);
}

proof fn lemma_shift_words(a: u32, k: u32, i: u32)
    by (bit_vector)
    requires
        i < 32,
        k < 32,
    ensures
        ((a << k) >> i) & 1 == 1 <==> i >= k && (a >> ((i - k) as u32)) & 1 == 1,
        ((a >> k) >> i) & 1 == 1 <==> i + k < 32 && (a >> ((i + k) as u32)) & 1 == 1,
        (((a >> k) | !(0xffff_ffffu32 >> k)) >> i) & 1 == 1 <==> i + k >= 32 || (a >> ((i + k) as u32)) & 1
            == 1,
        a & 0x8000_0000 != 0 <==> (a >> 31u32) & 1 == 1,
{
}

/// Shifts, bit by bit.
pub proof fn lemma_bits_of_shifts(a: u32, k: u32, i: int)
    requires
        0 <= i < 32,
        k < 32,
    ensures
        bit_of(a << k, i) == (i >= k && bit_of(a, i - k)),
        bit_of(a >> k, i) == (i + k < 32 && bit_of(a, i + k)),
        bit_of(shift_right_arith(a, k), i) == (if i + k < 32 {
            bit_of(a, i + k)
        } else {
            bit_of(a, 31)
        }),
{
    lemma_shift_words(a, k, i as u32);
}

proof fn lemma_top_bit(a: u32)
    by (bit_vector)
    ensures
        (a >> 31u32) & 1 == 1 <==> a >= 0x8000_0000,
        !a == 0xffff_ffff - a,
        a & 31 == a % 32,
        a & 3 == a % 4,
        (a & 3) << 3 == (a % 4) * 8,
        a & 31 < 32,
        (a & 3) << 3 < 32,
        a & 2 != 0 <==> (a >> 1u32) & 1 == 1,
{
}

/// The top bit is the sign, and negation is subtraction from all ones.
pub proof fn lemma_sign_and_not(a: u32)
    ensures
        bit_of(a, 31) == (a >= 0x8000_0000),
        !a == 0xffff_ffff - a,
        a & 31 == a % 32,
        a & 31 < 32,
        byte_shift(a) == (a % 4) * 8,
        byte_shift(a) < 32,
        a & 2 != 0 <==> bit_of(a, 1),
{
    lemma_top_bit(a);
}

proof fn lemma_imm_words(w: u32, i: u32)
    by (bit_vector)
    requires
        i < 32,
    ensures
        ((if w & 0x8000_0000 != 0 { (w >> 20) | 0xffff_f000 } else { w >> 20 }) >> i) & 1 == (if i < 11 {
            (w >> ((20 + i) as u32)) & 1
        } else {
            (w >> 31u32) & 1
        }),
        (((if w & 0x8000_0000 != 0 { 0xffff_f000u32 } else { 0 }) | (w >> 25 & 0x7f) << 5 | (w >> 7 & 0x1f))
            >> i) & 1 == (if i < 5 {
            (w >> ((7 + i) as u32)) & 1
        } else if i < 11 {
            (w >> ((20 + i) as u32)) & 1
        } else {
            (w >> 31u32) & 1
        }),
        (((if w & 0x8000_0000 != 0 { 0xffff_f000u32 } else { 0 }) | (w >> 7 & 1) << 11 | (w >> 25 & 0x3f) << 5
            | (w >> 8 & 0xf) << 1) >> i) & 1 == (if i == 0 {
            0
        } else if i < 5 {
            (w >> ((7 + i) as u32)) & 1
        } else if i < 11 {
            (w >> ((20 + i) as u32)) & 1
        } else if i == 11 {
            (w >> 7u32) & 1
        } else {
            (w >> 31u32) & 1
        }),
        ((w & 0xffff_f000) >> i) & 1 == (if i < 12 {
            0
        } else {
            (w >> i) & 1
        }),
        (((if w & 0x8000_0000 != 0 { 0xfff0_0000u32 } else { 0 }) | (w & 0x000f_f000) | (w >> 20 & 1) << 11 | (w
            >> 21 & 0x3ff) << 1) >> i) & 1 == (if i == 0 {
            0
        } else if i < 11 {
            (w >> ((20 + i) as u32)) & 1
        } else if i == 11 {
            (w >> 20u32) & 1
        } else if i < 20 {
            (w >> i) & 1
        } else {
            (w >> 31u32) & 1
        }),
{
}

/// The immediates, bit by bit: each is a wire of the instruction.
pub proof fn lemma_bits_of_imms(w: u32, i: int)
    requires
        0 <= i < 32,
    ensures
        bit_of(imm_i(w), i) == (if i < 11 {
            bit_of(w, 20 + i)
        } else {
            bit_of(w, 31)
        }),
        bit_of(imm_s(w), i) == (if i < 5 {
            bit_of(w, 7 + i)
        } else if i < 11 {
            bit_of(w, 20 + i)
        } else {
            bit_of(w, 31)
        }),
        bit_of(imm_b(w), i) == (if i == 0 {
            false
        } else if i < 5 {
            bit_of(w, 7 + i)
        } else if i < 11 {
            bit_of(w, 20 + i)
        } else if i == 11 {
            bit_of(w, 7)
        } else {
            bit_of(w, 31)
        }),
        bit_of(imm_u(w), i) == (i >= 12 && bit_of(w, i)),
        bit_of(imm_j(w), i) == (if i == 0 {
            false
        } else if i < 11 {
            bit_of(w, 20 + i)
        } else if i == 11 {
            bit_of(w, 20)
        } else if i < 20 {
            bit_of(w, i)
        } else {
            bit_of(w, 31)
        }),
{
    lemma_imm_words(w, i as u32);
}

proof fn lemma_field_words(w: u32)
    by (bit_vector)
    ensures
        w & 0x7f == w % 128,
        w >> 7 & 0x1f == (w >> 7u32) % 32,
        w >> 12 & 7 == (w >> 12u32) % 8,
        w >> 15 & 0x1f == (w >> 15u32) % 32,
        w >> 20 & 0x1f == (w >> 20u32) % 32,
{
}

/// Shifting right moves bit `lo + i` to place `i`.
pub proof fn lemma_field(v: Seq<bool>, x: u32, lo: int, hi: int)
    requires
        v.len() == 32,
        spells(v, x),
        0 <= lo < hi <= 32,
    ensures
        num(v.subrange(lo, hi)) == (x >> (lo as u32)) as nat % pow2((hi - lo) as nat),
{
    let f = v.subrange(lo, hi);
    let y = x >> (lo as u32);
    assert forall|i: int| 0 <= i < f.len() implies #[trigger] f[i] == bit_of(y, i) by {
        assert(v[lo + i] == bit_of(x, lo + i));
        lemma_bits_of_shifts(x, lo as u32, i);
    }
    lemma_num_low(f, y);
}

/// The instruction fields as numbers.
pub proof fn lemma_fields(v: Seq<bool>, w: u32)
    requires
        v.len() == 32,
        spells(v, w),
    ensures
        num(v.subrange(0, 7)) == opcode_of(w),
        num(v.subrange(7, 12)) == rd_of(w),
        num(v.subrange(12, 15)) == f3_of(w),
        num(v.subrange(15, 20)) == rs1_of(w),
        num(v.subrange(20, 25)) == rs2_of(w),
        opcode_of(w) < 128,
        rd_of(w) < 32,
        f3_of(w) < 8,
        rs1_of(w) < 32,
        rs2_of(w) < 32,
{
    vstd::arithmetic::power2::lemma2_to64();
    lemma_field_words(w);
    lemma_field(v, w, 0, 7);
    lemma_field(v, w, 7, 12);
    lemma_field(v, w, 12, 15);
    lemma_field(v, w, 15, 20);
    lemma_field(v, w, 20, 25);
    assert(w >> 0u32 == w) by (bit_vector);
}

/// Bits that agree with a small constant count it, and no others do.
pub proof fn lemma_match(v: Seq<bool>, value: u32)
    requires
        v.len() <= 32,
        value < pow2(v.len()),
    ensures
        spells(v, value) <==> num(v) == value,
{
    if spells(v, value) {
        lemma_num_low(v, value);
        vstd::arithmetic::div_mod::lemma_small_mod(value as nat, pow2(v.len()));
    }
    if num(v) == value {
        assert forall|i: int| 0 <= i < v.len() implies #[trigger] v[i] == bit_of(value, i) by {
            lemma_num_parity(v, i);
            lemma_bit_is_parity(value, i);
        }
    }
}

/// Bits 2 and up of an address select a word of a memory of `2^k` words.
pub proof fn lemma_word_select(v: Seq<bool>, addr: u32, k: nat)
    requires
        v.len() == 32,
        spells(v, addr),
        k <= 30,
    ensures
        num(v.subrange(2, 2 + k as int)) == word_index(addr, pow2(k)),
        0 <= word_index(addr, pow2(k)) < pow2(k),
{
    vstd::arithmetic::power2::lemma_pow2_pos(k);
    if k > 0 {
        lemma_field(v, addr, 2, 2 + k as int);
    } else {
        vstd::arithmetic::power2::lemma2_to64();
        assert(v.subrange(2, 2) =~= Seq::<bool>::empty());
    }
}

proof fn lemma_load_words(lane: u32, i: u32)
    by (bit_vector)
    requires
        i < 32,
    ensures
        ((if lane & 0x80 != 0 { (lane & 0xff) | 0xffff_ff00 } else { lane & 0xff }) >> i) & 1 == (if i < 8 {
            (lane >> i) & 1
        } else {
            (lane >> 7u32) & 1
        }),
        ((if lane & 0x8000 != 0 { (lane & 0xffff) | 0xffff_0000 } else { lane & 0xffff }) >> i) & 1 == (if i < 16 {
            (lane >> i) & 1
        } else {
            (lane >> 15u32) & 1
        }),
        ((lane & 0xff) >> i) & 1 == (if i < 8 { (lane >> i) & 1 } else { 0 }),
        ((lane & 0xffff) >> i) & 1 == (if i < 16 { (lane >> i) & 1 } else { 0 }),
{
}

/// Loaded values, bit by bit.
pub proof fn lemma_bits_of_load(f3: u32, lane: u32, i: int)
    requires
        0 <= i < 32,
    ensures
        bit_of(load_value(f3, lane), i) == (if f3 == 0 {
            bit_of(lane, if i < 8 { i } else { 7 })
        } else if f3 == 1 {
            bit_of(lane, if i < 16 { i } else { 15 })
        } else if f3 == 4 {
            i < 8 && bit_of(lane, i)
        } else if f3 == 5 {
            i < 16 && bit_of(lane, i)
        } else {
            bit_of(lane, i)
        }),
{
    lemma_load_words(lane, i as u32);
}

proof fn lemma_store_words(addr: u32, word: u32, data: u32, mask: u32, i: u32)
    by (bit_vector)
    requires
        i < 32,
    ensures
        ((0xffu32 << ((addr & 3) << 3)) >> i) & 1 == 1 <==> i / 8 == addr % 4,
        (0xffff_0000u32 >> i) & 1 == 1 <==> i >= 16,
        (0x0000_ffffu32 >> i) & 1 == 1 <==> i < 16,
        (0xffff_ffffu32 >> i) & 1 == 1,
        (0u32 >> i) & 1 == 0,
        (((word & !mask) | (data & mask)) >> i) & 1 == (if (mask >> i) & 1 == 1 {
            (data >> i) & 1
        } else {
            (word >> i) & 1
        }),
{
}

/// Stored words, bit by bit: enabled bytes come from the shifted data, the
/// others stay.
pub proof fn lemma_bits_of_store(f3: u32, addr: u32, word: u32, data: u32, i: int)
    requires
        0 <= i < 32,
    ensures
        bit_of(store_merge(f3, addr, word, data), i) == (if store_enabled(f3, addr, i / 8) {
            bit_of(data << byte_shift(addr), i)
        } else {
            bit_of(word, i)
        }),
{
    lemma_store_words(addr, word, data << byte_shift(addr), store_mask(f3, addr), i as u32);
    lemma_sign_and_not(addr);
}

/// Byte `j` of a word is replaced by a store.
pub open spec fn store_enabled(f3: u32, addr: u32, j: int) -> bool {
    f3 == 2 || (f3 == 1 && (j >= 2) == bit_of(addr, 1)) || (f3 == 0 && j == addr % 4)
}

/// A ripple-carry sum is addition modulo 2^32; with one operand inverted and
/// a carry in it is subtraction, and the carry out tells which is larger.
pub proof fn lemma_sum_words(sum: nat, carry: bool, a: u32, b: u32)
    requires
        sum <= u32::MAX,
    ensures
        sum + (if carry {
            0x1_0000_0000nat
        } else {
            0
        }) == a + b ==> sum == wadd(a, b),
        sum + (if carry {
            0x1_0000_0000nat
        } else {
            0
        }) == a + !b + 1 ==> sum == wsub(a, b) && carry == (a >= b),
{
    lemma_sign_and_not(b);
}

/// Signed comparison from the signs and the sign of the difference.
pub proof fn lemma_signed_less(a: u32, b: u32)
    ensures
        (signed(a) < signed(b)) == (if bit_of(a, 31) != bit_of(b, 31) {
            bit_of(a, 31)
        } else {
            bit_of(wsub(a, b), 31)
        }),
{
    lemma_sign_and_not(a);
    lemma_sign_and_not(b);
    lemma_sign_and_not(wsub(a, b));
}

/// The low two bits of an address.
pub proof fn lemma_low_two(v: Seq<bool>, addr: u32)
    requires
        v.len() == 32,
        spells(v, addr),
    ensures
        addr % 4 == (if v[0] {
            1u32
        } else {
            0
        }) + (if v[1] {
            2u32
        } else {
            0
        }),
{
    lemma_bit_is_parity(addr, 0);
    lemma_bit_is_parity(addr, 1);
    vstd::arithmetic::power2::lemma2_to64();
    assert(v[0] == bit_of(addr, 0));
    assert(v[1] == bit_of(addr, 1));
}

} // verus!
