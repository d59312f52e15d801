//! Why a found bank is a memory.
//!
//! The read port shows the word that the address bits select, and every cell
//! takes new data exactly when its own word is addressed and the store is
//! enabled.
use vstd::arithmetic::power2::pow2;
use vstd::prelude::*;

use crate::compile::{DEAD, Compiled, Op};
use crate::fuse::is_gate;
use crate::mem::{
    all_tree_muxes, bit_of, cell_at, decoder, feeds, forced, gated, is_bank, is_cell,
    lemma_array_cell, lemma_mux_below, live, live_at, one_hot, ready_level, tree, tree_muxes,
    write_enable, BankView,
};
use crate::netlist::{Env, Node};
use crate::scalar::lemma_gate_slot;
use crate::wires::{lemma_num_bound, lemma_num_take, num};

verus! {

/// What the address bits carry.
pub open spec fn address_bits(tape: Compiled, env: Env, addr: Seq<u32>) -> Seq<bool> {
    Seq::new(addr.len(), |j: int| tape.value(env, addr[j] as int))
}

/// The word the address selects.
pub open spec fn address(tape: Compiled, env: Env, m: BankView) -> int {
    num(address_bits(tape, env, m.addr_bits)) as int
}

/// A live register's output slot carries its state.
proof fn lemma_cell_value(tape: Compiled, env: Env, r: int)
    requires
        tape.wf(),
        0 <= r < tape.reg_out_slots@.len(),
        tape.reg_out_slots@[r] != DEAD,
    ensures
        tape.reg_out_slots@[r] < tape.gate_start,
        tape.value(env, tape.reg_out_slots@[r] as int) == (r < env.state.len() && env.state[r]),
{
    let s = tape.reg_out_slots@[r] as int;
    assert(tape.net().nodes[s] == tape.sources@[s]);
}

/// The root of a tree carries the cell that the address selects.
proof fn lemma_tree_value(
    tape: Compiled,
    env: Env,
    base: int,
    width: int,
    addr: Seq<u32>,
    i: int,
    lo: int,
    depth: nat,
)
    requires
        tape.wf(),
        depth <= addr.len(),
        live(tape, base, width, i, lo, lo + pow2(depth)),
        tree(tape, base, width, addr, i, lo, depth) is Some,
    ensures
        ({
            let s = tree(tape, base, width, addr, i, lo, depth)->0;
            let k = lo + num(address_bits(tape, env, addr).take(depth as int));
            let r = cell_at(base, width, k, i);
            &&& s < tape.n()
            &&& k < lo + pow2(depth)
            &&& tape.value(env, s as int) == (r < env.state.len() && env.state[r])
        }),
    decreases depth,
{
    let bits = address_bits(tape, env, addr);
    let s = tree(tape, base, width, addr, i, lo, depth)->0;
    lemma_num_bound(bits.take(depth as int));
    if depth == 0 {
        vstd::arithmetic::power2::lemma2_to64();
        assert(live_at(tape, cell_at(base, width, lo, i)));
        lemma_cell_value(tape, env, cell_at(base, width, lo, i));
        assert(bits.take(0) =~= Seq::empty());
    } else {
        let d = (depth - 1) as nat;
        vstd::arithmetic::power2::lemma_pow2_unfold(depth);
        assert(live(tape, base, width, i, lo, lo + pow2(d))) by {
            assert forall|k: int| lo <= k < lo + pow2(d) implies #[trigger] live_at(
                tape,
                cell_at(base, width, k, i),
            ) by {
                assert(lo <= k < lo + pow2(depth));
            }
        }
        assert(live(tape, base, width, i, lo + pow2(d), lo + pow2(d) + pow2(d))) by {
            assert forall|k: int| lo + pow2(d) <= k < lo + pow2(d) + pow2(d) implies #[trigger] live_at(
                tape,
                cell_at(base, width, k, i),
            ) by {
                assert(lo <= k < lo + pow2(depth));
            }
        }
        lemma_tree_value(tape, env, base, width, addr, i, lo, d);
        lemma_tree_value(tape, env, base, width, addr, i, lo + pow2(d), d);
        let low = tree(tape, base, width, addr, i, lo, d)->0;
        let high = tree(tape, base, width, addr, i, lo + pow2(d), d)->0;
        lemma_mux_below(tape, high, low, tape.n());
        lemma_gate_slot(tape, env, s as int);
        lemma_num_take(bits, d as int);
        assert(bits[d as int] == tape.value(env, tape.a@[s as int] as int));
    }
}

/// An address bit is found where it is.
proof fn lemma_bit_of(addr: Seq<u32>, s: u32, j: int)
    requires
        0 <= j <= addr.len(),
    ensures
        bit_of(addr, s, j) matches Some(k) ==> 0 <= k < j && addr[k] == s,
    decreases j,
{
    if j > 0 {
        lemma_bit_of(addr, s, j - 1);
    }
}

/// What the address determines, the slot carries.
proof fn lemma_forced(tape: Compiled, env: Env, addr: Seq<u32>, s: int)
    requires
        tape.wf(),
        0 <= s < tape.n(),
    ensures
        forced(tape, addr, address_bits(tape, env, addr), s) matches Some(v) ==> tape.value(env, s)
            == v,
    decreases s,
{
    let bits = address_bits(tape, env, addr);
    lemma_bit_of(addr, s as u32, addr.len() as int);
    if bit_of(addr, s as u32, addr.len() as int) is None {
        if s < tape.gate_start {
            assert(tape.net().nodes[s] == tape.sources@[s]);
        } else {
            lemma_gate_slot(tape, env, s);
            assert(tape.gate_ok(s));
            let (x, y, z) = (tape.a@[s] as int, tape.b@[s] as int, tape.c@[s] as int);
            lemma_forced(tape, env, addr, x);
            lemma_forced(tape, env, addr, y);
            lemma_forced(tape, env, addr, z);
        }
    }
}

/// A found bank is a memory: bit `i` of the read port shows bit `i` of the
/// addressed word, and cell `(k, i)` takes data bit `i` when word `k` is
/// addressed and the store is enabled, and keeps its value otherwise.
pub proof fn bank_is_a_memory(tape: Compiled, m: BankView, env: Env, k: int, i: int)
    requires
        tape.wf(),
        is_bank(tape, m),
        env.state.len() == tape.net().drives.len(),
        0 <= k < m.words,
        0 <= i < m.width,
    ensures
        0 <= address(tape, env, m) < m.words,
        tape.value(env, m.read_tops[i] as int) == env.state[cell_at(
            m.base_reg as int,
            m.width as int,
            address(tape, env, m),
            i,
        )],
        ({
            let r = cell_at(m.base_reg as int, m.width as int, k, i);
            tape.net().next_state(env)[r] == if tape.value(env, m.enable as int) && address(
                tape,
                env,
                m,
            ) == k {
                tape.value(env, m.data[i] as int)
            } else {
                env.state[r]
            }
        }),
{
    let (base, words, width) = (m.base_reg as int, m.words as int, m.width as int);
    let bits = address_bits(tape, env, m.addr_bits);
    let end = tape.reg_in_slots@.len() as int;
    lemma_num_bound(bits);
    assert(bits.take(bits.len() as int) =~= bits);
    // read port
    assert(live(tape, base, width, i, 0, words)) by {
        assert forall|q: int| 0 <= q < words implies #[trigger] live_at(
            tape,
            cell_at(base, width, q, i),
        ) by {
            lemma_array_cell(tape, base, words, width, q, i);
        }
    }
    assert(tree(tape, base, width, m.addr_bits, i, 0, m.addr_bits.len()) == Some(m.read_tops[i]));
    lemma_tree_value(tape, env, base, width, m.addr_bits, i, 0, m.addr_bits.len());
    lemma_array_cell(tape, base, words, width, address(tape, env, m), i);
    // write port
    lemma_array_cell(tape, base, words, width, k, i);
    let r = cell_at(base, width, k, i);
    let mux = tape.reg_in_slots@[r] as int;
    lemma_gate_slot(tape, env, mux);
    lemma_cell_value(tape, env, r);
    assert(tape.net().next_state(env)[r] == tape.value(env, mux));
    let we = write_enable(tape, base, width, k);
    assert(gated(tape, we, m.enable));
    assert(tape.gate_ok(mux));
    lemma_gate_slot(tape, env, we as int);
    let dec = decoder(tape, we, m.enable);
    assert(tape.gate_ok(we as int));
    assert(one_hot(tape, m.addr_bits, dec, k));
    assert(forced(tape, m.addr_bits, bits, dec as int) == Some(k == num(bits)));
    lemma_forced(tape, env, m.addr_bits, dec as int);
}

/// Every address bit settles before the fused read runs.
pub proof fn address_settles_first(tape: Compiled, m: BankView, j: int)
    requires
        is_bank(tape, m),
        0 <= j < m.addr_bits.len(),
    ensures
        tape.slot_level@[m.addr_bits[j] as int] < m.read_ready,
{
    lemma_ready(tape, m.addr_bits, j);
}

proof fn lemma_ready(tape: Compiled, slots: Seq<u32>, j: int)
    requires
        0 <= j < slots.len(),
    ensures
        tape.slot_level@[slots[j] as int] < ready_level(tape, slots),
    decreases slots.len(),
{
    if j < slots.len() - 1 {
        lemma_ready(tape, slots.drop_last(), j);
    }
}

/// Cells of a bank are told apart by word and bit.
proof fn lemma_cells_apart(base: int, width: int, k: int, i: int, l: int, j: int)
    requires
        0 <= i < width,
        0 <= j < width,
        cell_at(base, width, k, i) == cell_at(base, width, l, j),
    ensures
        k == l,
        i == j,
{
    let x = k * width + i;
    vstd::arithmetic::div_mod::lemma_fundamental_div_mod_converse(x, width, k, i);
    vstd::arithmetic::div_mod::lemma_fundamental_div_mod_converse(x, width, l, j);
}

/// Live registers have outputs of their own.
proof fn lemma_outs_apart(tape: Compiled, r: int, q: int)
    requires
        tape.wf(),
        live_at(tape, r),
        live_at(tape, q),
        tape.reg_out_slots@[r] == tape.reg_out_slots@[q],
    ensures
        r == q,
{
    assert(tape.sources@[tape.reg_out_slots@[r] as int] == Node::RegOut(r));
    assert(tape.sources@[tape.reg_out_slots@[q] as int] == Node::RegOut(q));
}

/// A tree over fewer words reads live cells too.
proof fn lemma_live_half(tape: Compiled, base: int, width: int, i: int, lo: int, depth: nat)
    requires
        depth > 0,
        live(tape, base, width, i, lo, lo + pow2(depth)),
    ensures
        pow2(depth) == 2 * pow2((depth - 1) as nat),
        live(tape, base, width, i, lo, lo + pow2((depth - 1) as nat)),
        live(tape, base, width, i, lo + pow2((depth - 1) as nat), lo + pow2(depth)),
{
    let d = (depth - 1) as nat;
    vstd::arithmetic::power2::lemma_pow2_unfold(depth);
    assert forall|k: int| lo <= k < lo + pow2(d) implies #[trigger] live_at(
        tape,
        cell_at(base, width, k, i),
    ) by {
        assert(lo <= k < lo + pow2(depth));
    }
    assert forall|k: int| lo + pow2(d) <= k < lo + pow2(depth) implies #[trigger] live_at(
        tape,
        cell_at(base, width, k, i),
    ) by {
        assert(lo <= k < lo + pow2(depth));
    }
}

/// A tree's root is a mux, or the cell itself.
proof fn lemma_root(tape: Compiled, base: int, width: int, addr: Seq<u32>, i: int, lo: int, depth: nat)
    requires
        tape.wf(),
        live(tape, base, width, i, lo, lo + pow2(depth)),
        tree(tape, base, width, addr, i, lo, depth) is Some,
    ensures
        depth == 0 ==> tree(tape, base, width, addr, i, lo, depth)->0 < tape.gate_start,
        depth > 0 ==> {
            let s = tree(tape, base, width, addr, i, lo, depth)->0 as int;
            let d = (depth - 1) as nat;
            &&& is_gate(tape, s, Op::Mux)
            &&& tree(tape, base, width, addr, i, lo, d) == Some(tape.c@[s])
            &&& tree(tape, base, width, addr, i, lo + pow2(d), d) == Some(tape.b@[s])
            &&& tape.a@[s] == addr[depth - 1]
        },
{
    if depth == 0 {
        vstd::arithmetic::power2::lemma2_to64();
        assert(live_at(tape, cell_at(base, width, lo, i)));
    } else {
        let d = (depth - 1) as nat;
        let low = tree(tape, base, width, addr, i, lo, d)->0;
        let high = tree(tape, base, width, addr, i, lo + pow2(d), d)->0;
        lemma_mux_below(tape, high, low, tape.n());
    }
}

/// Trees with one root are one tree.
proof fn lemma_one_tree(
    tape: Compiled,
    base: int,
    width: int,
    addr: Seq<u32>,
    i: int,
    lo: int,
    depth: nat,
    j: int,
    from: int,
    deep: nat,
)
    requires
        tape.wf(),
        0 <= i < width,
        0 <= j < width,
        live(tape, base, width, i, lo, lo + pow2(depth)),
        live(tape, base, width, j, from, from + pow2(deep)),
        tree(tape, base, width, addr, i, lo, depth) is Some,
        tree(tape, base, width, addr, i, lo, depth) == tree(tape, base, width, addr, j, from, deep),
    ensures
        i == j,
        lo == from,
        depth == deep,
    decreases depth,
{
    lemma_root(tape, base, width, addr, i, lo, depth);
    lemma_root(tape, base, width, addr, j, from, deep);
    if depth == 0 {
        vstd::arithmetic::power2::lemma2_to64();
        assert(live_at(tape, cell_at(base, width, lo, i)));
        assert(live_at(tape, cell_at(base, width, from, j)));
        lemma_outs_apart(tape, cell_at(base, width, lo, i), cell_at(base, width, from, j));
        lemma_cells_apart(base, width, lo, i, from, j);
    } else {
        lemma_live_half(tape, base, width, i, lo, depth);
        lemma_live_half(tape, base, width, j, from, deep);
        lemma_one_tree(
            tape,
            base,
            width,
            addr,
            i,
            lo,
            (depth - 1) as nat,
            j,
            from,
            (deep - 1) as nat,
        );
    }
}

/// `s` is the root of the tree over the `2^deep` words from `from` on, which
/// lie among those from `lo` on.
spec fn roots(
    tape: Compiled,
    base: int,
    width: int,
    addr: Seq<u32>,
    i: int,
    lo: int,
    depth: nat,
    s: u32,
    from: int,
    deep: nat,
) -> bool {
    &&& deep > 0
    &&& lo <= from
    &&& from + pow2(deep) <= lo + pow2(depth)
    &&& tree(tape, base, width, addr, i, from, deep) == Some(s)
}

/// Every mux of a tree is the root of a tree.
proof fn lemma_tree_member(
    tape: Compiled,
    base: int,
    width: int,
    addr: Seq<u32>,
    i: int,
    lo: int,
    depth: nat,
    p: int,
) -> (at: (int, nat))
    requires
        tree(tape, base, width, addr, i, lo, depth) is Some,
        0 <= p < tree_muxes(tape, base, width, addr, i, lo, depth).len(),
    ensures
        roots(
            tape,
            base,
            width,
            addr,
            i,
            lo,
            depth,
            tree_muxes(tape, base, width, addr, i, lo, depth)[p],
            at.0,
            at.1,
        ),
    decreases depth,
{
    let d = (depth - 1) as nat;
    vstd::arithmetic::power2::lemma_pow2_unfold(depth);
    let left = tree_muxes(tape, base, width, addr, i, lo, d);
    let right = tree_muxes(tape, base, width, addr, i, lo + pow2(d), d);
    if p < left.len() {
        lemma_tree_member(tape, base, width, addr, i, lo, d, p)
    } else if p < left.len() + right.len() {
        lemma_tree_member(tape, base, width, addr, i, lo + pow2(d), d, p - left.len())
    } else {
        (lo, depth)
    }
}

/// A tree over `2^depth` words has one mux less, each once.
proof fn lemma_tree_distinct(
    tape: Compiled,
    base: int,
    width: int,
    addr: Seq<u32>,
    i: int,
    lo: int,
    depth: nat,
)
    requires
        tape.wf(),
        0 <= i < width,
        live(tape, base, width, i, lo, lo + pow2(depth)),
        tree(tape, base, width, addr, i, lo, depth) is Some,
    ensures
        tree_muxes(tape, base, width, addr, i, lo, depth).len() == pow2(depth) - 1,
        tree_muxes(tape, base, width, addr, i, lo, depth).no_duplicates(),
    decreases depth,
{
    vstd::arithmetic::power2::lemma2_to64();
    if depth > 0 {
        let d = (depth - 1) as nat;
        lemma_live_half(tape, base, width, i, lo, depth);
        lemma_tree_distinct(tape, base, width, addr, i, lo, d);
        lemma_tree_distinct(tape, base, width, addr, i, lo + pow2(d), d);
        let left = tree_muxes(tape, base, width, addr, i, lo, d);
        let right = tree_muxes(tape, base, width, addr, i, lo + pow2(d), d);
        let all = tree_muxes(tape, base, width, addr, i, lo, depth);
        assert forall|p: int, q: int| 0 <= p < q < all.len() implies all[p] != all[q] by {
            if all[p] == all[q] {
                let (x, e) = lemma_tree_member(tape, base, width, addr, i, lo, depth, p);
                let (y, f) = lemma_tree_member(tape, base, width, addr, i, lo, depth, q);
                if q < left.len() {
                    assert(left[p] == left[q]);
                } else if p >= left.len() && q < left.len() + right.len() {
                    assert(right[p - left.len()] == right[q - left.len()]);
                } else {
                    if p < left.len() {
                        let (x, e) = lemma_tree_member(tape, base, width, addr, i, lo, d, p);
                        if q < left.len() + right.len() {
                            let (y, f) = lemma_tree_member(
                                tape,
                                base,
                                width,
                                addr,
                                i,
                                lo + pow2(d),
                                d,
                                q - left.len(),
                            );
                            lemma_inner_live(tape, base, width, i, lo, depth, x, e);
                            lemma_inner_live(tape, base, width, i, lo, depth, y, f);
                            lemma_one_tree(tape, base, width, addr, i, x, e, i, y, f);
                            vstd::arithmetic::power2::lemma_pow2_pos(e);
                        } else {
                            lemma_inner_live(tape, base, width, i, lo, depth, x, e);
                            lemma_one_tree(tape, base, width, addr, i, x, e, i, lo, depth);
                            vstd::arithmetic::power2::lemma_pow2_pos(d);
                        }
                    } else {
                        let (x, e) = lemma_tree_member(
                            tape,
                            base,
                            width,
                            addr,
                            i,
                            lo + pow2(d),
                            d,
                            p - left.len(),
                        );
                        lemma_inner_live(tape, base, width, i, lo, depth, x, e);
                        lemma_one_tree(tape, base, width, addr, i, x, e, i, lo, depth);
                        vstd::arithmetic::power2::lemma_pow2_pos(d);
                    }
                }
            }
        }
    }
}

/// A tree inside another reads live cells.
proof fn lemma_inner_live(
    tape: Compiled,
    base: int,
    width: int,
    i: int,
    lo: int,
    depth: nat,
    from: int,
    deep: nat,
)
    requires
        live(tape, base, width, i, lo, lo + pow2(depth)),
        lo <= from,
        from + pow2(deep) <= lo + pow2(depth),
    ensures
        live(tape, base, width, i, from, from + pow2(deep)),
{
    assert forall|k: int| from <= k < from + pow2(deep) implies #[trigger] live_at(
        tape,
        cell_at(base, width, k, i),
    ) by {
        assert(lo <= k < lo + pow2(depth));
    }
}

/// What decides a slot lies at or below it.
proof fn lemma_forced_local(tape: Compiled, addr: Seq<u32>, x: Seq<bool>, y: Seq<bool>, s: int)
    requires
        tape.wf(),
        0 <= s < tape.n(),
        forall|j: int| 0 <= j < addr.len() && (#[trigger] addr[j]) <= s ==> x[j] == y[j],
    ensures
        forced(tape, addr, x, s) == forced(tape, addr, y, s),
    decreases s,
{
    lemma_bit_of(addr, s as u32, addr.len() as int);
    if bit_of(addr, s as u32, addr.len() as int) is None && s >= tape.gate_start {
        assert(tape.gate_ok(s));
        let (p, q, r) = (tape.a@[s] as int, tape.b@[s] as int, tape.c@[s] as int);
        lemma_gate_slot(tape, Env { inputs: Seq::empty(), state: Seq::empty() }, s);
        lemma_forced_local(tape, addr, x, y, p);
        lemma_forced_local(tape, addr, x, y, q);
        lemma_forced_local(tape, addr, x, y, r);
    } else if let Some(j) = bit_of(addr, s as u32, addr.len() as int) {
        assert(addr[j] <= s);
    }
}

/// Every number below `2^k` has `k` bits.
proof fn lemma_num_onto(k: nat, v: nat) -> (bits: Seq<bool>)
    requires
        v < pow2(k),
    ensures
        bits.len() == k,
        num(bits) == v,
    decreases k,
{
    vstd::arithmetic::power2::lemma2_to64();
    if k == 0 {
        seq![]
    } else {
        let half = pow2((k - 1) as nat);
        vstd::arithmetic::power2::lemma_pow2_unfold(k);
        let high = v >= half;
        let rest = lemma_num_onto(
            (k - 1) as nat,
            if high {
                (v - half) as nat
            } else {
                v
            },
        );
        let bits = rest.push(high);
        assert(bits.drop_last() =~= rest);
        bits
    }
}

/// A write mux is no mux of a read tree: the select of the lowest tree level
/// is an address bit, which no write-enable can be.
proof fn lemma_write_mux_apart(tape: Compiled, m: BankView, k: int, i: int, j: int, from: int, deep: nat)
    requires
        tape.wf(),
        is_bank(tape, m),
        0 <= k < m.words,
        0 <= i < m.width,
        0 <= j < m.width,
        deep > 0,
        deep <= m.addr_bits.len(),
        0 <= from,
        from + pow2(deep) <= m.words,
        live(tape, m.base_reg as int, m.width as int, j, from, from + pow2(deep)),
        tree(tape, m.base_reg as int, m.width as int, m.addr_bits, j, from, deep) is Some,
    ensures
        tree(tape, m.base_reg as int, m.width as int, m.addr_bits, j, from, deep)->0
            != tape.reg_in_slots@[cell_at(m.base_reg as int, m.width as int, k, i)],
{
    let (base, words, width, addr) = (m.base_reg as int, m.words as int, m.width as int, m.addr_bits);
    let r = cell_at(base, width, k, i);
    let s = tree(tape, base, width, addr, j, from, deep)->0;
    lemma_array_cell(tape, base, words, width, k, i);
    if s == tape.reg_in_slots@[r] {
        let d = (deep - 1) as nat;
        lemma_root(tape, base, width, addr, j, from, deep);
        lemma_live_half(tape, base, width, j, from, deep);
        lemma_root(tape, base, width, addr, j, from, d);
        assert(tape.reg_out_slots@[r] < tape.gate_start);
        assert(d == 0);
        vstd::arithmetic::power2::lemma_pow2_pos(deep);
        assert(live_at(tape, cell_at(base, width, from, j)));
        lemma_outs_apart(tape, r, cell_at(base, width, from, j));
        lemma_cells_apart(base, width, k, i, from, j);
        let we = write_enable(tape, base, width, k);
        assert(addr[0] == we);
        assert(gated(tape, we, m.enable));
        assert(tape.gate_ok(we as int));
        let dec = decoder(tape, we, m.enable);
        lemma_gate_slot(tape, Env { inputs: Seq::empty(), state: Seq::empty() }, we as int);
        assert(dec < we);
        assert(one_hot(tape, addr, dec, k));
        let bits = lemma_num_onto(addr.len(), k as nat);
        let other = bits.update(0, !bits[0]);
        lemma_forced_local(tape, addr, bits, other, dec as int);
        assert(forced(tape, addr, bits, dec as int) == Some(k == num(bits)));
        assert(forced(tape, addr, other, dec as int) == Some(k == num(other)));
        crate::mem::lemma_num_injective(bits, other);
        assert(bits[0] == other[0]);
    }
}

/// The trees of the first `n` bits have distinct muxes.
proof fn lemma_trees_distinct(tape: Compiled, m: BankView, n: int)
    requires
        tape.wf(),
        is_bank(tape, m),
        0 <= n <= m.width,
    ensures
        ({
            let all = all_tree_muxes(tape, m.base_reg as int, m.width as int, m.addr_bits, n);
            &&& all.len() == n * (m.words - 1)
            &&& all.no_duplicates()
            &&& forall|p: int| 0 <= p < all.len() ==> #[trigger] in_trees(tape, m, n, all[p])
        }),
    decreases n,
{
    let (base, words, width, addr) = (m.base_reg as int, m.words as int, m.width as int, m.addr_bits);
    let all = all_tree_muxes(tape, base, width, addr, n);
    if n > 0 {
        let i = n - 1;
        lemma_trees_distinct(tape, m, i);
        let before = all_tree_muxes(tape, base, width, addr, i);
        let last = tree_muxes(tape, base, width, addr, i, 0, addr.len());
        assert(tree(tape, base, width, addr, i, 0, addr.len()) == Some(m.read_tops[i]));
        lemma_bank_live(tape, m, i);
        lemma_tree_distinct(tape, base, width, addr, i, 0, addr.len());
        assert(i * (words - 1) + (words - 1) == n * (words - 1)) by (nonlinear_arith)
            requires
                i == n - 1,
        ;
        assert forall|p: int| 0 <= p < all.len() implies #[trigger] in_trees(tape, m, n, all[p]) by {
            if p < before.len() {
                assert(all[p] == before[p]);
                assert(in_trees(tape, m, i, before[p]));
                let (j, from, deep) = choose|j: int, from: int, deep: nat|
                    0 <= j < i && #[trigger] roots(
                        tape,
                        base,
                        width,
                        addr,
                        j,
                        0,
                        addr.len(),
                        before[p],
                        from,
                        deep,
                    );
                assert(0 <= j < n && roots(tape, base, width, addr, j, 0, addr.len(), all[p], from, deep));
            } else {
                let (from, deep) = lemma_tree_member(
                    tape,
                    base,
                    width,
                    addr,
                    i,
                    0,
                    addr.len(),
                    p - before.len(),
                );
                assert(0 <= i < n && roots(tape, base, width, addr, i, 0, addr.len(), all[p], from, deep));
            }
        }
        assert forall|p: int, q: int| 0 <= p < q < all.len() implies all[p] != all[q] by {
            if all[p] == all[q] {
                if q < before.len() {
                    assert(before[p] == before[q]);
                } else if p >= before.len() {
                    assert(last[p - before.len()] == last[q - before.len()]);
                } else {
                    assert(in_trees(tape, m, i, before[p]));
                    let (j, from, deep) = choose|j: int, from: int, deep: nat|
                        0 <= j < i && #[trigger] roots(
                            tape,
                            base,
                            width,
                            addr,
                            j,
                            0,
                            addr.len(),
                            before[p],
                            from,
                            deep,
                        );
                    let (y, f) = lemma_tree_member(
                        tape,
                        base,
                        width,
                        addr,
                        i,
                        0,
                        addr.len(),
                        q - before.len(),
                    );
                    lemma_bank_live(tape, m, j);
                    lemma_inner_live(tape, base, width, j, 0, addr.len(), from, deep);
                    lemma_inner_live(tape, base, width, i, 0, addr.len(), y, f);
                    lemma_one_tree(tape, base, width, addr, j, from, deep, i, y, f);
                }
            }
        }
    } else {
        assert(0 * (words - 1) == 0) by (nonlinear_arith);
    }
}

/// `s` is a mux of one of the first `n` trees.
spec fn in_trees(tape: Compiled, m: BankView, n: int, s: u32) -> bool {
    exists|j: int, from: int, deep: nat|
        0 <= j < n && #[trigger] roots(
            tape,
            m.base_reg as int,
            m.width as int,
            m.addr_bits,
            j,
            0,
            m.addr_bits.len(),
            s,
            from,
            deep,
        )
}

/// The cells of a bank are live.
proof fn lemma_bank_live(tape: Compiled, m: BankView, i: int)
    requires
        tape.wf(),
        is_bank(tape, m),
        0 <= i < m.width,
    ensures
        live(tape, m.base_reg as int, m.width as int, i, 0, pow2(m.addr_bits.len()) as int),
{
    let (base, words, width) = (m.base_reg as int, m.words as int, m.width as int);
    assert forall|q: int| 0 <= q < words implies #[trigger] live_at(tape, cell_at(base, width, q, i)) by {
        lemma_array_cell(tape, base, words, width, q, i);
    }
}

/// A bank replaces `2 * words - 1` muxes per bit, each listed once.
pub proof fn fused_muxes_are_distinct(tape: Compiled, m: BankView)
    requires
        tape.wf(),
        is_bank(tape, m),
    ensures
        m.fused.no_duplicates(),
        m.fused.len() == (2 * m.words - 1) * m.width,
{
    let (base, words, width, addr) = (m.base_reg as int, m.words as int, m.width as int, m.addr_bits);
    let trees = all_tree_muxes(tape, base, width, addr, width);
    let writes = feeds(tape, base, words * width);
    lemma_trees_distinct(tape, m, width);
    assert(0 <= words * width && width * (words - 1) + words * width == (2 * words - 1) * width)
        by (nonlinear_arith)
        requires
            words >= 0,
            width >= 0,
    ;
    assert forall|q: int| 0 <= q < writes.len() implies 0 <= q / width < words && 0 <= q % width < width
        && base + q == cell_at(base, width, q / width, q % width) && #[trigger] writes[q]
        == tape.reg_in_slots@[base + q] && is_cell(tape, base + q) by {
        vstd::arithmetic::div_mod::lemma_fundamental_div_mod(q, width);
        assert(width * (q / width) == (q / width) * width) by (nonlinear_arith);
        assert(0 <= q / width < words) by (nonlinear_arith)
            requires
                0 <= q < words * width,
                width > 0,
                q == width * (q / width) + q % width,
                0 <= q % width < width,
        ;
        lemma_array_cell(tape, base, words, width, q / width, q % width);
    }
    assert forall|p: int, q: int| 0 <= p < q < m.fused.len() implies m.fused[p] != m.fused[q] by {
        let t = trees.len() as int;
        if q < t {
            assert(trees[p] != trees[q]);
        } else if p >= t {
            let (x, y) = (p - t, q - t);
            assert(writes[x] == tape.reg_in_slots@[base + x]);
            assert(writes[y] == tape.reg_in_slots@[base + y]);
            if writes[x] == writes[y] {
                assert(is_cell(tape, base + x) && is_cell(tape, base + y));
                lemma_outs_apart(tape, base + x, base + y);
            }
        } else {
            let y = q - t;
            assert(writes[y] == tape.reg_in_slots@[base + y]);
            assert(in_trees(tape, m, width, trees[p]));
            let (j, from, deep) = choose|j: int, from: int, deep: nat|
                0 <= j < width && #[trigger] roots(
                    tape,
                    base,
                    width,
                    addr,
                    j,
                    0,
                    addr.len(),
                    trees[p],
                    from,
                    deep,
                );
            lemma_bank_live(tape, m, j);
            lemma_inner_live(tape, base, width, j, 0, addr.len(), from, deep);
            if deep > addr.len() {
                vstd::arithmetic::power2::lemma_pow2_strictly_increases(addr.len(), deep);
            }
            lemma_write_mux_apart(tape, m, y / width, y % width, j, from, deep);
        }
    }
}

} // verus!
