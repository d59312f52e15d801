//! The pieces of the RV32I core, as gates.
//!
//! Each function adds one piece to the circuit under construction. Its
//! contract relates what the piece's wires carry, as 32-bit words, to what
//! its operands carry, in every circuit that extends the builder's.
use vstd::arithmetic::power2::pow2;
use vstd::prelude::*;

use crate::circuit::{CircuitBuilder, MAX_GATES};
use crate::entity::Signal;
use crate::isa::{
    alu, bit_of, branch_taken, byte_shift, f3_of, imm_b, imm_i, imm_j, imm_s, imm_u, load_value,
    opcode_of, shift_right_arith, signed, store_merge, wadd, word_index, wsub,
};
use crate::netlist::{Env, Node};
use crate::rtl;
use crate::rtl::{same_wires, sums, table_ok, Word};
use crate::wires::{
    built, has_all, keeps, lemma_gate, lemma_has_all_grows, lemma_keeps_chain, lemma_keeps_self, num,
    on, tidy, word_on,
};
use crate::words::{
    lemma_bits_of_imms, lemma_bits_of_load, lemma_bits_of_logic, lemma_bits_of_shifts,
    lemma_bits_of_store, lemma_fields, lemma_low_two, lemma_match, lemma_num_spells, lemma_same_bits,
    lemma_sign_and_not, lemma_signed_less, lemma_sum_words, lemma_word_num, lemma_word_select,
    spells, store_enabled,
};

verus! {

broadcast use {
    Signal::lemma_range,
    lemma_keeps_chain,
    lemma_keeps_self,
    lemma_gate,
    lemma_has_all_grows,
};

/// The number a word of 32 wires carries.
pub open spec fn wval(nodes: Seq<Node>, env: Env, w: Seq<Signal>) -> u32 {
    num(word_on(nodes, env, w)) as u32
}

/// The wires of a word are the bits of its number.
pub proof fn lemma_wval(nodes: Seq<Node>, env: Env, w: Seq<Signal>)
    requires
        w.len() == 32,
    ensures
        num(word_on(nodes, env, w)) == wval(nodes, env, w),
        spells(word_on(nodes, env, w), wval(nodes, env, w)),
        forall|i: int| 0 <= i < 32 ==> on(nodes, env, #[trigger] w[i]) == bit_of(wval(nodes, env, w), i),
{
    let v = word_on(nodes, env, w);
    lemma_num_spells(v);
    assert forall|i: int| 0 <= i < 32 implies on(nodes, env, #[trigger] w[i]) == bit_of(
        wval(nodes, env, w),
        i,
    ) by {
        assert(v[i] == on(nodes, env, w[i]));
    }
}

/// A word whose wires are the bits of `x` carries `x`.
pub proof fn lemma_carries(nodes: Seq<Node>, env: Env, w: Seq<Signal>, x: u32)
    requires
        w.len() == 32,
        forall|i: int| 0 <= i < 32 ==> on(nodes, env, #[trigger] w[i]) == bit_of(x, i),
    ensures
        wval(nodes, env, w) == x,
{
    let v = word_on(nodes, env, w);
    assert forall|i: int| 0 <= i < v.len() implies #[trigger] v[i] == bit_of(x, i) by {
        assert(on(nodes, env, w[i]) == bit_of(x, i));
    }
    lemma_word_num(v, x);
}

/// `after` is `before` with at most `k` more gates or constants.
pub open spec fn within(before: &CircuitBuilder, after: &CircuitBuilder, k: int) -> bool {
    &&& built(before, after, after.net().nodes.len() - before.net().nodes.len())
    &&& after.net().nodes.len() <= before.net().nodes.len() + k
}

/// A builder word of 32 wires.
pub open spec fn word_in(b: &CircuitBuilder, w: Seq<Signal>) -> bool {
    w.len() == 32 && has_all(b, w)
}

/// `if sel { t } else { e }` over words.
pub fn mux32(b: &mut CircuitBuilder, sel: Signal, t: &Word, e: &Word) -> (w: Word)
    requires
        tidy(old(b)),
        old(b).has(sel),
        word_in(old(b), t@),
        word_in(old(b), e@),
        old(b).room(32),
    ensures
        tidy(final(b)),
        built(old(b), final(b), 32),
        word_in(final(b), w@),
        forall|nodes: Seq<Node>, env: Env|
            keeps(final(b).net().nodes, nodes) ==> #[trigger] wval(nodes, env, w@) == if on(
                nodes,
                env,
                sel,
            ) {
                wval(nodes, env, t@)
            } else {
                wval(nodes, env, e@)
            },
{
    let w = rtl::mux_word(b, sel, t.as_slice(), e.as_slice());
    assert forall|nodes: Seq<Node>, env: Env| keeps(b.net().nodes, nodes) implies #[trigger] wval(
        nodes,
        env,
        w@,
    ) == if on(nodes, env, sel) {
        wval(nodes, env, t@)
    } else {
        wval(nodes, env, e@)
    } by {
        let x = if on(nodes, env, sel) {
            t@
        } else {
            e@
        };
        assert forall|i: int| 0 <= i < 32 implies on(nodes, env, #[trigger] w@[i]) == on(nodes, env, x[i]) by {}
        assert(word_on(nodes, env, w@) =~= word_on(nodes, env, x));
    }
    w
}

/// `items[sel]` over words.
pub fn select32(b: &mut CircuitBuilder, sel: &[Signal], items: &[Word]) -> (w: Word)
    requires
        tidy(old(b)),
        has_all(old(b), sel@),
        items@.len() == pow2(sel@.len()),
        table_ok(old(b), items@, 32),
        items@.len() > 0,
        old(b).room((items@.len() - 1) * 32),
    ensures
        tidy(final(b)),
        built(old(b), final(b), (items@.len() - 1) * 32),
        word_in(final(b), w@),
        forall|nodes: Seq<Node>, env: Env|
            keeps(final(b).net().nodes, nodes) ==> #[trigger] wval(nodes, env, w@) == wval(
                nodes,
                env,
                items@[num(word_on(nodes, env, sel@)) as int]@,
            ),
{
    assert(items@[0]@.len() == 32);
    let w = rtl::mux_tree(b, sel, items);
    assert forall|nodes: Seq<Node>, env: Env| keeps(b.net().nodes, nodes) implies #[trigger] wval(
        nodes,
        env,
        w@,
    ) == wval(nodes, env, items@[num(word_on(nodes, env, sel@)) as int]@) by {
        let k = num(word_on(nodes, env, sel@)) as int;
        crate::wires::lemma_num_bound(word_on(nodes, env, sel@));
        let x = items@[k]@;
        assert(x.len() == 32);
        assert forall|i: int| 0 <= i < 32 implies on(nodes, env, #[trigger] w@[i]) == on(nodes, env, x[i]) by {}
        assert(word_on(nodes, env, w@) =~= word_on(nodes, env, x));
    }
    w
}

/// One wire per instruction class.
pub struct Flags {
    pub lui: Signal,
    pub auipc: Signal,
    pub jal: Signal,
    pub jalr: Signal,
    pub branch: Signal,
    pub load: Signal,
    pub store: Signal,
    pub opimm: Signal,
    pub op: Signal,
}

/// The flags tell the opcode.
pub open spec fn flags_ok(nodes: Seq<Node>, env: Env, fl: Flags, w: u32) -> bool {
    &&& on(nodes, env, fl.lui) == (opcode_of(w) == 0b0110111)
    &&& on(nodes, env, fl.auipc) == (opcode_of(w) == 0b0010111)
    &&& on(nodes, env, fl.jal) == (opcode_of(w) == 0b1101111)
    &&& on(nodes, env, fl.jalr) == (opcode_of(w) == 0b1100111)
    &&& on(nodes, env, fl.branch) == (opcode_of(w) == 0b1100011)
    &&& on(nodes, env, fl.load) == (opcode_of(w) == 0b0000011)
    &&& on(nodes, env, fl.store) == (opcode_of(w) == 0b0100011)
    &&& on(nodes, env, fl.opimm) == (opcode_of(w) == 0b0010011)
    &&& on(nodes, env, fl.op) == (opcode_of(w) == 0b0110011)
}

pub open spec fn has_flags(b: &CircuitBuilder, fl: Flags) -> bool {
    &&& b.has(fl.lui)
    &&& b.has(fl.auipc)
    &&& b.has(fl.jal)
    &&& b.has(fl.jalr)
    &&& b.has(fl.branch)
    &&& b.has(fl.load)
    &&& b.has(fl.store)
    &&& b.has(fl.opimm)
    &&& b.has(fl.op)
}

/// A wire that is on for one opcode.
fn match_opcode(b: &mut CircuitBuilder, instr: &Word, value: u32) -> (s: Signal)
    requires
        tidy(old(b)),
        word_in(old(b), instr@),
        value < 128,
        old(b).room(14),
    ensures
        tidy(final(b)),
        within(old(b), final(b), 14),
        final(b).has(s),
        forall|nodes: Seq<Node>, env: Env|
            keeps(final(b).net().nodes, nodes) ==> #[trigger] on(nodes, env, s) == (opcode_of(
                wval(nodes, env, instr@),
            ) == value),
{
    let opcode = vstd::slice::slice_subrange(instr.as_slice(), 0, 7);
    assert forall|i: int| 0 <= i < opcode@.len() implies b.has(#[trigger] opcode@[i]) by {
        assert(b.has(instr@[i]));
    }
    let s = rtl::match_bits(b, opcode, value);
    proof {
        lemma_zeros(value, 7);
        assert forall|nodes: Seq<Node>, env: Env| keeps(b.net().nodes, nodes) implies #[trigger] on(
            nodes,
            env,
            s,
        ) == (opcode_of(wval(nodes, env, instr@)) == value) by {
            let v = word_on(nodes, env, instr@);
            lemma_wval(nodes, env, instr@);
            lemma_fields(v, wval(nodes, env, instr@));
            let f = v.subrange(0, 7);
            vstd::arithmetic::power2::lemma2_to64();
            lemma_match(f, value);
            assert(f =~= word_on(nodes, env, opcode@));
            if spells(f, value) {
                assert forall|i: int| 0 <= i < opcode@.len() implies on(nodes, env, #[trigger] opcode@[i])
                    == bit_of(value, i) by {
                    assert(f[i] == bit_of(value, i));
                }
            }
            if on(nodes, env, s) {
                assert forall|i: int| 0 <= i < f.len() implies #[trigger] f[i] == bit_of(value, i) by {
                    assert(on(nodes, env, opcode@[i]) == bit_of(value, i));
                }
            }
        }
    }
    s
}

proof fn lemma_zeros(value: u32, n: nat)
    ensures
        rtl::zeros(value, n) <= n,
    decreases n,
{
    if n > 0 {
        lemma_zeros(value, (n - 1) as nat);
    }
}

/// Decode the opcode.
pub fn decode(b: &mut CircuitBuilder, instr: &Word) -> (fl: Flags)
    requires
        tidy(old(b)),
        word_in(old(b), instr@),
        old(b).room(126),
    ensures
        tidy(final(b)),
        within(old(b), final(b), 126),
        has_flags(final(b), fl),
        forall|nodes: Seq<Node>, env: Env|
            keeps(final(b).net().nodes, nodes) ==> #[trigger] flags_ok(
                nodes,
                env,
                fl,
                wval(nodes, env, instr@),
            ),
{
    let lui = match_opcode(b, instr, 0b0110111);
    let auipc = match_opcode(b, instr, 0b0010111);
    let jal = match_opcode(b, instr, 0b1101111);
    let jalr = match_opcode(b, instr, 0b1100111);
    let branch = match_opcode(b, instr, 0b1100011);
    let load = match_opcode(b, instr, 0b0000011);
    let store = match_opcode(b, instr, 0b0100011);
    let opimm = match_opcode(b, instr, 0b0010011);
    let op = match_opcode(b, instr, 0b0110011);
    Flags { lui, auipc, jal, jalr, branch, load, store, opimm, op }
}

/// The five immediate formats. Immediates are pure wiring: each bit is an
/// existing instruction wire.
pub struct Imms {
    pub i: Word,
    pub s: Word,
    pub b: Word,
    pub u: Word,
    pub j: Word,
}

pub open spec fn imms_ok(nodes: Seq<Node>, env: Env, im: Imms, w: u32) -> bool {
    &&& wval(nodes, env, im.i@) == imm_i(w)
    &&& wval(nodes, env, im.s@) == imm_s(w)
    &&& wval(nodes, env, im.b@) == imm_b(w)
    &&& wval(nodes, env, im.u@) == imm_u(w)
    &&& wval(nodes, env, im.j@) == imm_j(w)
}

pub open spec fn has_imms(b: &CircuitBuilder, im: Imms) -> bool {
    &&& word_in(b, im.i@)
    &&& word_in(b, im.s@)
    &&& word_in(b, im.b@)
    &&& word_in(b, im.u@)
    &&& word_in(b, im.j@)
}

/// Wire up the immediates.
pub fn immediates(b: &CircuitBuilder, instr: &Word, zero: Signal) -> (im: Imms)
    requires
        word_in(b, instr@),
        b.has(zero),
    ensures
        has_imms(b, im),
        forall|nodes: Seq<Node>, env: Env|
            !on(nodes, env, zero) ==> #[trigger] imms_ok(nodes, env, im, wval(nodes, env, instr@)),
{
    let sign = instr[31];
    let mut im = Imms { i: Vec::new(), s: Vec::new(), b: Vec::new(), u: Vec::new(), j: Vec::new() };
    for i in 0..32usize
        invariant
            word_in(b, instr@),
            b.has(zero),
            sign == instr@[31],
            im.i@.len() == i && im.s@.len() == i && im.b@.len() == i && im.u@.len() == i && im.j@.len() == i,
            has_all(b, im.i@) && has_all(b, im.s@) && has_all(b, im.b@) && has_all(b, im.u@) && has_all(
                b,
                im.j@,
            ),
            forall|k: int|
                0 <= k < i ==> #[trigger] im.i@[k] == if k < 11 {
                    instr@[20 + k]
                } else {
                    sign
                },
            forall|k: int|
                0 <= k < i ==> #[trigger] im.s@[k] == if k < 5 {
                    instr@[7 + k]
                } else if k < 11 {
                    instr@[20 + k]
                } else {
                    sign
                },
            forall|k: int|
                0 <= k < i ==> #[trigger] im.b@[k] == if k == 0 {
                    zero
                } else if k < 5 {
                    instr@[7 + k]
                } else if k < 11 {
                    instr@[20 + k]
                } else if k == 11 {
                    instr@[7]
                } else {
                    sign
                },
            forall|k: int|
                0 <= k < i ==> #[trigger] im.u@[k] == if k < 12 {
                    zero
                } else {
                    instr@[k]
                },
            forall|k: int|
                0 <= k < i ==> #[trigger] im.j@[k] == if k == 0 {
                    zero
                } else if k < 11 {
                    instr@[20 + k]
                } else if k == 11 {
                    instr@[20]
                } else if k < 20 {
                    instr@[k]
                } else {
                    sign
                },
    {
        assert forall|k: int| 0 <= k < 32 implies b.has(#[trigger] instr@[k]) by {}
        assert(b.has(instr@[31]));
        im.i.push(if i < 11 {
            instr[20 + i]
        } else {
            sign
        });
        im.s.push(if i < 5 {
            instr[7 + i]
        } else if i < 11 {
            instr[20 + i]
        } else {
            sign
        });
        im.b.push(if i == 0 {
            zero
        } else if i < 5 {
            instr[7 + i]
        } else if i < 11 {
            instr[20 + i]
        } else if i == 11 {
            instr[7]
        } else {
            sign
        });
        im.u.push(if i < 12 {
            zero
        } else {
            instr[i]
        });
        im.j.push(if i == 0 {
            zero
        } else if i < 11 {
            instr[20 + i]
        } else if i == 11 {
            instr[20]
        } else if i < 20 {
            instr[i]
        } else {
            sign
        });
    }
    proof {
        assert forall|nodes: Seq<Node>, env: Env| !on(nodes, env, zero) implies #[trigger] imms_ok(
            nodes,
            env,
            im,
            wval(nodes, env, instr@),
        ) by {
            let w = wval(nodes, env, instr@);
            lemma_wval(nodes, env, instr@);
            assert forall|k: int| 0 <= k < 32 implies on(nodes, env, #[trigger] im.i@[k]) == bit_of(
                imm_i(w),
                k,
            ) by {
                lemma_bits_of_imms(w, k);
            }
            lemma_carries(nodes, env, im.i@, imm_i(w));
            assert forall|k: int| 0 <= k < 32 implies on(nodes, env, #[trigger] im.s@[k]) == bit_of(
                imm_s(w),
                k,
            ) by {
                lemma_bits_of_imms(w, k);
            }
            lemma_carries(nodes, env, im.s@, imm_s(w));
            assert forall|k: int| 0 <= k < 32 implies on(nodes, env, #[trigger] im.b@[k]) == bit_of(
                imm_b(w),
                k,
            ) by {
                lemma_bits_of_imms(w, k);
            }
            lemma_carries(nodes, env, im.b@, imm_b(w));
            assert forall|k: int| 0 <= k < 32 implies on(nodes, env, #[trigger] im.u@[k]) == bit_of(
                imm_u(w),
                k,
            ) by {
                lemma_bits_of_imms(w, k);
            }
            lemma_carries(nodes, env, im.u@, imm_u(w));
            assert forall|k: int| 0 <= k < 32 implies on(nodes, env, #[trigger] im.j@[k]) == bit_of(
                imm_j(w),
                k,
            ) by {
                lemma_bits_of_imms(w, k);
            }
            lemma_carries(nodes, env, im.j@, imm_j(w));
        }
    }
    im
}

/// Second ALU operand: rs2 for OP and branches, the relevant immediate
/// otherwise.
pub fn second_operand(b: &mut CircuitBuilder, fl: &Flags, im: &Imms, rs2: &Word) -> (w: Word)
    requires
        tidy(old(b)),
        has_flags(old(b), *fl),
        has_imms(old(b), *im),
        word_in(old(b), rs2@),
        old(b).room(67),
    ensures
        tidy(final(b)),
        within(old(b), final(b), 67),
        word_in(final(b), w@),
        forall|nodes: Seq<Node>, env: Env|
            keeps(final(b).net().nodes, nodes) ==> #[trigger] wval(nodes, env, w@) == if on(
                nodes,
                env,
                fl.store,
            ) {
                wval(nodes, env, im.s@)
            } else if on(nodes, env, fl.load) || on(nodes, env, fl.jalr) || on(nodes, env, fl.opimm) {
                wval(nodes, env, im.i@)
            } else {
                wval(nodes, env, rs2@)
            },
{
    let st_or_i = mux32(b, fl.store, &im.s, &im.i);
    let ld_or_st = b.or(fl.load, fl.store);
    let imm_user = b.or(ld_or_st, fl.jalr);
    let use_imm = b.or(imm_user, fl.opimm);
    mux32(b, use_imm, &st_or_i, rs2)
}

/// What the shared adder and the comparator yield.
pub struct Arith {
    pub add_sub: Word,
    pub lt: Signal,
    pub ltu: Signal,
    pub eq: Signal,
}

pub open spec fn arith_ok(nodes: Seq<Node>, env: Env, ar: Arith, subtract: bool, x: u32, y: u32) -> bool {
    &&& wval(nodes, env, ar.add_sub@) == (if subtract {
        wsub(x, y)
    } else {
        wadd(x, y)
    })
    &&& on(nodes, env, ar.lt) == (signed(x) < signed(y))
    &&& on(nodes, env, ar.ltu) == (x < y)
    &&& on(nodes, env, ar.eq) == (x == y)
}

/// Invert every wire of a word where `flag` is on.
fn invert_if(b: &mut CircuitBuilder, w: &Word, flag: Signal) -> (r: Word)
    requires
        tidy(old(b)),
        word_in(old(b), w@),
        old(b).has(flag),
        old(b).room(32),
    ensures
        tidy(final(b)),
        built(old(b), final(b), 32),
        word_in(final(b), r@),
        forall|nodes: Seq<Node>, env: Env|
            keeps(final(b).net().nodes, nodes) ==> #[trigger] wval(nodes, env, r@) == if on(
                nodes,
                env,
                flag,
            ) {
                !wval(nodes, env, w@)
            } else {
                wval(nodes, env, w@)
            },
{
    let mut r: Word = Vec::new();
    for i in 0..32usize
        invariant
            tidy(b),
            word_in(old(b), w@),
            old(b).has(flag),
            old(b).room(32),
            built(old(b), b, i as int),
            has_all(b, r@),
            r@.len() == i,
            forall|nodes: Seq<Node>, env: Env, j: int|
                keeps(b.net().nodes, nodes) && 0 <= j < i ==> #[trigger] on(nodes, env, r@[j]) == (on(
                    nodes,
                    env,
                    w@[j],
                ) != on(nodes, env, flag)),
    {
        assert(old(b).has(w@[i as int]));
        let s = b.xor(w[i], flag);
        r.push(s);
    }
    proof {
        assert forall|nodes: Seq<Node>, env: Env| keeps(b.net().nodes, nodes) implies #[trigger] wval(
            nodes,
            env,
            r@,
        ) == if on(nodes, env, flag) {
            !wval(nodes, env, w@)
        } else {
            wval(nodes, env, w@)
        } by {
            let x = wval(nodes, env, w@);
            lemma_wval(nodes, env, w@);
            let y = if on(nodes, env, flag) {
                !x
            } else {
                x
            };
            assert forall|i: int| 0 <= i < 32 implies on(nodes, env, #[trigger] r@[i]) == bit_of(y, i) by {
                lemma_bits_of_logic(x, 0, i);
                assert(on(nodes, env, w@[i]) == bit_of(x, i));
            }
            lemma_carries(nodes, env, r@, y);
        }
    }
    r
}

/// What a ripple-carry adder of two words yields.
proof fn lemma_adder32(
    nodes: Seq<Node>,
    env: Env,
    a: Seq<Signal>,
    x: Seq<Signal>,
    cin: Signal,
    sum: Seq<Signal>,
    cout: Signal,
)
    requires
        a.len() == 32,
        x.len() == 32,
        sum.len() == 32,
        sums(
            word_on(nodes, env, a),
            word_on(nodes, env, x),
            on(nodes, env, cin),
            word_on(nodes, env, sum),
            on(nodes, env, cout),
        ),
    ensures
        wval(nodes, env, sum) + (if on(nodes, env, cout) {
            0x1_0000_0000nat
        } else {
            0
        }) == wval(nodes, env, a) + wval(nodes, env, x) + (if on(nodes, env, cin) {
            1nat
        } else {
            0
        }),
{
    vstd::arithmetic::power2::lemma2_to64();
    lemma_wval(nodes, env, a);
    lemma_wval(nodes, env, x);
    lemma_wval(nodes, env, sum);
    let (va, vx) = (word_on(nodes, env, a), word_on(nodes, env, x));
    assert(va.take(32) =~= va);
    assert(vx.take(32) =~= vx);
}

/// One shared adder does ADD, SUB (operand inverted, carry-in 1), the
/// load/store address and the JALR target. A dedicated subtract serves the
/// comparisons.
#[verifier::rlimit(40)]
pub fn arithmetic(b: &mut CircuitBuilder, subtract: Signal, rs1: &Word, rhs: &Word, one: Signal) -> (ar: Arith)
    requires
        tidy(old(b)),
        old(b).has(subtract),
        old(b).has(one),
        word_in(old(b), rs1@),
        word_in(old(b), rhs@),
        old(b).room(500),
    ensures
        tidy(final(b)),
        within(old(b), final(b), 500),
        word_in(final(b), ar.add_sub@),
        final(b).has(ar.lt),
        final(b).has(ar.ltu),
        final(b).has(ar.eq),
        forall|nodes: Seq<Node>, env: Env, sub: bool|
            keeps(final(b).net().nodes, nodes) && on(nodes, env, one) && sub == on(nodes, env, subtract)
                ==> #[trigger] arith_ok(
                nodes,
                env,
                ar,
                sub,
                wval(nodes, env, rs1@),
                wval(nodes, env, rhs@),
            ),
{
    let inverted = invert_if(b, rhs, subtract);
    let (add_sub, cout) = rtl::adder(b, rs1.as_slice(), inverted.as_slice(), subtract);
    let not_b = rtl::word_not(b, rhs.as_slice());
    let (diff, borrow_free) = rtl::adder(b, rs1.as_slice(), not_b.as_slice(), one);
    let ltu = b.not(borrow_free);
    assert(b.has(rs1@[31]) && b.has(rhs@[31]) && b.has(diff@[31]));
    let sign_mix = b.xor(rs1[31], rhs[31]);
    let lt = b.mux(sign_mix, rs1[31], diff[31]);
    let eq = rtl::equal(b, rs1.as_slice(), rhs.as_slice());
    let ar = Arith { add_sub, lt, ltu, eq };
    proof {
        assert forall|nodes: Seq<Node>, env: Env, sub: bool|
            keeps(b.net().nodes, nodes) && on(nodes, env, one) && sub == on(
                nodes,
                env,
                subtract,
            ) implies #[trigger] arith_ok(
            nodes,
            env,
            ar,
            sub,
            wval(nodes, env, rs1@),
            wval(nodes, env, rhs@),
        ) by {
            let (x, y) = (wval(nodes, env, rs1@), wval(nodes, env, rhs@));
            lemma_wval(nodes, env, rs1@);
            lemma_wval(nodes, env, rhs@);
            assert(sums(
                word_on(nodes, env, rs1@),
                word_on(nodes, env, inverted@),
                on(nodes, env, subtract),
                word_on(nodes, env, add_sub@),
                on(nodes, env, cout),
            ));
            lemma_adder32(nodes, env, rs1@, inverted@, subtract, add_sub@, cout);
            lemma_sum_words(wval(nodes, env, add_sub@) as nat, on(nodes, env, cout), x, y);
            assert(wval(nodes, env, not_b@) == !y) by {
                assert forall|i: int| 0 <= i < 32 implies on(nodes, env, #[trigger] not_b@[i]) == bit_of(!y, i) by {
                    lemma_bits_of_logic(y, 0, i);
                    assert(on(nodes, env, rhs@[i]) == bit_of(y, i));
                }
                lemma_carries(nodes, env, not_b@, !y);
            }
            assert(sums(
                word_on(nodes, env, rs1@),
                word_on(nodes, env, not_b@),
                on(nodes, env, one),
                word_on(nodes, env, diff@),
                on(nodes, env, borrow_free),
            ));
            lemma_adder32(nodes, env, rs1@, not_b@, one, diff@, borrow_free);
            lemma_sum_words(wval(nodes, env, diff@) as nat, on(nodes, env, borrow_free), x, y);
            lemma_wval(nodes, env, diff@);
            lemma_signed_less(x, y);
            assert(on(nodes, env, rs1@[31]) == bit_of(x, 31));
            assert(on(nodes, env, rhs@[31]) == bit_of(y, 31));
            assert(on(nodes, env, diff@[31]) == bit_of(wsub(x, y), 31));
            assert(on(nodes, env, eq) == (x == y)) by {
                if on(nodes, env, eq) {
                    assert forall|i: int| 0 <= i < 32 implies #[trigger] bit_of(x, i) == bit_of(y, i) by {
                        assert(on(nodes, env, rs1@[i]) == on(nodes, env, rhs@[i]));
                        assert(on(nodes, env, rhs@[i]) == bit_of(y, i));
                    }
                    lemma_same_bits(x, y);
                } else {
                    let i = choose|i: int|
                        0 <= i < 32 && on(nodes, env, #[trigger] rs1@[i]) != on(nodes, env, rhs@[i]);
                    assert(on(nodes, env, rhs@[i]) == bit_of(y, i));
                }
            }
        }
    }
    ar
}

/// A word that carries 1 where `flag` is on, else 0.
fn widen(b: &CircuitBuilder, flag: Signal, zero: Signal) -> (w: Word)
    requires
        b.has(flag),
        b.has(zero),
    ensures
        word_in(b, w@),
        forall|nodes: Seq<Node>, env: Env|
            !on(nodes, env, zero) ==> #[trigger] wval(nodes, env, w@) == (if on(nodes, env, flag) {
                1u32
            } else {
                0u32
            }),
{
    let mut w: Word = Vec::new();
    w.push(flag);
    for i in 1..32usize
        invariant
            b.has(flag),
            b.has(zero),
            w@.len() == i,
            has_all(b, w@),
            w@[0] == flag,
            forall|k: int| 1 <= k < i ==> #[trigger] w@[k] == zero,
    {
        w.push(zero);
    }
    proof {
        assert forall|nodes: Seq<Node>, env: Env| !on(nodes, env, zero) implies #[trigger] wval(
            nodes,
            env,
            w@,
        ) == (if on(nodes, env, flag) {
            1u32
        } else {
            0u32
        }) by {
            let x: u32 = if on(nodes, env, flag) {
                1u32
            } else {
                0u32
            };
            assert forall|i: int| 0 <= i < 32 implies on(nodes, env, #[trigger] w@[i]) == bit_of(x, i) by {
                lemma_bits_of_logic(0, 0, i);
            }
            lemma_carries(nodes, env, w@, x);
        }
    }
    w
}

/// The funct3 field of an instruction, as wires.
pub open spec fn funct3_wires(instr: Seq<Signal>) -> Seq<Signal> {
    instr.subrange(12, 15)
}

/// The funct3 wires count the funct3 field.
proof fn lemma_funct3(nodes: Seq<Node>, env: Env, instr: Seq<Signal>)
    requires
        instr.len() == 32,
    ensures
        num(word_on(nodes, env, funct3_wires(instr))) == f3_of(wval(nodes, env, instr)),
        f3_of(wval(nodes, env, instr)) < 8,
{
    lemma_wval(nodes, env, instr);
    let v = word_on(nodes, env, instr);
    lemma_fields(v, wval(nodes, env, instr));
    assert(word_on(nodes, env, funct3_wires(instr)) =~= v.subrange(12, 15));
}

/// The shifters: `rs1` shifted left, and shifted right logically or, where
/// `alt` is on, arithmetically.
#[verifier::rlimit(40)]
fn shifters(b: &mut CircuitBuilder, alt: Signal, rs1: &Word, rhs: &Word) -> (res: (Word, Word))
    requires
        tidy(old(b)),
        old(b).has(alt),
        word_in(old(b), rs1@),
        word_in(old(b), rhs@),
        old(b).room(322),
    ensures
        tidy(final(b)),
        within(old(b), final(b), 322),
        word_in(final(b), res.0@),
        word_in(final(b), res.1@),
        forall|nodes: Seq<Node>, env: Env|
            keeps(final(b).net().nodes, nodes) ==> #[trigger] wval(nodes, env, res.0@) == wval(
                nodes,
                env,
                rs1@,
            ) << (wval(nodes, env, rhs@) & 31),
        forall|nodes: Seq<Node>, env: Env|
            keeps(final(b).net().nodes, nodes) ==> #[trigger] wval(nodes, env, res.1@) == if on(
                nodes,
                env,
                alt,
            ) {
                shift_right_arith(wval(nodes, env, rs1@), wval(nodes, env, rhs@) & 31)
            } else {
                wval(nodes, env, rs1@) >> (wval(nodes, env, rhs@) & 31)
            },
{
    let shamt = vstd::slice::slice_subrange(rhs.as_slice(), 0, 5);
    assert forall|i: int| 0 <= i < shamt@.len() implies b.has(#[trigger] shamt@[i]) by {
        assert(b.has(rhs@[i]));
    }
    let sll = rtl::shift_left(b, rs1.as_slice(), shamt);
    assert(b.has(rs1@[31]));
    let fill = b.and(alt, rs1[31]);
    let srx = rtl::shift_right(b, rs1.as_slice(), shamt, fill);
    proof {
        assert forall|nodes: Seq<Node>, env: Env| keeps(b.net().nodes, nodes) implies num(
            #[trigger] word_on(nodes, env, shamt@),
        ) == wval(nodes, env, rhs@) & 31 by {
            let y = wval(nodes, env, rhs@);
            lemma_wval(nodes, env, rhs@);
            let v = word_on(nodes, env, rhs@);
            crate::words::lemma_field(v, y, 0, 5);
            assert(v.subrange(0, 5) =~= word_on(nodes, env, shamt@));
            lemma_sign_and_not(y);
            lemma_sign_and_not(y >> 0u32);
            vstd::arithmetic::power2::lemma2_to64();
            assert(y >> 0u32 == y) by (bit_vector);
        }
        assert forall|nodes: Seq<Node>, env: Env| keeps(b.net().nodes, nodes) implies #[trigger] wval(
            nodes,
            env,
            sll@,
        ) == wval(nodes, env, rs1@) << (wval(nodes, env, rhs@) & 31) by {
            let x = wval(nodes, env, rs1@);
            let k = wval(nodes, env, rhs@) & 31;
            lemma_sign_and_not(wval(nodes, env, rhs@));
            lemma_wval(nodes, env, rs1@);
            assert(num(word_on(nodes, env, shamt@)) == k);
            assert forall|i: int| 0 <= i < 32 implies on(nodes, env, #[trigger] sll@[i]) == bit_of(x << k, i) by {
                lemma_bits_of_shifts(x, k, i);
                if i >= k {
                    assert(on(nodes, env, rs1@[i - k]) == bit_of(x, i - k));
                }
            }
            lemma_carries(nodes, env, sll@, x << k);
        }
        assert forall|nodes: Seq<Node>, env: Env| keeps(b.net().nodes, nodes) implies #[trigger] wval(
            nodes,
            env,
            srx@,
        ) == if on(nodes, env, alt) {
            shift_right_arith(wval(nodes, env, rs1@), wval(nodes, env, rhs@) & 31)
        } else {
            wval(nodes, env, rs1@) >> (wval(nodes, env, rhs@) & 31)
        } by {
            let x = wval(nodes, env, rs1@);
            let k = wval(nodes, env, rhs@) & 31;
            lemma_sign_and_not(wval(nodes, env, rhs@));
            lemma_wval(nodes, env, rs1@);
            assert(num(word_on(nodes, env, shamt@)) == k);
            let r = if on(nodes, env, alt) {
                shift_right_arith(x, k)
            } else {
                x >> k
            };
            assert(on(nodes, env, rs1@[31]) == bit_of(x, 31));
            assert forall|i: int| 0 <= i < 32 implies on(nodes, env, #[trigger] srx@[i]) == bit_of(r, i) by {
                lemma_bits_of_shifts(x, k, i);
                if i + k < 32 {
                    assert(on(nodes, env, rs1@[i + k]) == bit_of(x, i + k));
                }
            }
            lemma_carries(nodes, env, srx@, r);
        }
    }
    (sll, srx)
}

/// XOR, OR and AND of two words.
#[verifier::rlimit(40)]
fn logic(b: &mut CircuitBuilder, rs1: &Word, rhs: &Word) -> (res: (Word, Word, Word))
    requires
        tidy(old(b)),
        word_in(old(b), rs1@),
        word_in(old(b), rhs@),
        old(b).room(96),
    ensures
        tidy(final(b)),
        within(old(b), final(b), 96),
        word_in(final(b), res.0@),
        word_in(final(b), res.1@),
        word_in(final(b), res.2@),
        forall|nodes: Seq<Node>, env: Env|
            keeps(final(b).net().nodes, nodes) ==> #[trigger] wval(nodes, env, res.0@) == wval(
                nodes,
                env,
                rs1@,
            ) ^ wval(nodes, env, rhs@),
        forall|nodes: Seq<Node>, env: Env|
            keeps(final(b).net().nodes, nodes) ==> #[trigger] wval(nodes, env, res.1@) == wval(
                nodes,
                env,
                rs1@,
            ) | wval(nodes, env, rhs@),
        forall|nodes: Seq<Node>, env: Env|
            keeps(final(b).net().nodes, nodes) ==> #[trigger] wval(nodes, env, res.2@) == wval(
                nodes,
                env,
                rs1@,
            ) & wval(nodes, env, rhs@),
{
    let xor_w = rtl::word_xor(b, rs1.as_slice(), rhs.as_slice());
    let or_w = rtl::word_or(b, rs1.as_slice(), rhs.as_slice());
    let and_w = rtl::word_and(b, rs1.as_slice(), rhs.as_slice());
    proof {
        assert forall|nodes: Seq<Node>, env: Env| keeps(b.net().nodes, nodes) implies #[trigger] wval(
            nodes,
            env,
            xor_w@,
        ) == wval(nodes, env, rs1@) ^ wval(nodes, env, rhs@) by {
            let (x, y) = (wval(nodes, env, rs1@), wval(nodes, env, rhs@));
            lemma_wval(nodes, env, rs1@);
            lemma_wval(nodes, env, rhs@);
            assert forall|i: int| 0 <= i < 32 implies on(nodes, env, #[trigger] xor_w@[i]) == bit_of(x ^ y, i) by {
                lemma_bits_of_logic(x, y, i);
                assert(on(nodes, env, rs1@[i]) == bit_of(x, i));
                assert(on(nodes, env, rhs@[i]) == bit_of(y, i));
            }
            lemma_carries(nodes, env, xor_w@, x ^ y);
        }
        assert forall|nodes: Seq<Node>, env: Env| keeps(b.net().nodes, nodes) implies #[trigger] wval(
            nodes,
            env,
            or_w@,
        ) == wval(nodes, env, rs1@) | wval(nodes, env, rhs@) by {
            let (x, y) = (wval(nodes, env, rs1@), wval(nodes, env, rhs@));
            lemma_wval(nodes, env, rs1@);
            lemma_wval(nodes, env, rhs@);
            assert forall|i: int| 0 <= i < 32 implies on(nodes, env, #[trigger] or_w@[i]) == bit_of(x | y, i) by {
                lemma_bits_of_logic(x, y, i);
                assert(on(nodes, env, rs1@[i]) == bit_of(x, i));
                assert(on(nodes, env, rhs@[i]) == bit_of(y, i));
            }
            lemma_carries(nodes, env, or_w@, x | y);
        }
        assert forall|nodes: Seq<Node>, env: Env| keeps(b.net().nodes, nodes) implies #[trigger] wval(
            nodes,
            env,
            and_w@,
        ) == wval(nodes, env, rs1@) & wval(nodes, env, rhs@) by {
            let (x, y) = (wval(nodes, env, rs1@), wval(nodes, env, rhs@));
            lemma_wval(nodes, env, rs1@);
            lemma_wval(nodes, env, rhs@);
            assert forall|i: int| 0 <= i < 32 implies on(nodes, env, #[trigger] and_w@[i]) == bit_of(x & y, i) by {
                lemma_bits_of_logic(x, y, i);
                assert(on(nodes, env, rs1@[i]) == bit_of(x, i));
                assert(on(nodes, env, rhs@[i]) == bit_of(y, i));
            }
            lemma_carries(nodes, env, and_w@, x & y);
        }
    }
    (xor_w, or_w, and_w)
}

/// The funct3-indexed result; only consumed by OP/OP-IMM writeback (loads
/// and JALR take `add_sub` directly, dodging the funct3 clash).
#[verifier::rlimit(60)]
pub fn alu_result(
    b: &mut CircuitBuilder,
    instr: &Word,
    rs1: &Word,
    rhs: &Word,
    ar: &Arith,
    zero: Signal,
) -> (w: Word)
    requires
        tidy(old(b)),
        word_in(old(b), instr@),
        word_in(old(b), rs1@),
        word_in(old(b), rhs@),
        word_in(old(b), ar.add_sub@),
        old(b).has(ar.lt),
        old(b).has(ar.ltu),
        old(b).has(zero),
        old(b).room(642),
    ensures
        tidy(final(b)),
        within(old(b), final(b), 642),
        word_in(final(b), w@),
        forall|nodes: Seq<Node>, env: Env, subtract: bool|
            keeps(final(b).net().nodes, nodes) && !on(nodes, env, zero) && #[trigger] arith_ok(
                nodes,
                env,
                *ar,
                subtract,
                wval(nodes, env, rs1@),
                wval(nodes, env, rhs@),
            ) ==> wval(nodes, env, w@) == alu(
                f3_of(wval(nodes, env, instr@)),
                wval(nodes, env, rs1@),
                wval(nodes, env, rhs@),
                subtract,
                bit_of(wval(nodes, env, instr@), 30),
            ),
{
    let slt_w = widen(b, ar.lt, zero);
    let sltu_w = widen(b, ar.ltu, zero);
    assert(b.has(instr@[30]));
    let (sll, srx) = shifters(b, instr[30], rs1, rhs);
    let (xor_w, or_w, and_w) = logic(b, rs1, rhs);
    let funct3 = vstd::slice::slice_subrange(instr.as_slice(), 12, 15);
    assert(funct3@ == funct3_wires(instr@));
    assert forall|i: int| 0 <= i < funct3@.len() implies b.has(#[trigger] funct3@[i]) by {
        assert(b.has(instr@[12 + i]));
    }
    let add_sub = same_wires(ar.add_sub.as_slice());
    let items: Vec<Word> = vec![add_sub, sll, slt_w, sltu_w, xor_w, srx, or_w, and_w];
    proof {
        vstd::arithmetic::power2::lemma2_to64();
        assert forall|k: int| 0 <= k < items@.len() implies (#[trigger] items@[k])@.len() == 32 && has_all(
            b,
            items@[k]@,
        ) by {
            assert(word_in(b, items@[0]@));
            assert(word_in(b, items@[1]@));
            assert(word_in(b, items@[2]@));
            assert(word_in(b, items@[3]@));
            assert(word_in(b, items@[4]@));
            assert(word_in(b, items@[5]@));
            assert(word_in(b, items@[6]@));
            assert(word_in(b, items@[7]@));
            assert(k == 0 || k == 1 || k == 2 || k == 3 || k == 4 || k == 5 || k == 6 || k == 7);
        }
    }
    let w = select32(b, funct3, items.as_slice());
    proof {
        assert forall|nodes: Seq<Node>, env: Env, subtract: bool|
            keeps(b.net().nodes, nodes) && !on(nodes, env, zero) && #[trigger] arith_ok(
                nodes,
                env,
                *ar,
                subtract,
                wval(nodes, env, rs1@),
                wval(nodes, env, rhs@),
            ) implies wval(nodes, env, w@) == alu(
            f3_of(wval(nodes, env, instr@)),
            wval(nodes, env, rs1@),
            wval(nodes, env, rhs@),
            subtract,
            bit_of(wval(nodes, env, instr@), 30),
        ) by {
            lemma_funct3(nodes, env, instr@);
            lemma_wval(nodes, env, instr@);
            assert(on(nodes, env, instr@[30]) == bit_of(wval(nodes, env, instr@), 30));
            let k = f3_of(wval(nodes, env, instr@)) as int;
            assert(wval(nodes, env, w@) == wval(nodes, env, items@[k]@));
            assert(k == 0 || k == 1 || k == 2 || k == 3 || k == 4 || k == 5 || k == 6 || k == 7);
        }
    }
    w
}

/// A word shifted right by a fixed number of places: wiring only.
fn wired_right(b: &CircuitBuilder, w: &Word, by: usize, zero: Signal) -> (r: Word)
    requires
        word_in(b, w@),
        b.has(zero),
        by < 32,
    ensures
        word_in(b, r@),
        forall|nodes: Seq<Node>, env: Env|
            !on(nodes, env, zero) ==> #[trigger] wval(nodes, env, r@) == wval(nodes, env, w@) >> (by as u32),
{
    let mut r: Word = Vec::new();
    for i in 0..32usize
        invariant
            word_in(b, w@),
            b.has(zero),
            by < 32,
            r@.len() == i,
            has_all(b, r@),
            forall|k: int|
                0 <= k < i ==> #[trigger] r@[k] == if k + by < 32 {
                    w@[k + by]
                } else {
                    zero
                },
    {
        if i + by < 32 {
            assert(b.has(w@[i + by]));
            r.push(w[i + by]);
        } else {
            r.push(zero);
        }
    }
    proof {
        assert forall|nodes: Seq<Node>, env: Env| !on(nodes, env, zero) implies #[trigger] wval(
            nodes,
            env,
            r@,
        ) == wval(nodes, env, w@) >> (by as u32) by {
            let x = wval(nodes, env, w@);
            lemma_wval(nodes, env, w@);
            assert forall|i: int| 0 <= i < 32 implies on(nodes, env, #[trigger] r@[i]) == bit_of(
                x >> (by as u32),
                i,
            ) by {
                lemma_bits_of_shifts(x, by as u32, i);
            }
            lemma_carries(nodes, env, r@, x >> (by as u32));
        }
    }
    r
}

/// A word shifted left by a fixed number of places: wiring only.
fn wired_left(b: &CircuitBuilder, w: &Word, by: usize, zero: Signal) -> (r: Word)
    requires
        word_in(b, w@),
        b.has(zero),
        by < 32,
    ensures
        word_in(b, r@),
        forall|nodes: Seq<Node>, env: Env|
            !on(nodes, env, zero) ==> #[trigger] wval(nodes, env, r@) == wval(nodes, env, w@) << (by as u32),
{
    let mut r: Word = Vec::new();
    for i in 0..32usize
        invariant
            word_in(b, w@),
            b.has(zero),
            by < 32,
            r@.len() == i,
            has_all(b, r@),
            forall|k: int|
                0 <= k < i ==> #[trigger] r@[k] == if k >= by {
                    w@[k - by]
                } else {
                    zero
                },
    {
        if i >= by {
            assert(b.has(w@[i - by]));
            r.push(w[i - by]);
        } else {
            r.push(zero);
        }
    }
    proof {
        assert forall|nodes: Seq<Node>, env: Env| !on(nodes, env, zero) implies #[trigger] wval(
            nodes,
            env,
            r@,
        ) == wval(nodes, env, w@) << (by as u32) by {
            let x = wval(nodes, env, w@);
            lemma_wval(nodes, env, w@);
            assert forall|i: int| 0 <= i < 32 implies on(nodes, env, #[trigger] r@[i]) == bit_of(
                x << (by as u32),
                i,
            ) by {
                lemma_bits_of_shifts(x, by as u32, i);
            }
            lemma_carries(nodes, env, r@, x << (by as u32));
        }
    }
    r
}

/// The low `n` wires of a word, the rest taking `fill`.
fn extended(b: &CircuitBuilder, w: &Word, n: usize, fill: Signal) -> (r: Word)
    requires
        word_in(b, w@),
        b.has(fill),
    ensures
        word_in(b, r@),
        forall|k: int|
            0 <= k < 32 ==> #[trigger] r@[k] == if k < n {
                w@[k]
            } else {
                fill
            },
{
    let mut r: Word = Vec::new();
    for i in 0..32usize
        invariant
            word_in(b, w@),
            b.has(fill),
            r@.len() == i,
            has_all(b, r@),
            forall|k: int|
                0 <= k < i ==> #[trigger] r@[k] == if k < n {
                    w@[k]
                } else {
                    fill
                },
    {
        assert(b.has(w@[i as int]));
        r.push(if i < n {
            w[i]
        } else {
            fill
        });
    }
    r
}

proof fn lemma_two_shifts(x: u32)
    by (bit_vector)
    ensures
        (x >> 8u32) >> 16u32 == x >> 24u32,
        (x << 8u32) << 16u32 == x << 24u32,
        x >> 0u32 == x,
        x << 0u32 == x,
{
}

/// The two low address bits shift by whole bytes.
proof fn lemma_byte_shift(nodes: Seq<Node>, env: Env, addr: Seq<Signal>, x: u32)
    requires
        addr.len() == 32,
    ensures
        (if on(nodes, env, addr[1]) {
            (if on(nodes, env, addr[0]) {
                x >> 8u32
            } else {
                x
            }) >> 16u32
        } else {
            (if on(nodes, env, addr[0]) {
                x >> 8u32
            } else {
                x
            })
        }) == x >> byte_shift(wval(nodes, env, addr)),
        (if on(nodes, env, addr[1]) {
            (if on(nodes, env, addr[0]) {
                x << 8u32
            } else {
                x
            }) << 16u32
        } else {
            (if on(nodes, env, addr[0]) {
                x << 8u32
            } else {
                x
            })
        }) == x << byte_shift(wval(nodes, env, addr)),
{
    lemma_two_shifts(x);
    lemma_wval(nodes, env, addr);
    let a = wval(nodes, env, addr);
    let v = word_on(nodes, env, addr);
    lemma_low_two(v, a);
    lemma_sign_and_not(a);
    assert(v[0] == on(nodes, env, addr[0]));
    assert(v[1] == on(nodes, env, addr[1]));
}

/// Loads: read the addressed word, shift it right by the byte offset (zero
/// fill), then select width and sign extension by funct3.
#[verifier::rlimit(60)]
pub fn load_path(
    b: &mut CircuitBuilder,
    instr: &Word,
    addr: &Word,
    mem_words: &Vec<Word>,
    ram_bits: usize,
    zero: Signal,
) -> (res: (Word, Word))
    requires
        tidy(old(b)),
        word_in(old(b), instr@),
        word_in(old(b), addr@),
        old(b).has(zero),
        ram_bits <= 30,
        mem_words@.len() == pow2(ram_bits as nat),
        table_ok(old(b), mem_words@, 32),
        old(b).room((mem_words@.len() - 1) * 32 + 288),
    ensures
        tidy(final(b)),
        within(old(b), final(b), (mem_words@.len() - 1) * 32 + 288),
        word_in(final(b), res.0@),
        word_in(final(b), res.1@),
        forall|nodes: Seq<Node>, env: Env|
            keeps(final(b).net().nodes, nodes) ==> #[trigger] wval(nodes, env, res.0@) == wval(
                nodes,
                env,
                mem_words@[word_index(wval(nodes, env, addr@), mem_words@.len())]@,
            ),
        forall|nodes: Seq<Node>, env: Env|
            keeps(final(b).net().nodes, nodes) && !on(nodes, env, zero) ==> #[trigger] wval(
                nodes,
                env,
                res.1@,
            ) == load_value(
                f3_of(wval(nodes, env, instr@)),
                wval(nodes, env, res.0@) >> byte_shift(wval(nodes, env, addr@)),
            ),
{
    proof {
        vstd::arithmetic::power2::lemma_pow2_pos(ram_bits as nat);
    }
    let sel = vstd::slice::slice_subrange(addr.as_slice(), 2, 2 + ram_bits);
    assert forall|i: int| 0 <= i < sel@.len() implies b.has(#[trigger] sel@[i]) by {
        assert(b.has(addr@[2 + i]));
    }
    let mem_word = select32(b, sel, mem_words.as_slice());
    assert(b.has(addr@[0]) && b.has(addr@[1]));
    let by8 = wired_right(b, &mem_word, 8, zero);
    let half_shift = mux32(b, addr[0], &by8, &mem_word);
    let by16 = wired_right(b, &half_shift, 16, zero);
    let lane = mux32(b, addr[1], &by16, &half_shift);
    assert(b.has(lane@[7]) && b.has(lane@[15]));
    let lb = extended(b, &lane, 8, lane[7]);
    let lh = extended(b, &lane, 16, lane[15]);
    let lbu = extended(b, &lane, 8, zero);
    let lhu = extended(b, &lane, 16, zero);
    let funct3 = vstd::slice::slice_subrange(instr.as_slice(), 12, 15);
    assert(funct3@ == funct3_wires(instr@));
    assert forall|i: int| 0 <= i < funct3@.len() implies b.has(#[trigger] funct3@[i]) by {
        assert(b.has(instr@[12 + i]));
    }
    let l2 = same_wires(lane.as_slice());
    let l3 = same_wires(lane.as_slice());
    let l6 = same_wires(lane.as_slice());
    let l7 = same_wires(lane.as_slice());
    let items: Vec<Word> = vec![lb, lh, l2, l3, lbu, lhu, l6, l7];
    proof {
        vstd::arithmetic::power2::lemma2_to64();
        assert forall|k: int| 0 <= k < items@.len() implies (#[trigger] items@[k])@.len() == 32 && has_all(
            b,
            items@[k]@,
        ) by {
            assert(word_in(b, items@[0]@));
            assert(word_in(b, items@[1]@));
            assert(word_in(b, items@[2]@));
            assert(word_in(b, items@[3]@));
            assert(word_in(b, items@[4]@));
            assert(word_in(b, items@[5]@));
            assert(word_in(b, items@[6]@));
            assert(word_in(b, items@[7]@));
            assert(k == 0 || k == 1 || k == 2 || k == 3 || k == 4 || k == 5 || k == 6 || k == 7);
        }
    }
    let load_data = select32(b, funct3, items.as_slice());
    proof {
        assert forall|nodes: Seq<Node>, env: Env| keeps(b.net().nodes, nodes) implies #[trigger] wval(
            nodes,
            env,
            mem_word@,
        ) == wval(nodes, env, mem_words@[word_index(wval(nodes, env, addr@), mem_words@.len())]@) by {
            let v = word_on(nodes, env, addr@);
            lemma_wval(nodes, env, addr@);
            lemma_word_select(v, wval(nodes, env, addr@), ram_bits as nat);
            assert(word_on(nodes, env, sel@) =~= v.subrange(2, 2 + ram_bits as int));
        }
        assert forall|nodes: Seq<Node>, env: Env|
            keeps(b.net().nodes, nodes) && !on(nodes, env, zero) implies #[trigger] wval(
            nodes,
            env,
            load_data@,
        ) == load_value(
            f3_of(wval(nodes, env, instr@)),
            wval(nodes, env, mem_word@) >> byte_shift(wval(nodes, env, addr@)),
        ) by {
            lemma_funct3(nodes, env, instr@);
            let f3 = f3_of(wval(nodes, env, instr@));
            let k = f3 as int;
            assert(wval(nodes, env, load_data@) == wval(nodes, env, items@[k]@));
            lemma_byte_shift(nodes, env, addr@, wval(nodes, env, mem_word@));
            let l = wval(nodes, env, lane@);
            assert(wval(nodes, env, half_shift@) == if on(nodes, env, addr@[0]) {
                wval(nodes, env, mem_word@) >> 8u32
            } else {
                wval(nodes, env, mem_word@)
            });
            assert(l == wval(nodes, env, mem_word@) >> byte_shift(wval(nodes, env, addr@)));
            lemma_wval(nodes, env, lane@);
            assert(on(nodes, env, lane@[7]) == bit_of(l, 7));
            assert(on(nodes, env, lane@[15]) == bit_of(l, 15));
            let it = items@[k]@;
            assert forall|i: int| 0 <= i < 32 implies on(nodes, env, #[trigger] it[i]) == bit_of(
                load_value(f3, l),
                i,
            ) by {
                lemma_bits_of_load(f3, l, i);
                assert(on(nodes, env, lane@[i]) == bit_of(l, i));
                assert(k == 0 || k == 1 || k == 2 || k == 3 || k == 4 || k == 5 || k == 6 || k == 7);
            }
            lemma_carries(nodes, env, it, load_value(f3, l));
        }
    }
    (mem_word, load_data)
}

/// The lines of a funct3 decoder.
pub open spec fn f3_lines(nodes: Seq<Node>, env: Env, f3d: Seq<Signal>, f3: u32) -> bool {
    forall|k: int| 0 <= k < 8 ==> on(nodes, env, #[trigger] f3d[k]) == (f3 == k)
}

/// Decode funct3.
pub fn decode_funct3(b: &mut CircuitBuilder, instr: &Word) -> (f3d: Vec<Signal>)
    requires
        tidy(old(b)),
        word_in(old(b), instr@),
        old(b).room(18),
    ensures
        tidy(final(b)),
        within(old(b), final(b), 18),
        f3d@.len() == 8,
        has_all(final(b), f3d@),
        forall|nodes: Seq<Node>, env: Env|
            keeps(final(b).net().nodes, nodes) ==> #[trigger] f3_lines(
                nodes,
                env,
                f3d@,
                f3_of(wval(nodes, env, instr@)),
            ),
{
    let funct3 = vstd::slice::slice_subrange(instr.as_slice(), 12, 15);
    assert(funct3@ == funct3_wires(instr@));
    assert forall|i: int| 0 <= i < funct3@.len() implies b.has(#[trigger] funct3@[i]) by {
        assert(b.has(instr@[12 + i]));
    }
    proof {
        vstd::arithmetic::power2::lemma2_to64();
        reveal_with_fuel(rtl::decoder_size, 4);
    }
    let f3d = rtl::decoder(b, funct3);
    proof {
        assert forall|nodes: Seq<Node>, env: Env| keeps(b.net().nodes, nodes) implies #[trigger] f3_lines(
            nodes,
            env,
            f3d@,
            f3_of(wval(nodes, env, instr@)),
        ) by {
            lemma_funct3(nodes, env, instr@);
        }
    }
    f3d
}

/// The byte enables of a store.
pub open spec fn enables(nodes: Seq<Node>, env: Env, byte_en: Seq<Signal>, f3: u32, addr: u32) -> bool {
    forall|j: int| 0 <= j < 4 ==> on(nodes, env, #[trigger] byte_en[j]) == store_enabled(f3, addr, j)
}

/// Which bytes a store replaces.
#[verifier::rlimit(40)]
fn byte_enables(b: &mut CircuitBuilder, f3d: &Vec<Signal>, addr: &Word) -> (byte_en: Vec<Signal>)
    requires
        tidy(old(b)),
        f3d@.len() == 8,
        has_all(old(b), f3d@),
        word_in(old(b), addr@),
        old(b).room(26),
    ensures
        tidy(final(b)),
        within(old(b), final(b), 26),
        byte_en@.len() == 4,
        has_all(final(b), byte_en@),
        forall|nodes: Seq<Node>, env: Env, f3: u32|
            keeps(final(b).net().nodes, nodes) && f3_lines(nodes, env, f3d@, f3) ==> #[trigger] enables(
                nodes,
                env,
                byte_en@,
                f3,
                wval(nodes, env, addr@),
            ),
{
    proof {
        vstd::arithmetic::power2::lemma2_to64();
        reveal_with_fuel(rtl::decoder_size, 3);
    }
    assert(b.has(addr@[0]) && b.has(addr@[1]));
    let (addr0, addr1) = (addr[0], addr[1]);
    let low = vstd::slice::slice_subrange(addr.as_slice(), 0, 2);
    assert forall|i: int| 0 <= i < low@.len() implies b.has(#[trigger] low@[i]) by {
        assert(b.has(addr@[i]));
    }
    let off_dec = rtl::decoder(b, low);
    let not_a1 = b.not(addr1);
    let ghost b1 = *b;
    let mut byte_en: Vec<Signal> = Vec::new();
    for j in 0..4usize
        invariant
            tidy(b),
            f3d@.len() == 8,
            has_all(&b1, f3d@),
            b1.has(addr1),
            b1.has(not_a1),
            off_dec@.len() == 4,
            has_all(&b1, off_dec@),
            b1.room(16),
            built(&b1, b, 4 * j),
            byte_en@.len() == j,
            has_all(b, byte_en@),
            forall|nodes: Seq<Node>, env: Env, k: int|
                keeps(b.net().nodes, nodes) && 0 <= k < j ==> #[trigger] on(nodes, env, byte_en@[k]) == (on(
                    nodes,
                    env,
                    f3d@[2],
                ) || (on(nodes, env, f3d@[1]) && on(
                    nodes,
                    env,
                    if k < 2 {
                        not_a1
                    } else {
                        addr1
                    },
                )) || (on(nodes, env, f3d@[0]) && on(nodes, env, off_dec@[k]))),
    {
        assert(b1.has(f3d@[0]) && b1.has(f3d@[1]) && b1.has(f3d@[2]) && b1.has(off_dec@[j as int]));
        let half = if j < 2 {
            not_a1
        } else {
            addr1
        };
        let h_en = b.and(f3d[1], half);
        let b_en = b.and(f3d[0], off_dec[j]);
        let wide = b.or(f3d[2], h_en);
        let en = b.or(wide, b_en);
        byte_en.push(en);
    }
    proof {
        assert forall|nodes: Seq<Node>, env: Env, f3: u32|
            keeps(b.net().nodes, nodes) && f3_lines(nodes, env, f3d@, f3) implies #[trigger] enables(
            nodes,
            env,
            byte_en@,
            f3,
            wval(nodes, env, addr@),
        ) by {
            let a = wval(nodes, env, addr@);
            lemma_wval(nodes, env, addr@);
            let v = word_on(nodes, env, addr@);
            lemma_low_two(v, a);
            assert(v[0] == on(nodes, env, addr0));
            assert(v[1] == on(nodes, env, addr1));
            assert(bit_of(a, 1) == v[1]);
            let vl = word_on(nodes, env, low@);
            assert(vl =~= seq![v[0], v[1]]);
            assert(num(vl) == a % 4) by {
                reveal_with_fuel(num, 3);
                assert(vl.drop_last() =~= seq![v[0]]);
                assert(vl.drop_last().drop_last() =~= Seq::<bool>::empty());
                vstd::arithmetic::power2::lemma2_to64();
            }
            assert(keeps(b1.net().nodes, nodes));
            assert(on(nodes, env, not_a1) == !on(nodes, env, addr1));
            assert forall|j: int| 0 <= j < 4 implies on(nodes, env, #[trigger] byte_en@[j]) == store_enabled(
                f3,
                a,
                j,
            ) by {
                assert(on(nodes, env, f3d@[0]) == (f3 == 0));
                assert(on(nodes, env, f3d@[1]) == (f3 == 1));
                assert(on(nodes, env, f3d@[2]) == (f3 == 2));
                assert(on(nodes, env, off_dec@[j]) == (num(vl) == j));
            }
        }
    }
    byte_en
}

/// Stores: shift the source left into its byte lane, then merge the enabled
/// bytes into the addressed word.
#[verifier::rlimit(60)]
pub fn store_path(
    b: &mut CircuitBuilder,
    f3d: &Vec<Signal>,
    addr: &Word,
    rs2: &Word,
    mem_word: &Word,
    zero: Signal,
) -> (merged: Word)
    requires
        tidy(old(b)),
        f3d@.len() == 8,
        has_all(old(b), f3d@),
        word_in(old(b), addr@),
        word_in(old(b), rs2@),
        word_in(old(b), mem_word@),
        old(b).has(zero),
        old(b).room(122),
    ensures
        tidy(final(b)),
        within(old(b), final(b), 122),
        word_in(final(b), merged@),
        forall|nodes: Seq<Node>, env: Env, f3: u32|
            keeps(final(b).net().nodes, nodes) && !on(nodes, env, zero) && #[trigger] f3_lines(
                nodes,
                env,
                f3d@,
                f3,
            ) ==> wval(nodes, env, merged@) == store_merge(
                f3,
                wval(nodes, env, addr@),
                wval(nodes, env, mem_word@),
                wval(nodes, env, rs2@),
            ),
{
    assert(b.has(addr@[0]) && b.has(addr@[1]));
    let s_by8 = wired_left(b, rs2, 8, zero);
    let s_half = mux32(b, addr[0], &s_by8, rs2);
    let s_by16 = wired_left(b, &s_half, 16, zero);
    let sdata = mux32(b, addr[1], &s_by16, &s_half);
    let byte_en = byte_enables(b, f3d, addr);
    let ghost b1 = *b;
    let mut merged: Word = Vec::new();
    for i in 0..32usize
        invariant
            tidy(b),
            byte_en@.len() == 4,
            has_all(&b1, byte_en@),
            word_in(&b1, sdata@),
            word_in(&b1, mem_word@),
            b1.room(32),
            built(&b1, b, i as int),
            merged@.len() == i,
            has_all(b, merged@),
            forall|nodes: Seq<Node>, env: Env, k: int|
                keeps(b.net().nodes, nodes) && 0 <= k < i ==> #[trigger] on(nodes, env, merged@[k]) == if on(
                    nodes,
                    env,
                    byte_en@[k / 8],
                ) {
                    on(nodes, env, sdata@[k])
                } else {
                    on(nodes, env, mem_word@[k])
                },
    {
        assert(b1.has(byte_en@[i as int / 8]) && b1.has(sdata@[i as int]) && b1.has(mem_word@[i as int]));
        let m = b.mux(byte_en[i / 8], sdata[i], mem_word[i]);
        merged.push(m);
    }
    proof {
        assert forall|nodes: Seq<Node>, env: Env, f3: u32|
            keeps(b.net().nodes, nodes) && !on(nodes, env, zero) && #[trigger] f3_lines(
                nodes,
                env,
                f3d@,
                f3,
            ) implies wval(nodes, env, merged@) == store_merge(
            f3,
            wval(nodes, env, addr@),
            wval(nodes, env, mem_word@),
            wval(nodes, env, rs2@),
        ) by {
            let a = wval(nodes, env, addr@);
            let m = wval(nodes, env, mem_word@);
            let d = wval(nodes, env, rs2@);
            assert(keeps(b1.net().nodes, nodes));
            assert(enables(nodes, env, byte_en@, f3, a));
            lemma_byte_shift(nodes, env, addr@, d);
            assert(wval(nodes, env, s_half@) == if on(nodes, env, addr@[0]) {
                d << 8u32
            } else {
                d
            });
            assert(wval(nodes, env, sdata@) == d << byte_shift(a));
            lemma_wval(nodes, env, sdata@);
            lemma_wval(nodes, env, mem_word@);
            let r = store_merge(f3, a, m, d);
            assert forall|i: int| 0 <= i < 32 implies on(nodes, env, #[trigger] merged@[i]) == bit_of(r, i) by {
                lemma_bits_of_store(f3, a, m, d, i);
                assert(on(nodes, env, sdata@[i]) == bit_of(d << byte_shift(a), i));
                assert(on(nodes, env, mem_word@[i]) == bit_of(m, i));
                assert(on(nodes, env, byte_en@[i / 8]) == store_enabled(f3, a, i / 8));
            }
            lemma_carries(nodes, env, merged@, r);
        }
    }
    merged
}

/// The three funct3 bits, and the branch condition made of them.
proof fn lemma_branch(nodes: Seq<Node>, env: Env, instr: Seq<Signal>, x: u32, y: u32)
    requires
        instr.len() == 32,
    ensures
        branch_taken(f3_of(wval(nodes, env, instr)), x, y) == ((if on(nodes, env, instr[14]) {
            if on(nodes, env, instr[13]) {
                x < y
            } else {
                signed(x) < signed(y)
            }
        } else {
            x == y
        }) != on(nodes, env, instr[12])),
{
    lemma_funct3(nodes, env, instr);
    let v = word_on(nodes, env, funct3_wires(instr));
    let (v0, v1, v2) = (on(nodes, env, instr[12]), on(nodes, env, instr[13]), on(nodes, env, instr[14]));
    assert(v =~= seq![v0, v1, v2]);
    reveal_with_fuel(num, 4);
    vstd::arithmetic::power2::lemma2_to64();
    assert(v.drop_last() =~= seq![v0, v1]);
    assert(v.drop_last().drop_last() =~= seq![v0]);
    assert(v.drop_last().drop_last().drop_last() =~= Seq::<bool>::empty());
}

/// Addition of two words, carry discarded.
fn add32(b: &mut CircuitBuilder, x: &Word, y: &Word) -> (w: Word)
    requires
        tidy(old(b)),
        word_in(old(b), x@),
        word_in(old(b), y@),
        old(b).room(161),
    ensures
        tidy(final(b)),
        within(old(b), final(b), 161),
        word_in(final(b), w@),
        forall|nodes: Seq<Node>, env: Env|
            keeps(final(b).net().nodes, nodes) ==> #[trigger] wval(nodes, env, w@) == wadd(
                wval(nodes, env, x@),
                wval(nodes, env, y@),
            ),
{
    let w = rtl::add(b, x.as_slice(), y.as_slice());
    proof {
        assert forall|nodes: Seq<Node>, env: Env| keeps(b.net().nodes, nodes) implies #[trigger] wval(
            nodes,
            env,
            w@,
        ) == wadd(wval(nodes, env, x@), wval(nodes, env, y@)) by {
            lemma_wval(nodes, env, x@);
            lemma_wval(nodes, env, y@);
            lemma_wval(nodes, env, w@);
            let (vx, vy) = (word_on(nodes, env, x@), word_on(nodes, env, y@));
            assert(vx.take(32) =~= vx);
            assert(vy.take(32) =~= vy);
            vstd::arithmetic::power2::lemma2_to64();
            assert(num(word_on(nodes, env, w@)) == (num(vx) + num(vy)) % pow2(32));
        }
    }
    w
}

/// Where the program continues.
pub struct NextPc {
    pub next: Word,
    pub pc4: Word,
    pub target: Word,
    pub any_jal: Signal,
}

/// What the program-counter wires carry, `pc` being the current one and `x`,
/// `y` the operands that the comparator sees.
pub open spec fn next_pc_ok(
    nodes: Seq<Node>,
    env: Env,
    np: NextPc,
    fl: Flags,
    im: Imms,
    w: u32,
    pc: u32,
    sum: u32,
    x: u32,
    y: u32,
) -> bool {
    let jal = on(nodes, env, fl.jal);
    let jalr = on(nodes, env, fl.jalr);
    let offset = if on(nodes, env, fl.auipc) {
        wval(nodes, env, im.u@)
    } else if jal {
        wval(nodes, env, im.j@)
    } else {
        wval(nodes, env, im.b@)
    };
    &&& wval(nodes, env, np.pc4@) == wadd(pc, 4)
    &&& wval(nodes, env, np.target@) == wadd(pc, offset)
    &&& on(nodes, env, np.any_jal) == (jal || jalr)
    &&& wval(nodes, env, np.next@) == (if jalr {
        sum & !1u32
    } else if jal || (on(nodes, env, fl.branch) && branch_taken(f3_of(w), x, y)) {
        wadd(pc, offset)
    } else {
        wadd(pc, 4)
    })
}

/// A constant word.
fn const32(b: &mut CircuitBuilder, value: u32) -> (w: Word)
    requires
        tidy(old(b)),
        old(b).source_room(32),
    ensures
        tidy(final(b)),
        built(old(b), final(b), 32),
        final(b).gates() == old(b).gates(),
        word_in(final(b), w@),
        forall|nodes: Seq<Node>, env: Env|
            keeps(final(b).net().nodes, nodes) ==> #[trigger] wval(nodes, env, w@) == value,
{
    let w = rtl::constant(b, value);
    proof {
        assert forall|nodes: Seq<Node>, env: Env| keeps(b.net().nodes, nodes) implies #[trigger] wval(
            nodes,
            env,
            w@,
        ) == value by {
            lemma_carries(nodes, env, w@, value);
        }
    }
    w
}

/// Next pc: beq/bne use eq, blt/bge signed less-than, bltu/bgeu unsigned;
/// funct3 bit 0 inverts the condition.
#[verifier::rlimit(80)]
pub fn next_pc(
    b: &mut CircuitBuilder,
    instr: &Word,
    pc: &Word,
    fl: &Flags,
    im: &Imms,
    ar: &Arith,
    zero: Signal,
) -> (np: NextPc)
    requires
        tidy(old(b)),
        word_in(old(b), instr@),
        word_in(old(b), pc@),
        has_flags(old(b), *fl),
        has_imms(old(b), *im),
        word_in(old(b), ar.add_sub@),
        old(b).has(ar.lt),
        old(b).has(ar.ltu),
        old(b).has(ar.eq),
        old(b).has(zero),
        old(b).room(500),
    ensures
        tidy(final(b)),
        within(old(b), final(b), 500),
        word_in(final(b), np.next@),
        word_in(final(b), np.pc4@),
        word_in(final(b), np.target@),
        final(b).has(np.any_jal),
        forall|nodes: Seq<Node>, env: Env, subtract: bool, x: u32, y: u32|
            keeps(final(b).net().nodes, nodes) && !on(nodes, env, zero) && #[trigger] arith_ok(
                nodes,
                env,
                *ar,
                subtract,
                x,
                y,
            ) ==> next_pc_ok(
                nodes,
                env,
                np,
                *fl,
                *im,
                wval(nodes, env, instr@),
                wval(nodes, env, pc@),
                wval(nodes, env, ar.add_sub@),
                x,
                y,
            ),
{
    let four = const32(b, 4);
    let pc4 = add32(b, pc, &four);
    let jal_or_b = mux32(b, fl.jal, &im.j, &im.b);
    let pc_off = mux32(b, fl.auipc, &im.u, &jal_or_b);
    let target = add32(b, pc, &pc_off);
    let mut jalr_target = same_wires(ar.add_sub.as_slice());
    jalr_target.set(0, zero);
    assert(word_in(b, jalr_target@)) by {
        assert(word_in(b, ar.add_sub@));
    }

    assert(b.has(instr@[12]) && b.has(instr@[13]) && b.has(instr@[14]));
    let lt_kind = b.mux(instr[13], ar.ltu, ar.lt);
    let base_cond = b.mux(instr[14], lt_kind, ar.eq);
    let cond = b.xor(base_cond, instr[12]);
    let taken = b.and(fl.branch, cond);
    let any_jal = b.or(fl.jal, fl.jalr);
    let jump = b.or(taken, any_jal);

    let jump_target = mux32(b, fl.jalr, &jalr_target, &target);
    let next = mux32(b, jump, &jump_target, &pc4);
    let np = NextPc { next, pc4, target, any_jal };
    proof {
        assert forall|nodes: Seq<Node>, env: Env, subtract: bool, x: u32, y: u32|
            keeps(b.net().nodes, nodes) && !on(nodes, env, zero) && #[trigger] arith_ok(
                nodes,
                env,
                *ar,
                subtract,
                x,
                y,
            ) implies next_pc_ok(
            nodes,
            env,
            np,
            *fl,
            *im,
            wval(nodes, env, instr@),
            wval(nodes, env, pc@),
            wval(nodes, env, ar.add_sub@),
            x,
            y,
        ) by {
            lemma_branch(nodes, env, instr@, x, y);
            let sum = wval(nodes, env, ar.add_sub@);
            lemma_wval(nodes, env, ar.add_sub@);
            assert(wval(nodes, env, jalr_target@) == sum & !1u32) by {
                assert forall|i: int| 0 <= i < 32 implies on(nodes, env, #[trigger] jalr_target@[i]) == bit_of(
                    sum & !1u32,
                    i,
                ) by {
                    lemma_bits_of_logic(sum, 0, i);
                    assert(on(nodes, env, ar.add_sub@[i]) == bit_of(sum, i));
                }
                lemma_carries(nodes, env, jalr_target@, sum & !1u32);
            }
            assert(on(nodes, env, cond) == branch_taken(f3_of(wval(nodes, env, instr@)), x, y));
            assert(wval(nodes, env, four@) == 4);
            let pcv = wval(nodes, env, pc@);
            assert(wval(nodes, env, pc4@) == wadd(pcv, 4));
            assert(wval(nodes, env, target@) == wadd(pcv, wval(nodes, env, pc_off@)));
            assert(on(nodes, env, any_jal) == (on(nodes, env, fl.jal) || on(nodes, env, fl.jalr)));
            assert(on(nodes, env, jump) == (on(nodes, env, taken) || on(nodes, env, any_jal)));
        }
    }
    np
}

/// What is written back, and whether.
pub open spec fn writeback_ok(
    nodes: Seq<Node>,
    env: Env,
    wb: Seq<Signal>,
    reg_write: Signal,
    fl: Flags,
    im: Imms,
    np: NextPc,
    alu_out: Seq<Signal>,
    load_data: Seq<Signal>,
) -> bool {
    &&& wval(nodes, env, wb) == (if on(nodes, env, fl.load) {
        wval(nodes, env, load_data)
    } else if on(nodes, env, np.any_jal) {
        wval(nodes, env, np.pc4@)
    } else if on(nodes, env, fl.auipc) {
        wval(nodes, env, np.target@)
    } else if on(nodes, env, fl.lui) {
        wval(nodes, env, im.u@)
    } else {
        wval(nodes, env, alu_out)
    })
    &&& on(nodes, env, reg_write) == (on(nodes, env, fl.opimm) || on(nodes, env, fl.op) || on(
        nodes,
        env,
        fl.lui,
    ) || on(nodes, env, fl.auipc) || on(nodes, env, np.any_jal) || on(nodes, env, fl.load))
}

/// Select what is written back.
#[verifier::rlimit(60)]
pub fn writeback(
    b: &mut CircuitBuilder,
    fl: &Flags,
    im: &Imms,
    np: &NextPc,
    alu_out: &Word,
    load_data: &Word,
) -> (res: (Word, Signal))
    requires
        tidy(old(b)),
        has_flags(old(b), *fl),
        has_imms(old(b), *im),
        word_in(old(b), np.pc4@),
        word_in(old(b), np.target@),
        old(b).has(np.any_jal),
        word_in(old(b), alu_out@),
        word_in(old(b), load_data@),
        old(b).room(133),
    ensures
        tidy(final(b)),
        within(old(b), final(b), 133),
        word_in(final(b), res.0@),
        final(b).has(res.1),
        forall|nodes: Seq<Node>, env: Env|
            keeps(final(b).net().nodes, nodes) ==> #[trigger] writeback_ok(
                nodes,
                env,
                res.0@,
                res.1,
                *fl,
                *im,
                *np,
                alu_out@,
                load_data@,
            ),
{
    let wb_alu = mux32(b, fl.lui, &im.u, alu_out);
    let wb_pc = mux32(b, fl.auipc, &np.target, &wb_alu);
    let wb_link = mux32(b, np.any_jal, &np.pc4, &wb_pc);
    let wb = mux32(b, fl.load, load_data, &wb_link);
    let wb_int = b.or(fl.opimm, fl.op);
    let wb_upper = b.or(fl.lui, fl.auipc);
    let wb_jump_load = b.or(np.any_jal, fl.load);
    let wb_some = b.or(wb_int, wb_upper);
    let reg_write = b.or(wb_some, wb_jump_load);
    proof {
        assert forall|nodes: Seq<Node>, env: Env| keeps(b.net().nodes, nodes) implies #[trigger] writeback_ok(
            nodes,
            env,
            wb@,
            reg_write,
            *fl,
            *im,
            *np,
            alu_out@,
            load_data@,
        ) by {
        }
    }
    (wb, reg_write)
}

/// Fetch: the instruction ROM as a mux tree of constants.
pub fn fetch(b: &mut CircuitBuilder, rom: &Vec<u32>, rom_bits: usize, pc: &Word) -> (instr: Word)
    requires
        tidy(old(b)),
        word_in(old(b), pc@),
        rom_bits <= 30,
        rom@.len() == pow2(rom_bits as nat),
        old(b).source_room(64 * rom@.len() as int),
        old(b).gates() + 32 * rom@.len() <= MAX_GATES,
    ensures
        tidy(final(b)),
        within(old(b), final(b), 64 * rom@.len() as int),
        final(b).gates() <= old(b).gates() + 32 * rom@.len(),
        word_in(final(b), instr@),
        forall|nodes: Seq<Node>, env: Env|
            keeps(final(b).net().nodes, nodes) ==> #[trigger] wval(nodes, env, instr@)
                == rom@[word_index(wval(nodes, env, pc@), rom@.len())],
{
    let mut rom_words: Vec<Word> = Vec::with_capacity(rom.len());
    for k in 0..rom.len()
        invariant
            tidy(b),
            old(b).source_room(64 * rom@.len() as int),
            built(old(b), b, 32 * k),
            b.gates() == old(b).gates(),
            rom_words@.len() == k,
            table_ok(b, rom_words@, 32),
            forall|nodes: Seq<Node>, env: Env, j: int|
                keeps(b.net().nodes, nodes) && 0 <= j < k ==> #[trigger] wval(nodes, env, rom_words@[j]@)
                    == rom@[j],
    {
        let ghost b0 = *b;
        let ghost before = rom_words@;
        let w = const32(b, rom[k]);
        rom_words.push(w);
        proof {
            assert forall|j: int| 0 <= j < rom_words@.len() implies (#[trigger] rom_words@[j])@.len() == 32
                && has_all(b, rom_words@[j]@) by {
                if j < k {
                    assert(rom_words@[j] == before[j]);
                    assert(has_all(&b0, before[j]@));
                }
            }
            assert forall|nodes: Seq<Node>, env: Env, j: int|
                keeps(b.net().nodes, nodes) && 0 <= j < k + 1 implies #[trigger] wval(
                nodes,
                env,
                rom_words@[j]@,
            ) == rom@[j] by {
                if j < k {
                    assert(keeps(b0.net().nodes, nodes));
                    assert(wval(nodes, env, before[j]@) == rom@[j]);
                }
            }
        }
    }
    let ghost b1 = *b;
    proof {
        vstd::arithmetic::power2::lemma_pow2_pos(rom_bits as nat);
    }
    let sel = vstd::slice::slice_subrange(pc.as_slice(), 2, 2 + rom_bits);
    assert forall|i: int| 0 <= i < sel@.len() implies b.has(#[trigger] sel@[i]) by {
        assert(b.has(pc@[2 + i]));
    }
    let instr = select32(b, sel, rom_words.as_slice());
    proof {
        assert forall|nodes: Seq<Node>, env: Env| keeps(b.net().nodes, nodes) implies #[trigger] wval(
            nodes,
            env,
            instr@,
        ) == rom@[word_index(wval(nodes, env, pc@), rom@.len())] by {
            let v = word_on(nodes, env, pc@);
            lemma_wval(nodes, env, pc@);
            lemma_word_select(v, wval(nodes, env, pc@), rom_bits as nat);
            assert(word_on(nodes, env, sel@) =~= v.subrange(2, 2 + rom_bits as int));
            assert(keeps(b1.net().nodes, nodes));
            let k = word_index(wval(nodes, env, pc@), rom@.len());
            assert(wval(nodes, env, rom_words@[k]@) == rom@[k]);
        }
    }
    instr
}

} // verus!
