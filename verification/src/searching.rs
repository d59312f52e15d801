//! What the searches find: the rules by which ladders of gates become carry
//! chains, and registers behind muxes become memory banks. Nothing else is
//! asked of a chain or a bank, whatever its size.
use vstd::arithmetic::power2::pow2;
use vstd::prelude::*;

use crate::compile::{Compiled, Op, DEAD};
use crate::fuse::{
    admissible, candidates, consistent, continuation, first_follower, flagged, follows, found, full_links, grown,
    heads, in_link, in_links, inc_heads, inc_link, is_gate, lemma_xor_is, links_at, observed, pairs, ready_level,
    trimmed, tried, tried_all, xor_of, Found, Link, NIL,
};
use crate::gather::{funnel_runs, stretch, wanted};
use crate::mem::{
    alike, cell_at, decoder, decodes, forced, gated, is_array, is_bank, is_cell, is_word, mux_below, one_hot,
    same_data, select, shared_enable, shares, tree, write_enable, BankView,
};
use crate::netlist::Node;
use crate::pack_jit::first_task;
use crate::wires::num;

verus! {

/// The xor of two slots is the first gate that computes it, in either order of
/// operands.
pub proof fn xors_are_found(tape: Compiled, x: u32, y: u32, s: u32)
    requires
        tape.wf(),
        tape.gate_start <= s < tape.n(),
        tape.ops@[s as int] == Op::Xor,
        (tape.a@[s as int] == x && tape.b@[s as int] == y) || (tape.a@[s as int] == y && tape.b@[s as int] == x),
        forall|t: int|
            tape.gate_start <= t < s && #[trigger] tape.ops@[t] == Op::Xor ==> !((tape.a@[t] == x && tape.b@[t] == y)
                || (tape.a@[t] == y && tape.b@[t] == x)),
    ensures
        xor_of(tape, x, y) == s,
{
    assert forall|t: int| tape.gate_start <= t < tape.n() && t < s implies !(is_gate(tape, t, Op::Xor)
        && #[trigger] pairs(tape, t, x, y)) by {
        if is_gate(tape, t, Op::Xor) {
            assert(tape.ops@[t] == Op::Xor);
        }
    }
    lemma_xor_is(tape, x, y, tape.gate_start as int, s);
}

/// Five gates make a full adder: the xor and the and of two operands, the and
/// and the xor of the former with a carry, and the or of the two ands.
pub proof fn full_adders_are_links(
    tape: Compiled,
    p: u32,
    q: u32,
    c: u32,
    pxq: u32,
    g: u32,
    prop: u32,
    carry: u32,
    sum: u32,
)
    requires
        tape.wf(),
        tape.gate_start <= g < tape.n(),
        tape.gate_start <= prop < tape.n(),
        tape.gate_start <= carry < tape.n(),
        tape.ops@[g as int] == Op::And && tape.a@[g as int] == p && tape.b@[g as int] == q,
        tape.ops@[prop as int] == Op::And,
        (tape.a@[prop as int] == pxq && tape.b@[prop as int] == c) || (tape.a@[prop as int] == c
            && tape.b@[prop as int] == pxq),
        tape.ops@[carry as int] == Op::Or,
        (tape.a@[carry as int] == g && tape.b@[carry as int] == prop) || (tape.a@[carry as int] == prop
            && tape.b@[carry as int] == g),
        xor_of(tape, p, q) == pxq,
        pxq < tape.n(),
        xor_of(tape, pxq, c) == sum,
        pxq != g && pxq != prop && pxq != carry && pxq != sum,
        g != prop && g != carry && g != sum,
        prop != carry && prop != sum,
        carry != sum,
    ensures
        full_links(tape, tape.n()).contains(
            (Link { p, q, pxq, g, prop, carry, sum, cin: c, ext_pxq: false, ext_g: false }),
        ),
        candidates(tape, c).contains(
            (Link { p, q, pxq, g, prop, carry, sum, cin: c, ext_pxq: false, ext_g: false }),
        ),
        heads(tape).contains(
            (Link { p, q, pxq, g, prop, carry, sum, cin: c, ext_pxq: false, ext_g: false }),
        ),
{
    let link = Link { p, q, pxq, g, prop, carry, sum, cin: c, ext_pxq: false, ext_g: false };
    assert(pxq != NIL);
    assert(crate::fuse::full_link(tape, g, prop, carry) == Some(link));
    let here = links_at(tape, carry as int);
    assert(here.contains(link)) by {
        let first = crate::fuse::opt_seq(
            crate::fuse::full_link(tape, tape.a@[carry as int], tape.b@[carry as int], carry),
        );
        let second = crate::fuse::opt_seq(
            crate::fuse::full_link(tape, tape.b@[carry as int], tape.a@[carry as int], carry),
        );
        if tape.a@[carry as int] == g {
            assert(here[0] == link);
        } else {
            assert(here[first.len() as int] == link);
        }
    }
    lemma_full_links_contain(tape, carry as int, tape.n(), link);
    lemma_with_cin_contains(full_links(tape, tape.n()), link);
    let w = crate::fuse::with_cin(full_links(tape, tape.n()), c);
    let i = choose|i: int| 0 <= i < w.len() && w[i] == link;
    assert(candidates(tape, c)[i] == link);
    let j = choose|j: int| 0 <= j < full_links(tape, tape.n()).len() && full_links(tape, tape.n())[j] == link;
    assert(heads(tape)[j] == link);
}

proof fn lemma_full_links_contain(tape: Compiled, s: int, n: int, link: Link)
    requires
        tape.gate_start <= s < n,
        links_at(tape, s).contains(link),
    ensures
        full_links(tape, n).contains(link),
    decreases n,
{
    let rest = full_links(tape, n - 1);
    let last = links_at(tape, n - 1);
    if s < n - 1 {
        lemma_full_links_contain(tape, s, n - 1, link);
        let i = choose|i: int| 0 <= i < rest.len() && rest[i] == link;
        assert(full_links(tape, n)[i] == link);
    } else {
        let i = choose|i: int| 0 <= i < last.len() && last[i] == link;
        assert(full_links(tape, n)[rest.len() + i] == link);
    }
}

proof fn lemma_with_cin_contains(links: Seq<Link>, link: Link)
    requires
        links.contains(link),
    ensures
        crate::fuse::with_cin(links, link.cin).contains(link),
    decreases links.len(),
{
    let rest = crate::fuse::with_cin(links.drop_last(), link.cin);
    let all = crate::fuse::with_cin(links, link.cin);
    let i = choose|i: int| 0 <= i < links.len() && links[i] == link;
    if i < links.len() - 1 {
        assert(links.drop_last()[i] == link);
        lemma_with_cin_contains(links.drop_last(), link);
        let j = choose|j: int| 0 <= j < rest.len() && rest[j] == link;
        assert(all[j] == link);
    } else {
        assert(all[rest.len() as int] == link);
    }
}

/// An and of a slot with a carry makes an incrementer, together with the xor of
/// the two if there is one.
pub proof fn ands_are_incrementers(tape: Compiled, p: u32, c: u32, carry: u32)
    requires
        tape.wf(),
        tape.gate_start <= carry < tape.n(),
        tape.ops@[carry as int] == Op::And,
        (tape.a@[carry as int] == p && tape.b@[carry as int] == c) || (tape.a@[carry as int] == c
            && tape.b@[carry as int] == p),
    ensures
        ({
            let link = Link {
                p,
                q: NIL,
                pxq: NIL,
                g: NIL,
                prop: NIL,
                carry,
                sum: xor_of(tape, p, c),
                cin: c,
                ext_pxq: false,
                ext_g: false,
            };
            candidates(tape, c).contains(link) && heads(tape).contains(link)
        }),
{
    let link = inc_link(tape, p, c, carry);
    let ands = crate::fuse::ands_with(tape, c, tape.n());
    lemma_ands_contain(tape, c, carry as int, tape.n());
    let i = choose|i: int| 0 <= i < ands.len() && ands[i] == carry;
    let cands = crate::fuse::inc_cands(tape, c, ands);
    assert(cands[i] == link);
    let fulls = crate::fuse::with_cin(full_links(tape, tape.n()), c);
    assert(candidates(tape, c)[fulls.len() + i] == link);
    lemma_inc_heads_contain(tape, carry as int, tape.n(), link);
    let j = choose|j: int| 0 <= j < inc_heads(tape, tape.n()).len() && inc_heads(tape, tape.n())[j] == link;
    assert(heads(tape)[full_links(tape, tape.n()).len() + j] == link);
}

proof fn lemma_ands_contain(tape: Compiled, c: u32, s: int, n: int)
    requires
        tape.gate_start <= s < n <= tape.n() <= u32::MAX,
        tape.ops@[s] == Op::And,
        tape.a@[s] == c || tape.b@[s] == c,
    ensures
        crate::fuse::ands_with(tape, c, n).contains(s as u32),
    decreases n,
{
    let rest = crate::fuse::ands_with(tape, c, n - 1);
    let all = crate::fuse::ands_with(tape, c, n);
    if s < n - 1 {
        lemma_ands_contain(tape, c, s, n - 1);
        let i = choose|i: int| 0 <= i < rest.len() && rest[i] == s as u32;
        assert(all[i] == s as u32);
    } else {
        assert(all[rest.len() as int] == s as u32);
    }
}

proof fn lemma_inc_heads_contain(tape: Compiled, s: int, n: int, link: Link)
    requires
        tape.gate_start <= s < n <= tape.n() <= u32::MAX,
        tape.ops@[s] == Op::And,
        link == inc_link(tape, tape.a@[s], tape.b@[s], s as u32) || link == inc_link(
            tape,
            tape.b@[s],
            tape.a@[s],
            s as u32,
        ),
    ensures
        inc_heads(tape, n).contains(link),
    decreases n,
{
    let rest = inc_heads(tape, n - 1);
    let all = inc_heads(tape, n);
    if s < n - 1 {
        lemma_inc_heads_contain(tape, s, n - 1, link);
        let i = choose|i: int| 0 <= i < rest.len() && rest[i] == link;
        assert(all[i] == link);
    } else if link == inc_link(tape, tape.a@[s], tape.b@[s], s as u32) {
        assert(all[rest.len() as int] == link);
    } else {
        assert(all[rest.len() as int + 1] == link);
    }
}

/// A link can follow a chain if the chain's last carry feeds nothing but the
/// link, the link's propagate gate nothing but its carry, no output or register
/// taps the latter, and none of the link's gates is taken.
pub proof fn links_follow(tape: Compiled, used: Seq<bool>, links: Seq<Link>, link: Link)
    requires
        forall|t: u32|
            #[trigger] tape.reads(t as int, links.last().carry as int) ==> t == link.sum || t == (if link.prop != NIL {
                link.prop
            } else {
                link.carry
            }),
        link.prop != NIL ==> forall|t: u32| #[trigger] tape.reads(t as int, link.prop as int) ==> t == link.carry,
        link.prop != NIL ==> !tape.output_slots@.contains(link.prop) && forall|r: int|
            0 <= r < tape.reg_in_slots@.len() && #[trigger] tape.reg_in_slots@[r] == link.prop
                ==> tape.reg_out_slots@[r] == DEAD,
        forall|s: u32|
            s != NIL && (s == link.pxq || s == link.g || s == link.prop || s == link.carry || s == link.sum)
                ==> !#[trigger] used[s as int] && forall|i: int|
                0 <= i < links.len() ==> {
                    let l = #[trigger] links[i];
                    s != l.pxq && s != l.g && s != l.prop && s != l.carry && s != l.sum
                },
    ensures
        follows(tape, used, links, link),
{
    if link.prop != NIL {
        assert(!observed(tape, link.prop as int)) by {
            if observed(tape, link.prop as int) {
                if exists|k: int|
                    0 <= k < tape.output_slots@.len() && #[trigger] tape.output_slots@[k] == link.prop {
                    assert(tape.output_slots@.contains(link.prop));
                }
            }
        }
    }
    assert forall|s: u32| #[trigger] in_link(link, s) implies !used[s as int] && !in_links(links, s) by {
        assert(!used[s as int]);
    }
}

/// A chain goes on with the first candidate that can follow it, unless an output
/// or a register taps its last carry, up to 63 links.
pub proof fn chains_grow(tape: Compiled, used: Seq<bool>, links: Seq<Link>, i: int)
    requires
        links.len() > 0,
        !tape.output_slots@.contains(links.last().carry),
        forall|r: int|
            0 <= r < tape.reg_in_slots@.len() && #[trigger] tape.reg_in_slots@[r] == links.last().carry
                ==> tape.reg_out_slots@[r] == DEAD,
        0 <= i < candidates(tape, links.last().carry).len(),
        follows(tape, used, links, candidates(tape, links.last().carry)[i]),
        forall|j: int|
            0 <= j < i ==> !follows(tape, used, links, #[trigger] candidates(tape, links.last().carry)[j]),
    ensures
        ({
            let next = flagged(tape, candidates(tape, links.last().carry)[i]);
            &&& links.len() < 63 ==> grown(tape, used, links) == grown(tape, used, links.push(next))
            &&& links.len() >= 63 ==> grown(tape, used, links) == links
        }),
{
    let c = links.last().carry;
    assert(!observed(tape, c as int)) by {
        if observed(tape, c as int) {
            if exists|k: int| 0 <= k < tape.output_slots@.len() && #[trigger] tape.output_slots@[k] == c {
                assert(tape.output_slots@.contains(c));
            }
        }
    }
    lemma_first_follower(tape, used, links, candidates(tape, c), 0, i);
}

proof fn lemma_first_follower(
    tape: Compiled,
    used: Seq<bool>,
    links: Seq<Link>,
    cands: Seq<Link>,
    from: int,
    i: int,
)
    requires
        0 <= from <= i < cands.len(),
        follows(tape, used, links, cands[i]),
        forall|j: int| from <= j < i ==> !follows(tape, used, links, #[trigger] cands[j]),
    ensures
        first_follower(tape, used, links, cands, from) == Some(flagged(tape, cands[i])),
    decreases i - from,
{
    if from < i {
        lemma_first_follower(tape, used, links, cands, from + 1, i);
    }
}

/// A chain of eight or more links is kept if none of its operands is one of its
/// own gates and what it shows settles no earlier than its operands; otherwise
/// it loses its last link.
pub proof fn consistent_chains_are_kept(tape: Compiled, links: Seq<Link>)
    requires
        links.len() >= 8,
    ensures
        consistent(tape, links) ==> trimmed(tape, links) == Some(links),
        !consistent(tape, links) ==> trimmed(tape, links) == trimmed(tape, links.drop_last()),
        ({
            let ready = ready_level(tape, links, links.len() as int);
            let free = |s: u32|
                s == NIL || forall|i: int|
                    0 <= i < links.len() ==> {
                        let l = #[trigger] links[i];
                        s != l.pxq && s != l.g && s != l.prop && s != l.carry && s != l.sum
                    };
            free(links[0].cin) && (forall|i: int|
                0 <= i < links.len() ==> {
                    let l = #[trigger] links[i];
                    &&& free(l.p)
                    &&& free(l.q)
                    &&& l.sum != NIL ==> tape.slot_level@[l.sum as int] >= ready
                    &&& l.ext_pxq && l.pxq != NIL ==> tape.slot_level@[l.pxq as int] >= ready
                    &&& l.ext_g && l.g != NIL ==> tape.slot_level@[l.g as int] >= ready
                }) && (links.last().carry != NIL ==> tape.slot_level@[links.last().carry as int] >= ready)
                ==> consistent(tape, links)
        }),
{
    let ready = ready_level(tape, links, links.len() as int);
    let free = |s: u32|
        s == NIL || forall|i: int|
            0 <= i < links.len() ==> {
                let l = #[trigger] links[i];
                s != l.pxq && s != l.g && s != l.prop && s != l.carry && s != l.sum
            };
    if free(links[0].cin) && (forall|i: int|
        0 <= i < links.len() ==> {
            let l = #[trigger] links[i];
            &&& free(l.p)
            &&& free(l.q)
            &&& l.sum != NIL ==> tape.slot_level@[l.sum as int] >= ready
            &&& l.ext_pxq && l.pxq != NIL ==> tape.slot_level@[l.pxq as int] >= ready
            &&& l.ext_g && l.g != NIL ==> tape.slot_level@[l.g as int] >= ready
        }) && (links.last().carry != NIL ==> tape.slot_level@[links.last().carry as int] >= ready) {
        assert forall|s: u32| free(s) implies !#[trigger] in_links(links, s) by {}
        assert forall|i: int, s: u32| 0 <= i < links.len() && #[trigger] crate::fuse::shown(links, i, s) implies tape.slot_level@[s as int]
            >= ready by {
            let l = links[i];
        }
        assert(consistent(tape, links));
    }
}

/// Every head is tried, in order: if its gates are free, the chain grown from it
/// and trimmed is taken, and its gates are claimed.
pub proof fn heads_are_tried(tape: Compiled, f: Found, all: Seq<Link>, i: int, links: Seq<Link>, s: int)
    requires
        0 <= i,
        ({
            let before = tried_all(tape, f, all, i);
            &&& admissible(tape, before.used, Seq::empty(), all[i])
            &&& trimmed(tape, grown(tape, before.used, seq![flagged(tape, all[i])])) == Some(links)
            &&& 0 <= s < before.used.len()
        }),
    ensures
        ({
            let before = tried_all(tape, f, all, i);
            let after = tried_all(tape, f, all, i + 1);
            &&& after.chains.len() == before.chains.len() + 1
            &&& after.chains.drop_last() == before.chains
            &&& after.chains.last().links == links
            &&& after.chains.last().cin == links[0].cin
            &&& after.used.len() == before.used.len()
            &&& after.used[s] == (before.used[s] || in_links(links, s as u32))
        }),
        found(tape) == tried_all(
            tape,
            Found { chains: Seq::empty(), used: Seq::new(tape.n() as nat, |s: int| false) },
            heads(tape),
            heads(tape).len() as int,
        ),
{
    let before = tried_all(tape, f, all, i);
    let after = tried_all(tape, f, all, i + 1);
    assert(after == tried(tape, before, all[i]));
    assert(after.chains.drop_last() =~= before.chains);
}

/// Chains have between 8 and 63 links.
pub proof fn chains_fit_a_word(tape: Compiled, used: Seq<bool>, links: Seq<Link>)
    requires
        links.len() <= 63,
    ensures
        links.len() <= grown(tape, used, links).len() <= 63,
        trimmed(tape, links) matches Some(kept) ==> 8 <= kept.len() <= links.len() && kept == links.take(
            kept.len() as int,
        ),
    decreases 63 - links.len(), links.len(),
{
    lemma_grown_len(tape, used, links);
    lemma_trimmed_len(tape, links);
}

proof fn lemma_grown_len(tape: Compiled, used: Seq<bool>, links: Seq<Link>)
    requires
        links.len() <= 63,
    ensures
        links.len() <= grown(tape, used, links).len() <= 63,
    decreases 63 - links.len(),
{
    if links.len() < 63 {
        if let Some(next) = continuation(tape, used, links) {
            lemma_grown_len(tape, used, links.push(next));
        }
    }
}

proof fn lemma_trimmed_len(tape: Compiled, links: Seq<Link>)
    ensures
        trimmed(tape, links) matches Some(kept) ==> 8 <= kept.len() <= links.len() && kept == links.take(
            kept.len() as int,
        ),
    decreases links.len(),
{
    if links.len() >= 8 {
        if consistent(tape, links) {
            assert(links.take(links.len() as int) =~= links);
        } else {
            lemma_trimmed_len(tape, links.drop_last());
            if let Some(kept) = trimmed(tape, links) {
                assert(links.drop_last().take(kept.len() as int) =~= links.take(kept.len() as int));
            }
        }
    }
}

/// Three or more destination bits that read consecutive source bits are
/// funnelled; fewer are not.
pub proof fn long_stretches_are_funnelled(pos: Seq<u32>, cval: Seq<u8>, window: Seq<u32>, i: int)
    requires
        0 <= i < window.len(),
        wanted(cval, window, i),
        stretch(pos, cval, window, i, 1) > 0,
        i + stretch(pos, cval, window, i, 1) <= window.len(),
    ensures
        ({
            let len = stretch(pos, cval, window, i, 1);
            let rest = funnel_runs(pos, cval, window, i + len);
            &&& len >= 3 ==> funnel_runs(pos, cval, window, i) == seq![(i, len)] + rest
            &&& len < 3 ==> funnel_runs(pos, cval, window, i) == rest
        }),
{
}

/// A stretch goes on while the next destination bit reads the next source bit.
pub proof fn stretches_go_on(pos: Seq<u32>, cval: Seq<u8>, window: Seq<u32>, i: int, len: int)
    requires
        0 <= i,
        0 < len,
    ensures
        i + len < window.len() && wanted(cval, window, i + len) && pos[window[i + len] as int] == pos[window[i] as int]
            + len ==> stretch(pos, cval, window, i, len) == stretch(pos, cval, window, i, len + 1),
        i + len >= window.len() || !wanted(cval, window, i + len) || pos[window[i + len] as int]
            != pos[window[i] as int] + len ==> stretch(pos, cval, window, i, len) == len,
{
}

/// A register that is driven by a mux between new data and itself is a memory
/// cell.
pub proof fn muxed_registers_are_cells(tape: Compiled, r: int)
    requires
        0 <= r < tape.reg_in_slots@.len(),
        tape.reg_out_slots@[r] != DEAD,
        tape.gate_start <= tape.reg_in_slots@[r] < tape.n(),
        tape.ops@[tape.reg_in_slots@[r] as int] == Op::Mux,
        tape.c@[tape.reg_in_slots@[r] as int] == tape.reg_out_slots@[r],
    ensures
        is_cell(tape, r),
        select(tape, r) == tape.a@[tape.reg_in_slots@[r] as int],
{
}

/// Two trees over neighbouring halves of a memory and a mux between them make
/// the tree over both, of any depth.
pub proof fn trees_join(
    tape: Compiled,
    base: int,
    width: int,
    addr: Seq<u32>,
    i: int,
    lo: int,
    d: nat,
    low: u32,
    high: u32,
    s: u32,
)
    requires
        d < addr.len(),
        tree(tape, base, width, addr, i, lo, d) == Some(low),
        tree(tape, base, width, addr, i, lo + pow2(d), d) == Some(high),
        tape.gate_start <= s < tape.n() <= u32::MAX,
        tape.ops@[s as int] == Op::Mux,
        tape.a@[s as int] == addr[d as int],
        tape.b@[s as int] == high,
        tape.c@[s as int] == low,
        forall|t: int|
            s < t < tape.n() && #[trigger] tape.ops@[t] == Op::Mux ==> tape.b@[t] != high || tape.c@[t] != low,
    ensures
        tree(tape, base, width, addr, i, lo, d + 1) == Some(s),
        tree(tape, base, width, addr, i, lo, 0) == Some(tape.reg_out_slots@[base + lo * width + i]),
{
    lemma_mux_last(tape, high, low, s, tape.n());
}

proof fn lemma_mux_last(tape: Compiled, high: u32, low: u32, s: u32, n: int)
    requires
        tape.gate_start <= s < n <= tape.n() <= u32::MAX,
        tape.ops@[s as int] == Op::Mux,
        tape.b@[s as int] == high,
        tape.c@[s as int] == low,
        forall|t: int|
            s < t < tape.n() && #[trigger] tape.ops@[t] == Op::Mux ==> tape.b@[t] != high || tape.c@[t] != low,
    ensures
        mux_below(tape, high, low, n) == Some(s),
    decreases n,
{
    if s < n - 1 {
        lemma_mux_last(tape, high, low, s, n - 1);
        if is_gate(tape, n - 1, Op::Mux) {
            assert(tape.ops@[n - 1] == Op::Mux);
        }
    }
}

/// What the address decides: its own bits, constants, and every gate over such
/// slots.
pub proof fn addresses_decide_gates(tape: Compiled, addr: Seq<u32>, bits: Seq<bool>, s: int, a: bool, b: bool)
    requires
        tape.gate_start <= s < tape.n() <= u32::MAX,
        !addr.contains(s as u32),
        tape.a@[s] < s,
        tape.b@[s] < s,
        forced(tape, addr, bits, tape.a@[s] as int) == Some(a),
        forced(tape, addr, bits, tape.b@[s] as int) == Some(b),
    ensures
        tape.ops@[s] == Op::Not ==> forced(tape, addr, bits, s) == Some(!a),
        tape.ops@[s] == Op::Buf ==> forced(tape, addr, bits, s) == Some(a),
        tape.ops@[s] == Op::And ==> forced(tape, addr, bits, s) == Some(a && b),
        tape.ops@[s] == Op::Or ==> forced(tape, addr, bits, s) == Some(a || b),
        tape.ops@[s] == Op::Xor ==> forced(tape, addr, bits, s) == Some(a != b),
        tape.ops@[s] == Op::Nand ==> forced(tape, addr, bits, s) == Some(!(a && b)),
        tape.ops@[s] == Op::Nor ==> forced(tape, addr, bits, s) == Some(!(a || b)),
        tape.ops@[s] == Op::Xnor ==> forced(tape, addr, bits, s) == Some(a == b),
        tape.ops@[s] == Op::Mux && a ==> forced(tape, addr, bits, s) == Some(b),
        tape.ops@[s] == Op::Mux && !a && tape.c@[s] < s ==> forced(tape, addr, bits, s) == forced(
            tape,
            addr,
            bits,
            tape.c@[s] as int,
        ),
{
    lemma_no_bit(addr, s as u32, addr.len() as int);
}

proof fn lemma_no_bit(addr: Seq<u32>, s: u32, j: int)
    requires
        0 <= j <= addr.len(),
        !addr.contains(s),
    ensures
        crate::mem::bit_of(addr, s, j) is None,
    decreases j,
{
    if j > 0 {
        assert(addr[j - 1] != s);
        lemma_no_bit(addr, s, j - 1);
    }
}

/// Where a slot is one of the address bits it has that bit, and constants have
/// their value.
pub proof fn addresses_decide_themselves(tape: Compiled, addr: Seq<u32>, bits: Seq<bool>, s: int, j: int)
    requires
        0 <= s < tape.gate_start <= tape.n() <= u32::MAX,
        addr.no_duplicates(),
        bits.len() == addr.len(),
    ensures
        0 <= j < addr.len() && addr[j] == s ==> forced(tape, addr, bits, s) == Some(bits[j]),
        !addr.contains(s as u32) ==> (tape.sources@[s] matches Node::Const(v) ==> forced(tape, addr, bits, s) == Some(v)),
{
    if 0 <= j < addr.len() && addr[j] == s {
        lemma_bit(addr, s as u32, addr.len() as int, j);
    }
    if !addr.contains(s as u32) {
        lemma_no_bit(addr, s as u32, addr.len() as int);
    }
}

proof fn lemma_bit(addr: Seq<u32>, s: u32, n: int, j: int)
    requires
        0 <= j < n <= addr.len(),
        addr.no_duplicates(),
        addr[j] == s,
    ensures
        crate::mem::bit_of(addr, s, n) == Some(j),
    decreases n,
{
    if j < n - 1 {
        assert(addr[n - 1] != s);
        lemma_bit(addr, s, n - 1, j);
    }
}

/// Nothing else is asked of a bank, of whatever size from 16 words on: its words
/// lie back to back, its read trees are complete, its words share a store
/// enable and decode the address, nothing outside reads what vanishes, and no
/// reader of the read port runs too early.
pub proof fn memories_are_banks(tape: Compiled, m: BankView)
    requires
        is_array(tape, m.base_reg as int, m.words as int, m.width as int),
        m.words >= 16,
        m.words == pow2(m.addr_bits.len()),
        m.read_tops.len() == m.width,
        forall|i: int|
            0 <= i < m.width ==> tree(
                tape,
                m.base_reg as int,
                m.width as int,
                m.addr_bits,
                i,
                0,
                m.addr_bits.len(),
            ) == Some(#[trigger] m.read_tops[i]),
        shared_enable(tape, m.base_reg as int, m.words as int, m.width as int) == Some(m.enable),
        decodes(tape, m.base_reg as int, m.words as int, m.width as int, m.addr_bits, m.enable),
        m.data.len() == m.width,
        forall|i: int|
            0 <= i < m.width ==> #[trigger] m.data[i] == tape.b@[tape.reg_in_slots@[m.base_reg + i] as int],
        m.fused == crate::mem::all_tree_muxes(
            tape,
            m.base_reg as int,
            m.width as int,
            m.addr_bits,
            m.width as int,
        ) + crate::mem::feeds(tape, m.base_reg as int, m.words * m.width),
        m.read_ready == crate::mem::ready_level(tape, m.addr_bits),
        forall|s: u32|
            #[trigger] m.fused.contains(s) && !m.read_tops.contains(s) ==> {
                &&& !tape.output_slots@.contains(s)
                &&& forall|r: int|
                    0 <= r < tape.reg_in_slots@.len() && tape.reg_out_slots@[r] != DEAD
                        && #[trigger] tape.reg_in_slots@[r] == s ==> m.base_reg <= r < m.base_reg + m.words * m.width
                &&& forall|t: u32| #[trigger] tape.reads(t as int, s as int) ==> m.fused.contains(t)
            },
        forall|t: u32, s: u32|
            m.read_tops.contains(t) && #[trigger] tape.reads(s as int, t as int)
                ==> tape.slot_level@[s as int] >= m.read_ready,
    ensures
        is_bank(tape, m),
{
    assert(m.data =~= crate::mem::data_bus(tape, m.base_reg as int, m.width as int));
    assert forall|s: u32|
        m.fused.contains(s) && !m.read_tops.contains(s) implies #[trigger] crate::mem::unread(tape, m, s) by {}
}

/// Registers make a word exactly if they, and no others, are cells with one
/// select.
pub proof fn words_share_a_select(tape: Compiled, r: int, len: int)
    requires
        len > 0,
        forall|q: int| r <= q < r + len ==> is_cell(tape, q) && #[trigger] select(tape, q) == select(tape, r),
        forall|q: int|
            #[trigger] is_cell(tape, q) && select(tape, q) == select(tape, r) ==> r <= q < r + len,
    ensures
        is_word(tape, r, len),
{
    assert forall|q: int| r <= q < r + len implies #[trigger] crate::mem::along(tape, r, q) by {
        assert(select(tape, q) == select(tape, r));
    }
}

/// Words of one width and with the same data are listed by register.
pub proof fn words_alike_are_listed(tape: Compiled, base: int, len: int, end: int)
    requires
        0 <= end < tape.reg_in_slots@.len(),
    ensures
        alike(tape, base, len, 0).len() == 0,
        is_word(tape, end, len) && same_data(tape, base, end, len) ==> alike(tape, base, len, end + 1) == alike(
            tape,
            base,
            len,
            end,
        ).push(end as u32),
        !(is_word(tape, end, len) && same_data(tape, base, end, len)) ==> alike(tape, base, len, end + 1) == alike(
            tape,
            base,
            len,
            end,
        ),
        same_data(tape, base, end, len) <==> forall|i: int|
            0 <= i < len ==> tape.b@[#[trigger] tape.reg_in_slots@[base + i] as int]
                == tape.b@[tape.reg_in_slots@[end + i] as int],
{
    if same_data(tape, base, end, len) {
        assert forall|i: int| 0 <= i < len implies tape.b@[#[trigger] tape.reg_in_slots@[base + i] as int]
            == tape.b@[tape.reg_in_slots@[end + i] as int] by {
            assert(crate::mem::datum(tape, base + i) == crate::mem::datum(tape, end + i));
        }
    }
    if forall|i: int|
        0 <= i < len ==> tape.b@[#[trigger] tape.reg_in_slots@[base + i] as int]
            == tape.b@[tape.reg_in_slots@[end + i] as int] {
        assert forall|i: int| 0 <= i < len implies #[trigger] crate::mem::datum(tape, base + i)
            == crate::mem::datum(tape, end + i) by {
            let s = tape.reg_in_slots@[base + i];
        }
    }
}

/// Words that each open on an and with one slot share that slot as their
/// store-enable: the first operand of word 0's, or else the second.
pub proof fn words_share_an_enable(tape: Compiled, base: int, words: int, width: int, e: u32)
    requires
        words > 0,
        forall|k: int|
            0 <= k < words ==> {
                let we = tape.a@[#[trigger] tape.reg_in_slots@[base + k * width] as int] as int;
                &&& tape.gate_start <= we < tape.n()
                &&& tape.ops@[we] == Op::And
                &&& tape.a@[we] == e || tape.b@[we] == e
            },
    ensures
        tape.a@[tape.a@[tape.reg_in_slots@[base] as int] as int] == e ==> shared_enable(tape, base, words, width)
            == Some(e),
        shared_enable(tape, base, words, width) is Some,
        shared_enable(tape, base, words, width) matches Some(f) ==> forall|k: int|
            0 <= k < words ==> {
                let we = tape.a@[#[trigger] tape.reg_in_slots@[base + k * width] as int] as int;
                tape.a@[we] == f || tape.b@[we] == f
            },
{
    assert forall|k: int| 0 <= k < words implies #[trigger] gated(tape, write_enable(tape, base, width, k), e) by {
        assert(cell_at(base, width, k, 0) == base + k * width);
        let s = tape.reg_in_slots@[base + k * width];
    }
    assert(shares(tape, base, words, width, e));
    assert(base + 0 * width == base);
    let we = write_enable(tape, base, width, 0) as int;
    assert(we == tape.a@[tape.reg_in_slots@[base] as int]);
    assert(tape.a@[we] == e || tape.b@[we] == e) by {
        let s = tape.reg_in_slots@[base + 0 * width];
    }
    if let Some(f) = shared_enable(tape, base, words, width) {
        assert forall|k: int| 0 <= k < words implies {
            let we = tape.a@[#[trigger] tape.reg_in_slots@[base + k * width] as int] as int;
            tape.a@[we] == f || tape.b@[we] == f
        } by {
            assert(gated(tape, write_enable(tape, base, width, k), f));
            assert(cell_at(base, width, k, 0) == base + k * width);
        }
    }
}

/// Words decode the address if each one's and is opened, besides the enable, by
/// a slot that is 1 at the word's own address and 0 at every other.
pub proof fn words_decode_the_address(
    tape: Compiled,
    base: int,
    words: int,
    width: int,
    addr: Seq<u32>,
    enable: u32,
    dec: Seq<u32>,
)
    requires
        dec.len() == words,
        forall|k: int|
            0 <= k < words ==> {
                let we = tape.a@[tape.reg_in_slots@[base + k * width] as int] as int;
                (tape.a@[we] == enable && tape.b@[we] == #[trigger] dec[k]) || (tape.a@[we] == dec[k]
                    && tape.b@[we] == enable)
            },
        forall|k: int, bits: Seq<bool>|
            0 <= k < words && bits.len() == addr.len() ==> #[trigger] forced(tape, addr, bits, dec[k] as int) == Some(
                k == num(bits),
            ),
    ensures
        decodes(tape, base, words, width, addr, enable),
{
    assert forall|k: int| 0 <= k < words implies #[trigger] one_hot(
        tape,
        addr,
        decoder(tape, write_enable(tape, base, width, k), enable),
        k,
    ) by {
        assert(cell_at(base, width, k, 0) == base + k * width);
        assert(decoder(tape, write_enable(tape, base, width, k), enable) == dec[k]);
        assert forall|bits: Seq<bool>| bits.len() == addr.len() implies #[trigger] forced(
            tape,
            addr,
            bits,
            decoder(tape, write_enable(tape, base, width, k), enable) as int,
        ) == Some(k == num(bits)) by {
            assert(forced(tape, addr, bits, dec[k] as int) == Some(k == num(bits)));
        }
    }
}

/// A read may run as soon as the last of its address bits has settled, and no
/// sooner than level 1.
pub proof fn reads_wait_for_the_address(tape: Compiled, slots: Seq<u32>)
    ensures
        crate::mem::ready_level(tape, slots) >= 1,
        forall|i: int|
            0 <= i < slots.len() ==> tape.slot_level@[#[trigger] slots[i] as int] < crate::mem::ready_level(tape, slots),
        crate::mem::ready_level(tape, slots) == 1 || exists|i: int|
            0 <= i < slots.len() && tape.slot_level@[#[trigger] slots[i] as int] + 1 == crate::mem::ready_level(
                tape,
                slots,
            ),
    decreases slots.len(),
{
    if slots.len() > 0 {
        let rest = slots.drop_last();
        reads_wait_for_the_address(tape, rest);
        assert forall|i: int| 0 <= i < slots.len() implies tape.slot_level@[#[trigger] slots[i] as int]
            < crate::mem::ready_level(tape, slots) by {
            if i < rest.len() {
                assert(rest[i] == slots[i]);
            }
        }
        let ready = crate::mem::ready_level(tape, slots);
        if ready == tape.slot_level@[slots.last() as int] + 1 {
            assert(slots[slots.len() - 1] == slots.last());
        } else if ready != 1 {
            let i = choose|i: int|
                0 <= i < rest.len() && tape.slot_level@[#[trigger] rest[i] as int] + 1 == ready;
            assert(slots[i] == rest[i]);
        }
    }
}

/// A bank replaces, besides its write cells, one tree of `2^n - 1` muxes for
/// every bit of a word.
pub proof fn trees_are_balanced(tape: Compiled, base: int, width: int, addr: Seq<u32>, i: int, lo: int, depth: nat)
    ensures
        crate::mem::tree_muxes(tape, base, width, addr, i, lo, depth).len() == pow2(depth) - 1,
        depth > 0 ==> crate::mem::tree_muxes(tape, base, width, addr, i, lo, depth).last() == tree(
            tape,
            base,
            width,
            addr,
            i,
            lo,
            depth,
        )->0,
    decreases depth,
{
    if depth == 0 {
        vstd::arithmetic::power2::lemma2_to64();
    } else {
        let d = (depth - 1) as nat;
        trees_are_balanced(tape, base, width, addr, i, lo, d);
        trees_are_balanced(tape, base, width, addr, i, lo + pow2(d), d);
        vstd::arithmetic::power2::lemma_pow2_unfold(depth);
    }
}

/// Compiled functions take 512 tasks each, in order; the last takes what is
/// left.
pub proof fn tasks_are_chunked(tasks: int, k: int)
    requires
        0 <= tasks,
        0 <= k,
    ensures
        first_task(tasks, 0) == 0,
        512 * (k + 1) <= tasks ==> first_task(tasks, k + 1) - first_task(tasks, k) == 512,
        512 * k >= tasks ==> first_task(tasks, k) == tasks,
{
}

} // verus!
