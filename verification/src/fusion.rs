//! Why fusing carry chains is exact.
//!
//! A chain computes bit for bit what a binary addition does, no gate outside
//! a chain reads a net that dies with it, and whatever a chain shows settles
//! at its boundary or later.
use vstd::prelude::*;

use crate::compile::{Compiled, Op};
use crate::fuse::{
    admissible, all_sound, candidates, chain_of, consistent, continuation, first_follower, flagged,
    follows, found, grown, heads, in_link, in_links, link_sound, observed, only_feeds, pairs,
    ready_level, shown, tried, tried_all, trimmed, is_gate, ChainView, Found, Link, MAX_CHAIN,
    MIN_CHAIN, NIL,
};
use crate::netlist::Env;
use crate::rtl::sums;

verus! {

/// Which gate of a link reads the carry-in, besides the sum.
pub open spec fn entry(l: Link) -> u32 {
    if l.prop != NIL {
        l.prop
    } else {
        l.carry
    }
}

/// No gate belongs to two links.
pub open spec fn links_apart(links: Seq<Link>) -> bool {
    forall|i: int, j: int, s: u32|
        0 <= i < j < links.len() && #[trigger] in_link(links[i], s) ==> !#[trigger] in_link(links[j], s)
}

/// Consecutive links are joined by carries that stay interior.
pub open spec fn joined(tape: Compiled, links: Seq<Link>, i: int) -> bool {
    &&& links[i + 1].cin == links[i].carry
    &&& !observed(tape, links[i].carry as int)
    &&& only_feeds(tape, links[i].carry, entry(links[i + 1]), links[i + 1].sum)
}

/// The flags tell which nets escape, and `prop` does not.
pub open spec fn interior_ok(tape: Compiled, l: Link) -> bool {
    &&& l == flagged(tape, l)
    &&& l.prop != NIL ==> !observed(tape, l.prop as int) && only_feeds(tape, l.prop, l.carry, l.carry)
}

/// A stretch of links that belong together.
pub open spec fn linked(tape: Compiled, links: Seq<Link>) -> bool {
    &&& links.len() >= 1
    &&& all_sound(tape, links)
    &&& links_apart(links)
    &&& forall|i: int| 0 <= i < links.len() - 1 ==> #[trigger] joined(tape, links, i)
    &&& forall|i: int| 0 <= i < links.len() ==> interior_ok(tape, #[trigger] links[i])
}

/// What every found chain satisfies.
pub open spec fn chain_sound(tape: Compiled, ch: ChainView) -> bool {
    &&& MIN_CHAIN <= ch.links.len() <= MAX_CHAIN
    &&& linked(tape, ch.links)
    &&& consistent(tape, ch.links)
    &&& ch == chain_of(tape, ch.links)
}

/// Every chain is sound, chains share no gate, and exactly their gates are
/// claimed.
pub open spec fn all_chains_sound(tape: Compiled, f: Found) -> bool {
    &&& f.used.len() == tape.n()
    &&& forall|c: int| 0 <= c < f.chains.len() ==> chain_sound(tape, #[trigger] f.chains[c])
    &&& forall|s: int|
        0 <= s < tape.n() ==> (#[trigger] f.used[s] <==> exists|c: int|
            0 <= c < f.chains.len() && in_links((#[trigger] f.chains[c]).links, s as u32))
    &&& forall|c: int, d: int, s: u32|
        0 <= c < d < f.chains.len() && #[trigger] in_links(f.chains[c].links, s) ==> !#[trigger] in_links(
            f.chains[d].links,
            s,
        )
}

/// None of the links' gates is claimed.
spec fn unclaimed(used: Seq<bool>, links: Seq<Link>) -> bool {
    forall|i: int, s: u32| 0 <= i < links.len() && #[trigger] in_link(links[i], s) ==> !used[s as int]
}

proof fn lemma_candidates(tape: Compiled, c: u32, i: int)
    requires
        tape.wf(),
        c < tape.n(),
        0 <= i < candidates(tape, c).len(),
    ensures
        link_sound(tape, candidates(tape, c)[i]),
        candidates(tape, c)[i].cin == c,
{
    crate::fuse::lemma_candidate_sound(tape, c, i);
}

proof fn lemma_follower(tape: Compiled, used: Seq<bool>, links: Seq<Link>, cands: Seq<Link>, i: int)
    requires
        0 <= i,
    ensures
        first_follower(tape, used, links, cands, i) matches Some(l) ==> exists|j: int|
            0 <= j < cands.len() && follows(tape, used, links, #[trigger] cands[j]) && l == flagged(
                tape,
                cands[j],
            ),
    decreases cands.len() - i,
{
    if i < cands.len() {
        if follows(tape, used, links, cands[i]) {
        } else {
            lemma_follower(tape, used, links, cands, i + 1);
        }
    }
}

/// One more link keeps a stretch of links together.
proof fn lemma_push_linked(tape: Compiled, used: Seq<bool>, links: Seq<Link>, next: Link)
    requires
        tape.wf(),
        linked(tape, links),
        unclaimed(used, links),
        continuation(tape, used, links) == Some(next),
    ensures
        linked(tape, links.push(next)),
        unclaimed(used, links.push(next)),
{
    let c = links.last().carry;
    let cands = candidates(tape, c);
    let n = links.len() as int;
    assert(link_sound(tape, links[n - 1]));
    lemma_follower(tape, used, links, cands, 0);
    let j = choose|j: int|
        0 <= j < cands.len() && follows(tape, used, links, #[trigger] cands[j]) && next == flagged(
            tape,
            cands[j],
        );
    lemma_candidates(tape, c, j);
    let cand = cands[j];
    let more = links.push(next);
    assert forall|i: int| 0 <= i < more.len() implies link_sound(tape, #[trigger] more[i]) && interior_ok(
        tape,
        more[i],
    ) by {
        if i < n {
            assert(more[i] == links[i]);
        }
    }
    assert forall|i: int, k: int, s: u32|
        0 <= i < k < more.len() && #[trigger] in_link(more[i], s) implies !#[trigger] in_link(more[k], s) by {
        if k < n {
            assert(more[i] == links[i] && more[k] == links[k]);
        } else {
            assert(more[i] == links[i]);
            assert(in_links(links, s));
            if in_link(next, s) {
                assert(in_link(cand, s));
            }
        }
    }
    assert forall|i: int| 0 <= i < more.len() - 1 implies #[trigger] joined(tape, more, i) by {
        if i < n - 1 {
            assert(joined(tape, links, i));
            assert(more[i] == links[i] && more[i + 1] == links[i + 1]);
        }
    }
    assert forall|i: int, s: u32| 0 <= i < more.len() && #[trigger] in_link(more[i], s) implies !used[s as int] by {
        if i < n {
            assert(in_link(links[i], s));
        } else {
            assert(in_link(cand, s));
        }
    }
}

proof fn lemma_grown(tape: Compiled, used: Seq<bool>, links: Seq<Link>)
    requires
        tape.wf(),
        linked(tape, links),
        unclaimed(used, links),
        links.len() <= MAX_CHAIN,
    ensures
        linked(tape, grown(tape, used, links)),
        unclaimed(used, grown(tape, used, links)),
        grown(tape, used, links).len() <= MAX_CHAIN,
    decreases MAX_CHAIN - links.len(),
{
    if links.len() < MAX_CHAIN {
        if let Some(next) = continuation(tape, used, links) {
            lemma_push_linked(tape, used, links, next);
            lemma_grown(tape, used, links.push(next));
        }
    }
}

proof fn lemma_trimmed(tape: Compiled, used: Seq<bool>, links: Seq<Link>)
    requires
        linked(tape, links),
        unclaimed(used, links),
        links.len() <= MAX_CHAIN,
    ensures
        trimmed(tape, links) matches Some(t) ==> linked(tape, t) && unclaimed(used, t) && consistent(tape, t)
            && MIN_CHAIN <= t.len() <= MAX_CHAIN,
    decreases links.len(),
{
    if links.len() >= MIN_CHAIN && !consistent(tape, links) {
        let less = links.drop_last();
        assert forall|i: int| 0 <= i < less.len() implies link_sound(tape, #[trigger] less[i]) && interior_ok(
            tape,
            less[i],
        ) by {
            assert(less[i] == links[i]);
        }
        assert forall|i: int, k: int, s: u32|
            0 <= i < k < less.len() && #[trigger] in_link(less[i], s) implies !#[trigger] in_link(less[k], s) by {
            assert(less[i] == links[i] && less[k] == links[k]);
        }
        assert forall|i: int| 0 <= i < less.len() - 1 implies #[trigger] joined(tape, less, i) by {
            assert(joined(tape, links, i));
            assert(less[i] == links[i] && less[i + 1] == links[i + 1]);
        }
        assert forall|i: int, s: u32| 0 <= i < less.len() && #[trigger] in_link(less[i], s) implies !used[s as int] by {
            assert(less[i] == links[i]);
            assert(in_link(links[i], s));
        }
        lemma_trimmed(tape, used, less);
    }
}

/// Trying a head keeps everything sound.
proof fn lemma_tried(tape: Compiled, f: Found, head: Link)
    requires
        tape.wf(),
        all_chains_sound(tape, f),
        link_sound(tape, head),
    ensures
        all_chains_sound(tape, tried(tape, f, head)),
{
    if admissible(tape, f.used, Seq::empty(), head) {
        let first = flagged(tape, head);
        let start = seq![first];
        assert(linked(tape, start)) by {
            assert(start[0] == first);
        }
        assert(unclaimed(f.used, start)) by {
            assert forall|i: int, s: u32| 0 <= i < start.len() && #[trigger] in_link(start[i], s) implies !f.used[s as int] by {
                assert(in_link(head, s));
            }
        }
        let links = grown(tape, f.used, start);
        lemma_grown(tape, f.used, start);
        lemma_trimmed(tape, f.used, links);
        if let Some(t) = trimmed(tape, links) {
            let g = tried(tape, f, head);
            let k = f.chains.len() as int;
            assert(g.chains[k].links == t);
            assert forall|c: int| 0 <= c < g.chains.len() implies chain_sound(tape, #[trigger] g.chains[c]) by {
                if c < k {
                    assert(g.chains[c] == f.chains[c]);
                }
            }
            assert forall|s: int| 0 <= s < tape.n() implies (#[trigger] g.used[s] <==> exists|c: int|
                0 <= c < g.chains.len() && in_links((#[trigger] g.chains[c]).links, s as u32)) by {
                assert(f.used[s] <==> exists|c: int|
                    0 <= c < f.chains.len() && in_links((#[trigger] f.chains[c]).links, s as u32));
                if f.used[s] {
                    let c = choose|c: int|
                        0 <= c < f.chains.len() && in_links((#[trigger] f.chains[c]).links, s as u32);
                    assert(g.chains[c] == f.chains[c]);
                }
                if in_links(t, s as u32) {
                    assert(in_links(g.chains[k].links, s as u32));
                }
                if exists|c: int|
                    0 <= c < g.chains.len() && in_links((#[trigger] g.chains[c]).links, s as u32) {
                    let c = choose|c: int|
                        0 <= c < g.chains.len() && in_links((#[trigger] g.chains[c]).links, s as u32);
                    if c < k {
                        assert(g.chains[c] == f.chains[c]);
                    }
                }
            }
            assert forall|c: int, d: int, s: u32|
                0 <= c < d < g.chains.len() && #[trigger] in_links(g.chains[c].links, s) implies !#[trigger] in_links(
                g.chains[d].links,
                s,
            ) by {
                assert(g.chains[c] == f.chains[c]);
                if d < k {
                    assert(g.chains[d] == f.chains[d]);
                } else if in_links(t, s) {
                    let i = choose|i: int| 0 <= i < t.len() && in_link(#[trigger] t[i], s);
                    assert(link_sound(tape, t[i]));
                    assert(s < tape.n());
                    assert(!f.used[s as int]);
                }
            }
        }
    }
}

proof fn lemma_heads_sound(tape: Compiled, i: int)
    requires
        tape.wf(),
        0 <= i < heads(tape).len(),
    ensures
        link_sound(tape, heads(tape)[i]),
{
    crate::fuse::lemma_head_sound(tape, i);
}

proof fn lemma_tried_all(tape: Compiled, f: Found, i: int)
    requires
        tape.wf(),
        all_chains_sound(tape, f),
        0 <= i <= heads(tape).len(),
    ensures
        all_chains_sound(tape, tried_all(tape, f, heads(tape), i)),
    decreases i,
{
    if i > 0 {
        lemma_tried_all(tape, f, i - 1);
        lemma_heads_sound(tape, i - 1);
        lemma_tried(tape, tried_all(tape, f, heads(tape), i - 1), heads(tape)[i - 1]);
    }
}

/// Every chain that is found is sound, whatever the tape.
pub proof fn found_chains_are_sound(tape: Compiled)
    requires
        tape.wf(),
    ensures
        all_chains_sound(tape, found(tape)),
{
    let f = Found { chains: Seq::empty(), used: Seq::new(tape.n() as nat, |s: int| false) };
    assert(all_chains_sound(tape, f));
    lemma_tried_all(tape, f, heads(tape).len() as int);
}

/// A slot of a chain that is observed, or read by a gate outside the chain,
/// is one that the chain shows.
pub proof fn what_escapes_is_shown(tape: Compiled, ch: ChainView, s: u32, reader: u32)
    requires
        tape.wf(),
        chain_sound(tape, ch),
        in_links(ch.links, s),
        observed(tape, s as int) || (tape.reads(reader as int, s as int) && !in_links(ch.links, reader)),
    ensures
        exists|i: int| 0 <= i < ch.links.len() && #[trigger] shown(ch.links, i, s),
{
    let links = ch.links;
    let i = choose|i: int| 0 <= i < links.len() && in_link(#[trigger] links[i], s);
    let l = links[i];
    assert(interior_ok(tape, links[i]));
    assert(link_sound(tape, links[i]));
    assert(in_link(l, l.carry));
    assert(in_links(links, l.carry));
    if l.prop != NIL {
        assert(in_link(l, l.prop));
        assert(in_links(links, l.prop));
    }
    if l.sum != NIL {
        assert(in_link(l, l.sum));
        assert(in_links(links, l.sum));
    }
    if s == l.carry && i < links.len() - 1 {
        assert(joined(tape, links, i));
        let m = links[i + 1];
        assert(link_sound(tape, links[i + 1]));
        assert(in_link(m, entry(m)));
        assert(in_links(links, entry(m)));
        if m.sum != NIL {
            assert(in_link(m, m.sum));
            assert(in_links(links, m.sum));
        }
        if tape.reads(reader as int, s as int) {
            assert(reader == entry(m) || reader == m.sum);
        }
    }
    assert(shown(links, i, s));
}

/// The operands of a chain settle strictly below its boundary.
pub proof fn operands_settle_first(tape: Compiled, links: Seq<Link>, i: int)
    requires
        tape.wf(),
        all_sound(tape, links),
        0 <= i < links.len(),
    ensures
        tape.slot_level@[links[0].cin as int] < ready_level(tape, links, links.len() as int),
        tape.slot_level@[links[i].p as int] < ready_level(tape, links, links.len() as int),
        links[i].q != NIL ==> tape.slot_level@[links[i].q as int] < ready_level(
            tape,
            links,
            links.len() as int,
        ),
{
    lemma_ready_grows(tape, links, 0, links.len() as int);
    lemma_ready_grows(tape, links, i + 1, links.len() as int);
}

proof fn lemma_ready_grows(tape: Compiled, links: Seq<Link>, i: int, j: int)
    requires
        0 <= i <= j,
    ensures
        ready_level(tape, links, i) <= ready_level(tape, links, j),
    decreases j,
{
    if i < j {
        lemma_ready_grows(tape, links, i, j - 1);
    }
}

/// The bits of the first operand.
pub open spec fn p_bits(tape: Compiled, links: Seq<Link>, env: Env) -> Seq<bool> {
    Seq::new(links.len(), |i: int| tape.value(env, links[i].p as int))
}

/// The bits of the second operand; absent ones are zero.
pub open spec fn q_bits(tape: Compiled, links: Seq<Link>, env: Env) -> Seq<bool> {
    Seq::new(links.len(), |i: int| links[i].q != NIL && tape.value(env, links[i].q as int))
}

/// The carry into link `i`.
pub open spec fn carry_into(tape: Compiled, links: Seq<Link>, env: Env, i: int) -> bool {
    if i == 0 {
        tape.value(env, links[0].cin as int)
    } else {
        tape.value(env, links[i - 1].carry as int)
    }
}

/// The sum bits.
pub open spec fn sum_bits(tape: Compiled, links: Seq<Link>, env: Env, n: int) -> Seq<bool> {
    Seq::new(
        n as nat,
        |i: int|
            (p_bits(tape, links, env)[i] != q_bits(tape, links, env)[i]) != carry_into(tape, links, env, i),
    )
}

/// What a two-operand gate slot computes.
proof fn lemma_pair_value(tape: Compiled, env: Env, s: int, op: Op, x: u32, y: u32)
    requires
        tape.wf(),
        is_gate(tape, s, op),
        pairs(tape, s, x, y),
        op is Xor || op is And || op is Or,
    ensures
        op is Xor ==> tape.value(env, s) == (tape.value(env, x as int) != tape.value(env, y as int)),
        op is And ==> tape.value(env, s) == (tape.value(env, x as int) && tape.value(env, y as int)),
        op is Or ==> tape.value(env, s) == (tape.value(env, x as int) || tape.value(env, y as int)),
{
    crate::scalar::lemma_gate_slot(tape, env, s);
}

/// One link: its nets carry what a full adder's do.
pub proof fn link_is_a_full_adder(tape: Compiled, links: Seq<Link>, env: Env, i: int)
    requires
        tape.wf(),
        linked(tape, links),
        0 <= i < links.len(),
    ensures
        tape.value(env, links[i].carry as int) == ((p_bits(tape, links, env)[i] && q_bits(
            tape,
            links,
            env,
        )[i]) || ((p_bits(tape, links, env)[i] != q_bits(tape, links, env)[i]) && carry_into(
            tape,
            links,
            env,
            i,
        ))),
        links[i].sum != NIL ==> tape.value(env, links[i].sum as int) == ((p_bits(tape, links, env)[i] != q_bits(
            tape,
            links,
            env,
        )[i]) != carry_into(tape, links, env, i)),
        links[i].prop != NIL ==> tape.value(env, links[i].pxq as int) == (p_bits(tape, links, env)[i] != q_bits(
            tape,
            links,
            env,
        )[i]),
        links[i].prop != NIL ==> tape.value(env, links[i].g as int) == (p_bits(tape, links, env)[i] && q_bits(
            tape,
            links,
            env,
        )[i]),
{
    let l = links[i];
    assert(link_sound(tape, links[i]));
    if i > 0 {
        assert(joined(tape, links, i - 1));
    }
    if l.prop != NIL {
        lemma_pair_value(tape, env, l.pxq as int, Op::Xor, l.p, l.q);
        lemma_pair_value(tape, env, l.g as int, Op::And, l.p, l.q);
        lemma_pair_value(tape, env, l.prop as int, Op::And, l.pxq, l.cin);
        lemma_pair_value(tape, env, l.carry as int, Op::Or, l.g, l.prop);
        if l.sum != NIL {
            lemma_pair_value(tape, env, l.sum as int, Op::Xor, l.pxq, l.cin);
        }
    } else {
        lemma_pair_value(tape, env, l.carry as int, Op::And, l.p, l.cin);
        if l.sum != NIL {
            lemma_pair_value(tape, env, l.sum as int, Op::Xor, l.p, l.cin);
        }
    }
}

/// Fusion is exact: the sum bits of a chain and the carry out of it are
/// `P + Q + cin`, whatever the circuit's inputs and registers hold.
pub proof fn chain_is_an_adder(tape: Compiled, links: Seq<Link>, env: Env, n: int)
    requires
        tape.wf(),
        linked(tape, links),
        0 <= n <= links.len(),
    ensures
        sums(
            p_bits(tape, links, env),
            q_bits(tape, links, env),
            tape.value(env, links[0].cin as int),
            sum_bits(tape, links, env, n),
            carry_into(tape, links, env, n),
        ),
    decreases n,
{
    let (p, q) = (p_bits(tape, links, env), q_bits(tape, links, env));
    let cin = tape.value(env, links[0].cin as int);
    if n == 0 {
        vstd::arithmetic::power2::lemma2_to64();
    } else {
        chain_is_an_adder(tape, links, env, n - 1);
        link_is_a_full_adder(tape, links, env, n - 1);
        let before = sum_bits(tape, links, env, n - 1);
        let s = sum_bits(tape, links, env, n)[n - 1];
        assert(sum_bits(tape, links, env, n) =~= before.push(s));
        crate::rtl::lemma_full_adder(
            p,
            q,
            cin,
            before,
            carry_into(tape, links, env, n - 1),
            s,
            carry_into(tape, links, env, n),
        );
    }
}

} // verus!
