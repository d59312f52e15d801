//! Carry-chain fusion: recognize ripple-carry adders on the tape and
//! collapse each one into a single word-level add.
//!
//! A 32-bit ripple adder is about 160 gates spread over about 64 levels, and
//! the carry recurrence has no word-level parallelism to pack. But the
//! function the chain computes is just `S = P + Q + cin`, and the host ALU
//! evaluates that in one instruction, carry propagation included.
//!
//! Two shapes are found:
//!
//! - **full-adder links**: `pxq = p ^ q`, `g = p & q`, `prop = pxq & c`,
//!   `c' = g | prop`, `sum = pxq ^ c`, the canonical ripple bit;
//! - **incrementer links**: `c' = p & c`, `sum = p ^ c`, what constant
//!   folding leaves of an `x + const` adder (e.g. `pc + 4`).
//!
//! A run of links connected through their carries becomes one fused task:
//! sums land at bits `0..len` and bit `len` is the carry-out. Interior nets
//! (`pxq`, `g`, `prop`, intermediate carries) usually die with the chain;
//! where `pxq` or `g` escapes it, the whole `P ^ Q` / `P & Q` word is
//! materialized alongside.
use vstd::prelude::*;

use crate::compile::{Compiled, Op, DEAD};

verus! {

/// Minimum links worth fusing; below this the window machinery is fine.
pub const MIN_CHAIN: usize = 8;

/// Sums occupy bits `0..len` and the carry-out lands at bit `len`, so a
/// chain (plus its carry) must fit in one word.
pub const MAX_CHAIN: usize = 63;

/// An absent operand or gate.
pub const NIL: u32 = 0xffff_ffff;

/// One ripple bit: `c' = maj(p, q, c)`, `sum = p ^ q ^ c`. Full-adder links
/// carry the whole five-gate structure; incrementer links (`q` absent, i.e.
/// zero) are just the carry `and` plus the sum.
#[derive(Clone, Copy)]
pub struct Link {
    pub p: u32,
    /// [`NIL`] for incrementer links (q = 0); same for the three
    /// full-adder-only gates below.
    pub q: u32,
    /// `xor(p, q)`.
    pub pxq: u32,
    /// `and(p, q)`.
    pub g: u32,
    /// `and(pxq, c)`.
    pub prop: u32,
    /// The carry-out gate (`or` for full adders, `and` for incrementers).
    pub carry: u32,
    /// `xor(pxq | p, c)`; [`NIL`] when the sum is never used.
    pub sum: u32,
    /// Carry-in; for every link but a chain's head this is the previous
    /// link's carry.
    pub cin: u32,
    /// Whether pxq / g escape the chain and must be materialized.
    pub ext_pxq: bool,
    pub ext_g: bool,
}

pub struct Chain {
    /// Carry-in slot of the first link.
    pub cin: u32,
    pub links: Vec<Link>,
    /// Some link's pxq / g escapes: materialize the whole P^Q / P&Q word.
    pub ext_pxq: bool,
    pub ext_g: bool,
    /// Emission boundary: the fused tasks run right before the windows of
    /// this level, by which point every gathered operand has settled.
    pub ready: u32,
}

/// A chain as a value.
#[verifier::ext_equal]
pub struct ChainView {
    pub cin: u32,
    pub links: Seq<Link>,
    pub ext_pxq: bool,
    pub ext_g: bool,
    pub ready: u32,
}

impl Chain {
    pub open spec fn value(&self) -> ChainView {
        ChainView {
            cin: self.cin,
            links: self.links@,
            ext_pxq: self.ext_pxq,
            ext_g: self.ext_g,
            ready: self.ready,
        }
    }
}

pub open spec fn chain_values(chains: Seq<Chain>) -> Seq<ChainView> {
    Seq::new(chains.len(), |i: int| chains[i].value())
}

/// Slot `s` is a gate of the given kind.
pub open spec fn is_gate(tape: Compiled, s: int, op: Op) -> bool {
    tape.gate_start <= s < tape.n() && tape.ops@[s] == op
}

/// Slot `s` reads exactly `x` and `y`, in either order.
pub open spec fn pairs(tape: Compiled, s: int, x: u32, y: u32) -> bool {
    (tape.a@[s] == x && tape.b@[s] == y) || (tape.a@[s] == y && tape.b@[s] == x)
}

/// The first xor of `x` and `y` at or after slot `s`.
pub open spec fn xor_from(tape: Compiled, x: u32, y: u32, s: int) -> u32
    decreases tape.n() - s,
{
    if s >= tape.n() {
        NIL
    } else if is_gate(tape, s, Op::Xor) && pairs(tape, s, x, y) {
        s as u32
    } else {
        xor_from(tape, x, y, s + 1)
    }
}

/// The first xor of `x` and `y` on the tape.
pub open spec fn xor_of(tape: Compiled, x: u32, y: u32) -> u32 {
    xor_from(tape, x, y, tape.gate_start as int)
}

/// No gate stands in two places of a link.
pub open spec fn distinct_gates(pxq: u32, g: u32, prop: u32, carry: u32, sum: u32) -> bool {
    &&& pxq != g && pxq != prop && pxq != carry && (sum != NIL ==> pxq != sum)
    &&& g != prop && g != carry && (sum != NIL ==> g != sum)
    &&& prop != carry && (sum != NIL ==> prop != sum)
    &&& sum != NIL ==> carry != sum
}

/// Match one full-adder link `carry = or(g, prop)` under the given operand
/// assignment.
pub open spec fn full_link(tape: Compiled, g: u32, prop: u32, carry: u32) -> Option<Link> {
    if !is_gate(tape, g as int, Op::And) || !is_gate(tape, prop as int, Op::And) || g == prop {
        None
    } else {
        let p = tape.a@[g as int];
        let q = tape.b@[g as int];
        let pxq = xor_of(tape, p, q);
        let x = tape.a@[prop as int];
        let y = tape.b@[prop as int];
        if pxq == NIL || (x != pxq && y != pxq) {
            None
        } else {
            let cin = if x == pxq {
                y
            } else {
                x
            };
            let sum = xor_of(tape, pxq, cin);
            if distinct_gates(pxq, g, prop, carry, sum) {
                Some(
                    Link { p, q, pxq, g, prop, carry, sum, cin, ext_pxq: false, ext_g: false },
                )
            } else {
                None
            }
        }
    }
}

/// The full-adder links whose carry is slot `s`, both operand assignments
/// tried.
pub open spec fn links_at(tape: Compiled, s: int) -> Seq<Link> {
    if is_gate(tape, s, Op::Or) {
        opt_seq(full_link(tape, tape.a@[s], tape.b@[s], s as u32)) + opt_seq(
            full_link(tape, tape.b@[s], tape.a@[s], s as u32),
        )
    } else {
        Seq::empty()
    }
}

pub open spec fn opt_seq(link: Option<Link>) -> Seq<Link> {
    match link {
        Some(l) => seq![l],
        None => Seq::empty(),
    }
}

/// The links with carry-in `c`.
pub open spec fn with_cin(links: Seq<Link>, c: u32) -> Seq<Link>
    decreases links.len(),
{
    if links.len() == 0 {
        Seq::empty()
    } else {
        let rest = with_cin(links.drop_last(), c);
        if links.last().cin == c {
            rest.push(links.last())
        } else {
            rest
        }
    }
}

/// All full-adder links with a carry below slot `s`, in tape order.
pub open spec fn full_links(tape: Compiled, s: int) -> Seq<Link>
    decreases s - tape.gate_start,
{
    if s <= tape.gate_start {
        Seq::empty()
    } else {
        full_links(tape, s - 1) + links_at(tape, s - 1)
    }
}

/// The and gates below slot `s` that read `c`, in tape order.
pub open spec fn ands_with(tape: Compiled, c: u32, s: int) -> Seq<u32>
    decreases s - tape.gate_start,
{
    if s <= tape.gate_start {
        Seq::empty()
    } else {
        let rest = ands_with(tape, c, s - 1);
        if is_gate(tape, s - 1, Op::And) && (tape.a@[s - 1] == c || tape.b@[s - 1] == c) {
            rest.push((s - 1) as u32)
        } else {
            rest
        }
    }
}

/// An incrementer link `carry = and(p, cin)`.
pub open spec fn inc_link(tape: Compiled, p: u32, cin: u32, carry: u32) -> Link {
    Link {
        p,
        q: NIL,
        pxq: NIL,
        g: NIL,
        prop: NIL,
        carry,
        sum: xor_of(tape, p, cin),
        cin,
        ext_pxq: false,
        ext_g: false,
    }
}

/// Observed outside all gates: declared outputs and live registers'
/// next-state taps.
pub open spec fn observed(tape: Compiled, s: int) -> bool {
    ||| exists|k: int| 0 <= k < tape.output_slots@.len() && #[trigger] tape.output_slots@[k] == s
    ||| exists|r: int|
        0 <= r < tape.reg_in_slots@.len() && tape.reg_out_slots@[r] != DEAD && #[trigger] tape.reg_in_slots@[r]
            == s
}

/// Every gate that reads `slot` is `x` or `y`.
pub open spec fn only_feeds(tape: Compiled, slot: u32, x: u32, y: u32) -> bool {
    forall|c: u32| #[trigger] tape.reads(c as int, slot as int) ==> c == x || c == y
}

/// `s` is one of the link's gates.
pub open spec fn in_link(link: Link, s: u32) -> bool {
    s != NIL && (s == link.pxq || s == link.g || s == link.prop || s == link.carry || s == link.sum)
}

/// `s` is a gate of one of the links.
pub open spec fn in_links(links: Seq<Link>, s: u32) -> bool {
    exists|i: int| 0 <= i < links.len() && in_link(#[trigger] links[i], s)
}

/// The link with its escape flags filled in.
pub open spec fn flagged(tape: Compiled, link: Link) -> Link {
    if link.prop == NIL {
        link
    } else {
        Link {
            ext_pxq: observed(tape, link.pxq as int) || !only_feeds(tape, link.pxq, link.prop, link.sum),
            ext_g: observed(tape, link.g as int) || !only_feeds(tape, link.g, link.carry, link.carry),
            ..link
        }
    }
}

/// None of the link's gates is claimed, and `prop` dies with the chain: it
/// has no cheap word form.
pub open spec fn admissible(tape: Compiled, used: Seq<bool>, links: Seq<Link>, link: Link) -> bool {
    &&& forall|s: u32| #[trigger] in_link(link, s) ==> !used[s as int] && !in_links(links, s)
    &&& link.prop != NIL ==> !observed(tape, link.prop as int) && only_feeds(
        tape,
        link.prop,
        link.carry,
        link.carry,
    )
}

/// `cand` can follow `links`, whose last carry stays interior.
pub open spec fn follows(tape: Compiled, used: Seq<bool>, links: Seq<Link>, cand: Link) -> bool {
    &&& only_feeds(
        tape,
        links.last().carry,
        if cand.prop != NIL {
            cand.prop
        } else {
            cand.carry
        },
        cand.sum,
    )
    &&& admissible(tape, used, links, cand)
}

/// The incrementer candidates after carry `c`.
pub open spec fn inc_cands(tape: Compiled, c: u32, ands: Seq<u32>) -> Seq<Link> {
    Seq::new(
        ands.len(),
        |i: int|
            inc_link(
                tape,
                if tape.a@[ands[i] as int] == c {
                    tape.b@[ands[i] as int]
                } else {
                    tape.a@[ands[i] as int]
                },
                c,
                ands[i],
            ),
    )
}

/// What may follow carry `c`: full-adder links first, then incrementers.
pub open spec fn candidates(tape: Compiled, c: u32) -> Seq<Link> {
    with_cin(full_links(tape, tape.n()), c) + inc_cands(tape, c, ands_with(tape, c, tape.n()))
}

/// The first of the candidates from `i` on that can follow.
pub open spec fn first_follower(
    tape: Compiled,
    used: Seq<bool>,
    links: Seq<Link>,
    cands: Seq<Link>,
    i: int,
) -> Option<Link>
    decreases cands.len() - i,
{
    if i >= cands.len() {
        None
    } else if follows(tape, used, links, cands[i]) {
        Some(flagged(tape, cands[i]))
    } else {
        first_follower(tape, used, links, cands, i + 1)
    }
}

/// Next link after the last carry, if that carry can stay interior: consumed
/// only by that link's gates and never observed directly.
pub open spec fn continuation(tape: Compiled, used: Seq<bool>, links: Seq<Link>) -> Option<Link> {
    let c = links.last().carry;
    if observed(tape, c as int) {
        None
    } else {
        first_follower(tape, used, links, candidates(tape, c), 0)
    }
}

/// The longest chain that extends `links`.
pub open spec fn grown(tape: Compiled, used: Seq<bool>, links: Seq<Link>) -> Seq<Link>
    decreases MAX_CHAIN - links.len(),
{
    if links.len() >= MAX_CHAIN {
        links
    } else {
        match continuation(tape, used, links) {
            Some(next) => grown(tape, used, links.push(next)),
            None => links,
        }
    }
}

pub open spec fn max_u32(x: int, y: int) -> int {
    if x >= y {
        x
    } else {
        y
    }
}

/// One more than the highest level among the operands of the first `i`
/// links.
pub open spec fn ready_level(tape: Compiled, links: Seq<Link>, i: int) -> int
    decreases i,
{
    if i <= 0 {
        tape.slot_level@[links[0].cin as int] + 1
    } else {
        let l = links[i - 1];
        let r = max_u32(ready_level(tape, links, i - 1), tape.slot_level@[l.p as int] + 1);
        if l.q != NIL {
            max_u32(r, tape.slot_level@[l.q as int] + 1)
        } else {
            r
        }
    }
}

/// Slot `s` is shown by link `i`: its value is needed outside the chain.
pub open spec fn shown(links: Seq<Link>, i: int, s: u32) -> bool {
    let l = links[i];
    s != NIL && (s == l.sum || (i == links.len() - 1 && s == l.carry) || (l.ext_pxq && s == l.pxq) || (
    l.ext_g && s == l.g))
}

/// No operand of the chain is one of its own gates, and whatever the chain
/// shows originally settled at its boundary or later.
pub open spec fn consistent(tape: Compiled, links: Seq<Link>) -> bool {
    let ready = ready_level(tape, links, links.len() as int);
    &&& !in_links(links, links[0].cin)
    &&& forall|i: int| 0 <= i < links.len() ==> !in_links(links, (#[trigger] links[i]).p) && !in_links(
        links,
        links[i].q,
    )
    &&& forall|i: int, s: u32|
        0 <= i < links.len() && #[trigger] shown(links, i, s) ==> tape.slot_level@[s as int] >= ready
}

/// Drop links from the end until the chain is consistent; none if it gets
/// too short.
pub open spec fn trimmed(tape: Compiled, links: Seq<Link>) -> Option<Seq<Link>>
    decreases links.len(),
{
    if links.len() < MIN_CHAIN {
        None
    } else if consistent(tape, links) {
        Some(links)
    } else {
        trimmed(tape, links.drop_last())
    }
}

/// The chain made of `links`.
pub open spec fn chain_of(tape: Compiled, links: Seq<Link>) -> ChainView {
    ChainView {
        cin: links[0].cin,
        links,
        ext_pxq: exists|i: int| 0 <= i < links.len() && (#[trigger] links[i]).ext_pxq,
        ext_g: exists|i: int| 0 <= i < links.len() && (#[trigger] links[i]).ext_g,
        ready: ready_level(tape, links, links.len() as int) as u32,
    }
}

/// What has been found so far.
#[verifier::ext_equal]
pub struct Found {
    pub chains: Seq<ChainView>,
    pub used: Seq<bool>,
}

/// Claim the gates of a chain.
pub open spec fn claim(used: Seq<bool>, links: Seq<Link>) -> Seq<bool> {
    Seq::new(used.len(), |s: int| used[s] || in_links(links, s as u32))
}

/// Grow the longest admissible chain from `head`, trim it until it is
/// consistent, and commit it if it is still worth fusing.
pub open spec fn tried(tape: Compiled, f: Found, head: Link) -> Found {
    if !admissible(tape, f.used, Seq::empty(), head) {
        f
    } else {
        match trimmed(tape, grown(tape, f.used, seq![flagged(tape, head)])) {
            Some(links) => Found {
                chains: f.chains.push(chain_of(tape, links)),
                used: claim(f.used, links),
            },
            None => f,
        }
    }
}

pub open spec fn tried_all(tape: Compiled, f: Found, heads: Seq<Link>, i: int) -> Found
    decreases i,
{
    if i <= 0 {
        f
    } else {
        tried(tape, tried_all(tape, f, heads, i - 1), heads[i - 1])
    }
}

/// The incrementer heads with a carry below slot `s`: any and gate, either
/// operand as the carry-in.
pub open spec fn inc_heads(tape: Compiled, s: int) -> Seq<Link>
    decreases s - tape.gate_start,
{
    if s <= tape.gate_start {
        Seq::empty()
    } else {
        let rest = inc_heads(tape, s - 1);
        if is_gate(tape, s - 1, Op::And) {
            let (a, b) = (tape.a@[s - 1], tape.b@[s - 1]);
            rest.push(inc_link(tape, a, b, (s - 1) as u32)).push(inc_link(tape, b, a, (s - 1) as u32))
        } else {
            rest
        }
    }
}

/// Everything a chain could start from: full-adder heads first (they
/// reclaim five gates per bit), in tape order so a chain is tried from its
/// true head before any mid-link.
pub open spec fn heads(tape: Compiled) -> Seq<Link> {
    full_links(tape, tape.n()) + inc_heads(tape, tape.n())
}

/// The fusable carry chains of a tape, and the gates they replace.
pub open spec fn found(tape: Compiled) -> Found {
    tried_all(
        tape,
        Found { chains: Seq::empty(), used: Seq::new(tape.n() as nat, |s: int| false) },
        heads(tape),
        heads(tape).len() as int,
    )
}

/// The link's gates compute what its fields say.
pub open spec fn link_sound(tape: Compiled, l: Link) -> bool {
    if l.prop != NIL {
        &&& is_gate(tape, l.pxq as int, Op::Xor) && pairs(tape, l.pxq as int, l.p, l.q)
        &&& is_gate(tape, l.g as int, Op::And) && pairs(tape, l.g as int, l.p, l.q)
        &&& is_gate(tape, l.prop as int, Op::And) && pairs(tape, l.prop as int, l.pxq, l.cin)
        &&& is_gate(tape, l.carry as int, Op::Or) && pairs(tape, l.carry as int, l.g, l.prop)
        &&& l.sum != NIL ==> is_gate(tape, l.sum as int, Op::Xor) && pairs(tape, l.sum as int, l.pxq, l.cin)
        &&& distinct_gates(l.pxq, l.g, l.prop, l.carry, l.sum)
        &&& l.p < tape.n() && l.q < tape.n() && l.cin < tape.n()
    } else {
        &&& l.q == NIL && l.pxq == NIL && l.g == NIL && !l.ext_pxq && !l.ext_g
        &&& is_gate(tape, l.carry as int, Op::And) && pairs(tape, l.carry as int, l.p, l.cin)
        &&& l.sum != NIL ==> is_gate(tape, l.sum as int, Op::Xor) && pairs(tape, l.sum as int, l.p, l.cin)
        &&& l.carry != l.sum
        &&& l.p < tape.n() && l.cin < tape.n()
    }
}

/// What `xor_of` yields is a xor of the two slots.
proof fn lemma_xor_from(tape: Compiled, x: u32, y: u32, s: int)
    requires
        tape.wf(),
        tape.gate_start <= s,
    ensures
        xor_from(tape, x, y, s) == NIL || (is_gate(tape, xor_from(tape, x, y, s) as int, Op::Xor) && pairs(
            tape,
            xor_from(tape, x, y, s) as int,
            x,
            y,
        )),
    decreases tape.n() - s,
{
    if s < tape.n() && !(is_gate(tape, s, Op::Xor) && pairs(tape, s, x, y)) {
        lemma_xor_from(tape, x, y, s + 1);
    }
}

/// A slot that is such a xor, with none before it, is what `xor_of` yields.
pub proof fn lemma_xor_is(tape: Compiled, x: u32, y: u32, s: int, r: u32)
    requires
        tape.wf(),
        tape.gate_start <= s,
        r == NIL || (s <= r && is_gate(tape, r as int, Op::Xor) && pairs(tape, r as int, x, y)),
        forall|t: int|
            s <= t < tape.n() && t < r ==> !(is_gate(tape, t, Op::Xor) && #[trigger] pairs(tape, t, x, y)),
    ensures
        xor_from(tape, x, y, s) == r,
    decreases tape.n() - s,
{
    if s < tape.n() {
        if s < r {
            lemma_xor_is(tape, x, y, s + 1, r);
        }
    }
}

/// Find the first xor of `x` and `y`.
fn find_xor(tape: &Compiled, x: u32, y: u32) -> (r: u32)
    requires
        tape.wf(),
        x < tape.n(),
    ensures
        r == xor_of(*tape, x, y),
{
    let readers = tape.successors(x);
    let mut best: u32 = NIL;
    for i in 0..readers.len()
        invariant
            tape.wf(),
            x < tape.n(),
            forall|c: u32| readers@.contains(c) <==> tape.reads(c as int, x as int),
            best == NIL || (is_gate(*tape, best as int, Op::Xor) && pairs(*tape, best as int, x, y)),
            forall|j: int|
                0 <= j < i && is_gate(*tape, readers@[j] as int, Op::Xor) && pairs(
                    *tape,
                    readers@[j] as int,
                    x,
                    y,
                ) ==> best <= #[trigger] readers@[j],
    {
        let s: u32 = readers[i];
        assert(readers@.contains(s));
        let at: usize = s as usize;
        if tape.ops[at] == Op::Xor && ((tape.a[at] == x && tape.b[at] == y) || (tape.a[at] == y && tape.b[at]
            == x)) && s < best {
            best = s;
        }
    }
    proof {
        assert forall|t: int| tape.gate_start <= t < tape.n() && t < best implies !(is_gate(
            *tape,
            t,
            Op::Xor,
        ) && #[trigger] pairs(*tape, t, x, y)) by {
            if is_gate(*tape, t, Op::Xor) && pairs(*tape, t, x, y) {
                lemma_reads_pair(*tape, t);
                assert(tape.reads(t, x as int));
                assert(readers@.contains(t as u32));
                let j = choose|j: int| 0 <= j < readers@.len() && readers@[j] == t as u32;
                assert(best <= readers@[j]);
            }
        }
        lemma_xor_is(*tape, x, y, tape.gate_start as int, best);
    }
    best
}

/// A two-operand gate reads both operands.
proof fn lemma_reads_pair(tape: Compiled, s: int)
    requires
        tape.wf(),
        is_gate(tape, s, Op::Xor) || is_gate(tape, s, Op::And) || is_gate(tape, s, Op::Or),
    ensures
        tape.reads(s, tape.a@[s] as int),
        tape.reads(s, tape.b@[s] as int),
        forall|x: int| tape.reads(s, x) ==> x == tape.a@[s] || x == tape.b@[s],
        tape.a@[s] < s,
        tape.b@[s] < s,
        tape.slot_level@[tape.a@[s] as int] < tape.slot_level@[s],
        tape.slot_level@[tape.b@[s] as int] < tape.slot_level@[s],
{
    assert(tape.gate_ok(s));
    let ins = crate::compile::operands(
        tape.ops@[s],
        tape.a@[s] as int,
        tape.b@[s] as int,
        tape.c@[s] as int,
    );
    assert(ins[0] == tape.a@[s]);
    assert(ins[1] == tape.b@[s]);
}

/// A matched full-adder link is sound.
proof fn lemma_full_link(tape: Compiled, s: int, g: u32, prop: u32)
    requires
        tape.wf(),
        is_gate(tape, s, Op::Or),
        pairs(tape, s, g, prop),
    ensures
        full_link(tape, g, prop, s as u32) matches Some(l) ==> link_sound(tape, l) && l.prop != NIL && l.carry == s,
{
    if let Some(l) = full_link(tape, g, prop, s as u32) {
        lemma_reads_pair(tape, g as int);
        lemma_reads_pair(tape, prop as int);
        lemma_xor_from(tape, l.p, l.q, tape.gate_start as int);
        lemma_xor_from(tape, l.pxq, l.cin, tape.gate_start as int);
    }
}

/// An incrementer link of an and gate is sound.
proof fn lemma_inc_link(tape: Compiled, s: int, p: u32, cin: u32)
    requires
        tape.wf(),
        is_gate(tape, s, Op::And),
        pairs(tape, s, p, cin),
    ensures
        link_sound(tape, inc_link(tape, p, cin, s as u32)),
{
    lemma_reads_pair(tape, s);
    lemma_xor_from(tape, p, cin, tape.gate_start as int);
}

/// Match one full-adder link.
fn match_full(tape: &Compiled, g: u32, prop: u32, carry: u32) -> (res: Option<Link>)
    requires
        tape.wf(),
        g < tape.n(),
        prop < tape.n(),
        is_gate(*tape, carry as int, Op::Or),
        pairs(*tape, carry as int, g, prop),
    ensures
        res == full_link(*tape, g, prop, carry),
{
    if g < tape.gate_start || prop < tape.gate_start || tape.ops[g as usize] != Op::And
        || tape.ops[prop as usize] != Op::And || g == prop {
        return None;
    }
    proof {
        lemma_reads_pair(*tape, g as int);
        lemma_reads_pair(*tape, prop as int);
    }
    let (p, q) = (tape.a[g as usize], tape.b[g as usize]);
    let pxq: u32 = find_xor(tape, p, q);
    if pxq == NIL {
        return None;
    }
    let (x, y) = (tape.a[prop as usize], tape.b[prop as usize]);
    let cin: u32 = if x == pxq {
        y
    } else if y == pxq {
        x
    } else {
        return None;
    };
    proof {
        lemma_xor_from(*tape, p, q, tape.gate_start as int);
    }
    let sum: u32 = find_xor(tape, pxq, cin);
    // The matched gates must be five distinct slots (sum may be absent).
    if pxq == g || pxq == prop || pxq == carry || g == carry || prop == carry || (sum != NIL && (pxq == sum || g
        == sum || prop == sum || carry == sum)) {
        return None;
    }
    Some(Link { p, q, pxq, g, prop, carry, sum, cin, ext_pxq: false, ext_g: false })
}

/// Lookup tables over a tape.
struct Finder<'t> {
    tape: &'t Compiled,
    /// And gates by operand, for incrementer-link lookups.
    and_with: Vec<Vec<u32>>,
    /// Full-adder links by carry-in, for chain extension.
    full_by_cin: Vec<Vec<Link>>,
    /// Full-adder links in tape order.
    full: Vec<Link>,
    /// Slots observed outside all gates; never interior to a chain.
    io: Vec<bool>,
    /// Gates already claimed by a committed chain.
    used: Vec<bool>,
}

/// The table of and gates is complete below slot `s`.
spec fn ands_ok(tape: Compiled, lists: Seq<Vec<u32>>, s: int) -> bool {
    &&& lists.len() == tape.n()
    &&& forall|c: int| 0 <= c < lists.len() ==> (#[trigger] lists[c])@ == ands_with(tape, c as u32, s)
}

/// The table of links holds `links`.
spec fn fulls_ok(tape: Compiled, lists: Seq<Vec<Link>>, links: Seq<Link>) -> bool {
    &&& lists.len() == tape.n()
    &&& forall|c: int| 0 <= c < lists.len() ==> (#[trigger] lists[c])@ == with_cin(links, c as u32)
}

/// Every link is sound.
pub open spec fn all_sound(tape: Compiled, links: Seq<Link>) -> bool {
    forall|i: int| 0 <= i < links.len() ==> link_sound(tape, #[trigger] links[i])
}

fn empty_lists<T>(n: usize) -> (lists: Vec<Vec<T>>)
    ensures
        lists@.len() == n,
        forall|c: int| 0 <= c < n ==> (#[trigger] lists@[c])@ == Seq::<T>::empty(),
{
    let mut lists: Vec<Vec<T>> = Vec::with_capacity(n);
    for i in 0..n
        invariant
            lists@.len() == i,
            forall|c: int| 0 <= c < i ==> (#[trigger] lists@[c])@ == Seq::<T>::empty(),
    {
        lists.push(Vec::new());
    }
    lists
}

fn all_false(n: usize) -> (flags: Vec<bool>)
    ensures
        flags@ == Seq::new(n as nat, |s: int| false),
{
    let mut flags: Vec<bool> = Vec::with_capacity(n);
    for i in 0..n
        invariant
            flags@ == Seq::new(i as nat, |s: int| false),
    {
        flags.push(false);
        assert(flags@ =~= Seq::new((i + 1) as nat, |s: int| false));
    }
    flags
}

/// Index the and gates by operand.
fn index_ands(tape: &Compiled) -> (lists: Vec<Vec<u32>>)
    requires
        tape.wf(),
    ensures
        ands_ok(*tape, lists@, tape.n()),
{
    let n: usize = tape.slot_count();
    let from: usize = tape.gate_start as usize;
    let mut lists: Vec<Vec<u32>> = empty_lists(n);
    for s in from..n
        invariant
            tape.wf(),
            n == tape.n(),
            from == tape.gate_start,
            ands_ok(*tape, lists@, s as int),
    {
        let ghost before = lists@;
        let (a, b) = (tape.a[s], tape.b[s]);
        if tape.ops[s] == Op::And {
            proof {
                lemma_reads_pair(*tape, s as int);
            }
            lists[a as usize].push(s as u32);
            if b != a {
                lists[b as usize].push(s as u32);
            }
        }
        assert forall|c: int| 0 <= c < lists@.len() implies (#[trigger] lists@[c])@ == ands_with(
            *tape,
            c as u32,
            s + 1,
        ) by {
            assert(before[c]@ == ands_with(*tape, c as u32, s as int));
        }
    }
    lists
}

/// Every full-adder link of the tape, in tape order and by carry-in.
fn index_fulls(tape: &Compiled) -> (res: (Vec<Link>, Vec<Vec<Link>>))
    requires
        tape.wf(),
    ensures
        res.0@ == full_links(*tape, tape.n()),
        all_sound(*tape, res.0@),
        fulls_ok(*tape, res.1@, res.0@),
        res.0@.len() <= 2 * tape.n(),
{
    let n: usize = tape.slot_count();
    let from: usize = tape.gate_start as usize;
    let mut links: Vec<Link> = Vec::new();
    let mut lists: Vec<Vec<Link>> = empty_lists(n);
    for s in from..n
        invariant
            tape.wf(),
            n == tape.n(),
            from == tape.gate_start,
            links@ == full_links(*tape, s as int),
            all_sound(*tape, links@),
            fulls_ok(*tape, lists@, links@),
            links@.len() <= 2 * (s - from),
    {
        let (a, b) = (tape.a[s], tape.b[s]);
        let ghost links0 = links@;
        if tape.ops[s] == Op::Or {
            proof {
                lemma_reads_pair(*tape, s as int);
                lemma_full_link(*tape, s as int, a, b);
                lemma_full_link(*tape, s as int, b, a);
            }
            if let Some(link) = match_full(tape, a, b, s as u32) {
                push_link(tape, &mut links, &mut lists, link);
            }
            if let Some(link) = match_full(tape, b, a, s as u32) {
                push_link(tape, &mut links, &mut lists, link);
            }
            assert(links@ =~= links0 + links_at(*tape, s as int));
        } else {
            assert(links@ =~= links0 + links_at(*tape, s as int));
        }
    }
    (links, lists)
}

/// File one more link.
fn push_link(tape: &Compiled, links: &mut Vec<Link>, lists: &mut Vec<Vec<Link>>, link: Link)
    requires
        tape.wf(),
        fulls_ok(*tape, old(lists)@, old(links)@),
        all_sound(*tape, old(links)@),
        link_sound(*tape, link),
    ensures
        final(links)@ == old(links)@.push(link),
        fulls_ok(*tape, final(lists)@, final(links)@),
        all_sound(*tape, final(links)@),
{
    let ghost before = lists@;
    let ghost links0 = links@;
    lists[link.cin as usize].push(link);
    links.push(link);
    assert forall|c: int| 0 <= c < lists@.len() implies (#[trigger] lists@[c])@ == with_cin(
        links@,
        c as u32,
    ) by {
        assert(before[c]@ == with_cin(links0, c as u32));
        assert(links@.drop_last() =~= links0);
    }
}

/// Mark the observed slots.
fn mark_observed(tape: &Compiled) -> (io: Vec<bool>)
    requires
        tape.wf(),
    ensures
        io@.len() == tape.n(),
        forall|s: int| 0 <= s < tape.n() ==> #[trigger] io@[s] == observed(*tape, s),
{
    let n: usize = tape.slot_count();
    let mut io: Vec<bool> = all_false(n);
    for k in 0..tape.output_slots.len()
        invariant
            tape.wf(),
            n == tape.n(),
            io@.len() == n,
            forall|s: int|
                0 <= s < n ==> (#[trigger] io@[s] <==> exists|j: int|
                    0 <= j < k && #[trigger] tape.output_slots@[j] == s),
    {
        let ghost before = io@;
        let slot: usize = tape.output_slots[k] as usize;
        io.set(slot, true);
        assert forall|s: int| 0 <= s < n implies (#[trigger] io@[s] <==> exists|j: int|
            0 <= j < k + 1 && #[trigger] tape.output_slots@[j] == s) by {
            assert(before[s] <==> exists|j: int| 0 <= j < k && #[trigger] tape.output_slots@[j] == s);
            if s == slot {
                assert(tape.output_slots@[k as int] == s);
            }
            if before[s] {
                let j = choose|j: int| 0 <= j < k && #[trigger] tape.output_slots@[j] == s;
                assert(tape.output_slots@[j] == s);
            }
        }
    }
    let ghost outs = io@;
    let count: usize = tape.reg_out_slots.len();
    for r in 0..count
        invariant
            tape.wf(),
            n == tape.n(),
            count == tape.reg_out_slots@.len(),
            io@.len() == n,
            forall|s: int|
                0 <= s < n ==> (#[trigger] io@[s] <==> outs[s] || exists|j: int|
                    0 <= j < r && tape.reg_out_slots@[j] != DEAD && #[trigger] tape.reg_in_slots@[j] == s),
    {
        let ghost before = io@;
        if tape.reg_out_slots[r] != DEAD {
            let slot: usize = tape.reg_in_slots[r] as usize;
            io.set(slot, true);
        }
        assert forall|s: int| 0 <= s < n implies (#[trigger] io@[s] <==> outs[s] || exists|j: int|
            0 <= j < r + 1 && tape.reg_out_slots@[j] != DEAD && #[trigger] tape.reg_in_slots@[j] == s) by {
            assert(before[s] <==> outs[s] || exists|j: int|
                0 <= j < r && tape.reg_out_slots@[j] != DEAD && #[trigger] tape.reg_in_slots@[j] == s);
            assert(tape.reg_in_slots@[r as int] == s || tape.reg_in_slots@[r as int] != s);
            if before[s] && !outs[s] {
                let j = choose|j: int|
                    0 <= j < r && tape.reg_out_slots@[j] != DEAD && #[trigger] tape.reg_in_slots@[j] == s;
                assert(tape.reg_in_slots@[j] == s);
            }
        }
    }
    io
}

/// Link `s` belongs to the link.
fn holds_gate(link: &Link, s: u32) -> (yes: bool)
    ensures
        yes == in_link(*link, s),
{
    s != NIL && (s == link.pxq || s == link.g || s == link.prop || s == link.carry || s == link.sum)
}

/// Slot `s` is a gate of one of the links.
fn hold_gate(links: &Vec<Link>, s: u32) -> (yes: bool)
    ensures
        yes == in_links(links@, s),
{
    for i in 0..links.len()
        invariant
            forall|j: int| 0 <= j < i ==> !in_link(#[trigger] links@[j], s),
    {
        if holds_gate(&links[i], s) {
            assert(in_link(links@[i as int], s));
            return true;
        }
    }
    false
}

/// Flags do not change what a link is made of.
proof fn lemma_flagged(tape: Compiled, link: Link)
    requires
        link_sound(tape, link),
    ensures
        link_sound(tape, flagged(tape, link)),
        forall|s: u32| in_link(flagged(tape, link), s) == in_link(link, s),
{
}

impl<'t> Finder<'t> {
    spec fn ok(&self) -> bool {
        let tape = *self.tape;
        &&& tape.wf()
        &&& ands_ok(tape, self.and_with@, tape.n())
        &&& self.full@ == full_links(tape, tape.n())
        &&& all_sound(tape, self.full@)
        &&& fulls_ok(tape, self.full_by_cin@, self.full@)
        &&& self.io@.len() == tape.n()
        &&& forall|s: int| 0 <= s < tape.n() ==> #[trigger] self.io@[s] == observed(tape, s)
        &&& self.used@.len() == tape.n()
    }

    fn new(tape: &'t Compiled) -> (f: Self)
        requires
            tape.wf(),
        ensures
            f.ok(),
            *f.tape == *tape,
            f.used@ == Seq::new(tape.n() as nat, |s: int| false),
            f.full@.len() <= 2 * tape.n(),
    {
        let and_with = index_ands(tape);
        let (full, full_by_cin) = index_fulls(tape);
        let io = mark_observed(tape);
        let used = all_false(tape.slot_count());
        Finder { tape, and_with, full_by_cin, full, io, used }
    }

    fn only_feeds(&self, slot: u32, x: u32, y: u32) -> (yes: bool)
        requires
            self.ok(),
            slot < self.tape.n(),
        ensures
            yes == only_feeds(*self.tape, slot, x, y),
    {
        let readers = self.tape.successors(slot);
        for i in 0..readers.len()
            invariant
                self.ok(),
                forall|c: u32| readers@.contains(c) <==> self.tape.reads(c as int, slot as int),
                forall|j: int| 0 <= j < i ==> #[trigger] readers@[j] == x || readers@[j] == y,
        {
            let c: u32 = readers[i];
            if c != x && c != y {
                assert(readers@.contains(c));
                assert(self.tape.reads(c as int, slot as int));
                return false;
            }
        }
        assert forall|c: u32| #[trigger] self.tape.reads(c as int, slot as int) implies c == x || c == y by {
            assert(readers@.contains(c));
            let j = choose|j: int| 0 <= j < readers@.len() && readers@[j] == c;
            assert(readers@[j] == x || readers@[j] == y);
        }
        true
    }

    /// A gate nobody has claimed.
    fn free(&self, links: &Vec<Link>, s: u32) -> (yes: bool)
        requires
            self.ok(),
            s == NIL || s < self.tape.n(),
        ensures
            yes == (s != NIL ==> !self.used@[s as int] && !in_links(links@, s)),
    {
        s == NIL || (!self.used[s as usize] && !hold_gate(links, s))
    }

    /// Per-link admission: gates unclaimed, interior nets interior. Fills
    /// the escape flags for pxq / g.
    fn admitted(&self, link: Link, links: &Vec<Link>) -> (res: Option<Link>)
        requires
            self.ok(),
            link_sound(*self.tape, link),
        ensures
            res == (if admissible(*self.tape, self.used@, links@, link) {
                Some(flagged(*self.tape, link))
            } else {
                None
            }),
    {
        let pxq_free = self.free(links, link.pxq);
        let g_free = self.free(links, link.g);
        let prop_free = self.free(links, link.prop);
        let carry_free = self.free(links, link.carry);
        let sum_free = self.free(links, link.sum);
        if !(pxq_free && g_free && prop_free && carry_free && sum_free) {
            proof {
                let bad = if !pxq_free {
                    link.pxq
                } else if !g_free {
                    link.g
                } else if !prop_free {
                    link.prop
                } else if !carry_free {
                    link.carry
                } else {
                    link.sum
                };
                assert(in_link(link, bad));
            }
            return None;
        }
        if link.prop != NIL {
            // prop has no cheap word form; it must die with the chain.
            if self.io[link.prop as usize] || !self.only_feeds(link.prop, link.carry, link.carry) {
                return None;
            }
            let ext_pxq = self.io[link.pxq as usize] || !self.only_feeds(link.pxq, link.prop, link.sum);
            let ext_g = self.io[link.g as usize] || !self.only_feeds(link.g, link.carry, link.carry);
            return Some(Link { ext_pxq, ext_g, ..link });
        }
        Some(link)
    }

    fn inc(&self, p: u32, cin: u32, carry: u32) -> (link: Link)
        requires
            self.ok(),
            p < self.tape.n(),
        ensures
            link == inc_link(*self.tape, p, cin, carry),
    {
        let sum: u32 = find_xor(self.tape, p, cin);
        Link {
            p,
            q: NIL,
            pxq: NIL,
            g: NIL,
            prop: NIL,
            carry,
            sum,
            cin,
            ext_pxq: false,
            ext_g: false,
        }
    }

    /// The candidate if it can follow, with its flags.
    fn follow(&self, cand: Link, links: &Vec<Link>) -> (res: Option<Link>)
        requires
            self.ok(),
            link_sound(*self.tape, cand),
            links@.len() > 0,
            links@.last().carry < self.tape.n(),
        ensures
            res == (if follows(*self.tape, self.used@, links@, cand) {
                Some(flagged(*self.tape, cand))
            } else {
                None
            }),
    {
        let carry: u32 = links[links.len() - 1].carry;
        let first: u32 = if cand.prop != NIL {
            cand.prop
        } else {
            cand.carry
        };
        if self.only_feeds(carry, first, cand.sum) {
            self.admitted(cand, links)
        } else {
            None
        }
    }

    /// Next link after the last carry, if that carry can stay interior.
    #[verifier::rlimit(40)]
    fn continuation(&self, links: &Vec<Link>) -> (res: Option<Link>)
        requires
            self.ok(),
            links@.len() > 0,
            all_sound(*self.tape, links@),
        ensures
            res == continuation(*self.tape, self.used@, links@),
            res matches Some(l) ==> link_sound(*self.tape, l),
    {
        let ghost tape = *self.tape;
        assert(link_sound(tape, links@[links@.len() - 1]));
        let carry: u32 = links[links.len() - 1].carry;
        if self.io[carry as usize] {
            return None;
        }
        let ghost cands = candidates(tape, carry);
        let ghost fulls = with_cin(full_links(tape, tape.n()), carry);
        let ghost ands = ands_with(tape, carry, tape.n());
        assert(self.full_by_cin@[carry as int]@ == fulls);
        assert(self.and_with@[carry as int]@ == ands);
        let count: usize = self.full_by_cin[carry as usize].len();
        for i in 0..count
            invariant
                self.ok(),
                tape == *self.tape,
                links@.len() > 0,
                links@.last().carry == carry,
                carry < tape.n(),
                fulls == with_cin(full_links(tape, tape.n()), carry),
                self.full_by_cin@[carry as int]@ == fulls,
                cands == candidates(tape, carry),
                ands == ands_with(tape, carry, tape.n()),
                !observed(tape, carry as int),
                count == fulls.len(),
                first_follower(tape, self.used@, links@, cands, 0) == first_follower(
                    tape,
                    self.used@,
                    links@,
                    cands,
                    i as int,
                ),
        {
            let cand = self.full_by_cin[carry as usize][i];
            proof {
                assert(cands[i as int] == cand);
                lemma_with_cin_sound(tape, self.full@, carry);
                lemma_flagged(tape, cand);
            }
            if let Some(link) = self.follow(cand, links) {
                return Some(link);
            }
        }
        let count2: usize = self.and_with[carry as usize].len();
        for i in 0..count2
            invariant
                self.ok(),
                tape == *self.tape,
                links@.len() > 0,
                links@.last().carry == carry,
                carry < tape.n(),
                fulls == with_cin(full_links(tape, tape.n()), carry),
                count == fulls.len(),
                cands == candidates(tape, carry),
                ands == ands_with(tape, carry, tape.n()),
                self.and_with@[carry as int]@ == ands,
                !observed(tape, carry as int),
                count2 == ands.len(),
                first_follower(tape, self.used@, links@, cands, 0) == first_follower(
                    tape,
                    self.used@,
                    links@,
                    cands,
                    count + i,
                ),
        {
            let and: u32 = self.and_with[carry as usize][i];
            proof {
                lemma_ands_with(tape, carry, tape.n(), i as int);
                lemma_reads_pair(tape, and as int);
            }
            let (a, b) = (self.tape.a[and as usize], self.tape.b[and as usize]);
            let other: u32 = if a == carry {
                b
            } else {
                a
            };
            let cand = self.inc(other, carry, and);
            proof {
                assert(cands[count + i] == cand);
                lemma_inc_link(tape, and as int, other, carry);
                lemma_flagged(tape, cand);
            }
            if let Some(link) = self.follow(cand, links) {
                return Some(link);
            }
        }
        None
    }

    /// Check a chain against the emission rule and return its boundary.
    ///
    /// The fused tasks run right before the windows of level `ready`, one
    /// above the highest operand. That is sound only if every materialized
    /// output originally settled at `ready` or later; then each external
    /// consumer still runs after the fused task. Chain inputs must also not
    /// be the chain's own gates, or the gathers would read the destination
    /// words being written.
    #[verifier::rlimit(40)]
    fn consistent(&self, links: &Vec<Link>) -> (res: Option<u32>)
        requires
            self.ok(),
            links@.len() > 0,
            all_sound(*self.tape, links@),
        ensures
            res is Some <==> consistent(*self.tape, links@),
            res matches Some(r) ==> r == ready_level(*self.tape, links@, links@.len() as int),
    {
        let ghost tape = *self.tape;
        assert(link_sound(tape, links@[0]));
        proof {
            lemma_level_small(tape, links@[0].cin as int);
        }
        let mut ready: u32 = self.tape.slot_level[links[0].cin as usize] + 1;
        for i in 0..links.len()
            invariant
                self.ok(),
                tape == *self.tape,
                all_sound(tape, links@),
                ready == ready_level(tape, links@, i as int),
                ready <= crate::circuit::MAX_SIGNALS + 1,
        {
            let link = links[i];
            assert(link_sound(tape, links@[i as int]));
            proof {
                lemma_level_small(tape, link.p as int);
            }
            let lp: u32 = self.tape.slot_level[link.p as usize] + 1;
            if lp > ready {
                ready = lp;
            }
            if link.q != NIL {
                proof {
                    lemma_level_small(tape, link.q as int);
                }
                let lq: u32 = self.tape.slot_level[link.q as usize] + 1;
                if lq > ready {
                    ready = lq;
                }
            }
        }
        if hold_gate(links, links[0].cin) {
            return None;
        }
        for i in 0..links.len()
            invariant
                forall|j: int|
                    0 <= j < i ==> !in_links(links@, (#[trigger] links@[j]).p) && !in_links(
                        links@,
                        links@[j].q,
                    ),
        {
            if hold_gate(links, links[i].p) || hold_gate(links, links[i].q) {
                assert(!(!in_links(links@, links@[i as int].p) && !in_links(links@, links@[i as int].q)));
                return None;
            }
        }
        let last: usize = links.len() - 1;
        for i in 0..links.len()
            invariant
                self.ok(),
                tape == *self.tape,
                all_sound(tape, links@),
                last == links@.len() - 1,
                ready == ready_level(tape, links@, links@.len() as int),
                forall|j: int, s: u32|
                    0 <= j < i && #[trigger] shown(links@, j, s) ==> tape.slot_level@[s as int] >= ready,
        {
            let link = links[i];
            assert(link_sound(tape, links@[i as int]));
            if link.sum != NIL && self.tape.slot_level[link.sum as usize] < ready {
                assert(shown(links@, i as int, link.sum));
                return None;
            }
            if i == last && self.tape.slot_level[link.carry as usize] < ready {
                assert(shown(links@, i as int, link.carry));
                return None;
            }
            if link.ext_pxq && self.tape.slot_level[link.pxq as usize] < ready {
                assert(shown(links@, i as int, link.pxq));
                return None;
            }
            if link.ext_g && self.tape.slot_level[link.g as usize] < ready {
                assert(shown(links@, i as int, link.g));
                return None;
            }
        }
        Some(ready)
    }
}

/// Claim one gate.
fn claim_gate(used: &mut Vec<bool>, s: u32)
    requires
        s == NIL || s < old(used)@.len(),
    ensures
        final(used)@ == (if s == NIL {
            old(used)@
        } else {
            old(used)@.update(s as int, true)
        }),
{
    if s != NIL {
        used.set(s as usize, true);
    }
}

impl<'t> Finder<'t> {
    /// Claim the gates of a chain.
    fn claim(&mut self, links: &Vec<Link>)
        requires
            old(self).ok(),
            all_sound(*old(self).tape, links@),
        ensures
            final(self).ok(),
            *final(self).tape == *old(self).tape,
            final(self).full == old(self).full,
            final(self).used@ == claim(old(self).used@, links@),
    {
        let ghost before = self.used@;
        for i in 0..links.len()
            invariant
                self.ok(),
                *self.tape == *old(self).tape,
                self.full == old(self).full,
                all_sound(*self.tape, links@),
                before == old(self).used@,
                forall|s: int|
                    0 <= s < self.tape.n() ==> (#[trigger] self.used@[s] <==> before[s] || in_links(
                        links@.take(i as int),
                        s as u32,
                    )),
        {
            let ghost mid = self.used@;
            let link = links[i];
            assert(link_sound(*self.tape, links@[i as int]));
            claim_gate(&mut self.used, link.pxq);
            claim_gate(&mut self.used, link.g);
            claim_gate(&mut self.used, link.prop);
            claim_gate(&mut self.used, link.carry);
            claim_gate(&mut self.used, link.sum);
            assert forall|s: int| 0 <= s < self.tape.n() implies (#[trigger] self.used@[s] <==> before[s]
                || in_links(links@.take(i + 1), s as u32)) by {
                assert(mid[s] <==> before[s] || in_links(links@.take(i as int), s as u32));
                lemma_in_links_push(links@, i as int, s as u32);
            }
        }
        assert(links@.take(links@.len() as int) =~= links@);
        assert(self.used@ =~= claim(before, links@));
    }

    /// Grow the longest admissible chain from `head`, trim it until it is
    /// consistent, and commit it if it is still worth fusing.
    #[verifier::rlimit(40)]
    fn try_chain(&mut self, head: Link, chains: &mut Vec<Chain>)
        requires
            old(self).ok(),
            link_sound(*old(self).tape, head),
        ensures
            final(self).ok(),
            *final(self).tape == *old(self).tape,
            final(self).full == old(self).full,
            final(chains)@.len() <= old(chains)@.len() + 1,
            (Found { chains: chain_values(final(chains)@), used: final(self).used@ }) == tried(
                *old(self).tape,
                Found { chains: chain_values(old(chains)@), used: old(self).used@ },
                head,
            ),
    {
        let ghost tape = *self.tape;
        let none: Vec<Link> = Vec::new();
        assert(none@ =~= Seq::empty());
        let first = match self.admitted(head, &none) {
            Some(link) => link,
            None => {
                return ;
            },
        };
        proof {
            lemma_flagged(tape, head);
        }
        let mut links: Vec<Link> = vec![first];
        assert(links@ =~= seq![first]);
        let ghost goal = grown(tape, self.used@, seq![first]);
        let mut growing = true;
        while growing && links.len() < MAX_CHAIN
            invariant
                self.ok(),
                tape == *self.tape,
                links@.len() > 0,
                links@.len() <= MAX_CHAIN,
                all_sound(tape, links@),
                goal == grown(tape, self.used@, links@),
                !growing ==> links@ == goal,
            decreases
                MAX_CHAIN - links@.len() + if growing {
                    1int
                } else {
                    0int
                },
        {
            match self.continuation(&links) {
                Some(next) => {
                    links.push(next);
                },
                None => {
                    growing = false;
                },
            }
        }
        assert(links@ == goal);
        while links.len() >= MIN_CHAIN
            invariant
                self.ok(),
                tape == *self.tape,
                self.tape == old(self).tape,
                self.full == old(self).full,
                self.used@ == old(self).used@,
                chains@ == old(chains)@,
                all_sound(tape, links@),
                admissible(tape, old(self).used@, Seq::empty(), head),
                first == flagged(tape, head),
                goal == grown(tape, old(self).used@, seq![first]),
                trimmed(tape, goal) == trimmed(tape, links@),
            decreases links@.len(),
        {
            match self.consistent(&links) {
                Some(ready) => {
                    self.claim(&links);
                    let mut ext_pxq = false;
                    let mut ext_g = false;
                    for i in 0..links.len()
                        invariant
                            ext_pxq <==> exists|j: int| 0 <= j < i && (#[trigger] links@[j]).ext_pxq,
                            ext_g <==> exists|j: int| 0 <= j < i && (#[trigger] links@[j]).ext_g,
                    {
                        assert(links@[i as int].ext_pxq || !links@[i as int].ext_pxq);
                        ext_pxq = ext_pxq || links[i].ext_pxq;
                        ext_g = ext_g || links[i].ext_g;
                    }
                    let cin: u32 = links[0].cin;
                    let ghost before = chain_values(chains@);
                    let ghost ls = links@;
                    chains.push(Chain { cin, links, ext_pxq, ext_g, ready });
                    proof {
                        assert(chain_values(chains@).last() == chain_of(tape, ls));
                        assert(chain_values(chains@) =~= before.push(chain_of(tape, ls)));
                    }
                    return ;
                },
                None => {
                    let ghost full_links_now = links@;
                    links.pop();
                    assert(links@ =~= full_links_now.drop_last());
                },
            }
        }
    }

    fn run(self) -> (res: (Vec<Chain>, Vec<bool>))
        requires
            self.ok(),
            self.used@ == Seq::new(self.tape.n() as nat, |s: int| false),
            self.full@.len() <= 2 * self.tape.n(),
        ensures
            (Found { chains: chain_values(res.0@), used: res.1@ }) == found(*self.tape),
            res.0@.len() <= 4 * self.tape.n(),
    {
        let mut this = self;
        let ghost tape = *self.tape;
        let mut chains: Vec<Chain> = Vec::new();
        let ghost start = Found {
            chains: Seq::empty(),
            used: Seq::new(tape.n() as nat, |s: int| false),
        };
        let ghost hs = heads(tape);
        assert(chain_values(chains@) =~= Seq::<ChainView>::empty());
        let count: usize = this.full.len();
        for i in 0..count
            invariant
                this.ok(),
                tape == *this.tape,
                count == this.full@.len(),
                count <= 2 * tape.n(),
                hs == heads(tape),
                chains@.len() <= i,
                (Found { chains: chain_values(chains@), used: this.used@ }) == tried_all(
                    tape,
                    start,
                    hs,
                    i as int,
                ),
        {
            let head = this.full[i];
            assert(link_sound(tape, this.full@[i as int]));
            assert(hs[i as int] == head);
            this.try_chain(head, &mut chains);
        }
        let from: usize = this.tape.gate_start as usize;
        let n: usize = this.tape.slot_count();
        for s in from..n
            invariant
                this.ok(),
                tape == *this.tape,
                from == tape.gate_start,
                n == tape.n(),
                count == full_links(tape, tape.n()).len(),
                count <= 2 * tape.n(),
                hs == heads(tape),
                chains@.len() <= count + 2 * (s - from),
                (Found { chains: chain_values(chains@), used: this.used@ }) == tried_all(
                    tape,
                    start,
                    hs,
                    count + inc_heads(tape, s as int).len(),
                ),
        {
            let (a, b) = (this.tape.a[s], this.tape.b[s]);
            if this.tape.ops[s] == Op::And {
                proof {
                    lemma_reads_pair(tape, s as int);
                    lemma_inc_link(tape, s as int, a, b);
                    lemma_inc_link(tape, s as int, b, a);
                    lemma_inc_heads(tape, s + 1, tape.n());
                    let k = inc_heads(tape, s as int).len() as int;
                    assert(inc_heads(tape, s + 1)[k] == inc_link(tape, a, b, s as u32));
                    assert(inc_heads(tape, s + 1)[k + 1] == inc_link(tape, b, a, s as u32));
                    assert(hs[count + k] == inc_heads(tape, tape.n())[k]);
                    assert(hs[count + k + 1] == inc_heads(tape, tape.n())[k + 1]);
                }
                let ghost at = count + inc_heads(tape, s as int).len();
                let head = this.inc(a, b, s as u32);
                this.try_chain(head, &mut chains);
                assert((Found { chains: chain_values(chains@), used: this.used@ }) == tried_all(
                    tape,
                    start,
                    hs,
                    at + 1,
                ));
                let head = this.inc(b, a, s as u32);
                this.try_chain(head, &mut chains);
                assert((Found { chains: chain_values(chains@), used: this.used@ }) == tried_all(
                    tape,
                    start,
                    hs,
                    at + 2,
                ));
            }
        }
        (chains, this.used)
    }
}

/// Find fusable carry chains. Returns the chains plus a per-slot flag for
/// every gate a chain replaces.
pub fn find_chains(tape: &Compiled) -> (res: (Vec<Chain>, Vec<bool>))
    requires
        tape.wf(),
    ensures
        (Found { chains: chain_values(res.0@), used: res.1@ }) == found(*tape),
        res.0@.len() <= 4 * tape.n(),
{
    Finder::new(tape).run()
}

proof fn lemma_in_links_push(links: Seq<Link>, i: int, s: u32)
    requires
        0 <= i < links.len(),
    ensures
        in_links(links.take(i + 1), s) == (in_links(links.take(i), s) || in_link(links[i], s)),
{
    let (now, next) = (links.take(i), links.take(i + 1));
    assert(next[i] == links[i]);
    if in_links(now, s) {
        let j = choose|j: int| 0 <= j < now.len() && in_link(#[trigger] now[j], s);
        assert(next[j] == now[j]);
    }
    if in_links(next, s) && !in_link(links[i], s) {
        let j = choose|j: int| 0 <= j < next.len() && in_link(#[trigger] next[j], s);
        assert(now[j] == next[j]);
    }
}

proof fn lemma_inc_heads(tape: Compiled, s: int, t: int)
    requires
        s <= t,
    ensures
        inc_heads(tape, s).len() <= inc_heads(tape, t).len(),
        forall|j: int| 0 <= j < inc_heads(tape, s).len() ==> #[trigger] inc_heads(tape, t)[j] == inc_heads(tape, s)[j],
    decreases t - s,
{
    if s < t {
        lemma_inc_heads(tape, s, t - 1);
    }
}

/// Links picked by carry-in are among the links.
proof fn lemma_with_cin_sound(tape: Compiled, links: Seq<Link>, c: u32)
    requires
        all_sound(tape, links),
    ensures
        all_sound(tape, with_cin(links, c)),
        forall|i: int| 0 <= i < with_cin(links, c).len() ==> (#[trigger] with_cin(links, c)[i]).cin == c,
    decreases links.len(),
{
    if links.len() > 0 {
        assert forall|i: int| 0 <= i < links.drop_last().len() implies link_sound(
            tape,
            #[trigger] links.drop_last()[i],
        ) by {
            assert(links.drop_last()[i] == links[i]);
        }
        lemma_with_cin_sound(tape, links.drop_last(), c);
        assert(links.last() == links[links.len() - 1]);
    }
}

/// Listed and gates are and gates that read the slot.
proof fn lemma_ands_with(tape: Compiled, c: u32, s: int, i: int)
    requires
        tape.wf(),
        s <= tape.n(),
        0 <= i < ands_with(tape, c, s).len(),
    ensures
        is_gate(tape, ands_with(tape, c, s)[i] as int, Op::And),
        tape.a@[ands_with(tape, c, s)[i] as int] == c || tape.b@[ands_with(tape, c, s)[i] as int] == c,
    decreases s - tape.gate_start,
{
    if s > tape.gate_start {
        if i < ands_with(tape, c, s - 1).len() {
            lemma_ands_with(tape, c, s - 1, i);
        }
    }
}

/// Levels are no higher than the tape is long.
proof fn lemma_level_small(tape: Compiled, s: int)
    requires
        tape.wf(),
        0 <= s < tape.n(),
    ensures
        tape.slot_level@[s] <= crate::circuit::MAX_SIGNALS,
{
    if s >= tape.gate_start {
        assert(tape.gate_ok(s));
    }
}

/// Every candidate after carry `c` is sound and takes `c` in.
pub proof fn lemma_candidate_sound(tape: Compiled, c: u32, i: int)
    requires
        tape.wf(),
        c < tape.n(),
        0 <= i < candidates(tape, c).len(),
    ensures
        link_sound(tape, candidates(tape, c)[i]),
        candidates(tape, c)[i].cin == c,
{
    let fulls = with_cin(full_links(tape, tape.n()), c);
    lemma_full_links_sound(tape, tape.n());
    lemma_with_cin_sound(tape, full_links(tape, tape.n()), c);
    if i < fulls.len() {
        assert(candidates(tape, c)[i] == fulls[i]);
    } else {
        let ands = ands_with(tape, c, tape.n());
        let k = i - fulls.len();
        lemma_ands_with(tape, c, tape.n(), k);
        let g = ands[k];
        let other = if tape.a@[g as int] == c {
            tape.b@[g as int]
        } else {
            tape.a@[g as int]
        };
        lemma_inc_link(tape, g as int, other, c);
        assert(candidates(tape, c)[i] == inc_link(tape, other, c, g));
    }
}

proof fn lemma_full_links_sound(tape: Compiled, s: int)
    requires
        tape.wf(),
        s <= tape.n(),
    ensures
        all_sound(tape, full_links(tape, s)),
    decreases s - tape.gate_start,
{
    if s > tape.gate_start {
        lemma_full_links_sound(tape, s - 1);
        if is_gate(tape, s - 1, Op::Or) {
            lemma_full_link(tape, s - 1, tape.a@[s - 1], tape.b@[s - 1]);
            lemma_full_link(tape, s - 1, tape.b@[s - 1], tape.a@[s - 1]);
        }
        assert(all_sound(tape, links_at(tape, s - 1)));
    }
}

proof fn lemma_inc_heads_sound(tape: Compiled, s: int)
    requires
        tape.wf(),
        s <= tape.n(),
    ensures
        all_sound(tape, inc_heads(tape, s)),
    decreases s - tape.gate_start,
{
    if s > tape.gate_start {
        lemma_inc_heads_sound(tape, s - 1);
        if is_gate(tape, s - 1, Op::And) {
            lemma_inc_link(tape, s - 1, tape.a@[s - 1], tape.b@[s - 1]);
            lemma_inc_link(tape, s - 1, tape.b@[s - 1], tape.a@[s - 1]);
        }
    }
}

/// Every head is sound.
pub proof fn lemma_head_sound(tape: Compiled, i: int)
    requires
        tape.wf(),
        0 <= i < heads(tape).len(),
    ensures
        link_sound(tape, heads(tape)[i]),
{
    lemma_full_links_sound(tape, tape.n());
    lemma_inc_heads_sound(tape, tape.n());
    let fulls = full_links(tape, tape.n());
    if i < fulls.len() {
        assert(heads(tape)[i] == fulls[i]);
    } else {
        assert(heads(tape)[i] == inc_heads(tape, tape.n())[i - fulls.len()]);
    }
}

} // verus!
