//! Arena layout: which bit of which word each slot occupies.
//!
//! Gates are placed in blocks. A block starts at a word boundary and holds
//! its slots bit by bit: the gates of one run that no chain replaces, the
//! sums and the carry-out of one chain, or a chain's escaping `pxq` or `g`
//! nets.
use vstd::prelude::*;

use crate::compile::{run_ok, run_pos, Compiled};
use crate::fuse::{chain_values, in_link, in_links, link_sound, Chain, ChainView, Found, NIL};
use crate::fusion::{all_chains_sound, chain_sound, links_apart};
use crate::plan::words_for;
use crate::scalar::lemma_run_bounds;

verus! {

/// The slots of `from..to` that no chain claims.
pub open spec fn unclaimed_slots(used: Seq<bool>, from: int, to: int) -> Seq<u32>
    decreases to - from,
{
    if to <= from {
        Seq::empty()
    } else {
        let rest = unclaimed_slots(used, from, to - 1);
        if used[to - 1] {
            rest
        } else {
            rest.push((to - 1) as u32)
        }
    }
}

/// Sum bit of each link, then the carry out of the chain.
pub open spec fn sum_slots(ch: ChainView) -> Seq<u32> {
    Seq::new(
        ch.links.len() + 1,
        |i: int|
            if i < ch.links.len() {
                ch.links[i].sum
            } else {
                ch.links.last().carry
            },
    )
}

/// The chain's `P ^ Q` nets, where some escape.
pub open spec fn pxq_slots(ch: ChainView) -> Seq<u32> {
    if ch.ext_pxq {
        Seq::new(ch.links.len(), |i: int| ch.links[i].pxq)
    } else {
        Seq::empty()
    }
}

/// The chain's `P & Q` nets, where some escape.
pub open spec fn g_slots(ch: ChainView) -> Seq<u32> {
    if ch.ext_g {
        Seq::new(ch.links.len(), |i: int| ch.links[i].g)
    } else {
        Seq::empty()
    }
}

/// Number of blocks: one per run, three per chain.
pub open spec fn block_count(tape: Compiled, f: Found) -> int {
    (tape.runs@.len() + 3 * f.chains.len()) as int
}

/// The slots of block `k`; absent ones leave a gap.
pub open spec fn block_slots(tape: Compiled, f: Found, k: int) -> Seq<u32> {
    let runs = tape.runs@.len();
    if k < runs {
        unclaimed_slots(f.used, tape.runs@[k].start as int, tape.runs@[k].end as int)
    } else {
        let ch = f.chains[(k - runs) / 3];
        if (k - runs) % 3 == 0 {
            sum_slots(ch)
        } else if (k - runs) % 3 == 1 {
            pxq_slots(ch)
        } else {
            g_slots(ch)
        }
    }
}

/// The first word of block `k`: blocks stand one behind the other, each in
/// as many words as its slots need.
pub open spec fn block_word(tape: Compiled, f: Found, first: int, k: int) -> int
    decreases k,
{
    if k <= 0 {
        first
    } else {
        block_word(tape, f, first, k - 1) + words_for(block_slots(tape, f, k - 1).len() as int)
    }
}

/// Later blocks stand behind earlier ones.
pub proof fn lemma_block_words(tape: Compiled, f: Found, first: int, k: int, l: int)
    requires
        0 <= k < l,
    ensures
        block_word(tape, f, first, k) + words_for(block_slots(tape, f, k).len() as int) <= block_word(
            tape,
            f,
            first,
            l,
        ),
        first <= block_word(tape, f, first, k),
    decreases l,
{
    if k < l - 1 {
        lemma_block_words(tape, f, first, k, l - 1);
    } else if k > 0 {
        lemma_block_words(tape, f, first, k - 1, k);
    }
}

/// The blocks up to `k` take at most a word per gate and chain word.
pub proof fn lemma_block_total(tape: Compiled, f: Found, first: int, k: int)
    requires
        tape.wf(),
        all_chains_sound(tape, f),
        0 <= k <= block_count(tape, f),
    ensures
        block_word(tape, f, first, k) <= first + (if k < tape.runs@.len() {
            run_pos(tape.runs@, tape.n(), k) - tape.gate_start
        } else {
            tape.n() - tape.gate_start + (k - tape.runs@.len())
        }),
    decreases k,
{
    if k > 0 {
        lemma_block_total(tape, f, first, k - 1);
        lemma_block_range(tape, f, k - 1);
        if k - 1 < tape.runs@.len() {
            assert(run_ok(tape.runs@, tape.n(), k - 1));
            lemma_run_bounds(tape, k - 1);
        }
    }
}

pub proof fn lemma_unclaimed(used: Seq<bool>, from: int, to: int, i: int)
    requires
        0 <= from <= to <= used.len(),
        used.len() <= u32::MAX,
        0 <= i < unclaimed_slots(used, from, to).len(),
    ensures
        from <= unclaimed_slots(used, from, to)[i] < to,
        !used[unclaimed_slots(used, from, to)[i] as int],
        unclaimed_slots(used, from, to)[i] >= from + i,
    decreases to - from,
{
    if to > from {
        let rest = unclaimed_slots(used, from, to - 1);
        if i < rest.len() {
            lemma_unclaimed(used, from, to - 1, i);
        } else {
            lemma_unclaimed_len(used, from, to - 1);
        }
    }
}

pub proof fn lemma_unclaimed_len(used: Seq<bool>, from: int, to: int)
    ensures
        unclaimed_slots(used, from, to).len() <= if from <= to {
            to - from
        } else {
            0
        },
    decreases to - from,
{
    if to > from {
        lemma_unclaimed_len(used, from, to - 1);
    }
}

proof fn lemma_unclaimed_ascend(used: Seq<bool>, from: int, to: int, i: int, j: int)
    requires
        0 <= from <= to <= used.len(),
        used.len() <= u32::MAX,
        0 <= i < j < unclaimed_slots(used, from, to).len(),
    ensures
        unclaimed_slots(used, from, to)[i] < unclaimed_slots(used, from, to)[j],
    decreases to - from,
{
    if to > from {
        let rest = unclaimed_slots(used, from, to - 1);
        if j < rest.len() {
            lemma_unclaimed_ascend(used, from, to - 1, i, j);
        } else {
            lemma_unclaimed(used, from, to - 1, i);
        }
    }
}

/// Every unclaimed slot of the range is listed.
pub proof fn lemma_unclaimed_has(used: Seq<bool>, from: int, to: int, s: int) -> (i: int)
    requires
        0 <= from <= s < to <= used.len(),
        used.len() <= u32::MAX,
        !used[s],
    ensures
        0 <= i < unclaimed_slots(used, from, to).len(),
        unclaimed_slots(used, from, to)[i] == s,
    decreases to - from,
{
    if s == to - 1 {
        unclaimed_slots(used, from, to - 1).len() as int
    } else {
        lemma_unclaimed_has(used, from, to - 1, s)
    }
}

/// The link a slot of a chain block belongs to.
proof fn lemma_chain_slot(tape: Compiled, f: Found, k: int, i: int) -> (l: int)
    requires
        tape.wf(),
        all_chains_sound(tape, f),
        tape.runs@.len() <= k < block_count(tape, f),
        0 <= i < block_slots(tape, f, k).len(),
        block_slots(tape, f, k)[i] != NIL,
    ensures
        0 <= l < f.chains[(k - tape.runs@.len()) / 3].links.len(),
        in_link(f.chains[(k - tape.runs@.len()) / 3].links[l], block_slots(tape, f, k)[i]),
        in_links(f.chains[(k - tape.runs@.len()) / 3].links, block_slots(tape, f, k)[i]),
        tape.gate_start <= block_slots(tape, f, k)[i] < tape.n(),
        f.used[block_slots(tape, f, k)[i] as int],
        l == (if i < f.chains[(k - tape.runs@.len()) / 3].links.len() {
            i
        } else {
            i - 1
        }),
{
    let c = (k - tape.runs@.len()) / 3;
    let ch = f.chains[c];
    assert(chain_sound(tape, f.chains[c]));
    let l = if i < ch.links.len() {
        i
    } else {
        i - 1
    };
    let s = block_slots(tape, f, k)[i];
    assert(in_link(ch.links[l], s));
    assert(link_sound(tape, ch.links[l]));
    assert(in_links(f.chains[c].links, s));
    l
}

/// No slot stands in two blocks, or twice in one.
pub proof fn lemma_blocks_apart(tape: Compiled, f: Found, k: int, i: int, l: int, j: int)
    requires
        tape.wf(),
        all_chains_sound(tape, f),
        0 <= k < block_count(tape, f),
        0 <= l < block_count(tape, f),
        0 <= i < block_slots(tape, f, k).len(),
        0 <= j < block_slots(tape, f, l).len(),
        block_slots(tape, f, k)[i] == block_slots(tape, f, l)[j],
        block_slots(tape, f, k)[i] != NIL,
    ensures
        k == l,
        i == j,
{
    let runs = tape.runs@.len() as int;
    let s = block_slots(tape, f, k)[i];
    if k < runs {
        lemma_run_bounds(tape, k);
        lemma_unclaimed(f.used, tape.runs@[k].start as int, tape.runs@[k].end as int, i);
    }
    if l < runs {
        lemma_run_bounds(tape, l);
        lemma_unclaimed(f.used, tape.runs@[l].start as int, tape.runs@[l].end as int, j);
    }
    if k < runs && l < runs {
        if k < l {
            lemma_runs_ascend(tape, k, l);
        } else if l < k {
            lemma_runs_ascend(tape, l, k);
        } else if i < j {
            lemma_unclaimed_ascend(f.used, tape.runs@[k].start as int, tape.runs@[k].end as int, i, j);
        } else if j < i {
            lemma_unclaimed_ascend(f.used, tape.runs@[k].start as int, tape.runs@[k].end as int, j, i);
        }
    } else if k < runs {
        let m = lemma_chain_slot(tape, f, l, j);
    } else if l < runs {
        let m = lemma_chain_slot(tape, f, k, i);
    } else {
        let m1 = lemma_chain_slot(tape, f, k, i);
        let m2 = lemma_chain_slot(tape, f, l, j);
        let c = (k - runs) / 3;
        let d = (l - runs) / 3;
        if c < d {
            assert(in_links(f.chains[c].links, s) && in_links(f.chains[d].links, s));
        } else if d < c {
            assert(in_links(f.chains[d].links, s) && in_links(f.chains[c].links, s));
        }
        assert(c == d);
        let ch = f.chains[c];
        assert(chain_sound(tape, f.chains[c]));
        assert(links_apart(ch.links));
        if m1 < m2 {
            assert(in_link(ch.links[m1], s) && in_link(ch.links[m2], s));
        } else if m2 < m1 {
            assert(in_link(ch.links[m2], s) && in_link(ch.links[m1], s));
        }
        assert(m1 == m2);
        assert(link_sound(tape, ch.links[m1]));
    }
}

/// Earlier runs end before later ones start.
pub proof fn lemma_runs_ascend(tape: Compiled, k: int, l: int)
    requires
        tape.wf(),
        0 <= k < l < tape.runs@.len(),
    ensures
        tape.runs@[k].end <= tape.runs@[l].start,
    decreases l - k,
{
    assert(run_ok(tape.runs@, tape.n(), k));
    if k + 1 < l {
        lemma_runs_ascend(tape, k + 1, l);
        assert(run_ok(tape.runs@, tape.n(), k + 1));
    }
}

/// The blocks of a tape, as they are laid out.
pub(crate) fn make_blocks(tape: &Compiled, chains: &Vec<Chain>, fused: &Vec<bool>) -> (blocks: Vec<Vec<u32>>)
    requires
        tape.wf(),
        fused@.len() == tape.n(),
        8 * chains@.len() <= tape.n(),
        all_chains_sound(
            *tape,
            Found { chains: chain_values(chains@), used: fused@ },
        ),
    ensures
        blocks@.len() == block_count(*tape, Found { chains: chain_values(chains@), used: fused@ }),
        forall|k: int|
            0 <= k < blocks@.len() ==> (#[trigger] blocks@[k])@ == block_slots(
                *tape,
                Found { chains: chain_values(chains@), used: fused@ },
                k,
            ),
{
    let ghost f = Found { chains: chain_values(chains@), used: fused@ };
    let mut blocks: Vec<Vec<u32>> = Vec::new();
    for r in 0..tape.runs.len()
        invariant
            tape.wf(),
            fused@.len() == tape.n(),
            f == (Found { chains: chain_values(chains@), used: fused@ }),
            blocks@.len() == r,
            forall|k: int| 0 <= k < r ==> (#[trigger] blocks@[k])@ == block_slots(*tape, f, k),
    {
        let run = tape.runs[r];
        proof {
            lemma_run_bounds(*tape, r as int);
        }
        let mut slots: Vec<u32> = Vec::new();
        for s in run.start..run.end
            invariant
                run.end <= fused@.len(),
                slots@ == unclaimed_slots(fused@, run.start as int, s as int),
        {
            if !fused[s as usize] {
                slots.push(s);
            }
        }
        blocks.push(slots);
    }
    let ghost runs = tape.runs@.len() as int;
    for c in 0..chains.len()
        invariant
            runs == tape.runs@.len(),
            f == (Found { chains: chain_values(chains@), used: fused@ }),
            all_chains_sound(*tape, f),
            blocks@.len() == runs + 3 * c,
            forall|k: int| 0 <= k < runs + 3 * c ==> (#[trigger] blocks@[k])@ == block_slots(*tape, f, k),
    {
        let chain = &chains[c];
        let len: usize = chain.links.len();
        assert(f.chains[c as int] == chain.value());
        assert(chain_sound(*tape, f.chains[c as int]));
        let mut sums: Vec<u32> = Vec::new();
        let mut pxqs: Vec<u32> = Vec::new();
        let mut gs: Vec<u32> = Vec::new();
        for i in 0..len
            invariant
                len == chain.links@.len(),
                sums@ == Seq::new(i as nat, |j: int| chain.links@[j].sum),
                pxqs@ == (if chain.ext_pxq {
                    Seq::new(i as nat, |j: int| chain.links@[j].pxq)
                } else {
                    Seq::empty()
                }),
                gs@ == (if chain.ext_g {
                    Seq::new(i as nat, |j: int| chain.links@[j].g)
                } else {
                    Seq::empty()
                }),
        {
            let link = chain.links[i];
            sums.push(link.sum);
            if chain.ext_pxq {
                pxqs.push(link.pxq);
            }
            if chain.ext_g {
                gs.push(link.g);
            }
            assert(sums@ =~= Seq::new((i + 1) as nat, |j: int| chain.links@[j].sum));
            assert(chain.ext_pxq ==> pxqs@ =~= Seq::new((i + 1) as nat, |j: int| chain.links@[j].pxq));
            assert(chain.ext_g ==> gs@ =~= Seq::new((i + 1) as nat, |j: int| chain.links@[j].g));
        }
        sums.push(chain.links[len - 1].carry);
        proof {
            let k = runs + 3 * c;
            assert((k - runs) / 3 == c && (k - runs) % 3 == 0);
            assert((k + 1 - runs) / 3 == c && (k + 1 - runs) % 3 == 1);
            assert((k + 2 - runs) / 3 == c && (k + 2 - runs) % 3 == 2);
            assert(sums@ =~= block_slots(*tape, f, k));
            assert(pxqs@ =~= block_slots(*tape, f, k + 1));
            assert(gs@ =~= block_slots(*tape, f, k + 2));
        }
        blocks.push(sums);
        blocks.push(pxqs);
        blocks.push(gs);
    }
    blocks
}

/// Absent or in range, and no slot twice.
pub open spec fn placeable(slots: Seq<u32>, n: int) -> bool {
    &&& forall|i: int| 0 <= i < slots.len() && #[trigger] slots[i] != NIL ==> slots[i] < n
    &&& forall|i: int, j: int|
        0 <= i < j < slots.len() && #[trigger] slots[i] != NIL ==> slots[i] != #[trigger] slots[j]
}

/// Give consecutive positions to the slots of a block.
fn place(pos: &mut Vec<u32>, slots: &Vec<u32>, base: u32)
    requires
        placeable(slots@, old(pos)@.len() as int),
        base + slots@.len() <= u32::MAX,
    ensures
        final(pos)@.len() == old(pos)@.len(),
        forall|i: int|
            0 <= i < slots@.len() && #[trigger] slots@[i] != NIL ==> final(pos)@[slots@[i] as int] == base + i,
        forall|x: int|
            0 <= x < old(pos)@.len() && !slots@.contains(x as u32) ==> #[trigger] final(pos)@[x]
                == old(pos)@[x],
{
    for i in 0..slots.len()
        invariant
            placeable(slots@, pos@.len() as int),
            base + slots@.len() <= u32::MAX,
            pos@.len() == old(pos)@.len(),
            forall|j: int|
                0 <= j < i && #[trigger] slots@[j] != NIL ==> pos@[slots@[j] as int] == base + j,
            forall|x: int|
                0 <= x < pos@.len() && !slots@.contains(x as u32) ==> #[trigger] pos@[x] == old(pos)@[x],
    {
        let s: u32 = slots[i];
        if s != NIL {
            assert(slots@.contains(s));
            pos.set(s as usize, base + i as u32);
        }
    }
}

/// Block `k` occupies its words: slot `i` of it is at bit `i` from the start.
pub open spec fn block_placed(pos: Seq<u32>, slots: Seq<u32>, word: int) -> bool {
    forall|i: int|
        0 <= i < slots.len() && #[trigger] slots[i] != NIL ==> pos[slots[i] as int] == 64 * word + i
}

/// Blocks stand one behind the other.
pub open spec fn words_ascend(word: Seq<u32>, blocks: Seq<Vec<u32>>, first: int, end: int) -> bool {
    &&& word.len() == blocks.len()
    &&& forall|k: int|
        0 <= k < word.len() ==> first <= #[trigger] word[k] && word[k] + words_for(blocks[k]@.len() as int)
            <= end
    &&& forall|k: int, l: int|
        0 <= k < l < word.len() ==> (#[trigger] word[k]) + words_for(blocks[k]@.len() as int)
            <= #[trigger] word[l]
}

/// Place all blocks from word `first` on; returns each block's first word
/// and the first free word.
#[verifier::rlimit(40)]
pub(crate) fn lay_out(
    tape: &Compiled,
    f: Ghost<Found>,
    blocks: &Vec<Vec<u32>>,
    pos: &mut Vec<u32>,
    first: u32,
) -> (res: (Vec<u32>, u32))
    requires
        tape.wf(),
        all_chains_sound(*tape, f@),
        64 * (block_word(*tape, f@, first as int, block_count(*tape, f@)) + 2) <= u32::MAX,
        blocks@.len() == block_count(*tape, f@),
        forall|k: int| 0 <= k < blocks@.len() ==> (#[trigger] blocks@[k])@ == block_slots(*tape, f@, k),
        old(pos)@.len() == tape.n(),
        forall|x: int| tape.gate_start <= x < tape.n() ==> #[trigger] old(pos)@[x] == NIL,
    ensures
        final(pos)@.len() == tape.n(),
        forall|x: int| 0 <= x < tape.gate_start ==> #[trigger] final(pos)@[x] == old(pos)@[x],
        words_ascend(res.0@, blocks@, first as int, res.1 as int),
        forall|k: int|
            0 <= k < res.0@.len() ==> #[trigger] res.0@[k] == block_word(*tape, f@, first as int, k),
        res.1 == block_word(*tape, f@, first as int, block_count(*tape, f@)),
        first <= res.1,
        forall|k: int|
            0 <= k < blocks@.len() ==> block_placed(final(pos)@, (#[trigger] blocks@[k])@, res.0@[k] as int),
        forall|x: int|
            tape.gate_start <= x < tape.n() && #[trigger] final(pos)@[x] != NIL ==> exists|k: int|
                0 <= k < blocks@.len() && (#[trigger] blocks@[k])@.contains(x as u32),
{
    let ghost runs = tape.runs@.len() as int;
    let mut word: Vec<u32> = Vec::new();
    let mut at: u32 = first;
    for k in 0..blocks.len()
        invariant
            tape.wf(),
            runs == tape.runs@.len(),
            all_chains_sound(*tape, f@),
                64 * (block_word(*tape, f@, first as int, block_count(*tape, f@)) + 2) <= u32::MAX,
            blocks@.len() == block_count(*tape, f@),
            forall|k: int| 0 <= k < blocks@.len() ==> (#[trigger] blocks@[k])@ == block_slots(*tape, f@, k),
            pos@.len() == tape.n(),
            forall|x: int| 0 <= x < tape.gate_start ==> #[trigger] pos@[x] == old(pos)@[x],
            word@.len() == k,
            first <= at,
            at == block_word(*tape, f@, first as int, k as int),
            forall|j: int|
                0 <= j < k ==> #[trigger] word@[j] == block_word(*tape, f@, first as int, j),
            forall|j: int|
                0 <= j < k ==> first <= #[trigger] word@[j] && word@[j] + words_for(blocks@[j]@.len() as int)
                    <= at,
            forall|j: int, l: int|
                0 <= j < l < k ==> (#[trigger] word@[j]) + words_for(blocks@[j]@.len() as int)
                    <= #[trigger] word@[l],
            forall|j: int|
                0 <= j < k ==> block_placed(pos@, (#[trigger] blocks@[j])@, word@[j] as int),
            forall|x: int|
                tape.gate_start <= x < tape.n() && #[trigger] pos@[x] != NIL ==> exists|j: int|
                    0 <= j < k && (#[trigger] blocks@[j])@.contains(x as u32),
    {
        let ghost before = pos@;
        let ghost slots = blocks@[k as int]@;
        proof {
            assert(slots == block_slots(*tape, f@, k as int));
            lemma_block_range(*tape, f@, k as int);
            if k < runs {
                lemma_run_bounds(*tape, k as int);
            }
            lemma_block_words(*tape, f@, first as int, k as int, block_count(*tape, f@));
        }
        let len: usize = blocks[k].len();
        place(pos, &blocks[k], 64 * at);
        word.push(at);
        proof {
            assert forall|x: int| 0 <= x < tape.gate_start implies #[trigger] pos@[x] == old(pos)@[x] by {
                if slots.contains(x as u32) {
                    let i = choose|i: int| 0 <= i < slots.len() && slots[i] == x as u32;
                    assert(slots[i] != NIL);
                }
                assert(before[x] == old(pos)@[x]);
            }
            assert forall|j: int| 0 <= j < k + 1 implies block_placed(
                pos@,
                (#[trigger] blocks@[j])@,
                word@[j] as int,
            ) by {
                if j < k {
                    assert(block_placed(before, blocks@[j]@, word@[j] as int));
                    let b = blocks@[j]@;
                    assert forall|i: int| 0 <= i < b.len() && #[trigger] b[i] != NIL implies pos@[b[i] as int] == 64
                        * word@[j] + i by {
                        lemma_block_range(*tape, f@, j);
                        assert(before[b[i] as int] == 64 * word@[j] + i);
                        if slots.contains(b[i]) {
                            let q = choose|q: int| 0 <= q < slots.len() && slots[q] == b[i];
                            lemma_blocks_apart(*tape, f@, j, i, k as int, q);
                        }
                        assert(!slots.contains(b[i] as int as u32));
                    }
                }
            }
            assert forall|x: int| tape.gate_start <= x < tape.n() && #[trigger] pos@[x] != NIL implies exists|j: int|
                0 <= j < k + 1 && (#[trigger] blocks@[j])@.contains(x as u32) by {
                if slots.contains(x as u32) {
                    assert(blocks@[k as int]@.contains(x as u32));
                } else {
                    assert(before[x] == pos@[x]);
                    let j = choose|j: int| 0 <= j < k && (#[trigger] blocks@[j])@.contains(x as u32);
                    assert(blocks@[j]@.contains(x as u32));
                }
            }
            if k < runs {
                lemma_run_bounds(*tape, k as int);
                assert(run_ok(tape.runs@, tape.n(), k as int));
            }
        }
        at = at + ((len as u32) + 63) / 64;
    }
    (word, at)
}

/// Every chain has gates of its own, at least one per link.
pub proof fn lemma_chains_few(tape: Compiled, f: Found)
    requires
        tape.wf(),
        all_chains_sound(tape, f),
    ensures
        8 * f.chains.len() <= tape.n(),
{
    let carries = Seq::new(
        8 * f.chains.len(),
        |k: int| f.chains[k / 8].links[k % 8].carry as int,
    );
    assert forall|k: int| 0 <= k < carries.len() implies 0 <= #[trigger] carries[k] < tape.n() && in_link(
        f.chains[k / 8].links[k % 8],
        carries[k] as u32,
    ) by {
        assert(chain_sound(tape, f.chains[k / 8]));
        assert(link_sound(tape, f.chains[k / 8].links[k % 8]));
    }
    assert forall|k: int, l: int| 0 <= k < l < carries.len() implies carries[k] != carries[l] by {
        assert(0 <= carries[k] < tape.n() && 0 <= carries[l] < tape.n());
        let s = carries[k] as u32;
        let (x, y) = (f.chains[k / 8], f.chains[l / 8]);
        assert(chain_sound(tape, x));
        assert(chain_sound(tape, y));
        assert(in_link(x.links[k % 8], s));
        if carries[k] == carries[l] {
            assert(in_link(y.links[l % 8], s));
            if k / 8 == l / 8 {
                assert(!in_link(x.links[l % 8], s));
            } else {
                assert(in_links(x.links, s));
                assert(in_links(y.links, s));
            }
        }
    }
    crate::kahn::lemma_bounded(carries, tape.n());
}

/// The slots of a block are gates, each at most once, and few enough for the
/// words that are set aside for it.
pub proof fn lemma_block_range(tape: Compiled, f: Found, k: int)
    requires
        tape.wf(),
        all_chains_sound(tape, f),
        0 <= k < block_count(tape, f),
    ensures
        placeable(block_slots(tape, f, k), tape.n()),
        forall|i: int|
            0 <= i < block_slots(tape, f, k).len() && #[trigger] block_slots(tape, f, k)[i] != NIL
                ==> tape.gate_start <= block_slots(tape, f, k)[i] < tape.n(),
        k < tape.runs@.len() ==> block_slots(tape, f, k).len() <= tape.runs@[k].end - tape.runs@[k].start,
        k >= tape.runs@.len() ==> block_slots(tape, f, k).len() <= 64,
        block_slots(tape, f, k).len() <= tape.n() + 64,
{
    let runs = tape.runs@.len() as int;
    let slots = block_slots(tape, f, k);
    assert forall|i: int| 0 <= i < slots.len() && #[trigger] slots[i] != NIL implies tape.gate_start <= slots[i]
        < tape.n() by {
        if k < runs {
            lemma_run_bounds(tape, k);
            lemma_unclaimed(f.used, tape.runs@[k].start as int, tape.runs@[k].end as int, i);
        } else {
            let l = lemma_chain_slot(tape, f, k, i);
        }
    }
    assert forall|i: int, j: int|
        0 <= i < j < slots.len() && #[trigger] slots[i] != NIL implies slots[i] != #[trigger] slots[j] by {
        if slots[i] == slots[j] {
            lemma_blocks_apart(tape, f, k, i, k, j);
        }
    }
    if k < runs {
        lemma_run_bounds(tape, k);
        lemma_unclaimed_len(f.used, tape.runs@[k].start as int, tape.runs@[k].end as int);
    } else {
        assert(chain_sound(tape, f.chains[(k - runs) / 3]));
    }
}

} // verus!
