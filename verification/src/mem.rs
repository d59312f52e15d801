//! Single-port RAM-bank detection: recognize a register array addressed by a
//! balanced mux-tree read port and a one-hot-decoded write port.
//!
//! A gate-level RAM of `W` words is the packed engines' worst case. The read
//! port is a `W`-way mux tree that recomputes the entire array every tick to
//! surface one selected word. The write port is another mux per cell, each
//! forwarding the cell's own value unless its word is selected. Yet the
//! function it computes is just `read = bank[addr]` and
//! `if store { bank[addr] = data }`.
//!
//! The detector finds the idiom the netlist optimizer leaves behind:
//!
//! - **write cells**: every bank register `r` has next-state
//!   `mux(we, data, r)`. Cells of one word share `we`; all words share the
//!   `data` bus; `we = and(enable, dec)` shares a common store-enable.
//! - **read tree**: bit `i` of the read port is the root of a balanced mux
//!   tree whose leaves are the bank cells' outputs for bit `i` and whose
//!   per-level selects are the address bits.
//!
//! The read tree is reconstructed from the bank cells bottom-up, and the
//! write decoder is evaluated over its entire address space.
use vstd::arithmetic::power2::pow2;
use vstd::prelude::*;

use crate::compile::{Compiled, Op, DEAD};
use crate::fuse::is_gate;
use crate::netlist::{gate_fn, Node};
use crate::wires::{lemma_num_bound, num};

verus! {

/// Smallest bank worth fusing; below this the mux tree is already cheap and
/// the dynamic-index overhead is not amortized.
pub const MIN_WORDS: usize = 16;

/// An address bit that is not known yet.
pub const UNKNOWN: u32 = 0xffff_ffff;

/// A fusable single-port RAM bank.
#[derive(Debug)]
pub struct MemBank {
    /// Register index of cell `(word 0, bit 0)`; cells are contiguous in
    /// register order, word-major: cell `(w, i)` is `base_reg + w * width + i`.
    pub base_reg: u32,
    /// Number of words (a power of two).
    pub words: u32,
    /// Bits per word.
    pub width: u32,
    /// Address bit slots, least significant first.
    pub addr_bits: Vec<u32>,
    /// Shared store-enable slot.
    pub enable: u32,
    /// Data-bus slots, least significant first (`width` of them).
    pub data: Vec<u32>,
    /// Read-port output slots, least significant first (`width` of them).
    pub read_tops: Vec<u32>,
    /// Every mux the bank replaces: the whole read tree (internal nodes and
    /// roots) plus every write cell mux.
    pub fused: Vec<u32>,
    /// Schedule level at which the fused read may run: one past the latest
    /// address bit, so every address bit has settled.
    pub read_ready: u32,
}

/// A bank as a value.
#[verifier::ext_equal]
pub struct BankView {
    pub base_reg: u32,
    pub words: u32,
    pub width: u32,
    pub addr_bits: Seq<u32>,
    pub enable: u32,
    pub data: Seq<u32>,
    pub read_tops: Seq<u32>,
    pub fused: Seq<u32>,
    pub read_ready: u32,
}

fn copy_slots(slots: &Vec<u32>) -> (copy: Vec<u32>)
    ensures
        copy@ == slots@,
{
    let mut copy: Vec<u32> = Vec::with_capacity(slots.len());
    for i in 0..slots.len()
        invariant
            copy@ == slots@.take(i as int),
    {
        copy.push(slots[i]);
        assert(copy@ =~= slots@.take(i + 1));
    }
    assert(copy@ =~= slots@);
    copy
}

impl Clone for MemBank {
    fn clone(&self) -> (copy: Self)
        ensures
            copy.value() == self.value(),
    {
        Self {
            base_reg: self.base_reg,
            words: self.words,
            width: self.width,
            addr_bits: copy_slots(&self.addr_bits),
            enable: self.enable,
            data: copy_slots(&self.data),
            read_tops: copy_slots(&self.read_tops),
            fused: copy_slots(&self.fused),
            read_ready: self.read_ready,
        }
    }
}

impl MemBank {
    pub open spec fn value(&self) -> BankView {
        BankView {
            base_reg: self.base_reg,
            words: self.words,
            width: self.width,
            addr_bits: self.addr_bits@,
            enable: self.enable,
            data: self.data@,
            read_tops: self.read_tops@,
            fused: self.fused@,
            read_ready: self.read_ready,
        }
    }
}

/// Register `r` keeps its value unless a select lets new data in.
pub open spec fn is_cell(tape: Compiled, r: int) -> bool {
    &&& 0 <= r < tape.reg_in_slots@.len()
    &&& tape.reg_out_slots@[r] != DEAD
    &&& is_gate(tape, tape.reg_in_slots@[r] as int, Op::Mux)
    &&& tape.c@[tape.reg_in_slots@[r] as int] == tape.reg_out_slots@[r]
}

/// The select of a cell.
pub open spec fn select(tape: Compiled, r: int) -> u32 {
    tape.a@[tape.reg_in_slots@[r] as int]
}

/// The data a cell lets in.
pub open spec fn datum(tape: Compiled, r: int) -> u32 {
    tape.b@[tape.reg_in_slots@[r] as int]
}

/// Register `q` is a cell with the select of register `r`.
pub open spec fn along(tape: Compiled, r: int, q: int) -> bool {
    is_cell(tape, q) && select(tape, q) == select(tape, r)
}

/// Exactly the registers from `r` to `r + len` share the select of `r`.
pub open spec fn is_word(tape: Compiled, r: int, len: int) -> bool {
    &&& len > 0
    &&& forall|q: int| r <= q < r + len ==> #[trigger] along(tape, r, q)
    &&& forall|q: int| #[trigger] along(tape, r, q) ==> r <= q < r + len
}

/// Two words let the same data in.
pub open spec fn same_data(tape: Compiled, r: int, q: int, len: int) -> bool {
    forall|i: int| 0 <= i < len ==> #[trigger] datum(tape, r + i) == datum(tape, q + i)
}

/// The words below register `end` that let the same data in as the one at
/// `base`, in register order.
pub open spec fn alike(tape: Compiled, base: int, len: int, end: int) -> Seq<u32>
    decreases end,
{
    if end <= 0 {
        seq![]
    } else if is_word(tape, end - 1, len) && same_data(tape, base, end - 1, len) {
        alike(tape, base, len, end - 1).push((end - 1) as u32)
    } else {
        alike(tape, base, len, end - 1)
    }
}

/// The word-major position of a cell.
pub open spec fn cell_at(base: int, width: int, word: int, i: int) -> int {
    base + word * width + i
}

/// The words starting at `base` lie back to back and are all that share
/// their data.
pub open spec fn is_array(tape: Compiled, base: int, words: int, width: int) -> bool {
    let starts = alike(tape, base, width, tape.reg_in_slots@.len() as int);
    &&& 0 <= base < tape.reg_in_slots@.len()
    &&& is_word(tape, base, width)
    &&& starts.len() == words
    &&& forall|k: int| 0 <= k < words ==> #[trigger] starts[k] as int == cell_at(base, width, k, 0)
}

/// The last mux below slot `s` between `high` and `low`.
pub open spec fn mux_below(tape: Compiled, high: u32, low: u32, s: int) -> Option<u32>
    decreases s,
{
    if s <= 0 {
        None
    } else if is_gate(tape, s - 1, Op::Mux) && tape.b@[s - 1] == high && tape.c@[s - 1] == low {
        Some((s - 1) as u32)
    } else {
        mux_below(tape, high, low, s - 1)
    }
}

/// The last mux on the tape between `high` and `low`.
pub open spec fn mux_of(tape: Compiled, high: u32, low: u32) -> Option<u32> {
    mux_below(tape, high, low, tape.n())
}

/// The root of the balanced mux tree over bit `i` of the `2^depth` words
/// from `lo` on, selected by the lowest `depth` address bits.
pub open spec fn tree(
    tape: Compiled,
    base: int,
    width: int,
    addr: Seq<u32>,
    i: int,
    lo: int,
    depth: nat,
) -> Option<u32>
    decreases depth,
{
    if depth == 0 {
        Some(tape.reg_out_slots@[cell_at(base, width, lo, i)])
    } else {
        let d = (depth - 1) as nat;
        match (
            tree(tape, base, width, addr, i, lo, d),
            tree(tape, base, width, addr, i, lo + pow2(d), d),
        ) {
            (Some(low), Some(high)) => match mux_of(tape, high, low) {
                Some(s) => if tape.a@[s as int] == addr[depth - 1] {
                    Some(s)
                } else {
                    None
                },
                None => None,
            },
            _ => None,
        }
    }
}

/// The muxes of that tree, operands first.
pub open spec fn tree_muxes(
    tape: Compiled,
    base: int,
    width: int,
    addr: Seq<u32>,
    i: int,
    lo: int,
    depth: nat,
) -> Seq<u32>
    decreases depth,
{
    if depth == 0 {
        seq![]
    } else {
        let d = (depth - 1) as nat;
        (tree_muxes(tape, base, width, addr, i, lo, d) + tree_muxes(
            tape,
            base,
            width,
            addr,
            i,
            lo + pow2(d),
            d,
        )).push(tree(tape, base, width, addr, i, lo, depth)->0)
    }
}

/// The muxes of the trees of the first `bits` bits.
pub open spec fn all_tree_muxes(
    tape: Compiled,
    base: int,
    width: int,
    addr: Seq<u32>,
    bits: int,
) -> Seq<u32>
    decreases bits,
{
    if bits <= 0 {
        seq![]
    } else {
        all_tree_muxes(tape, base, width, addr, bits - 1) + tree_muxes(
            tape,
            base,
            width,
            addr,
            bits - 1,
            0,
            addr.len(),
        )
    }
}

/// The write-enable of a word.
pub open spec fn write_enable(tape: Compiled, base: int, width: int, word: int) -> u32 {
    select(tape, cell_at(base, width, word, 0))
}

/// Every write-enable is an and of `e` with something.
pub open spec fn shares(tape: Compiled, base: int, words: int, width: int, e: u32) -> bool {
    forall|k: int| 0 <= k < words ==> #[trigger] gated(tape, write_enable(tape, base, width, k), e)
}

/// Slot `s` is an and that reads `e`.
pub open spec fn gated(tape: Compiled, s: u32, e: u32) -> bool {
    is_gate(tape, s as int, Op::And) && (tape.a@[s as int] == e || tape.b@[s as int] == e)
}

/// The store-enable that all words share, if any.
pub open spec fn shared_enable(tape: Compiled, base: int, words: int, width: int) -> Option<u32> {
    let we = write_enable(tape, base, width, 0) as int;
    if shares(tape, base, words, width, tape.a@[we]) {
        Some(tape.a@[we])
    } else if shares(tape, base, words, width, tape.b@[we]) {
        Some(tape.b@[we])
    } else {
        None
    }
}

/// What a write-enable reads besides the store-enable.
pub open spec fn decoder(tape: Compiled, we: u32, enable: u32) -> u32 {
    if tape.a@[we as int] == enable {
        tape.b@[we as int]
    } else {
        tape.a@[we as int]
    }
}

/// The last address bit among the first `j` that is slot `s`.
pub open spec fn bit_of(addr: Seq<u32>, s: u32, j: int) -> Option<int>
    decreases j,
{
    if j <= 0 {
        None
    } else if addr[j - 1] == s {
        Some(j - 1)
    } else {
        bit_of(addr, s, j - 1)
    }
}

/// The value of slot `s` as far as the address alone determines it: `None`
/// where the cone that decides it reaches any other source.
pub open spec fn forced(tape: Compiled, addr: Seq<u32>, bits: Seq<bool>, s: int) -> Option<bool>
    decreases s,
{
    match bit_of(addr, s as u32, addr.len() as int) {
        Some(j) => Some(bits[j]),
        None => if s < 0 || s >= tape.n() {
            None
        } else if s < tape.gate_start {
            match tape.sources@[s] {
                Node::Const(v) => Some(v),
                _ => None,
            }
        } else {
            let (x, y, z) = (tape.a@[s] as int, tape.b@[s] as int, tape.c@[s] as int);
            let op = tape.ops@[s];
            let a = if x < s {
                forced(tape, addr, bits, x)
            } else {
                None
            };
            let b = if y < s {
                forced(tape, addr, bits, y)
            } else {
                None
            };
            let c = if z < s {
                forced(tape, addr, bits, z)
            } else {
                None
            };
            match (op, a, b) {
                (Op::Not, Some(a), _) => Some(!a),
                (Op::Buf, Some(a), _) => Some(a),
                (Op::Mux, Some(a), Some(b)) => if a {
                    Some(b)
                } else {
                    c
                },
                (Op::Mux, _, _) => None,
                (_, Some(a), Some(b)) => Some(gate_fn(op, a, b, false)),
                _ => None,
            }
        },
    }
}

/// Word `k` is selected by exactly the address `k`.
pub open spec fn one_hot(tape: Compiled, addr: Seq<u32>, dec: u32, k: int) -> bool {
    forall|bits: Seq<bool>|
        bits.len() == addr.len() ==> #[trigger] forced(tape, addr, bits, dec as int) == Some(
            k == num(bits),
        )
}

/// The write ports decode the address.
pub open spec fn decodes(
    tape: Compiled,
    base: int,
    words: int,
    width: int,
    addr: Seq<u32>,
    enable: u32,
) -> bool {
    forall|k: int|
        0 <= k < words ==> #[trigger] one_hot(
            tape,
            addr,
            decoder(tape, write_enable(tape, base, width, k), enable),
            k,
        )
}

/// The slots that feed `len` registers from `base` on.
pub open spec fn feeds(tape: Compiled, base: int, len: int) -> Seq<u32> {
    Seq::new(len as nat, |q: int| tape.reg_in_slots@[base + q])
}

/// The data bus of the word at `base`.
pub open spec fn data_bus(tape: Compiled, base: int, width: int) -> Seq<u32> {
    Seq::new(width as nat, |i: int| datum(tape, base + i))
}

/// Nothing but the bank itself reads a mux that vanishes; the read roots
/// survive.
pub open spec fn removable(tape: Compiled, m: BankView) -> bool {
    forall|s: u32|
        m.fused.contains(s) && !m.read_tops.contains(s) ==> #[trigger] unread(tape, m, s)
}

/// Slot `s` is no output, feeds no live register outside the bank, and is
/// read by muxes of the bank only.
pub open spec fn unread(tape: Compiled, m: BankView, s: u32) -> bool {
    &&& !tape.output_slots@.contains(s)
    &&& forall|r: int|
        0 <= r < tape.reg_in_slots@.len() && tape.reg_out_slots@[r] != DEAD
            && #[trigger] tape.reg_in_slots@[r] == s ==> m.base_reg <= r < m.base_reg + m.words * m.width
    &&& forall|t: u32| #[trigger] tape.reads(t as int, s as int) ==> m.fused.contains(t)
}

/// One past the highest level among the slots.
pub open spec fn ready_level(tape: Compiled, slots: Seq<u32>) -> int
    decreases slots.len(),
{
    if slots.len() == 0 {
        1
    } else {
        let rest = ready_level(tape, slots.drop_last());
        let l = tape.slot_level@[slots.last() as int] + 1;
        if rest < l {
            l
        } else {
            rest
        }
    }
}

/// Whoever reads a read root runs no earlier than the fused read.
pub open spec fn readers_wait(tape: Compiled, m: BankView) -> bool {
    forall|t: u32, s: u32|
        m.read_tops.contains(t) && #[trigger] tape.reads(s as int, t as int)
            ==> tape.slot_level@[s as int] >= m.read_ready
}

/// A bank of the tape.
pub open spec fn is_bank(tape: Compiled, m: BankView) -> bool {
    let (base, words, width) = (m.base_reg as int, m.words as int, m.width as int);
    &&& is_array(tape, base, words, width)
    &&& words >= MIN_WORDS
    &&& words == pow2(m.addr_bits.len())
    &&& m.read_tops.len() == width
    &&& forall|i: int|
        0 <= i < width ==> tree(tape, base, width, m.addr_bits, i, 0, m.addr_bits.len()) == Some(
            #[trigger] m.read_tops[i],
        )
    &&& shared_enable(tape, base, words, width) == Some(m.enable)
    &&& decodes(tape, base, words, width, m.addr_bits, m.enable)
    &&& m.data == data_bus(tape, base, width)
    &&& m.fused == all_tree_muxes(tape, base, width, m.addr_bits, width) + feeds(
        tape,
        base,
        words * width,
    )
    &&& m.read_ready == ready_level(tape, m.addr_bits)
    &&& removable(tape, m)
    &&& readers_wait(tape, m)
}

/// Whether register `r` is a cell.
fn cell_here(tape: &Compiled, r: usize) -> (yes: bool)
    requires
        tape.wf(),
        r < tape.reg_in_slots@.len(),
    ensures
        yes == is_cell(*tape, r as int),
{
    let m: usize = tape.reg_in_slots[r] as usize;
    tape.reg_out_slots[r] != DEAD && m >= tape.gate_start as usize && tape.ops[m] == Op::Mux
        && tape.c[m] == tape.reg_out_slots[r]
}

/// The cells below register `end` with select `e` lie from `first` to
/// `last`, both of which are such cells.
spec fn spans(tape: Compiled, end: int, e: u32, first: u32, last: u32) -> bool {
    &&& forall|q: int|
        #[trigger] is_cell(tape, q) && q < end && select(tape, q) == e ==> first != DEAD && first <= q
            <= last
    &&& first != DEAD ==> {
        &&& first <= last < end
        &&& is_cell(tape, first as int) && select(tape, first as int) == e
        &&& is_cell(tape, last as int) && select(tape, last as int) == e
    }
}

spec fn all_spans(tape: Compiled, end: int, first: Seq<u32>, last: Seq<u32>) -> bool {
    &&& first.len() == tape.n()
    &&& last.len() == tape.n()
    &&& forall|e: u32| e < tape.n() ==> #[trigger] spans(tape, end, e, first[e as int], last[e as int])
}

/// The first and the last cell of every select.
fn select_spans(tape: &Compiled) -> (spans: (Vec<u32>, Vec<u32>))
    requires
        tape.wf(),
    ensures
        all_spans(*tape, tape.reg_in_slots@.len() as int, spans.0@, spans.1@),
{
    let n: usize = tape.slot_count();
    let mut first: Vec<u32> = Vec::with_capacity(n);
    let mut last: Vec<u32> = Vec::with_capacity(n);
    for i in 0..n
        invariant
            first@.len() == i,
            last@.len() == i,
            forall|e: int| 0 <= e < i ==> #[trigger] first@[e] == DEAD,
    {
        first.push(DEAD);
        last.push(DEAD);
    }
    let count: usize = tape.reg_in_slots.len();
    for r in 0..count
        invariant
            tape.wf(),
            n == tape.n(),
            count == tape.reg_in_slots@.len(),
            all_spans(*tape, r as int, first@, last@),
    {
        let ghost first0 = first@;
        let ghost last0 = last@;
        if cell_here(tape, r) {
            let m: usize = tape.reg_in_slots[r] as usize;
            let e: usize = tape.a[m] as usize;
            assert(tape.gate_ok(m as int));
            assert(spans(*tape, r as int, e as u32, first0[e as int], last0[e as int]));
            if first[e] == DEAD {
                first.set(e, r as u32);
            }
            last.set(e, r as u32);
        }
        assert forall|e: u32| e < tape.n() implies #[trigger] spans(
            *tape,
            r + 1,
            e,
            first@[e as int],
            last@[e as int],
        ) by {
            assert(spans(*tape, r as int, e, first0[e as int], last0[e as int]));
        }
    }
    (first, last)
}

/// The length of the word at register `r`; 0 where there is none.
fn word_length(tape: &Compiled, first: &Vec<u32>, last: &Vec<u32>, r: usize) -> (len: usize)
    requires
        tape.wf(),
        all_spans(*tape, tape.reg_in_slots@.len() as int, first@, last@),
        r < tape.reg_in_slots@.len(),
    ensures
        len > 0 ==> is_word(*tape, r as int, len as int) && r + len <= tape.reg_in_slots@.len(),
        len == 0 ==> forall|l: int| !is_word(*tape, r as int, l),
{
    if !cell_here(tape, r) {
        assert forall|l: int| !is_word(*tape, r as int, l) by {
            if is_word(*tape, r as int, l) {
                assert(along(*tape, r as int, r as int));
            }
        }
        return 0;
    }
    let m: usize = tape.reg_in_slots[r] as usize;
    let e: u32 = tape.a[m];
    assert(tape.gate_ok(m as int));
    let lo: u32 = first[e as usize];
    let hi: usize = last[e as usize] as usize;
    let ghost end = tape.reg_in_slots@.len() as int;
    assert(spans(*tape, end, e, lo, hi as u32));
    if lo != r as u32 {
        assert forall|l: int| !is_word(*tape, r as int, l) by {
            if is_word(*tape, r as int, l) {
                assert(along(*tape, r as int, lo as int));
            }
        }
        return 0;
    }
    let mut q: usize = r;
    while q <= hi
        invariant
            tape.wf(),
            end == tape.reg_in_slots@.len(),
            r <= q <= hi + 1,
            hi < end,
            spans(*tape, end, e, r as u32, hi as u32),
            r < end <= u32::MAX,
            is_cell(*tape, r as int),
            e == select(*tape, r as int),
            forall|p: int| r <= p < q ==> #[trigger] along(*tape, r as int, p),
        decreases hi + 1 - q,
    {
        let here: bool = cell_here(tape, q);
        if !here || tape.a[tape.reg_in_slots[q] as usize] != e {
            assert(!along(*tape, r as int, q as int));
            assert forall|l: int| !is_word(*tape, r as int, l) by {
                if is_word(*tape, r as int, l) {
                    assert(along(*tape, r as int, hi as int));
                }
            }
            return 0;
        }
        q = q + 1;
    }
    assert(is_word(*tape, r as int, q - r));
    q - r
}

/// A word has one length.
proof fn lemma_one_length(tape: Compiled, r: int, len: int, other: int)
    requires
        is_word(tape, r, len),
        is_word(tape, r, other),
    ensures
        len == other,
{
    if len < other {
        assert(along(tape, r, r + len));
    } else if other < len {
        assert(along(tape, r, r + other));
    }
}

/// What is found is such a mux.
pub proof fn lemma_mux_below(tape: Compiled, high: u32, low: u32, s: int)
    requires
        0 <= s <= tape.n(),
        tape.n() <= u32::MAX,
    ensures
        mux_below(tape, high, low, s) matches Some(t) ==> t < s && is_gate(tape, t as int, Op::Mux)
            && tape.b@[t as int] == high && tape.c@[t as int] == low,
    decreases s,
{
    if s > 0 {
        lemma_mux_below(tape, high, low, s - 1);
    }
}

/// The words from `lo` on have live cells at bit `i`.
pub open spec fn live(tape: Compiled, base: int, width: int, i: int, lo: int, hi: int) -> bool {
    forall|k: int| lo <= k < hi ==> #[trigger] live_at(tape, cell_at(base, width, k, i))
}

pub open spec fn live_at(tape: Compiled, r: int) -> bool {
    0 <= r < tape.reg_out_slots@.len() && tape.reg_out_slots@[r] != DEAD
}

/// Slot `t` is a mux between `high` and `low`.
spec fn is_mux(tape: Compiled, high: u32, low: u32, t: int) -> bool {
    is_gate(tape, t, Op::Mux) && tape.b@[t] == high && tape.c@[t] == low
}

/// The last such mux is the one with none above it.
proof fn lemma_last_mux(tape: Compiled, high: u32, low: u32, t: Option<u32>, s: int)
    requires
        0 <= s <= tape.n() <= u32::MAX,
        t matches Some(x) ==> x < s && is_mux(tape, high, low, x as int),
        forall|x: int|
            #[trigger] is_mux(tape, high, low, x) && x < s ==> (t matches Some(y) && x <= y),
    ensures
        mux_below(tape, high, low, s) == t,
    decreases s,
{
    if s > 0 {
        if is_mux(tape, high, low, s - 1) {
        } else {
            lemma_last_mux(tape, high, low, t, s - 1);
        }
    }
}

/// The last mux between `high` and `low`.
fn mux_at(tape: &Compiled, high: u32, low: u32) -> (mux: Option<u32>)
    requires
        tape.wf(),
        high < tape.n(),
    ensures
        mux == mux_of(*tape, high, low),
{
    let readers = tape.successors(high);
    let mut mux: Option<u32> = None;
    for k in 0..readers.len()
        invariant
            tape.wf(),
            high < tape.n(),
            forall|s: u32| readers@.contains(s) <==> tape.reads(s as int, high as int),
            mux matches Some(x) ==> x < tape.n() && is_mux(*tape, high, low, x as int),
            forall|j: int|
                0 <= j < k && is_mux(*tape, high, low, #[trigger] readers@[j] as int) ==> (
                mux matches Some(y) && readers@[j] <= y),
    {
        let s: u32 = readers[k];
        assert(readers@.contains(s));
        assert(tape.reads(s as int, high as int));
        if tape.ops[s as usize] == Op::Mux && tape.b[s as usize] == high && tape.c[s as usize] == low {
            assert(is_mux(*tape, high, low, s as int));
            match mux {
                Some(best) => {
                    if best < s {
                        mux = Some(s);
                    }
                },
                None => {
                    mux = Some(s);
                },
            }
        }
    }
    proof {
        assert forall|x: int| #[trigger] is_mux(*tape, high, low, x) && x < tape.n() implies (
        mux matches Some(y) && x <= y) by {
            let ins = crate::compile::operands(
                tape.ops@[x],
                tape.a@[x] as int,
                tape.b@[x] as int,
                tape.c@[x] as int,
            );
            assert(ins[1] == high);
            assert(tape.reads(x, high as int));
            assert(readers@.contains(x as u32));
        }
        lemma_last_mux(*tape, high, low, mux, tape.n());
    }
    mux
}

/// `full` agrees with every address bit of `addr` that is known.
spec fn extends(full: Seq<u32>, addr: Seq<u32>) -> bool {
    &&& full.len() == addr.len()
    &&& forall|j: int| 0 <= j < addr.len() && addr[j] != UNKNOWN ==> #[trigger] full[j] == addr[j]
}

/// The lowest `depth` address bits are known.
spec fn known(addr: Seq<u32>, depth: int) -> bool {
    forall|j: int| 0 <= j < depth ==> #[trigger] addr[j] != UNKNOWN
}

/// Known address bits are slots.
spec fn on_tape(tape: Compiled, addr: Seq<u32>) -> bool {
    forall|j: int| 0 <= j < addr.len() ==> #[trigger] addr[j] == UNKNOWN || addr[j] < tape.n()
}

/// A tree reads its own address bits only.
proof fn lemma_tree_local(
    tape: Compiled,
    base: int,
    width: int,
    x: Seq<u32>,
    y: Seq<u32>,
    i: int,
    lo: int,
    depth: nat,
)
    requires
        depth <= x.len(),
        x.len() == y.len(),
        forall|j: int| 0 <= j < depth ==> #[trigger] x[j] == y[j],
    ensures
        tree(tape, base, width, x, i, lo, depth) == tree(tape, base, width, y, i, lo, depth),
        tree_muxes(tape, base, width, x, i, lo, depth) == tree_muxes(
            tape,
            base,
            width,
            y,
            i,
            lo,
            depth,
        ),
    decreases depth,
{
    if depth > 0 {
        let d = (depth - 1) as nat;
        lemma_tree_local(tape, base, width, x, y, i, lo, d);
        lemma_tree_local(tape, base, width, x, y, i, lo + pow2(d), d);
        assert(x[d as int] == y[d as int]);
    }
}

/// Rebuild the read mux tree for bit `i` over the `size` words from `lo` on.
/// Address bits are learned from the first mux of each level.
fn match_tree(
    tape: &Compiled,
    base: usize,
    width: usize,
    i: usize,
    lo: usize,
    size: usize,
    depth: usize,
    addr: &mut Vec<u32>,
    seen: &mut Vec<u32>,
) -> (root: Option<u32>)
    requires
        tape.wf(),
        depth <= old(addr)@.len(),
        size == pow2(depth as nat),
        live(*tape, base as int, width as int, i as int, lo as int, lo + size),
        lo + size <= usize::MAX,
        on_tape(*tape, old(addr)@),
    ensures
        on_tape(*tape, final(addr)@),
        extends(final(addr)@, old(addr)@),
        root matches Some(s) ==> s < tape.n() && known(final(addr)@, depth as int) && tree(
            *tape,
            base as int,
            width as int,
            final(addr)@,
            i as int,
            lo as int,
            depth as nat,
        ) == root && final(seen)@ == old(seen)@ + tree_muxes(
            *tape,
            base as int,
            width as int,
            final(addr)@,
            i as int,
            lo as int,
            depth as nat,
        ),
        forall|full: Seq<u32>| #[trigger]
            extends(full, old(addr)@) && tree(
                *tape,
                base as int,
                width as int,
                full,
                i as int,
                lo as int,
                depth as nat,
            ) is Some ==> root is Some && extends(full, final(addr)@),
    decreases depth,
{
    let ghost start = addr@;
    let ghost (b, w, ii, l) = (base as int, width as int, i as int, lo as int);
    proof {
        vstd::arithmetic::power2::lemma2_to64();
    }
    if depth == 0 {
        assert(live_at(*tape, cell_at(b, w, l, ii)));
        assert(0 <= l * w) by (nonlinear_arith)
            requires
                0 <= l,
                0 <= w,
        ;
        assert(seen@ + tree_muxes(*tape, b, w, addr@, ii, l, 0) =~= seen@);
        return Some(tape.reg_out_slots[base + lo * width + i]);
    }
    let half: usize = size / 2;
    let ghost d = (depth - 1) as nat;
    proof {
        vstd::arithmetic::power2::lemma_pow2_unfold(depth as nat);
        assert forall|k: int| l <= k < l + half implies #[trigger] live_at(*tape, cell_at(b, w, k, ii)) by {
            assert(l <= k < l + size);
        }
        assert forall|k: int| l + half <= k < l + size implies #[trigger] live_at(
            *tape,
            cell_at(b, w, k, ii),
        ) by {
            assert(l <= k < l + size);
        }
    }
    let low = match match_tree(tape, base, width, i, lo, half, depth - 1, addr, seen) {
        Some(s) => s,
        None => {
            return None;
        },
    };
    let ghost addr1 = addr@;
    let high = match match_tree(tape, base, width, i, lo + half, half, depth - 1, addr, seen) {
        Some(s) => s,
        None => {
            assert forall|full: Seq<u32>| #[trigger] extends(full, start) && tree(
                *tape,
                b,
                w,
                full,
                ii,
                l,
                depth as nat,
            ) is Some implies false by {
                assert(extends(full, addr1));
            }
            return None;
        },
    };
    let ghost addr2 = addr@;
    proof {
        lemma_tree_local(*tape, b, w, addr1, addr2, ii, l, d);
        assert forall|full: Seq<u32>| #[trigger] extends(full, start) && tree(
            *tape,
            b,
            w,
            full,
            ii,
            l,
            depth as nat,
        ) is Some implies {
            &&& extends(full, addr2)
            &&& mux_of(*tape, high, low) is Some
            &&& tape.a@[mux_of(*tape, high, low)->0 as int] == full[d as int]
        } by {
            assert(extends(full, addr1));
            lemma_tree_local(*tape, b, w, full, addr2, ii, l, d);
            lemma_tree_local(*tape, b, w, full, addr2, ii, l + pow2(d), d);
        }
    }
    let slot = match mux_at(tape, high, low) {
        Some(s) => s,
        None => {
            return None;
        },
    };
    proof {
        lemma_mux_below(*tape, high, low, tape.n());
        assert(tape.gate_ok(slot as int));
    }
    let sel: u32 = tape.a[slot as usize];
    let prev: u32 = addr[depth - 1];
    if prev == UNKNOWN {
        addr.set(depth - 1, sel);
    } else if prev != sel {
        return None;
    }
    seen.push(slot);
    proof {
        lemma_tree_local(*tape, b, w, addr@, addr2, ii, l, d);
        lemma_tree_local(*tape, b, w, addr@, addr2, ii, l + pow2(d), d);
        assert(seen@ =~= old(seen)@ + tree_muxes(*tape, b, w, addr@, ii, l, depth as nat));
    }
    Some(slot)
}

/// Where each slot stands among the first `j` address bits.
spec fn placed(tape: Compiled, addr: Seq<u32>, place: Seq<u32>, j: int) -> bool {
    &&& place.len() == tape.n()
    &&& forall|s: u32| s < tape.n() ==> #[trigger] stands(addr, s, j, place[s as int])
}

/// `at` tells where slot `s` stands among the first `j` address bits.
spec fn stands(addr: Seq<u32>, s: u32, j: int, at: u32) -> bool {
    match bit_of(addr, s, j) {
        Some(k) => 0 <= k < j && at == k && at != UNKNOWN,
        None => at == UNKNOWN,
    }
}

/// The value of a constant's slot, 2 elsewhere.
spec fn constants(tape: Compiled, cval: Seq<u8>) -> bool {
    &&& cval.len() == tape.n()
    &&& forall|s: int|
        0 <= s < tape.n() ==> #[trigger] cval[s] == if s < tape.gate_start {
            match tape.sources@[s] {
                Node::Const(v) => crate::compile::bit(v),
                _ => 2,
            }
        } else {
            2
        }
}

/// Results of one address, marked with its round.
struct Memo {
    round: Vec<u32>,
    value: Vec<Option<bool>>,
}

impl Memo {
    spec fn holds(&self, tape: Compiled, addr: Seq<u32>, bits: Seq<bool>, round: u32) -> bool {
        &&& self.round@.len() == tape.n()
        &&& self.value@.len() == tape.n()
        &&& forall|s: int|
            0 <= s < tape.n() && #[trigger] self.round@[s] == round ==> self.value@[s] == forced(
                tape,
                addr,
                bits,
                s,
            )
    }

    /// No result is marked with a later round.
    spec fn clear_after(&self, round: u32) -> bool {
        forall|s: int| 0 <= s < self.round@.len() ==> #[trigger] self.round@[s] <= round
    }
}

/// The function of a gate kind with two operands.
fn pair_fn(op: Op, a: bool, b: bool) -> (v: bool)
    ensures
        v == gate_fn(op, a, b, false),
{
    match op {
        Op::And => a && b,
        Op::Or => a || b,
        Op::Xor => a != b,
        Op::Nand => !(a && b),
        Op::Nor => !(a || b),
        Op::Xnor => a == b,
        Op::Not => !a,
        Op::Buf => a,
        Op::Mux => a && b,
    }
}

/// Evaluate the cone of `slot` under an address.
fn eval(
    tape: &Compiled,
    slot: u32,
    addr: Ghost<Seq<u32>>,
    place: &Vec<u32>,
    bits: &Vec<bool>,
    cval: &Vec<u8>,
    round: u32,
    memo: &mut Memo,
) -> (v: Option<bool>)
    requires
        tape.wf(),
        slot < tape.n(),
        placed(*tape, addr@, place@, addr@.len() as int),
        bits@.len() == addr@.len(),
        constants(*tape, cval@),
        old(memo).holds(*tape, addr@, bits@, round),
        old(memo).clear_after(round),
    ensures
        final(memo).holds(*tape, addr@, bits@, round),
        final(memo).clear_after(round),
        v == forced(*tape, addr@, bits@, slot as int),
    decreases slot,
{
    let s: usize = slot as usize;
    let at: u32 = place[s];
    assert(stands(addr@, slot, addr@.len() as int, at));
    if at != UNKNOWN {
        return Some(bits[at as usize]);
    }
    let known_bit: u8 = cval[s];
    if known_bit != 2 {
        return Some(known_bit != 0);
    }
    if slot < tape.gate_start {
        return None;
    }
    if memo.round[s] == round {
        return memo.value[s];
    }
    proof {
        assert(tape.gate_ok(s as int));
    }
    let op = tape.ops[s];
    let (sa, sb, sc) = (tape.a[s], tape.b[s], tape.c[s]);
    proof {
        crate::scalar::lemma_gate_slot(
            *tape,
            crate::netlist::Env { inputs: Seq::empty(), state: Seq::empty() },
            s as int,
        );
    }
    let v: Option<bool> = match eval(tape, sa, addr, place, bits, cval, round, memo) {
        None => None,
        Some(a) => match op {
            Op::Not => Some(!a),
            Op::Buf => Some(a),
            _ => match eval(tape, sb, addr, place, bits, cval, round, memo) {
                None => None,
                Some(b) => if op == Op::Mux {
                    if a {
                        Some(b)
                    } else {
                        eval(tape, sc, addr, place, bits, cval, round, memo)
                    }
                } else {
                    Some(pair_fn(op, a, b))
                },
            },
        },
    };
    memo.round.set(s, round);
    memo.value.set(s, v);
    v
}

/// Different words of one length count differently.
pub proof fn lemma_num_injective(x: Seq<bool>, y: Seq<bool>)
    requires
        x.len() == y.len(),
        num(x) == num(y),
    ensures
        x == y,
    decreases x.len(),
{
    if x.len() > 0 {
        lemma_num_bound(x.drop_last());
        lemma_num_bound(y.drop_last());
        assert(x.last() == y.last());
        lemma_num_injective(x.drop_last(), y.drop_last());
        assert(x =~= x.drop_last().push(x.last()));
        assert(y =~= y.drop_last().push(y.last()));
    } else {
        assert(x =~= y);
    }
}

/// The `k` lowest bits of a number.
fn bits_of(v: usize, k: usize) -> (bits: Vec<bool>)
    requires
        v < pow2(k as nat),
    ensures
        bits@.len() == k,
        num(bits@) == v,
{
    let mut bits: Vec<bool> = Vec::with_capacity(k);
    let mut rest: usize = v;
    proof {
        vstd::arithmetic::power2::lemma2_to64();
        assert(v as int % 1 == 0 && v as int / 1 == v);
    }
    for j in 0..k
        invariant
            bits@.len() == j,
            num(bits@) == v as int % pow2(j as nat) as int,
            rest == v as int / pow2(j as nat) as int,
    {
        let bit: bool = rest % 2 == 1;
        let ghost before = bits@;
        bits.push(bit);
        proof {
            let p = pow2(j as nat) as int;
            vstd::arithmetic::power2::lemma_pow2_pos(j as nat);
            vstd::arithmetic::power2::lemma_pow2_unfold((j + 1) as nat);
            vstd::arithmetic::div_mod::lemma_mod_breakdown(v as int, p, 2);
            vstd::arithmetic::div_mod::lemma_div_denominator(v as int, p, 2);
            assert(pow2((j + 1) as nat) == p * 2);
            assert(bits@.drop_last() =~= before);
            let q = (v as int / p) % 2;
            assert(p * q == if bit {
                p
            } else {
                0
            }) by (nonlinear_arith)
                requires
                    q == if bit {
                        1int
                    } else {
                        0int
                    },
            ;
        }
        rest = rest / 2;
    }
    proof {
        vstd::arithmetic::div_mod::lemma_small_mod(v as nat, pow2(k as nat));
    }
    bits
}

/// A cell of the bank, for its bounds.
spec fn word_ok(tape: Compiled, base: int, width: int, k: int, enable: u32) -> bool {
    &&& 0 <= cell_at(base, width, k, 0) < tape.reg_in_slots@.len()
    &&& is_cell(tape, cell_at(base, width, k, 0))
    &&& gated(tape, write_enable(tape, base, width, k), enable)
}

/// Whether the write ports decode the address, tried on every address.
fn decoder_ok(
    tape: &Compiled,
    base: usize,
    words: usize,
    width: usize,
    addr: &Vec<u32>,
    enable: u32,
    cval: &Vec<u8>,
) -> (ok: bool)
    requires
        tape.wf(),
        constants(*tape, cval@),
        on_tape(*tape, addr@),
        known(addr@, addr@.len() as int),
        addr@.len() < UNKNOWN,
        words == pow2(addr@.len()),
        words <= tape.reg_in_slots@.len(),
        forall|k: int|
            0 <= k < words ==> #[trigger] word_ok(*tape, base as int, width as int, k, enable),
    ensures
        ok == decodes(*tape, base as int, words as int, width as int, addr@, enable),
{
    let n: usize = tape.slot_count();
    let place = places_of(tape, addr);
    let mut memo = Memo { round: Vec::with_capacity(n), value: Vec::with_capacity(n) };
    for i in 0..n
        invariant
            memo.round@.len() == i,
            memo.value@.len() == i,
            forall|s: int| 0 <= s < i ==> #[trigger] memo.round@[s] == 0,
    {
        memo.round.push(0);
        memo.value.push(None);
    }
    let ghost (b, w) = (base as int, width as int);
    for v in 0..words
        invariant
            tape.wf(),
            constants(*tape, cval@),
            placed(*tape, addr@, place@, addr@.len() as int),
            words == pow2(addr@.len()),
            words <= tape.reg_in_slots@.len(),
            b == base,
            w == width,
            n == tape.n(),
            forall|k: int| 0 <= k < words ==> #[trigger] word_ok(*tape, b, w, k, enable),
            memo.round@.len() == n,
            memo.value@.len() == n,
            memo.clear_after(v as u32),
            forall|bits: Seq<bool>, k: int|
                #![trigger forced(*tape, addr@, bits, decoder(*tape, write_enable(*tape, b, w, k), enable) as int)]
                bits.len() == addr@.len() && num(bits) < v && 0 <= k < words ==> forced(
                    *tape,
                    addr@,
                    bits,
                    decoder(*tape, write_enable(*tape, b, w, k), enable) as int,
                ) == Some(k == num(bits)),
    {
        let bits = bits_of(v, addr.len());
        let round: u32 = v as u32 + 1;
        for k in 0..words
            invariant
                tape.wf(),
                constants(*tape, cval@),
                placed(*tape, addr@, place@, addr@.len() as int),
                words == pow2(addr@.len()),
                words <= tape.reg_in_slots@.len(),
                v < words,
                round == v + 1,
                b == base,
                w == width,
                n == tape.n(),
                bits@.len() == addr@.len(),
                num(bits@) == v,
                forall|q: int| 0 <= q < words ==> #[trigger] word_ok(*tape, b, w, q, enable),
                memo.holds(*tape, addr@, bits@, round),
                memo.clear_after(round),
                forall|q: int|
                    #![trigger write_enable(*tape, b, w, q)]
                    0 <= q < k ==> forced(
                        *tape,
                        addr@,
                        bits@,
                        decoder(*tape, write_enable(*tape, b, w, q), enable) as int,
                    ) == Some(q == v),
        {
            assert(word_ok(*tape, b, w, k as int, enable));
            assert(0 <= k * w) by (nonlinear_arith)
                requires
                    0 <= k,
                    0 <= w,
            ;
            let m: usize = tape.reg_in_slots[base + k * width] as usize;
            let we: usize = tape.a[m] as usize;
            assert(tape.gate_ok(m as int));
            assert(tape.gate_ok(we as int));
            let dec: u32 = if tape.a[we] == enable {
                tape.b[we]
            } else {
                tape.a[we]
            };
            let hit = eval(tape, dec, Ghost(addr@), &place, &bits, cval, round, &mut memo);
            let ok: bool = match hit {
                Some(bit) => bit == (k == v),
                None => false,
            };
            if !ok {
                assert(!one_hot(
                    *tape,
                    addr@,
                    decoder(*tape, write_enable(*tape, b, w, k as int), enable),
                    k as int,
                ));
                return false;
            }
        }
        assert forall|other: Seq<bool>, k: int|
            #![trigger forced(*tape, addr@, other, decoder(*tape, write_enable(*tape, b, w, k), enable) as int)]
            other.len() == addr@.len() && num(other) < v + 1 && 0 <= k < words implies forced(
            *tape,
            addr@,
            other,
            decoder(*tape, write_enable(*tape, b, w, k), enable) as int,
        ) == Some(k == num(other)) by {
            if num(other) == v {
                lemma_num_injective(other, bits@);
                let e = write_enable(*tape, b, w, k);
            }
        }
    }
    assert forall|k: int| 0 <= k < words implies #[trigger] one_hot(
        *tape,
        addr@,
        decoder(*tape, write_enable(*tape, b, w, k), enable),
        k,
    ) by {
        assert forall|bits: Seq<bool>| bits.len() == addr@.len() implies #[trigger] forced(
            *tape,
            addr@,
            bits,
            decoder(*tape, write_enable(*tape, b, w, k), enable) as int,
        ) == Some(k == num(bits)) by {
            lemma_num_bound(bits);
        }
    }
    true
}

/// Where each slot stands among the address bits.
fn places_of(tape: &Compiled, addr: &Vec<u32>) -> (place: Vec<u32>)
    requires
        tape.wf(),
        on_tape(*tape, addr@),
        known(addr@, addr@.len() as int),
        addr@.len() < UNKNOWN,
    ensures
        placed(*tape, addr@, place@, addr@.len() as int),
{
    let n: usize = tape.slot_count();
    let mut place: Vec<u32> = Vec::with_capacity(n);
    for i in 0..n
        invariant
            place@.len() == i,
            forall|s: int| 0 <= s < i ==> #[trigger] place@[s] == UNKNOWN,
    {
        place.push(UNKNOWN);
    }
    for j in 0..addr.len()
        invariant
            n == tape.n(),
            tape.wf(),
            place@.len() == n,
            on_tape(*tape, addr@),
            known(addr@, addr@.len() as int),
            addr@.len() < UNKNOWN,
            placed(*tape, addr@, place@, j as int),
    {
        let s: u32 = addr[j];
        let ghost before = place@;
        assert(addr@[j as int] != UNKNOWN);
        place.set(s as usize, j as u32);
        assert forall|t: u32| t < n implies #[trigger] stands(addr@, t, j + 1, place@[t as int]) by {
            assert(stands(addr@, t, j as int, before[t as int]));
        }
    }
    place
}

/// The values of the constants.
fn constant_values(tape: &Compiled) -> (cval: Vec<u8>)
    requires
        tape.wf(),
    ensures
        constants(*tape, cval@),
{
    let n: usize = tape.slot_count();
    let mut cval: Vec<u8> = Vec::with_capacity(n);
    for i in 0..n
        invariant
            cval@.len() == i,
            forall|s: int| 0 <= s < i ==> #[trigger] cval@[s] == 2,
    {
        cval.push(2);
    }
    for j in 0..tape.const_slots.len()
        invariant
            tape.wf(),
            n == tape.n(),
            cval@.len() == n,
            forall|s: int|
                0 <= s < n && #[trigger] cval@[s] != 2 ==> s < tape.gate_start
                    && tape.sources@[s] == Node::Const(cval@[s] == 1) && cval@[s] <= 1,
            forall|i: int|
                0 <= i < j ==> cval@[(#[trigger] tape.const_slots@[i]).0 as int] != 2,
    {
        let (slot, v) = tape.const_slots[j];
        assert(tape.const_slots@[j as int] == (slot, v));
        cval.set(slot as usize, v);
    }
    assert forall|s: int| 0 <= s < n implies #[trigger] cval@[s] == if s < tape.gate_start {
        match tape.sources@[s] {
            Node::Const(v) => crate::compile::bit(v),
            _ => 2,
        }
    } else {
        2
    } by {
        if s < tape.gate_start && tape.sources@[s] is Const {
            let j = choose|j: int|
                0 <= j < tape.const_slots@.len() && (#[trigger] tape.const_slots@[j]).0 == s;
            assert(cval@[tape.const_slots@[j].0 as int] != 2);
        }
    }
    cval
}

/// Which slots are listed.
spec fn marks(slots: Seq<u32>, marked: Seq<bool>, n: int) -> bool {
    &&& marked.len() == n
    &&& forall|s: u32| s < n ==> #[trigger] marked[s as int] == slots.contains(s)
}

/// All slots are below `n`.
spec fn below(slots: Seq<u32>, n: int) -> bool {
    forall|k: int| 0 <= k < slots.len() ==> #[trigger] slots[k] < n
}

fn mark(slots: &Vec<u32>, n: usize) -> (marked: Vec<bool>)
    requires
        below(slots@, n as int),
    ensures
        marks(slots@, marked@, n as int),
{
    let mut marked: Vec<bool> = Vec::with_capacity(n);
    for i in 0..n
        invariant
            marked@.len() == i,
            forall|s: int| 0 <= s < i ==> !#[trigger] marked@[s],
    {
        marked.push(false);
    }
    for k in 0..slots.len()
        invariant
            marked@.len() == n,
            below(slots@, n as int),
            forall|s: u32| s < n && #[trigger] marked@[s as int] ==> slots@.contains(s),
            forall|j: int| 0 <= j < k ==> marked@[#[trigger] slots@[j] as int],
    {
        marked.set(slots[k] as usize, true);
    }
    marked
}

/// Whether the bank's muxes can vanish.
fn can_vanish(tape: &Compiled, bank: &MemBank, outputs: &Vec<bool>) -> (ok: bool)
    requires
        tape.wf(),
        marks(tape.output_slots@, outputs@, tape.n()),
        below(bank.fused@, tape.n()),
        below(bank.read_tops@, tape.n()),
        bank.base_reg + bank.words * bank.width <= tape.reg_in_slots@.len(),
    ensures
        ok == removable(*tape, bank.value()),
{
    let n: usize = tape.slot_count();
    let ghost m = bank.value();
    let removed = mark(&bank.fused, n);
    let roots = mark(&bank.read_tops, n);
    assert(0 <= bank.words * bank.width) by (nonlinear_arith)
        requires
            0 <= bank.words,
            0 <= bank.width,
    ;
    let lo: usize = bank.base_reg as usize;
    let hi: usize = lo + bank.words as usize * bank.width as usize;
    for k in 0..bank.fused.len()
        invariant
            tape.wf(),
            n == tape.n(),
            m == bank.value(),
            marks(tape.output_slots@, outputs@, n as int),
            marks(bank.fused@, removed@, n as int),
            marks(bank.read_tops@, roots@, n as int),
            below(bank.fused@, n as int),
            forall|j: int|
                0 <= j < k && !roots@[#[trigger] bank.fused@[j] as int] ==> quiet(
                    *tape,
                    m,
                    bank.fused@[j],
                ),
    {
        let s: u32 = bank.fused[k];
        assert(bank.fused@.contains(s));
        if !roots[s as usize] {
            if outputs[s as usize] {
                assert(!unread(*tape, m, s));
                return false;
            }
            let readers = tape.successors(s);
            for j in 0..readers.len()
                invariant
                    tape.wf(),
                    n == tape.n(),
                    m == bank.value(),
                    s < n,
                    bank.fused@.contains(s),
                    !bank.read_tops@.contains(s),
                    marks(bank.fused@, removed@, n as int),
                    forall|t: u32| readers@.contains(t) <==> tape.reads(t as int, s as int),
                    forall|i: int| 0 <= i < j ==> m.fused.contains(#[trigger] readers@[i]),
            {
                let t: u32 = readers[j];
                assert(readers@.contains(t));
                assert(tape.reads(t as int, s as int));
                if !removed[t as usize] {
                    assert(!unread(*tape, m, s));
                    return false;
                }
            }
            assert(quiet(*tape, m, s));
        }
    }
    for r in 0..tape.reg_in_slots.len()
        invariant
            tape.wf(),
            n == tape.n(),
            m == bank.value(),
            lo == m.base_reg,
            hi == m.base_reg + m.words * m.width,
            marks(bank.fused@, removed@, n as int),
            marks(bank.read_tops@, roots@, n as int),
            forall|q: int| 0 <= q < r ==> #[trigger] own_feed(*tape, m, q),
    {
        let s: u32 = tape.reg_in_slots[r];
        assert(s < n);
        assert(removed@[s as int] == m.fused.contains(s));
        assert(roots@[s as int] == m.read_tops.contains(s));
        if tape.reg_out_slots[r] != DEAD && (r < lo || r >= hi) && removed[s as usize]
            && !roots[s as usize] {
            assert(!unread(*tape, m, s)) by {
                assert(tape.reg_in_slots@[r as int] == s);
            }
            return false;
        }
        assert(own_feed(*tape, m, r as int));
    }
    assert forall|s: u32| m.fused.contains(s) && !m.read_tops.contains(s) implies #[trigger] unread(
        *tape,
        m,
        s,
    ) by {
        let k = choose|k: int| 0 <= k < bank.fused@.len() && bank.fused@[k] == s;
        assert(bank.fused@[k] < n);
        assert(roots@[s as int] == m.read_tops.contains(s));
        assert(quiet(*tape, m, bank.fused@[k]));
        assert forall|r: int|
            0 <= r < tape.reg_in_slots@.len() && tape.reg_out_slots@[r] != DEAD
                && #[trigger] tape.reg_in_slots@[r] == s implies m.base_reg <= r < m.base_reg + m.words
            * m.width by {
            assert(own_feed(*tape, m, r));
        }
    }
    true
}

/// No output and no gate outside the bank reads slot `s`.
spec fn quiet(tape: Compiled, m: BankView, s: u32) -> bool {
    &&& !tape.output_slots@.contains(s)
    &&& forall|t: u32| #[trigger] tape.reads(t as int, s as int) ==> m.fused.contains(t)
}

/// Register `r` is dead, fed by no vanishing mux, or the bank's own.
spec fn own_feed(tape: Compiled, m: BankView, r: int) -> bool {
    let s = tape.reg_in_slots@[r];
    tape.reg_out_slots@[r] != DEAD && m.fused.contains(s) && !m.read_tops.contains(s) ==> m.base_reg
        <= r < m.base_reg + m.words * m.width
}

/// One past the highest level among the slots.
fn level_past(tape: &Compiled, slots: &Vec<u32>) -> (level: u32)
    requires
        tape.wf(),
        below(slots@, tape.n()),
    ensures
        level == ready_level(*tape, slots@),
{
    let mut level: u32 = 1;
    assert(slots@.take(0) =~= Seq::empty());
    for k in 0..slots.len()
        invariant
            tape.wf(),
            below(slots@, tape.n()),
            level == ready_level(*tape, slots@.take(k as int)),
    {
        let s: usize = slots[k] as usize;
        proof {
            if s >= tape.gate_start {
                assert(tape.gate_ok(s as int));
            }
            assert(slots@.take(k + 1).drop_last() =~= slots@.take(k as int));
            assert(slots@.take(k + 1).last() == slots@[k as int]);
        }
        let next: u32 = tape.slot_level[s] + 1;
        if level < next {
            level = next;
        }
    }
    assert(slots@.take(slots@.len() as int) =~= slots@);
    level
}

/// Whether every reader of a read root runs late enough.
fn readers_late(tape: &Compiled, bank: &MemBank) -> (ok: bool)
    requires
        tape.wf(),
        below(bank.read_tops@, tape.n()),
    ensures
        ok == readers_wait(*tape, bank.value()),
{
    for k in 0..bank.read_tops.len()
        invariant
            tape.wf(),
            below(bank.read_tops@, tape.n()),
            forall|j: int, s: u32|
                0 <= j < k && #[trigger] tape.reads(s as int, bank.read_tops@[j] as int)
                    ==> tape.slot_level@[s as int] >= bank.read_ready,
    {
        let t: u32 = bank.read_tops[k];
        assert(bank.value().read_tops.contains(t));
        let readers = tape.successors(t);
        for j in 0..readers.len()
            invariant
                tape.wf(),
                t < tape.n(),
                bank.value().read_tops.contains(t),
                forall|s: u32| readers@.contains(s) <==> tape.reads(s as int, t as int),
                forall|i: int|
                    0 <= i < j ==> tape.slot_level@[#[trigger] readers@[i] as int]
                        >= bank.read_ready,
        {
            let s: u32 = readers[j];
            assert(readers@.contains(s));
            assert(tape.reads(s as int, t as int));
            if tape.slot_level[s as usize] < bank.read_ready {
                return false;
            }
        }
        assert forall|i: int, s: u32|
            0 <= i < k + 1 && #[trigger] tape.reads(s as int, bank.read_tops@[i] as int) implies tape.slot_level@[s as int]
            >= bank.read_ready by {
            if i == k {
                assert(readers@.contains(s));
            }
        }
    }
    assert forall|t: u32, s: u32|
        bank.value().read_tops.contains(t) && #[trigger] tape.reads(s as int, t as int) implies tape.slot_level@[s as int]
        >= bank.read_ready by {
        let j = choose|j: int| 0 <= j < bank.read_tops@.len() && bank.read_tops@[j] == t;
        assert(tape.reads(s as int, bank.read_tops@[j] as int));
    }
    true
}

/// Whether every write-enable is an and of `e` with something.
fn enable_shared(tape: &Compiled, base: usize, words: usize, width: usize, e: u32) -> (ok: bool)
    requires
        tape.wf(),
        forall|k: int|
            0 <= k < words ==> is_cell(*tape, #[trigger] cell_at(base as int, width as int, k, 0)),
    ensures
        ok == shares(*tape, base as int, words as int, width as int, e),
{
    let ghost (b, w) = (base as int, width as int);
    for k in 0..words
        invariant
            tape.wf(),
            b == base,
            w == width,
            forall|q: int| 0 <= q < words ==> is_cell(*tape, #[trigger] cell_at(b, w, q, 0)),
            forall|q: int|
                0 <= q < k ==> #[trigger] gated(*tape, write_enable(*tape, b, w, q), e),
    {
        assert(is_cell(*tape, cell_at(b, w, k as int, 0)));
        assert(0 <= k * w) by (nonlinear_arith)
            requires
                0 <= k,
                0 <= w,
        ;
        let m: usize = tape.reg_in_slots[base + k * width] as usize;
        assert(tape.gate_ok(m as int));
        let we: usize = tape.a[m] as usize;
        assert(we as u32 == write_enable(*tape, b, w, k as int));
        if we < tape.gate_start as usize || tape.ops[we] != Op::And || (tape.a[we] != e && tape.b[we]
            != e) {
            assert(!gated(*tape, write_enable(*tape, b, w, k as int), e));
            return false;
        }
    }
    true
}

/// Every listed word is one.
pub proof fn lemma_alike(tape: Compiled, base: int, len: int, end: int, k: int)
    requires
        0 <= end <= u32::MAX,
        0 <= k < alike(tape, base, len, end).len(),
    ensures
        is_word(tape, alike(tape, base, len, end)[k] as int, len),
        same_data(tape, base, alike(tape, base, len, end)[k] as int, len),
        0 <= alike(tape, base, len, end)[k] < end,
    decreases end,
{
    if end > 0 {
        if k < alike(tape, base, len, end - 1).len() {
            lemma_alike(tape, base, len, end - 1, k);
        }
    }
}

/// The cells of an array.
pub proof fn lemma_array_cell(tape: Compiled, base: int, words: int, width: int, k: int, i: int)
    requires
        tape.wf(),
        is_array(tape, base, words, width),
        0 <= k < words,
        0 <= i < width,
    ensures
        is_cell(tape, cell_at(base, width, k, i)),
        select(tape, cell_at(base, width, k, i)) == write_enable(tape, base, width, k),
        datum(tape, cell_at(base, width, k, i)) == datum(tape, base + i),
{
    let end = tape.reg_in_slots@.len() as int;
    let starts = alike(tape, base, width, end);
    lemma_alike(tape, base, width, end, k);
    let r = starts[k] as int;
    assert(r == cell_at(base, width, k, 0));
    assert(along(tape, r, r + i));
    assert(along(tape, r, r));
    assert(datum(tape, base + i) == datum(tape, r + i));
    assert(cell_at(base, width, k, i) == r + i);
}

/// There are no more words than registers.
proof fn lemma_alike_len(tape: Compiled, base: int, len: int, end: int)
    requires
        0 <= end,
    ensures
        alike(tape, base, len, end).len() <= end,
    decreases end,
{
    if end > 0 {
        lemma_alike_len(tape, base, len, end - 1);
    }
}

/// The muxes of a tree are slots.
proof fn lemma_tree_below(
    tape: Compiled,
    base: int,
    width: int,
    addr: Seq<u32>,
    i: int,
    lo: int,
    depth: nat,
)
    requires
        tape.wf(),
        tree(tape, base, width, addr, i, lo, depth) is Some,
    ensures
        below(tree_muxes(tape, base, width, addr, i, lo, depth), tape.n()),
    decreases depth,
{
    if depth > 0 {
        let d = (depth - 1) as nat;
        lemma_tree_below(tape, base, width, addr, i, lo, d);
        lemma_tree_below(tape, base, width, addr, i, lo + pow2(d), d);
        let low = tree(tape, base, width, addr, i, lo, d)->0;
        let high = tree(tape, base, width, addr, i, lo + pow2(d), d)->0;
        lemma_mux_below(tape, high, low, tape.n());
    }
}

/// Any bank at `base` has the words found there.
proof fn lemma_claim(tape: Compiled, base: int, width: int, m: BankView)
    requires
        is_word(tape, base, width),
        is_bank(tape, m),
        m.base_reg == base,
    ensures
        m.width == width,
        m.words == alike(tape, base, width, tape.reg_in_slots@.len() as int).len(),
{
    lemma_one_length(tape, base, width, m.width as int);
}

/// Different exponents give different powers.
proof fn lemma_pow2_injective(x: nat, y: nat)
    requires
        pow2(x) == pow2(y),
    ensures
        x == y,
{
    if x < y {
        vstd::arithmetic::power2::lemma_pow2_strictly_increases(x, y);
    } else if y < x {
        vstd::arithmetic::power2::lemma_pow2_strictly_increases(y, x);
    }
}

/// The exponent of a power of two.
fn exponent(words: usize) -> (k: Option<usize>)
    requires
        0 < words <= crate::circuit::MAX_SIGNALS,
    ensures
        k matches Some(k) ==> words == pow2(k as nat) && k <= words,
        k is None ==> forall|x: nat| #[trigger] pow2(x) != words,
{
    let mut k: usize = 0;
    let mut size: u64 = 1;
    proof {
        vstd::arithmetic::power2::lemma2_to64();
    }
    while size < words as u64
        invariant
            0 < words <= crate::circuit::MAX_SIGNALS,
            size == pow2(k as nat),
            k < size <= 2 * words,
            k > 0 ==> pow2((k - 1) as nat) < words,
        decreases 2 * words - size,
    {
        proof {
            vstd::arithmetic::power2::lemma_pow2_unfold((k + 1) as nat);
        }
        size = size * 2;
        k = k + 1;
    }
    if size == words as u64 {
        Some(k)
    } else {
        assert forall|x: nat| #[trigger] pow2(x) != words by {
            if x >= k {
                if x > k {
                    vstd::arithmetic::power2::lemma_pow2_strictly_increases(k as nat, x);
                }
            } else if x < k - 1 {
                vstd::arithmetic::power2::lemma_pow2_strictly_increases(x, (k - 1) as nat);
            }
        }
        None
    }
}

/// The read trees of a bank: their roots and muxes, and the address bits.
struct ReadPort {
    addr: Vec<u32>,
    tops: Vec<u32>,
    muxes: Vec<u32>,
}

/// All bits' trees match the address.
spec fn trees_match(tape: Compiled, base: int, width: int, addr: Seq<u32>, bits: int) -> bool {
    forall|i: int| 0 <= i < bits ==> #[trigger] tree_matches(tape, base, width, addr, i)
}

spec fn tree_matches(tape: Compiled, base: int, width: int, addr: Seq<u32>, i: int) -> bool {
    tree(tape, base, width, addr, i, 0, addr.len()) is Some
}

/// Trees over an address that is known depend on nothing else.
proof fn lemma_trees_local(
    tape: Compiled,
    base: int,
    width: int,
    x: Seq<u32>,
    y: Seq<u32>,
    bits: int,
)
    requires
        extends(y, x),
        bits > 0 ==> known(x, x.len() as int),
        0 <= bits,
    ensures
        all_tree_muxes(tape, base, width, x, bits) == all_tree_muxes(tape, base, width, y, bits),
        bits > 0 ==> x == y,
{
    if bits > 0 {
        assert(x =~= y);
    }
}

/// Rebuild the read trees of a bank.
fn read_port(tape: &Compiled, base: usize, words: usize, width: usize, kbits: usize) -> (port: Option<
    ReadPort,
>)
    requires
        tape.wf(),
        is_array(*tape, base as int, words as int, width as int),
        words == pow2(kbits as nat),
        words <= crate::circuit::MAX_SIGNALS,
    ensures
        port matches Some(p) ==> {
            &&& p.addr@.len() == kbits
            &&& known(p.addr@, kbits as int)
            &&& on_tape(*tape, p.addr@)
            &&& p.tops@.len() == width
            &&& below(p.tops@, tape.n())
            &&& below(p.muxes@, tape.n())
            &&& forall|i: int|
                0 <= i < width ==> tree(
                    *tape,
                    base as int,
                    width as int,
                    p.addr@,
                    i,
                    0,
                    kbits as nat,
                ) == Some(#[trigger] p.tops@[i])
            &&& p.muxes@ == all_tree_muxes(*tape, base as int, width as int, p.addr@, width as int)
        },
        forall|full: Seq<u32>|
            full.len() == kbits && #[trigger] trees_match(
                *tape,
                base as int,
                width as int,
                full,
                width as int,
            ) ==> (port matches Some(p) && p.addr@ == full),
{
    let ghost (b, w) = (base as int, width as int);
    let mut addr: Vec<u32> = Vec::with_capacity(kbits);
    for j in 0..kbits
        invariant
            addr@.len() == j,
            forall|q: int| 0 <= q < j ==> #[trigger] addr@[q] == UNKNOWN,
    {
        addr.push(UNKNOWN);
    }
    let mut tops: Vec<u32> = Vec::with_capacity(width);
    let mut muxes: Vec<u32> = Vec::new();
    for i in 0..width
        invariant
            tape.wf(),
            b == base,
            w == width,
            is_array(*tape, b, words as int, w),
            words == pow2(kbits as nat),
            words <= crate::circuit::MAX_SIGNALS,
            addr@.len() == kbits,
            on_tape(*tape, addr@),
            i > 0 ==> known(addr@, kbits as int),
            tops@.len() == i,
            below(tops@, tape.n()),
            below(muxes@, tape.n()),
            forall|q: int|
                0 <= q < i ==> tree(*tape, b, w, addr@, q, 0, kbits as nat) == Some(
                    #[trigger] tops@[q],
                ),
            muxes@ == all_tree_muxes(*tape, b, w, addr@, i as int),
            forall|full: Seq<u32>|
                full.len() == kbits && #[trigger] trees_match(*tape, b, w, full, w) ==> extends(
                    full,
                    addr@,
                ),
    {
        let ghost before = addr@;
        proof {
            assert forall|k: int| 0 <= k < words implies #[trigger] live_at(
                *tape,
                cell_at(b, w, k, i as int),
            ) by {
                lemma_array_cell(*tape, b, words as int, w, k, i as int);
            }
        }
        let top = match match_tree(
            tape,
            base,
            width,
            i,
            0,
            words,
            kbits,
            &mut addr,
            &mut muxes,
        ) {
            Some(top) => top,
            None => {
                assert forall|full: Seq<u32>|
                    full.len() == kbits && #[trigger] trees_match(*tape, b, w, full, w) implies false by {
                    assert(tree_matches(*tape, b, w, full, i as int));
                    assert(extends(full, before));
                }
                return None;
            },
        };
        tops.push(top);
        proof {
            lemma_trees_local(*tape, b, w, before, addr@, i as int);
            lemma_tree_below(*tape, b, w, addr@, i as int, 0, kbits as nat);
            assert(muxes@ =~= all_tree_muxes(*tape, b, w, addr@, i + 1));
            assert forall|full: Seq<u32>|
                full.len() == kbits && #[trigger] trees_match(*tape, b, w, full, w) implies extends(
                full,
                addr@,
            ) by {
                assert(tree_matches(*tape, b, w, full, i as int));
                assert(extends(full, before));
            }
        }
    }
    proof {
        assert forall|full: Seq<u32>|
            full.len() == kbits && #[trigger] trees_match(*tape, b, w, full, w) implies full
            == addr@ by {
            assert(extends(full, addr@));
            assert(full =~= addr@);
        }
    }
    Some(ReadPort { addr, tops, muxes })
}

/// Whether the words lie back to back.
fn back_to_back(starts: &Vec<u32>, width: usize) -> (ok: bool)
    requires
        0 < starts@.len() <= crate::circuit::MAX_SIGNALS,
        width <= crate::circuit::MAX_SIGNALS,
    ensures
        ok == forall|k: int|
            0 <= k < starts@.len() ==> #[trigger] starts@[k] as int == cell_at(
                starts@[0] as int,
                width as int,
                k,
                0,
            ),
{
    let base: u64 = starts[0] as u64;
    for k in 0..starts.len()
        invariant
            0 < starts@.len() <= crate::circuit::MAX_SIGNALS,
            width <= crate::circuit::MAX_SIGNALS,
            base == starts@[0],
            forall|q: int|
                0 <= q < k ==> #[trigger] starts@[q] as int == cell_at(
                    starts@[0] as int,
                    width as int,
                    q,
                    0,
                ),
    {
        assert(k * width <= 0xffff_fffe * 0xffff_fffe) by (nonlinear_arith)
            requires
                0 <= k <= 0xffff_fffe,
                0 <= width <= 0xffff_fffe,
        ;
        assert(0 <= k * width) by (nonlinear_arith)
            requires
                0 <= k,
                0 <= width,
        ;
        if starts[k] as u64 != base + k as u64 * width as u64 {
            return false;
        }
    }
    true
}

/// The slots that feed the cells of the bank, appended to its tree.
fn with_feeds(tape: &Compiled, muxes: Vec<u32>, base: usize, len: usize) -> (fused: Vec<u32>)
    requires
        tape.wf(),
        below(muxes@, tape.n()),
        base + len <= tape.reg_in_slots@.len(),
    ensures
        fused@ == muxes@ + feeds(*tape, base as int, len as int),
        below(fused@, tape.n()),
{
    let mut fused = muxes;
    assert(muxes@ + feeds(*tape, base as int, 0) =~= muxes@);
    for q in 0..len
        invariant
            tape.wf(),
            base + len <= tape.reg_in_slots@.len(),
            fused@ == muxes@ + feeds(*tape, base as int, q as int),
            below(fused@, tape.n()),
    {
        fused.push(tape.reg_in_slots[base + q]);
        assert(fused@ =~= muxes@ + feeds(*tape, base as int, q + 1));
    }
    fused
}

/// The data bus of the word at `base`.
fn bus(tape: &Compiled, base: usize, width: usize) -> (data: Vec<u32>)
    requires
        tape.wf(),
        base + width <= tape.reg_in_slots@.len(),
    ensures
        data@ == data_bus(*tape, base as int, width as int),
{
    let mut data: Vec<u32> = Vec::with_capacity(width);
    for i in 0..width
        invariant
            tape.wf(),
            base + width <= tape.reg_in_slots@.len(),
            data@ == data_bus(*tape, base as int, i as int),
    {
        data.push(tape.b[tape.reg_in_slots[base + i] as usize]);
        assert(data@ =~= data_bus(*tape, base as int, i + 1));
    }
    assert(data@ =~= data_bus(*tape, base as int, width as int));
    data
}

/// The bank at `base`, or none, is what a candidate comes to.
spec fn settles(tape: Compiled, base: int, res: Option<MemBank>) -> bool {
    &&& res matches Some(bank) ==> is_bank(tape, bank.value()) && bank.base_reg == base
    &&& forall|m: BankView| #[trigger]
        is_bank(tape, m) && m.base_reg == base ==> (res matches Some(bank) && bank.value() == m)
}

/// A bank that agrees with the read port found agrees in everything.
proof fn lemma_agrees(tape: Compiled, bank: BankView, m: BankView)
    requires
        is_word(tape, bank.base_reg as int, bank.width as int),
        is_bank(tape, m),
        m.base_reg == bank.base_reg,
        bank.words == alike(
            tape,
            bank.base_reg as int,
            bank.width as int,
            tape.reg_in_slots@.len() as int,
        ).len(),
        bank.addr_bits == m.addr_bits,
        bank.read_tops.len() == bank.width,
        forall|i: int|
            0 <= i < bank.width ==> tree(
                tape,
                bank.base_reg as int,
                bank.width as int,
                bank.addr_bits,
                i,
                0,
                bank.addr_bits.len(),
            ) == Some(#[trigger] bank.read_tops[i]),
        shared_enable(tape, bank.base_reg as int, bank.words as int, bank.width as int) == Some(
            bank.enable,
        ),
        bank.data == data_bus(tape, bank.base_reg as int, bank.width as int),
        bank.fused == all_tree_muxes(
            tape,
            bank.base_reg as int,
            bank.width as int,
            bank.addr_bits,
            bank.width as int,
        ) + feeds(tape, bank.base_reg as int, bank.words * bank.width),
        bank.read_ready == ready_level(tape, bank.addr_bits),
    ensures
        m == bank,
{
    lemma_claim(tape, bank.base_reg as int, bank.width as int, m);
    assert forall|i: int| 0 <= i < bank.width implies bank.read_tops[i] == m.read_tops[i] by {
        assert(Some(bank.read_tops[i]) == Some(m.read_tops[i]));
    }
    assert(bank.read_tops =~= m.read_tops);
    assert(bank =~= m);
}

/// A bank's address matches its trees.
proof fn lemma_bank_trees(tape: Compiled, m: BankView)
    requires
        is_bank(tape, m),
    ensures
        trees_match(tape, m.base_reg as int, m.width as int, m.addr_bits, m.width as int),
{
    assert forall|i: int| 0 <= i < m.width implies #[trigger] tree_matches(
        tape,
        m.base_reg as int,
        m.width as int,
        m.addr_bits,
        i,
    ) by {
        let top = m.read_tops[i];
        assert(tree(
            tape,
            m.base_reg as int,
            m.width as int,
            m.addr_bits,
            i,
            0,
            m.addr_bits.len(),
        ) == Some(top));
    }
}

/// Try the words in `starts`, which are all that share their data.
fn try_bank(
    tape: &Compiled,
    starts: &Vec<u32>,
    width: usize,
    cval: &Vec<u8>,
    outputs: &Vec<bool>,
) -> (res: Option<MemBank>)
    requires
        tape.wf(),
        constants(*tape, cval@),
        marks(tape.output_slots@, outputs@, tape.n()),
        starts@.len() > 0,
        is_word(*tape, starts@[0] as int, width as int),
        starts@[0] + width <= tape.reg_in_slots@.len(),
        starts@ == alike(
            *tape,
            starts@[0] as int,
            width as int,
            tape.reg_in_slots@.len() as int,
        ),
    ensures
        settles(*tape, starts@[0] as int, res),
{
    let base: usize = starts[0] as usize;
    let words: usize = starts.len();
    let ghost (b, w, n) = (base as int, width as int, words as int);
    let ghost end = tape.reg_in_slots@.len() as int;
    proof {
        lemma_alike_len(*tape, b, w, end);
        assert forall|m: BankView| #[trigger] is_bank(*tape, m) && m.base_reg == b implies m.width == w
            && m.words == n by {
            lemma_claim(*tape, b, w, m);
        }
    }
    if words < MIN_WORDS {
        return None;
    }
    let kbits: usize = match exponent(words) {
        Some(k) => k,
        None => {
            assert forall|m: BankView| #[trigger] is_bank(*tape, m) implies m.base_reg != b by {
                if m.base_reg == b {
                    assert(pow2(m.addr_bits.len()) == n);
                }
            }
            return None;
        },
    };
    if !back_to_back(starts, width) {
        return None;
    }
    assert(is_array(*tape, b, n, w));
    let port = match read_port(tape, base, words, width, kbits) {
        Some(port) => port,
        None => {
            assert forall|m: BankView| #[trigger] is_bank(*tape, m) implies m.base_reg != b by {
                if m.base_reg == b {
                    lemma_bank_trees(*tape, m);
                    lemma_pow2_injective(m.addr_bits.len(), kbits as nat);
                }
            }
            return None;
        },
    };
    let ghost addr = port.addr@;
    proof {
        assert forall|m: BankView| #[trigger] is_bank(*tape, m) && m.base_reg == b implies m.addr_bits
            == addr by {
            lemma_bank_trees(*tape, m);
            lemma_pow2_injective(m.addr_bits.len(), kbits as nat);
        }
        assert forall|k: int| 0 <= k < words implies is_cell(*tape, #[trigger] cell_at(b, w, k, 0)) by {
            lemma_array_cell(*tape, b, n, w, k, 0);
        }
    }
    // Common store-enable across every write-enable.
    let m0: usize = tape.reg_in_slots[base] as usize;
    proof {
        assert(cell_at(b, w, 0, 0) == b);
        assert(is_cell(*tape, cell_at(b, w, 0, 0)));
        assert(tape.gate_ok(m0 as int));
    }
    let we0: usize = tape.a[m0] as usize;
    let enable: u32 = if enable_shared(tape, base, words, width, tape.a[we0]) {
        tape.a[we0]
    } else if enable_shared(tape, base, words, width, tape.b[we0]) {
        tape.b[we0]
    } else {
        return None;
    };
    assert(shared_enable(*tape, b, n, w) == Some(enable));
    assert forall|k: int| 0 <= k < words implies #[trigger] word_ok(*tape, b, w, k, enable) by {
        assert(is_cell(*tape, cell_at(b, w, k, 0)));
        assert(gated(*tape, write_enable(*tape, b, w, k), enable));
    }
    // The write decoder, over the whole address space.
    if !decoder_ok(tape, base, words, width, &port.addr, enable, cval) {
        return None;
    }
    proof {
        lemma_array_cell(*tape, b, n, w, n - 1, w - 1);
        assert((n - 1) * w + w == n * w) by (nonlinear_arith);
        assert(0 <= n * w) by (nonlinear_arith)
            requires
                0 <= n,
                0 <= w,
        ;
    }
    let data = bus(tape, base, width);
    let ghost muxes = port.muxes@;
    let fused = with_feeds(tape, port.muxes, base, words * width);
    assert forall|j: int| 0 <= j < addr.len() implies #[trigger] addr[j] < tape.n() by {
        assert(addr[j] != UNKNOWN);
    }
    let read_ready: u32 = level_past(tape, &port.addr);
    let bank = MemBank {
        base_reg: base as u32,
        words: words as u32,
        width: width as u32,
        addr_bits: port.addr,
        enable,
        data,
        read_tops: port.tops,
        fused,
        read_ready,
    };
    proof {
        assert forall|m: BankView| #[trigger] is_bank(*tape, m) && m.base_reg == b implies m
            == bank.value() by {
            lemma_agrees(*tape, bank.value(), m);
        }
    }
    if !can_vanish(tape, &bank, outputs) {
        return None;
    }
    if !readers_late(tape, &bank) {
        return None;
    }
    assert(is_bank(*tape, bank.value()));
    Some(bank)
}

/// The banks among the first `end` registers, in register order.
spec fn found_below(tape: Compiled, end: int, banks: Seq<MemBank>) -> bool {
    &&& forall|k: int|
        0 <= k < banks.len() ==> is_bank(tape, (#[trigger] banks[k]).value()) && banks[k].base_reg
            < end
    &&& forall|j: int, k: int|
        0 <= j < k < banks.len() ==> (#[trigger] banks[j]).base_reg < (#[trigger] banks[k]).base_reg
    &&& forall|m: BankView| #[trigger]
        is_bank(tape, m) && m.base_reg < end ==> exists|k: int|
            0 <= k < banks.len() && (#[trigger] banks[k]).value() == m
}

/// Exactly the banks of the tape, in register order.
pub open spec fn banks_of(tape: Compiled, banks: Seq<MemBank>) -> bool {
    &&& forall|k: int| 0 <= k < banks.len() ==> is_bank(tape, (#[trigger] banks[k]).value())
    &&& forall|j: int, k: int|
        0 <= j < k < banks.len() ==> (#[trigger] banks[j]).base_reg < (#[trigger] banks[k]).base_reg
    &&& forall|m: BankView| #[trigger]
        is_bank(tape, m) ==> exists|k: int| 0 <= k < banks.len() && (#[trigger] banks[k]).value() == m
}

/// Whether two words let the same data in.
fn data_alike(tape: &Compiled, r: usize, q: usize, len: usize) -> (yes: bool)
    requires
        tape.wf(),
        r + len <= tape.reg_in_slots@.len(),
        q + len <= tape.reg_in_slots@.len(),
    ensures
        yes == same_data(*tape, r as int, q as int, len as int),
{
    for i in 0..len
        invariant
            tape.wf(),
            r + len <= tape.reg_in_slots@.len(),
            q + len <= tape.reg_in_slots@.len(),
            forall|j: int| 0 <= j < i ==> #[trigger] datum(*tape, r + j) == datum(*tape, q + j),
    {
        if tape.b[tape.reg_in_slots[r + i] as usize] != tape.b[tape.reg_in_slots[q + i] as usize] {
            assert(datum(*tape, r + i) != datum(*tape, q + i));
            return false;
        }
    }
    true
}

/// The words of the tape: their lengths, at their first registers.
spec fn word_table(tape: Compiled, lengths: Seq<usize>) -> bool {
    &&& lengths.len() == tape.reg_in_slots@.len()
    &&& forall|r: int| 0 <= r < lengths.len() ==> #[trigger] word_entry(tape, r, lengths[r] as int)
}

spec fn word_entry(tape: Compiled, r: int, len: int) -> bool {
    &&& len > 0 ==> is_word(tape, r, len) && r + len <= tape.reg_in_slots@.len()
    &&& len == 0 ==> forall|l: int| !is_word(tape, r, l)
}

fn word_lengths(tape: &Compiled) -> (lengths: Vec<usize>)
    requires
        tape.wf(),
    ensures
        word_table(*tape, lengths@),
{
    let (first, last) = select_spans(tape);
    let count: usize = tape.reg_in_slots.len();
    let mut lengths: Vec<usize> = Vec::with_capacity(count);
    for r in 0..count
        invariant
            tape.wf(),
            count == tape.reg_in_slots@.len(),
            all_spans(*tape, count as int, first@, last@),
            lengths@.len() == r,
            forall|q: int| 0 <= q < r ==> #[trigger] word_entry(*tape, q, lengths@[q] as int),
    {
        let len: usize = word_length(tape, &first, &last, r);
        lengths.push(len);
    }
    lengths
}

/// The words that share the data of the word at `r`. Their registers are
/// marked as taken.
fn collect_words(tape: &Compiled, lengths: &Vec<usize>, r: usize, taken: &mut Vec<bool>) -> (starts: Vec<u32>)
    requires
        tape.wf(),
        word_table(*tape, lengths@),
        r < lengths@.len(),
        lengths@[r as int] > 0,
        old(taken)@.len() == lengths@.len(),
    ensures
        starts@ == alike(*tape, r as int, lengths@[r as int] as int, lengths@.len() as int),
        final(taken)@.len() == old(taken)@.len(),
        forall|q: int|
            0 <= q < lengths@.len() ==> (#[trigger] final(taken)@[q] <==> old(taken)@[q] || is_alike(
                *tape,
                r as int,
                lengths@[r as int] as int,
                q,
            )),
{
    let width: usize = lengths[r];
    let count: usize = lengths.len();
    let mut starts: Vec<u32> = Vec::new();
    assert(word_entry(*tape, r as int, width as int));
    for q in 0..count
        invariant
            tape.wf(),
            word_table(*tape, lengths@),
            count == lengths@.len(),
            width == lengths@[r as int],
            width > 0,
            r + width <= count,
            starts@ == alike(*tape, r as int, width as int, q as int),
            taken@.len() == count,
            forall|p: int|
                0 <= p < count ==> (#[trigger] taken@[p] <==> old(taken)@[p] || (p < q && is_alike(
                    *tape,
                    r as int,
                    width as int,
                    p,
                ))),
    {
        assert(word_entry(*tape, q as int, lengths@[q as int] as int));
        if lengths[q] == width {
            if data_alike(tape, r, q, width) {
                starts.push(q as u32);
                taken.set(q, true);
                assert(is_alike(*tape, r as int, width as int, q as int));
            }
        } else {
            assert(!is_alike(*tape, r as int, width as int, q as int)) by {
                if is_word(*tape, q as int, width as int) && lengths@[q as int] > 0 {
                    lemma_one_length(*tape, q as int, width as int, lengths@[q as int] as int);
                }
            }
        }
    }
    starts
}

/// There is a word at `q` with the data of the one at `r`.
spec fn is_alike(tape: Compiled, r: int, len: int, q: int) -> bool {
    is_word(tape, q, len) && same_data(tape, r, q, len)
}

/// A register is taken when an earlier word shares its data.
spec fn is_taken(tape: Compiled, end: int, q: int) -> bool {
    exists|r: int, len: int|
        0 <= r < end && #[trigger] is_word(tape, r, len) && is_alike(tape, r, len, q)
}

/// Words with the same data come in the order of their registers; the first
/// is the first of all.
proof fn lemma_first_alike(tape: Compiled, r: int, len: int, end: int)
    requires
        is_word(tape, r, len),
        0 <= r < end <= u32::MAX,
    ensures
        alike(tape, r, len, end).len() > 0,
        alike(tape, r, len, end)[0] <= r,
        (forall|q: int| 0 <= q < r ==> !#[trigger] is_alike(tape, r, len, q)) ==> alike(
            tape,
            r,
            len,
            end,
        )[0] == r,
    decreases end,
{
    if r == end - 1 {
        assert(same_data(tape, r, r, len));
        if forall|q: int| 0 <= q < r ==> !#[trigger] is_alike(tape, r, len, q) {
            lemma_none_alike(tape, r, len, end - 1);
        } else if alike(tape, r, len, end - 1).len() > 0 {
            lemma_alike(tape, r, len, end - 1, 0);
        }
    } else {
        lemma_first_alike(tape, r, len, end - 1);
    }
}

proof fn lemma_none_alike(tape: Compiled, r: int, len: int, end: int)
    requires
        forall|q: int| 0 <= q < end ==> !#[trigger] is_alike(tape, r, len, q),
    ensures
        alike(tape, r, len, end).len() == 0,
    decreases end,
{
    if end > 0 {
        assert(!is_alike(tape, r, len, end - 1));
        lemma_none_alike(tape, r, len, end - 1);
    }
}

/// Detect every fusable single-port RAM bank on the tape.
pub fn find_banks(tape: &Compiled) -> (banks: Vec<MemBank>)
    requires
        tape.wf(),
    ensures
        banks_of(*tape, banks@),
{
    let n: usize = tape.slot_count();
    let cval = constant_values(tape);
    let outputs = mark(&tape.output_slots, n);
    let lengths = word_lengths(tape);
    let count: usize = lengths.len();
    let mut taken: Vec<bool> = Vec::with_capacity(count);
    for i in 0..count
        invariant
            taken@.len() == i,
            forall|q: int| 0 <= q < i ==> !#[trigger] taken@[q],
    {
        taken.push(false);
    }
    let mut banks: Vec<MemBank> = Vec::new();
    for r in 0..count
        invariant
            tape.wf(),
            constants(*tape, cval@),
            marks(tape.output_slots@, outputs@, tape.n()),
            word_table(*tape, lengths@),
            count == lengths@.len(),
            taken@.len() == count,
            forall|q: int| 0 <= q < count ==> (#[trigger] taken@[q] <==> is_taken(*tape, r as int, q)),
            found_below(*tape, r as int, banks@),
    {
        let ghost before = taken@;
        let ghost found = banks@;
        assert(word_entry(*tape, r as int, lengths@[r as int] as int));
        let mut res: Option<MemBank> = None;
        if lengths[r] > 0 && !taken[r] {
            let starts = collect_words(tape, &lengths, r, &mut taken);
            proof {
                lemma_untaken_first(*tape, r as int, lengths@[r as int] as int);
                lemma_first_alike(*tape, r as int, lengths@[r as int] as int, count as int);
            }
            res = try_bank(tape, &starts, lengths[r], &cval, &outputs);
        } else {
            proof {
                lemma_no_bank(*tape, r as int, lengths@[r as int] as int);
            }
        }
        proof {
            lemma_taken_next(*tape, r as int, lengths@[r as int] as int, before, taken@);
        }
        assert(settles(*tape, r as int, res));
        if let Some(bank) = res {
            banks.push(bank);
        }
        proof {
            assert forall|m: BankView| #[trigger] is_bank(*tape, m) && m.base_reg < r + 1 implies exists|
                k: int,
            |
                0 <= k < banks@.len() && (#[trigger] banks@[k]).value() == m by {
                if m.base_reg < r {
                    let k = choose|k: int| 0 <= k < found.len() && (#[trigger] found[k]).value() == m;
                    assert(banks@[k].value() == m);
                } else {
                    assert(banks@[banks@.len() - 1].value() == m);
                }
            }
        }
    }
    proof {
        assert forall|m: BankView| #[trigger] is_bank(*tape, m) implies exists|k: int|
            0 <= k < banks@.len() && (#[trigger] banks@[k]).value() == m by {
            assert(m.base_reg < count);
        }
    }
    banks
}

/// Nothing before an untaken word shares its data.
proof fn lemma_untaken_first(tape: Compiled, r: int, len: int)
    requires
        is_word(tape, r, len),
        !is_taken(tape, r, r),
    ensures
        forall|q: int| 0 <= q < r ==> !#[trigger] is_alike(tape, r, len, q),
{
    assert forall|q: int| 0 <= q < r implies !#[trigger] is_alike(tape, r, len, q) by {
        if is_alike(tape, r, len, q) {
            assert(same_data(tape, q, r, len)) by {
                assert forall|i: int| 0 <= i < len implies #[trigger] datum(tape, q + i) == datum(
                    tape,
                    r + i,
                ) by {
                    assert(datum(tape, r + i) == datum(tape, q + i));
                }
            }
            assert(is_word(tape, q, len) && is_alike(tape, q, len, r));
        }
    }
}

/// A register that starts no word, or a later word of an array, starts no
/// bank.
proof fn lemma_no_bank(tape: Compiled, r: int, len: int)
    requires
        0 <= r < tape.reg_in_slots@.len() <= u32::MAX,
        word_entry(tape, r, len),
        len >= 0,
        len == 0 || is_taken(tape, r, r),
    ensures
        forall|m: BankView| #[trigger] is_bank(tape, m) ==> m.base_reg != r,
{
    assert forall|m: BankView| #[trigger] is_bank(tape, m) implies m.base_reg != r by {
        if m.base_reg == r {
            assert(is_word(tape, r, m.width as int));
            let (q, l) = choose|q: int, l: int|
                0 <= q < r && #[trigger] is_word(tape, q, l) && is_alike(tape, q, l, r);
            lemma_one_length(tape, r, l, m.width as int);
            let end = tape.reg_in_slots@.len() as int;
            assert(is_alike(tape, r, l, q)) by {
                assert forall|i: int| 0 <= i < l implies #[trigger] datum(tape, r + i) == datum(
                    tape,
                    q + i,
                ) by {
                    assert(datum(tape, q + i) == datum(tape, r + i));
                }
            }
            lemma_earlier_first(tape, r, l, q, end);
            assert(alike(tape, r, l, end)[0] as int == cell_at(r, l, 0, 0));
        }
    }
}

/// An earlier word with the same data comes first.
proof fn lemma_earlier_first(tape: Compiled, r: int, len: int, q: int, end: int)
    requires
        is_alike(tape, r, len, q),
        0 <= q < end <= u32::MAX,
    ensures
        alike(tape, r, len, end).len() > 0,
        alike(tape, r, len, end)[0] <= q,
    decreases end,
{
    if q == end - 1 {
        if alike(tape, r, len, end - 1).len() > 0 {
            lemma_alike(tape, r, len, end - 1, 0);
        }
    } else {
        lemma_earlier_first(tape, r, len, q, end - 1);
    }
}

/// After register `r`, the words that share its data are taken too.
proof fn lemma_taken_next(tape: Compiled, r: int, len: int, before: Seq<bool>, after: Seq<bool>)
    requires
        0 <= r < before.len(),
        before.len() == after.len(),
        word_entry(tape, r, len),
        len >= 0,
        forall|q: int| 0 <= q < before.len() ==> (#[trigger] before[q] <==> is_taken(tape, r, q)),
        if len > 0 && !before[r] {
            forall|q: int|
                0 <= q < before.len() ==> (#[trigger] after[q] <==> before[q] || is_alike(
                    tape,
                    r,
                    len,
                    q,
                ))
        } else {
            after == before
        },
    ensures
        forall|q: int| 0 <= q < after.len() ==> (#[trigger] after[q] <==> is_taken(tape, r + 1, q)),
{
    assert forall|q: int| 0 <= q < after.len() implies (#[trigger] after[q] <==> is_taken(
        tape,
        r + 1,
        q,
    )) by {
        assert(before[q] <==> is_taken(tape, r, q));
        if is_taken(tape, r, q) {
            let (p, l) = choose|p: int, l: int|
                0 <= p < r && #[trigger] is_word(tape, p, l) && is_alike(tape, p, l, q);
            assert(0 <= p < r + 1 && is_word(tape, p, l) && is_alike(tape, p, l, q));
        }
        if after[q] && !before[q] {
            assert(is_word(tape, r, len) && is_alike(tape, r, len, q));
        }
        if is_taken(tape, r + 1, q) {
            let (p, l) = choose|p: int, l: int|
                0 <= p < r + 1 && #[trigger] is_word(tape, p, l) && is_alike(tape, p, l, q);
            if p == r {
                if len > 0 {
                    lemma_one_length(tape, r, len, l);
                    if before[r] {
                        let (x, lx) = choose|x: int, lx: int|
                            0 <= x < r && #[trigger] is_word(tape, x, lx) && is_alike(tape, x, lx, r);
                        lemma_one_length(tape, r, len, lx);
                        assert(is_alike(tape, x, lx, q)) by {
                            assert forall|i: int| 0 <= i < lx implies #[trigger] datum(tape, x + i)
                                == datum(tape, q + i) by {
                                assert(datum(tape, x + i) == datum(tape, r + i));
                                assert(datum(tape, r + i) == datum(tape, q + i));
                            }
                        }
                        assert(is_taken(tape, r, q));
                    }
                }
            } else {
                assert(is_taken(tape, r, q));
            }
        }
    }
}

} // verus!
