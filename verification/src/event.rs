//! Event-driven (activity-based) engine.
//!
//! Real circuits are mostly idle: in a CPU-like design only a few percent of
//! gates change value on any given clock. This engine recomputes only gates
//! whose inputs actually changed, walking the dirty set level by level (a
//! gate is evaluated at most once per tick). The cone of influence of any
//! change is always fully recomputed; everything outside it cannot change.
use std::sync::Arc;

use vstd::prelude::*;

use crate::circuit::Circuit;
use crate::compile::{arity, bit, same_machine, shared, Compiled, DEAD};
use crate::engine::{Engine, Machine};
use crate::netlist::{gate_arity, Node};
use crate::scalar::{
    arrays_ok, copy_bytes, gate_bits, gate_byte, lemma_gate_slot, lemma_power_on, lemma_set_input,
    lemma_sources_settled, lemma_ticked, machine_of, settled_upto,
};

verus! {

/// Bit `s` of a bit set kept in words.
spec fn flag(words: Seq<u64>, s: int) -> bool {
    (words[s / 64] >> ((s % 64) as u64)) & 1 == 1
}

proof fn lemma_word_bits(w: u64, i: u64, j: u64)
    by (bit_vector)
    requires
        i < 64,
        j < 64,
    ensures
        ((w | (1u64 << i)) >> j) & 1 == (if i == j { 1u64 } else { (w >> j) & 1 }),
        ((w & !(1u64 << i)) >> j) & 1 == (if i == j { 0u64 } else { (w >> j) & 1 }),
        (w >> j) & 1 == 0 || (w >> j) & 1 == 1,
        (0u64 >> j) & 1 == 0,
{
}

/// Setting or clearing flag `s` leaves the other flags alone.
proof fn lemma_flags(words: Seq<u64>, s: int)
    requires
        0 <= s < 64 * words.len(),
    ensures
        forall|t: int|
            0 <= t < 64 * words.len() ==> #[trigger] flag(
                words.update(s / 64, words[s / 64] | (1u64 << ((s % 64) as u64))),
                t,
            ) == (t == s || flag(words, t)),
        forall|t: int|
            0 <= t < 64 * words.len() ==> #[trigger] flag(
                words.update(s / 64, words[s / 64] & !(1u64 << ((s % 64) as u64))),
                t,
            ) == (t != s && flag(words, t)),
{
    assert forall|t: int| 0 <= t < 64 * words.len() implies #[trigger] flag(
        words.update(s / 64, words[s / 64] | (1u64 << ((s % 64) as u64))),
        t,
    ) == (t == s || flag(words, t)) by {
        lemma_word_bits(words[t / 64], (s % 64) as u64, (t % 64) as u64);
    }
    assert forall|t: int| 0 <= t < 64 * words.len() implies #[trigger] flag(
        words.update(s / 64, words[s / 64] & !(1u64 << ((s % 64) as u64))),
        t,
    ) == (t != s && flag(words, t)) by {
        lemma_word_bits(words[t / 64], (s % 64) as u64, (t % 64) as u64);
    }
}

pub struct EventEngine {
    tape: Arc<Compiled>,
    values: Vec<u8>,
    /// Next state captured at the end of the previous tick.
    reg_scratch: Vec<u8>,
    /// Per-level worklists of dirty gate slots.
    buckets: Vec<Vec<u32>>,
    /// Dedup bitmask: slot already queued this tick.
    queued: Vec<u64>,
    /// The gates evaluated since the last tick began, in order.
    visited: Ghost<Seq<u32>>,
}

/// Gate `s` holds what its operands ask for.
spec fn consistent(tape: Compiled, values: Seq<u8>, s: int) -> bool {
    values[s] == gate_byte(
        tape.ops@[s],
        values[tape.a@[s] as int],
        values[tape.b@[s] as int],
        values[tape.c@[s] as int],
    )
}

/// Slot `s` waits in its level's bucket, or among `extra`.
spec fn waiting(tape: Compiled, buckets: Seq<Vec<u32>>, extra: Seq<u32>, s: int) -> bool {
    buckets[tape.slot_level@[s] as int]@.contains(s as u32) || extra.contains(s as u32)
}

/// Some operand of `s` does not hold what it held before.
spec fn moved(tape: Compiled, v0: Seq<u8>, values: Seq<u8>, s: int) -> bool {
    exists|x: int| #[trigger] tape.reads(s, x) && values[x] != v0[x]
}

/// What is known during a tick that started from values `v0` and flags `q0`:
/// a gate was evaluated or is about to be exactly if it waited then or an
/// operand changed since, no gate is evaluated twice, and gates that were not
/// evaluated did not change.
spec fn traced(
    tape: Compiled,
    queued: Seq<u64>,
    visited: Seq<u32>,
    values: Seq<u8>,
    v0: Seq<u8>,
    q0: Seq<u64>,
) -> bool {
    &&& visited.no_duplicates()
    &&& forall|s: int|
        0 <= s < tape.n() ==> (#[trigger] flag(queued, s) || visited.contains(s as u32)) == (flag(q0, s)
            || moved(tape, v0, values, s))
    &&& forall|s: int|
        0 <= s < tape.n() && #[trigger] flag(queued, s) ==> !visited.contains(s as u32)
    &&& forall|s: int|
        tape.gate_start <= s < tape.n() && #[trigger] values[s] != v0[s] ==> visited.contains(s as u32)
}

/// All gates evaluated so far are at most at `level`.
spec fn visited_upto(tape: Compiled, visited: Seq<u32>, level: int) -> bool {
    forall|s: u32|
        #[trigger] visited.contains(s) ==> s < tape.n() && tape.slot_level@[s as int] <= level
}

/// Writing a source keeps the trace, before any gate is evaluated.
proof fn lemma_source_traced(
    t: Compiled,
    slot: int,
    value: u8,
    queued: Seq<u64>,
    after: Seq<u64>,
    values: Seq<u8>,
    v0: Seq<u8>,
    q0: Seq<u64>,
)
    requires
        t.wf(),
        values.len() == t.n(),
        0 <= slot < t.gate_start <= t.n(),
        traced(t, queued, Seq::empty(), values, v0, q0),
        values[slot] == v0[slot],
        forall|s: int|
            0 <= s < t.n() ==> #[trigger] flag(after, s) == (flag(queued, s) || (values[slot] != value && t.reads(
                s,
                slot,
            ))),
    ensures
        traced(t, after, Seq::empty(), values.update(slot, value), v0, q0),
{
    let now = values.update(slot, value);
    let none = Seq::<u32>::empty();
    assert forall|s: int| 0 <= s < t.n() implies (#[trigger] flag(after, s) || none.contains(s as u32)) == (flag(
        q0,
        s,
    ) || moved(t, v0, now, s)) by {
        assert((flag(queued, s) || none.contains(s as u32)) == (flag(q0, s) || moved(t, v0, values, s)));
        lemma_moved(t, v0, values, slot, value, s);
    }
    assert forall|s: int| t.gate_start <= s < t.n() && #[trigger] now[s] != v0[s] implies none.contains(s as u32) by {
        assert(values[s] != v0[s]);
    }
}

/// What a write moves.
proof fn lemma_moved(t: Compiled, v0: Seq<u8>, values: Seq<u8>, slot: int, value: u8, s: int)
    requires
        t.wf(),
        values.len() == t.n(),
        0 <= slot < t.n(),
        values[slot] == v0[slot],
    ensures
        moved(t, v0, values.update(slot, value), s) == (moved(t, v0, values, s) || (values[slot] != value && t.reads(
            s,
            slot,
        ))),
{
    let now = values.update(slot, value);
    if moved(t, v0, values, s) {
        let x = choose|x: int| #[trigger] t.reads(s, x) && values[x] != v0[x];
        assert(t.gate_ok(s));
        assert(t.reads(s, x) && now[x] != v0[x]);
    }
    if values[slot] != value && t.reads(s, slot) {
        assert(now[slot] != v0[slot]);
    }
    if moved(t, v0, now, s) {
        let x = choose|x: int| #[trigger] t.reads(s, x) && now[x] != v0[x];
        assert(t.gate_ok(s));
        if x != slot {
            assert(now[x] == values[x]);
            assert(t.reads(s, x) && values[x] != v0[x]);
        }
    }
}

/// Evaluating a waiting gate keeps the trace.
proof fn lemma_gate_traced(
    t: Compiled,
    slot: u32,
    value: u8,
    queued: Seq<u64>,
    after: Seq<u64>,
    visited: Seq<u32>,
    values: Seq<u8>,
    v0: Seq<u8>,
    q0: Seq<u64>,
)
    requires
        t.wf(),
        values.len() == t.n(),
        t.gate_start <= slot < t.n(),
        traced(t, queued, visited, values, v0, q0),
        visited_upto(t, visited, t.slot_level@[slot as int] as int),
        flag(queued, slot as int),
        forall|s: int|
            0 <= s < t.n() ==> #[trigger] flag(after, s) == (s != slot && (flag(queued, s) || (values[slot as int]
                != value && t.reads(s, slot as int)))),
    ensures
        traced(t, after, visited.push(slot), values.update(slot as int, value), v0, q0),
        visited_upto(t, visited.push(slot), t.slot_level@[slot as int] as int),
{
    let now = values.update(slot as int, value);
    let seen = visited.push(slot);
    assert(!visited.contains(slot));
    assert(values[slot as int] == v0[slot as int]);
    assert forall|s: u32| #[trigger] seen.contains(s) <==> s == slot || visited.contains(s) by {
        if visited.contains(s) {
            let p = choose|p: int| 0 <= p < visited.len() && visited[p] == s;
            assert(seen[p] == s);
        }
        assert(seen[visited.len() as int] == slot);
        if seen.contains(s) && s != slot {
            let p = choose|p: int| 0 <= p < seen.len() && seen[p] == s;
            assert(visited[p] == s);
        }
    }
    assert forall|s: int| 0 <= s < t.n() implies (#[trigger] flag(after, s) || seen.contains(s as u32)) == (flag(
        q0,
        s,
    ) || moved(t, v0, now, s)) by {
        assert((flag(queued, s) || visited.contains(s as u32)) == (flag(q0, s) || moved(t, v0, values, s)));
        lemma_moved(t, v0, values, slot as int, value, s);
    }
    assert forall|s: int| 0 <= s < t.n() && #[trigger] flag(after, s) implies !seen.contains(s as u32) by {
        if visited.contains(s as u32) {
            assert(!flag(queued, s));
            lemma_reader_above(t, s, slot as int);
        }
    }
    assert forall|s: int| t.gate_start <= s < t.n() && #[trigger] now[s] != v0[s] implies seen.contains(s as u32) by {
        if s != slot {
            assert(values[s] != v0[s]);
        }
    }
}

/// Some slot that gate `s` reads shows something else after than before.
pub open spec fn stirred(before: &EventEngine, after: &EventEngine, s: int) -> bool {
    exists|x: int| #[trigger] before.tape().reads(s, x) && after.shows(x) != before.shows(x)
}

/// Values are bits, so what moved shows.
proof fn lemma_stirred(before: EventEngine, after: EventEngine, s: int)
    requires
        before.sized(),
        after.sized(),
        after.tape == before.tape,
    ensures
        stirred(&before, &after, s) == moved(before.tape(), before.values@, after.values@, s),
{
    let t = shared(before.tape);
    if moved(t, before.values@, after.values@, s) {
        let x = choose|x: int| #[trigger] t.reads(s, x) && after.values@[x] != before.values@[x];
        assert(t.gate_ok(s));
        assert(before.values@[x] <= 1 && after.values@[x] <= 1);
        assert(before.tape().reads(s, x) && after.shows(x) != before.shows(x));
    }
    if stirred(&before, &after, s) {
        let x = choose|x: int| #[trigger] before.tape().reads(s, x) && after.shows(x) != before.shows(x);
        assert(t.reads(s, x) && after.values@[x] != before.values@[x]);
    }
}

impl EventEngine {
    /// What the engine runs.
    pub closed spec fn tape(&self) -> Compiled {
        shared(self.tape)
    }

    /// What slot `s` shows.
    pub closed spec fn shows(&self, s: int) -> bool {
        self.values@[s] != 0
    }

    /// Gate `s` will be evaluated during the next tick.
    pub closed spec fn awaits(&self, s: int) -> bool {
        flag(self.queued@, s)
    }

    /// The gates evaluated during the last tick, in order.
    pub closed spec fn visited(&self) -> Seq<u32> {
        self.visited@
    }

    /// The arrays have the sizes the tape asks for.
    pub closed spec fn sized(&self) -> bool {
        &&& arrays_ok(shared(self.tape), self.values@, self.reg_scratch@)
        &&& 64 * self.queued@.len() >= self.tape.n()
        &&& forall|s: int|
            0 <= s < self.tape.n() ==> #[trigger] self.tape.slot_level@[s] < self.buckets@.len()
    }

    /// A gate is flagged exactly while it waits, and every bucket holds
    /// gates of its own level only.
    spec fn queue_ok(&self, extra: Seq<u32>) -> bool {
        &&& forall|s: int|
            0 <= s < self.tape.n() ==> (#[trigger] flag(self.queued@, s) <==> self.tape.gate_start <= s
                && waiting(shared(self.tape), self.buckets@, extra, s))
        &&& forall|l: int, s: u32|
            0 <= l < self.buckets@.len() && #[trigger] self.buckets@[l]@.contains(s)
                ==> self.tape.gate_start <= s < self.tape.n() && self.tape.slot_level@[s as int] == l
        &&& forall|l: int| 0 <= l < self.buckets@.len() ==> (#[trigger] self.buckets@[l])@.no_duplicates()
    }

    /// Every gate that is not flagged is consistent.
    spec fn clean(&self) -> bool {
        forall|s: int|
            self.tape.gate_start <= s < self.tape.n() && !#[trigger] flag(self.queued@, s)
                ==> consistent(shared(self.tape), self.values@, s)
    }

    /// The tick that started from values `v0` and flags `q0` has evaluated
    /// what it had to, up to `level`.
    spec fn on_track(&self, v0: Seq<u8>, q0: Seq<u64>, level: int) -> bool {
        &&& traced(shared(self.tape), self.queued@, self.visited@, self.values@, v0, q0)
        &&& visited_upto(shared(self.tape), self.visited@, level)
    }

    /// Everything but the worklists is unchanged.
    spec fn same_values(&self, before: &Self) -> bool {
        &&& self.tape == before.tape
        &&& self.values@ == before.values@
        &&& self.reg_scratch@ == before.reg_scratch@
        &&& self.visited == before.visited
    }

    pub fn new(circuit: &Circuit) -> (e: Self)
        requires
            circuit.wf(),
        ensures
            e.inv(),
            same_machine(e.machine().net, circuit.net()),
            e.machine() == Machine::power_on(e.machine().net),
            forall|s: int| e.tape().gate_start <= s < e.tape().n() ==> #[trigger] e.awaits(s),
    {
        Self::with_tape(Arc::new(Compiled::new(circuit)))
    }

    pub fn with_tape(tape: Arc<Compiled>) -> (e: Self)
        requires
            tape.wf(),
        ensures
            e.inv(),
            e.machine() == Machine::power_on(tape.net()),
            e.tape() == shared(tape),
            forall|s: int| e.tape().gate_start <= s < e.tape().n() ==> #[trigger] e.awaits(s),
    {
        let n: usize = tape.slot_count();
        let mut max_level: u32 = 0;
        let level_count: usize = tape.levels.len();
        for s in 0..n
            invariant
                level_count == tape.levels@.len(),
                level_count > 0,
                max_level < level_count,
                n == tape.n(),
                tape.wf(),
                forall|t: int| 0 <= t < s ==> #[trigger] tape.slot_level@[t] <= max_level,
        {
            proof {
                if s >= tape.gate_start {
                    assert(tape.gate_ok(s as int));
                }
            }
            if tape.slot_level[s] > max_level {
                max_level = tape.slot_level[s];
            }
        }
        let mut buckets: Vec<Vec<u32>> = Vec::new();
        for l in 0..max_level as usize + 1
            invariant
                buckets@.len() == l,
        {
            buckets.push(Vec::new());
        }
        let words: usize = n / 64 + 1;
        let mut queued: Vec<u64> = Vec::new();
        for w in 0..words
            invariant
                queued@.len() == w,
        {
            queued.push(0);
        }
        let reg_scratch = copy_bytes(&tape.reg_initial);
        let values = tape.initial_values();
        proof {
            lemma_power_on(shared(tape), values@, reg_scratch@);
        }
        let mut engine = Self { tape, values, reg_scratch, buckets, queued, visited: Ghost(Seq::empty()) };
        engine.restart();
        engine
    }

    /// Restore power-on state: constants, register initials, inputs low.
    pub(crate) fn reset(&mut self)
        requires
            old(self).inv(),
        ensures
            final(self).inv(),
            final(self).machine() == Machine::power_on(old(self).machine().net),
            final(self).tape() == old(self).tape(),
            forall|s: int|
                final(self).tape().gate_start <= s < final(self).tape().n() ==> #[trigger] final(self).awaits(s),
    {
        self.restart();
    }

    fn restart(&mut self)
        requires
            old(self).sized(),
        ensures
            final(self).inv(),
            final(self).machine() == Machine::power_on(old(self).machine().net),
            final(self).tape() == old(self).tape(),
            forall|s: int|
                final(self).tape().gate_start <= s < final(self).tape().n() ==> #[trigger] final(self).awaits(s),
    {
        self.values = self.tape.initial_values();
        self.reg_scratch = copy_bytes(&self.tape.reg_initial);
        proof {
            lemma_power_on(shared(self.tape), self.values@, self.reg_scratch@);
        }
        let words: usize = self.queued.len();
        for w in 0..words
            invariant
                words == self.queued@.len(),
                self.sized(),
                self.tape == old(self).tape,
                self.machine() == Machine::power_on(old(self).machine().net),
                forall|x: int| 0 <= x < w ==> #[trigger] self.queued@[x] == 0,
        {
            self.queued.set(w, 0);
        }
        let levels: usize = self.buckets.len();
        for l in 0..levels
            invariant
                levels == self.buckets@.len(),
                self.sized(),
                self.tape == old(self).tape,
                self.machine() == Machine::power_on(old(self).machine().net),
                forall|x: int| 0 <= x < self.queued@.len() ==> #[trigger] self.queued@[x] == 0,
                forall|x: int| 0 <= x < l ==> (#[trigger] self.buckets@[x])@ == Seq::<u32>::empty(),
        {
            self.buckets[l].clear();
        }
        // The value buffer is all-zero apart from sources; gate slots have
        // never been evaluated. Seed every gate once so the first tick
        // settles the whole circuit.
        let first: u32 = self.tape.gate_start;
        let count: u32 = self.tape.slot_count() as u32;
        proof {
            assert forall|s: int| 0 <= s < self.tape.n() implies !#[trigger] flag(self.queued@, s) by {
                lemma_word_bits(0, 0, (s % 64) as u64);
            }
            assert(self.queue_ok(Seq::empty()));
        }
        for slot in first..count
            invariant
                first == self.tape.gate_start,
                count == self.tape.n(),
                self.sized(),
                self.tape == old(self).tape,
                self.queue_ok(Seq::empty()),
                self.machine() == Machine::power_on(old(self).machine().net),
                forall|s: int| first <= s < slot ==> #[trigger] flag(self.queued@, s),
        {
            self.enqueue(slot, Ghost(Seq::empty()));
        }
    }

    /// Queue a gate unless it is queued already. `extra` are the gates of
    /// the bucket being drained.
    fn enqueue(&mut self, slot: u32, extra: Ghost<Seq<u32>>)
        requires
            old(self).sized(),
            old(self).queue_ok(extra@),
            old(self).tape.gate_start <= slot < old(self).tape.n(),
        ensures
            final(self).sized(),
            final(self).queue_ok(extra@),
            final(self).same_values(old(self)),
            final(self).buckets@.len() == old(self).buckets@.len(),
            forall|s: int|
                0 <= s < final(self).tape.n() ==> #[trigger] flag(final(self).queued@, s) == (s == slot || flag(
                    old(self).queued@,
                    s,
                )),
            forall|l: int|
                0 <= l < old(self).buckets@.len() && l != old(self).tape.slot_level@[slot as int]
                    ==> #[trigger] final(self).buckets@[l] == old(self).buckets@[l],
    {
        let word: usize = slot as usize / 64;
        let shift: usize = slot as usize % 64;
        let ghost q0 = self.queued@;
        let ghost b0 = self.buckets@;
        proof {
            lemma_flags(q0, slot as int);
            lemma_word_bits(q0[word as int], 0, shift as u64);
        }
        if (self.queued[word] >> (shift as u64)) & 1 == 0 {
            self.queued.set(word, self.queued[word] | (1u64 << (shift as u64)));
            let level: usize = self.tape.slot_level[slot as usize] as usize;
            self.buckets[level].push(slot);
            proof {
                let t = shared(self.tape);
                let grown = b0[level as int]@.push(slot);
                assert(self.buckets@[level as int]@ == grown);
                assert forall|s: u32| grown.contains(s) <==> s == slot || b0[level as int]@.contains(s) by {
                    if b0[level as int]@.contains(s) {
                        let p = choose|p: int| 0 <= p < b0[level as int]@.len() && b0[level as int]@[p] == s;
                        assert(grown[p] == s);
                    }
                    if s == slot {
                        assert(grown[b0[level as int]@.len() as int] == s);
                    }
                }
                assert forall|s: int| 0 <= s < t.n() implies (#[trigger] flag(self.queued@, s) <==> t.gate_start <= s
                    && waiting(t, self.buckets@, extra@, s)) by {
                    assert(flag(q0, s) <==> t.gate_start <= s && waiting(t, b0, extra@, s));
                }
                assert forall|l: int, s: u32|
                    0 <= l < self.buckets@.len() && #[trigger] self.buckets@[l]@.contains(s) implies t.gate_start
                    <= s < t.n() && t.slot_level@[s as int] == l by {
                    assert(s == slot && l == level || b0[l]@.contains(s));
                }
                assert(!b0[level as int]@.contains(slot)) by {
                    if b0[level as int]@.contains(slot) {
                        assert(waiting(t, b0, extra@, slot as int));
                        assert(flag(q0, slot as int));
                    }
                }
                assert forall|l: int| 0 <= l < self.buckets@.len() implies (
                #[trigger] self.buckets@[l])@.no_duplicates() by {
                    assert(b0[l]@.no_duplicates());
                }
            }
        }
    }

    /// Queue every gate that reads `slot`.
    fn enqueue_readers(&mut self, slot: u32, extra: Ghost<Seq<u32>>)
        requires
            old(self).sized(),
            old(self).queue_ok(extra@),
            slot < old(self).tape.n(),
        ensures
            final(self).sized(),
            final(self).queue_ok(extra@),
            final(self).same_values(old(self)),
            final(self).buckets@.len() == old(self).buckets@.len(),
            forall|s: int|
                0 <= s < final(self).tape.n() ==> #[trigger] flag(final(self).queued@, s) == (
                final(self).tape.reads(s, slot as int) || flag(old(self).queued@, s)),
            forall|l: int|
                0 <= l <= old(self).tape.slot_level@[slot as int] && l < old(self).buckets@.len()
                    ==> #[trigger] final(self).buckets@[l] == old(self).buckets@[l],
    {
        let lo: usize = self.tape.succ_offsets[slot as usize] as usize;
        let hi: usize = self.tape.succ_offsets[slot as usize + 1] as usize;
        let ghost succ = self.tape.succ_of(slot as int);
        let ghost t = shared(self.tape);
        for i in lo..hi
            invariant
                t == shared(self.tape),
                t.wf(),
                slot < t.n(),
                succ == t.succ_of(slot as int),
                lo == t.succ_offsets@[slot as int],
                hi == t.succ_offsets@[slot + 1],
                hi <= t.succ@.len(),
                self.sized(),
                self.queue_ok(extra@),
                self.same_values(&*old(self)),
                self.buckets@.len() == old(self).buckets@.len(),
                forall|s: int|
                    0 <= s < t.n() ==> #[trigger] flag(self.queued@, s) == (succ.take(i - lo).contains(s as u32)
                        || flag(old(self).queued@, s)),
                forall|l: int|
                    0 <= l <= t.slot_level@[slot as int] && l < old(self).buckets@.len()
                        ==> #[trigger] self.buckets@[l] == old(self).buckets@[l],
        {
            let ghost before = *self;
            let gate: u32 = self.tape.succ[i];
            proof {
                assert(succ[i - lo] == gate);
                assert(succ.contains(gate));
                assert(t.reads(gate as int, slot as int));
                lemma_reader_above(t, gate as int, slot as int);
            }
            self.enqueue(gate, extra);
            proof {
                let (s0, s1) = (succ.take(i - lo), succ.take(i - lo + 1));
                assert(s1 =~= s0.push(gate));
                assert forall|s: int| 0 <= s < t.n() implies #[trigger] flag(self.queued@, s) == (s1.contains(
                    s as u32,
                ) || flag(old(self).queued@, s)) by {
                    assert(flag(before.queued@, s) == (s0.contains(s as u32) || flag(old(self).queued@, s)));
                    if s0.contains(s as u32) {
                        let p = choose|p: int| 0 <= p < s0.len() && s0[p] == s as u32;
                        assert(s1[p] == s as u32);
                    }
                    assert(s1[i - lo] == gate);
                    if s1.contains(s as u32) && s != gate {
                        let p = choose|p: int| 0 <= p < s1.len() && s1[p] == s as u32;
                        assert(s0[p] == s as u32);
                    }
                }
                assert forall|l: int| 0 <= l <= t.slot_level@[slot as int] && l < old(self).buckets@.len() implies #[trigger] self.buckets@[l]
                    == old(self).buckets@[l] by {
                    assert(before.buckets@[l] == old(self).buckets@[l]);
                }
            }
        }
        proof {
            assert(succ.take(hi - lo) =~= succ);
            assert forall|s: int| 0 <= s < t.n() implies #[trigger] flag(self.queued@, s) == (t.reads(
                s,
                slot as int,
            ) || flag(old(self).queued@, s)) by {
                assert(succ.contains(s as u32) <==> t.reads(s, slot as int));
            }
        }
    }

    /// Write a slot; if the value changed, make dependents dirty.
    fn write(&mut self, slot: u32, value: u8, extra: Ghost<Seq<u32>>)
        requires
            old(self).sized(),
            old(self).queue_ok(extra@),
            old(self).clean(),
            slot < old(self).tape.n(),
            value <= 1,
            slot < old(self).tape.gate_start ==> !(old(self).tape.sources@[slot as int] is Const),
            slot >= old(self).tape.gate_start ==> flag(old(self).queued@, slot as int) || value
                == old(self).values@[slot as int],
        ensures
            final(self).sized(),
            final(self).queue_ok(extra@),
            final(self).clean(),
            final(self).tape == old(self).tape,
            final(self).values@ == old(self).values@.update(slot as int, value),
            final(self).reg_scratch@ == old(self).reg_scratch@,
            final(self).visited == old(self).visited,
            final(self).buckets@.len() == old(self).buckets@.len(),
            forall|s: int|
                0 <= s < final(self).tape.n() ==> #[trigger] flag(final(self).queued@, s) == (flag(
                    old(self).queued@,
                    s,
                ) || (old(self).values@[slot as int] != value && old(self).tape.reads(s, slot as int))),
            forall|s: int|
                0 <= s < final(self).tape.n() && old(self).tape.slot_level@[s]
                    <= old(self).tape.slot_level@[slot as int] ==> #[trigger] flag(final(self).queued@, s)
                    == flag(old(self).queued@, s),
            forall|l: int|
                0 <= l <= old(self).tape.slot_level@[slot as int] && l < old(self).buckets@.len()
                    ==> #[trigger] final(self).buckets@[l] == old(self).buckets@[l],
    {
        if self.values[slot as usize] != value {
            let ghost t = shared(self.tape);
            self.values.set(slot as usize, value);
            self.enqueue_readers(slot, extra);
            proof {
                assert forall|s: int| t.gate_start <= s < t.n() && !#[trigger] flag(self.queued@, s) implies consistent(
                    t,
                    self.values@,
                    s,
                ) by {
                    assert(!t.reads(s, slot as int));
                    assert(!flag(old(self).queued@, s));
                    assert(s != slot);
                    assert(t.gate_ok(s));
                    lemma_not_reading(t, s, slot as int);
                }
                assert forall|s: int| 0 <= s < t.n() && t.slot_level@[s] <= t.slot_level@[slot as int] implies #[trigger] flag(
                    self.queued@,
                    s,
                ) == flag(old(self).queued@, s) by {
                    if t.reads(s, slot as int) {
                        lemma_reader_above(t, s, slot as int);
                    }
                }
            }
        } else {
            assert(self.values@.update(slot as int, value) =~= self.values@);
        }
    }

    /// Evaluate a gate, and note that it was.
    fn eval_gate(&mut self, slot: usize) -> (v: u8)
        requires
            old(self).sized(),
            old(self).tape.gate_start <= slot < old(self).tape.n(),
        ensures
            *final(self) == (EventEngine {
                visited: Ghost(old(self).visited@.push(slot as u32)),
                ..*old(self)
            }),
            v <= 1,
            v == gate_byte(
                old(self).tape.ops@[slot as int],
                old(self).values@[old(self).tape.a@[slot as int] as int],
                old(self).values@[old(self).tape.b@[slot as int] as int],
                old(self).values@[old(self).tape.c@[slot as int] as int],
            ),
    {
        self.visited = Ghost(self.visited@.push(slot as u32));
        let t = &self.tape;
        assert(t.gate_ok(slot as int));
        let a: u8 = self.values[t.a[slot] as usize];
        let op = t.ops[slot];
        let b: u8 = if arity(op) > 1 {
            self.values[t.b[slot] as usize]
        } else {
            0
        };
        let c: u8 = if arity(op) > 2 {
            self.values[t.c[slot] as usize]
        } else {
            0
        };
        gate_bits(op, a, b, c)
    }

    /// Drain the bucket of one level: its gates are settled, and only gates
    /// of higher levels are queued by it.
    fn settle_level(&mut self, level: usize, v0: Ghost<Seq<u8>>, q0: Ghost<Seq<u64>>)
        requires
            old(self).sized(),
            old(self).queue_ok(Seq::empty()),
            old(self).clean(),
            old(self).on_track(v0@, q0@, level - 1),
            level < old(self).buckets@.len(),
            forall|s: int|
                0 <= s < old(self).tape.n() && old(self).tape.slot_level@[s] < level ==> !#[trigger] flag(
                    old(self).queued@,
                    s,
                ),
        ensures
            final(self).sized(),
            final(self).queue_ok(Seq::empty()),
            final(self).clean(),
            final(self).on_track(v0@, q0@, level as int),
            final(self).tape == old(self).tape,
            final(self).reg_scratch@ == old(self).reg_scratch@,
            final(self).buckets@.len() == old(self).buckets@.len(),
            forall|s: int|
                0 <= s < old(self).tape.gate_start ==> #[trigger] final(self).values@[s] == old(self).values@[s],
            forall|s: int|
                0 <= s < old(self).tape.n() && old(self).tape.slot_level@[s] <= level ==> !#[trigger] flag(
                    final(self).queued@,
                    s,
                ),
    {
        let ghost t = shared(self.tape);
        let mut bucket: Vec<u32> = Vec::new();
        std::mem::swap(&mut bucket, &mut self.buckets[level]);
        let ghost todo = bucket@;
        proof {
            assert(old(self).buckets@[level as int]@.no_duplicates());
            assert forall|l: int| 0 <= l < self.buckets@.len() implies (
            #[trigger] self.buckets@[l])@.no_duplicates() by {
                assert(old(self).buckets@[l]@.no_duplicates());
            }
            assert(self.buckets@[level as int]@ == Seq::<u32>::empty());
            assert(todo.skip(0) =~= todo);
            assert forall|s: int| 0 <= s < t.n() implies (#[trigger] flag(self.queued@, s) <==> t.gate_start <= s
                && waiting(t, self.buckets@, todo.skip(0), s)) by {
                assert(flag(old(self).queued@, s) <==> t.gate_start <= s && waiting(
                    t,
                    old(self).buckets@,
                    Seq::empty(),
                    s,
                ));
                if todo.contains(s as u32) {
                    assert(old(self).buckets@[level as int]@.contains(s as u32));
                }
            }
            assert forall|l: int, s: u32|
                0 <= l < self.buckets@.len() && #[trigger] self.buckets@[l]@.contains(s) implies t.gate_start <= s
                < t.n() && t.slot_level@[s as int] == l by {
                assert(old(self).buckets@[l]@.contains(s));
            }
            assert forall|j: int| 0 <= j < todo.len() implies t.gate_start <= #[trigger] todo[j] < t.n()
                && t.slot_level@[todo[j] as int] == level by {
                assert(old(self).buckets@[level as int]@.contains(todo[j]));
            }
        }
        for j in 0..bucket.len()
            invariant
                todo == bucket@,
                todo.no_duplicates(),
                t == shared(self.tape),
                self.tape == old(self).tape,
                level < self.buckets@.len(),
                self.buckets@.len() == old(self).buckets@.len(),
                self.sized(),
                self.queue_ok(todo.skip(j as int)),
                self.clean(),
                self.on_track(v0@, q0@, level as int),
                self.buckets@[level as int]@ == Seq::<u32>::empty(),
                self.reg_scratch@ == old(self).reg_scratch@,
                forall|s: int|
                    0 <= s < t.gate_start ==> #[trigger] self.values@[s] == old(self).values@[s],
                forall|i: int|
                    0 <= i < todo.len() ==> t.gate_start <= #[trigger] todo[i] < t.n()
                        && t.slot_level@[todo[i] as int] == level,
                forall|s: int|
                    0 <= s < t.n() && t.slot_level@[s] < level ==> !#[trigger] flag(self.queued@, s),
        {
            let slot: u32 = bucket[j];
            let ghost start = *self;
            let value: u8 = self.eval_gate(slot as usize);
            let ghost rest = todo.skip(j as int);
            assert(rest[0] == slot);
            assert(flag(self.queued@, slot as int)) by {
                assert(rest.contains(slot));
                assert(waiting(t, self.buckets@, rest, slot as int));
            }
            proof {
                assert(t.gate_ok(slot as int));
            }
            self.write(slot, value, Ghost(rest));
            let ghost mid = *self;
            let word: usize = slot as usize / 64;
            let shift: usize = slot as usize % 64;
            proof {
                lemma_flags(self.queued@, slot as int);
            }
            self.queued.set(word, self.queued[word] & !(1u64 << (shift as u64)));
            proof {
                assert forall|s: int| t.gate_start <= s < t.n() && !#[trigger] flag(self.queued@, s) implies consistent(
                    t,
                    self.values@,
                    s,
                ) by {
                    if s != slot {
                        assert(!flag(mid.queued@, s));
                    }
                }
                let left = todo.skip(j + 1);
                assert forall|p: int| 0 <= p < left.len() implies #[trigger] left[p] != slot by {
                    assert(left[p] == todo[p + j + 1]);
                }
                lemma_drop_waiting(*self, mid, rest, slot, todo, j as int);
                lemma_gate_traced(
                    t,
                    slot,
                    value,
                    start.queued@,
                    self.queued@,
                    start.visited@,
                    start.values@,
                    v0@,
                    q0@,
                );
            }
        }
        proof {
            assert(todo.skip(todo.len() as int) =~= Seq::<u32>::empty());
            assert forall|s: int| 0 <= s < t.n() && t.slot_level@[s] <= level implies !#[trigger] flag(
                self.queued@,
                s,
            ) by {
                if t.slot_level@[s] == level {
                    assert(!self.buckets@[level as int]@.contains(s as u32));
                }
            }
        }
        // Hand the allocation back so steady-state ticks never allocate.
        bucket.clear();
        let ghost last = *self;
        self.buckets.set(level, bucket);
        proof {
            assert forall|l: int| 0 <= l < self.buckets@.len() implies (#[trigger] self.buckets@[l])@
                == last.buckets@[l]@ by {}
            assert forall|s: int| 0 <= s < t.n() implies (#[trigger] flag(self.queued@, s) <==> t.gate_start <= s
                && waiting(t, self.buckets@, Seq::empty(), s)) by {
                assert(flag(last.queued@, s) <==> t.gate_start <= s && waiting(
                    t,
                    last.buckets@,
                    Seq::empty(),
                    s,
                ));
                assert(self.buckets@[t.slot_level@[s] as int]@ == last.buckets@[t.slot_level@[s] as int]@);
            }
        }
    }
}

/// Taking `slot` off the front of the drained bucket and clearing its flag
/// keeps flags and worklists in step.
proof fn lemma_drop_waiting(
    after: EventEngine,
    mid: EventEngine,
    rest: Seq<u32>,
    slot: u32,
    todo: Seq<u32>,
    j: int,
)
    requires
        mid.sized(),
        mid.queue_ok(rest),
        0 <= j < todo.len(),
        rest == todo.skip(j),
        todo[j] == slot,
        after.tape == mid.tape,
        after.buckets@ == mid.buckets@,
        mid.tape.gate_start <= slot < mid.tape.n(),
        mid.buckets@[mid.tape.slot_level@[slot as int] as int]@ == Seq::<u32>::empty(),
        !todo.skip(j + 1).contains(slot),
        forall|s: int|
            0 <= s < mid.tape.n() ==> #[trigger] flag(after.queued@, s) == (s != slot && flag(mid.queued@, s)),
    ensures
        after.queue_ok(todo.skip(j + 1)),
{
    let t = shared(mid.tape);
    let next = todo.skip(j + 1);
    assert forall|s: int| 0 <= s < t.n() implies (#[trigger] flag(after.queued@, s) <==> t.gate_start <= s
        && waiting(t, after.buckets@, next, s)) by {
        assert(flag(mid.queued@, s) <==> t.gate_start <= s && waiting(t, mid.buckets@, rest, s));
        if rest.contains(s as u32) && s != slot {
            let p = choose|p: int| 0 <= p < rest.len() && rest[p] == s as u32;
            assert(p > 0) by {
                assert(rest[0] == slot);
            }
            assert(next[p - 1] == s as u32);
        }
        if next.contains(s as u32) {
            let p = choose|p: int| 0 <= p < next.len() && next[p] == s as u32;
            assert(rest[p + 1] == s as u32);
        }
    }
}

/// A gate reads lower levels only.
proof fn lemma_reader_above(t: Compiled, s: int, x: int)
    requires
        t.wf(),
        t.reads(s, x),
    ensures
        t.slot_level@[x] < t.slot_level@[s],
{
    assert(t.gate_ok(s));
}

/// A gate that does not read `x` has its operands elsewhere.
proof fn lemma_not_reading(t: Compiled, s: int, x: int)
    requires
        t.wf(),
        t.gate_start <= s < t.n(),
        !t.reads(s, x),
    ensures
        t.a@[s] != x,
        t.b@[s] != x,
        t.c@[s] != x,
{
    assert(t.gate_ok(s));
    let ins = crate::compile::operands(t.ops@[s], t.a@[s] as int, t.b@[s] as int, t.c@[s] as int);
    assert(ins[0] == t.a@[s]);
    if gate_arity(t.ops@[s]) >= 2 {
        assert(ins[1] == t.b@[s]);
    }
    if gate_arity(t.ops@[s]) >= 3 {
        assert(ins[2] == t.c@[s]);
    }
}

/// Where every gate is consistent and the sources are settled, all is.
proof fn lemma_all_settled(t: Compiled, m: Machine, values: Seq<u8>, s: int)
    requires
        t.wf(),
        values.len() == t.n(),
        settled_upto(t, values, m.env(), t.gate_start as int),
        forall|g: int| t.gate_start <= g < t.n() ==> #[trigger] consistent(t, values, g),
        t.gate_start <= s <= t.n(),
    ensures
        settled_upto(t, values, m.env(), s),
    decreases s,
{
    if s > t.gate_start {
        lemma_all_settled(t, m, values, s - 1);
        lemma_gate_slot(t, m.env(), s - 1);
        assert(consistent(t, values, s - 1));
        let (a, b, c) = (t.a@[s - 1] as int, t.b@[s - 1] as int, t.c@[s - 1] as int);
        assert(values[a] == bit(t.value(m.env(), a)));
        assert(values[b] == bit(t.value(m.env(), b)));
        assert(values[c] == bit(t.value(m.env(), c)));
    }
}

impl Engine for EventEngine {
    closed spec fn inv(&self) -> bool {
        &&& self.sized()
        &&& self.queue_ok(Seq::empty())
        &&& self.clean()
    }

    closed spec fn machine(&self) -> Machine {
        machine_of(shared(self.tape), self.values@, self.reg_scratch@)
    }

    fn name(&self) -> (name: &'static str)
        ensures
            name@ == "event"@,
    {
        "event"
    }

    fn input_count(&self) -> (n: usize) {
        self.tape.input_count()
    }

    fn output_count(&self) -> (n: usize) {
        self.tape.output_count()
    }

    /// Only the gates that read the input are woken, and only if it changes.
    fn set_input(&mut self, index: usize, value: bool)
        ensures
            final(self).tape() == old(self).tape(),
            forall|s: int|
                0 <= s < old(self).tape().n() ==> #[trigger] final(self).awaits(s) == (old(self).awaits(s) || (
                old(self).machine().inputs[index as int] != value && old(self).tape().reads(
                    s,
                    old(self).tape().input_slots@[index as int] as int,
                ))),
    {
        proof {
            lemma_set_input(shared(self.tape), self.values@, self.reg_scratch@, index as int, value);
            assert(self.tape.input_slots@[index as int] < self.tape.gate_start);
        }
        let slot: u32 = self.tape.input_slots[index];
        self.write(slot, if value { 1 } else { 0 }, Ghost(Seq::empty()));
    }

    fn output(&self, index: usize) -> (value: bool) {
        self.values[self.tape.output_slots[index] as usize] != 0
    }

    /// Evaluates the gates that were waiting and those of which an operand
    /// changes during the tick, each of them once, and no others.
    fn tick(&mut self)
        ensures
            final(self).tape() == old(self).tape(),
            final(self).visited().no_duplicates(),
            forall|s: int|
                0 <= s < old(self).tape().n() ==> (#[trigger] final(self).visited().contains(s as u32) <==> old(
                    self,
                ).awaits(s) || stirred(&*old(self), &*final(self), s)),
            forall|s: int| 0 <= s < old(self).tape().n() ==> !#[trigger] final(self).awaits(s),
    {
        let ghost m = self.machine();
        let ghost t = shared(self.tape);
        let ghost v0 = self.values@;
        let ghost q0 = self.queued@;
        self.visited = Ghost(Seq::empty());
        proof {
            assert forall|s: int| 0 <= s < t.n() implies !moved(t, v0, v0, s) by {}
        }
        // 1. Apply the clock edge: changed register outputs dirty their cones.
        let count: usize = self.tape.register_count();
        for r in 0..count
            invariant
                self.tape == old(self).tape,
                t == shared(self.tape),
                count == t.reg_out_slots@.len(),
                self.inv(),
                self.reg_scratch@ == old(self).reg_scratch@,
                m == old(self).machine(),
                v0 == old(self).values@,
                q0 == old(self).queued@,
                self.visited@ == Seq::<u32>::empty(),
                traced(t, self.queued@, Seq::empty(), self.values@, v0, q0),
                forall|s: int|
                    0 <= s < t.gate_start && !(t.sources@[s] matches Node::RegOut(j) && j < r)
                        ==> #[trigger] self.values@[s] == v0[s],
                forall|j: int|
                    0 <= j < r && #[trigger] t.reg_out_slots@[j] != DEAD
                        ==> self.values@[t.reg_out_slots@[j] as int] == bit(m.state[j]),
        {
            let slot: u32 = self.tape.reg_out_slots[r];
            if slot != DEAD {
                let next: u8 = self.reg_scratch[r];
                let ghost before = *self;
                assert(t.sources@[slot as int] == Node::RegOut(r as int));
                self.write(slot, next, Ghost(Seq::empty()));
                proof {
                    lemma_source_traced(
                        t,
                        slot as int,
                        next,
                        before.queued@,
                        self.queued@,
                        before.values@,
                        v0,
                        q0,
                    );
                }
                assert forall|j: int| 0 <= j < r + 1 && #[trigger] t.reg_out_slots@[j] != DEAD implies self.values@[t.reg_out_slots@[j] as int]
                    == bit(m.state[j]) by {
                    assert(t.sources@[t.reg_out_slots@[j] as int] == Node::RegOut(j));
                }
            }
        }
        proof {
            assert forall|k: int| 0 <= k < t.input_slots@.len() implies m.inputs[k] == (self.values@[#[trigger] t.input_slots@[k] as int]
                != 0) by {
                assert(t.sources@[t.input_slots@[k] as int] == Node::Input(k));
            }
            lemma_sources_settled(t, m, self.values@);
        }

        // 2. Settle: process dirty gates level by level. A changed gate can
        //    only dirty strictly higher levels, so one ascending sweep is a
        //    complete settle.
        let ghost v1 = self.values@;
        let levels: usize = self.buckets.len();
        for level in 0..levels
            invariant
                levels == self.buckets@.len(),
                t == shared(self.tape),
                self.tape == old(self).tape,
                self.inv(),
                self.reg_scratch@ == old(self).reg_scratch@,
                self.on_track(v0, q0, level - 1),
                forall|s: int| 0 <= s < t.gate_start ==> #[trigger] self.values@[s] == v1[s],
                forall|s: int|
                    0 <= s < t.n() && t.slot_level@[s] < level ==> !#[trigger] flag(self.queued@, s),
        {
            self.settle_level(level, Ghost(v0), Ghost(q0));
        }
        proof {
            assert(settled_upto(t, self.values@, m.env(), t.gate_start as int)) by {
                assert forall|s: int| 0 <= s < t.gate_start implies #[trigger] self.values@[s] == bit(
                    t.value(m.env(), s),
                ) by {
                    assert(v1[s] == bit(t.value(m.env(), s)));
                }
            }
            assert forall|g: int| t.gate_start <= g < t.n() implies #[trigger] consistent(t, self.values@, g) by {
                assert(t.slot_level@[g] < levels);
                assert(!flag(self.queued@, g));
            }
            lemma_all_settled(t, m, self.values@, t.n());
        }

        // 3. Capture next state for the coming edge.
        let ghost mid = *self;
        crate::scalar::capture_next(&self.tape, &self.values, &mut self.reg_scratch);
        proof {
            lemma_ticked(t, m, self.values@, self.reg_scratch@);
            assert forall|s: int| t.gate_start <= s < t.n() && !#[trigger] flag(self.queued@, s) implies consistent(
                t,
                self.values@,
                s,
            ) by {
                assert(!flag(mid.queued@, s));
            }
            assert(self.queue_ok(Seq::empty())) by {
                assert(mid.queue_ok(Seq::empty()));
            }
            assert forall|s: int| 0 <= s < t.n() implies !#[trigger] flag(self.queued@, s) by {
                assert(t.slot_level@[s] < levels);
            }
            assert forall|s: int| 0 <= s < t.n() implies (#[trigger] self.visited().contains(s as u32) <==> old(
                self,
            ).awaits(s) || stirred(&*old(self), &*self, s)) by {
                assert(!flag(self.queued@, s));
                lemma_stirred(*old(self), *self, s);
            }
        }
    }
}

} // verus!
