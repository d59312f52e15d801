//! Level-parallel engine.
//!
//! Gates within one level are independent by construction, so each level's
//! slot range can be evaluated by multiple threads with no synchronization
//! beyond the per-level barrier. Gates of the current level only read slots
//! below the level's start (strictly lower levels) and write their own
//! contiguous range, which `split_at_mut` hands out disjointly.
//!
//! Parallelism pays off only when a level is wide. Narrow levels therefore
//! fall back to the scalar run loop; the width threshold is tunable.
use std::sync::Arc;

use rayon::iter::{IndexedParallelIterator, IntoParallelRefMutIterator, ParallelIterator};
use vstd::prelude::*;

use crate::circuit::Circuit;
use crate::compile::{bit, level_joins, level_ok, same_machine, shared, Compiled};
use crate::engine::{Engine, Machine};
use crate::netlist::Env;
use crate::scalar::{
    apply_edge, arrays_ok, capture_next, copy_bytes, eval_runs, gate_bits, gate_byte,
    lemma_gate_slot, lemma_power_on, lemma_set_input, lemma_ticked, machine_of, settled_upto,
};

verus! {

/// The fewest gates worth handing to another thread.
pub(crate) const MIN_SHARE: usize = 4096;

pub struct ThreadedEngine {
    tape: Arc<Compiled>,
    values: Vec<u8>,
    reg_scratch: Vec<u8>,
    /// Minimum level width before fanning out to rayon.
    parallel_threshold: usize,
}

impl ThreadedEngine {
    pub fn new(circuit: &Circuit) -> (e: Self)
        requires
            circuit.wf(),
        ensures
            e.inv(),
            same_machine(e.machine().net, circuit.net()),
            e.machine() == Machine::power_on(e.machine().net),
            e.threshold() == 32768,
    {
        Self::with_tape(Arc::new(Compiled::new(circuit)))
    }

    pub fn with_tape(tape: Arc<Compiled>) -> (e: Self)
        requires
            tape.wf(),
        ensures
            e.inv(),
            e.machine() == Machine::power_on(tape.net()),
            e.threshold() == 32768,
    {
        let values = tape.initial_values();
        let reg_scratch = copy_bytes(&tape.reg_initial);
        proof {
            lemma_power_on(shared(tape), values@, reg_scratch@);
        }
        Self { tape, values, reg_scratch, parallel_threshold: 32768 }
    }

    /// The width at which a level is evaluated in parallel.
    pub closed spec fn threshold(&self) -> int {
        self.parallel_threshold as int
    }

    /// Tune the width at which a level is worth parallelizing. Levels
    /// narrower than this run on the calling thread.
    pub fn with_threshold(self, threshold: usize) -> (e: Self)
        requires
            self.inv(),
        ensures
            e.inv(),
            e.machine() == self.machine(),
            e.threshold() == if threshold < 1 {
                1
            } else {
                threshold as int
            },
    {
        let parallel_threshold: usize = if threshold < 1 {
            1
        } else {
            threshold
        };
        Self { parallel_threshold, ..self }
    }

    /// Restore power-on state: constants, register initials, inputs low.
    pub(crate) fn reset(&mut self)
        requires
            old(self).inv(),
        ensures
            final(self).inv(),
            final(self).machine() == Machine::power_on(old(self).machine().net),
            final(self).threshold() == old(self).threshold(),
    {
        self.values = self.tape.initial_values();
        self.reg_scratch = copy_bytes(&self.tape.reg_initial);
        proof {
            lemma_power_on(shared(self.tape), self.values@, self.reg_scratch@);
        }
    }
}

/// What every gate of a level evaluates to, over the levels below it.
pub trait Pass: Sync {
    /// What holds the value of a gate.
    type Cell: Send;

    /// Gate `i` of the level can be evaluated.
    spec fn ready(&self, i: int) -> bool;

    /// The value of gate `i` of the level.
    spec fn value(&self, i: int) -> Self::Cell;

    fn eval(&self, i: usize) -> (v: Self::Cell)
        requires
            self.ready(i as int),
        ensures
            v == self.value(i as int),
    ;
}

/// The gates of a level, over the bytes of the levels below.
struct BytePass<'a> {
    tape: &'a Compiled,
    /// Where the level starts; the levels below end there.
    start: usize,
    lower: &'a [u8],
}

impl<'a> Pass for BytePass<'a> {
    type Cell = u8;

    closed spec fn ready(&self, i: int) -> bool {
        let s = self.start + i;
        &&& 0 <= i
        &&& s < self.tape.ops@.len()
        &&& self.tape.a@.len() == self.tape.ops@.len()
        &&& self.tape.b@.len() == self.tape.ops@.len()
        &&& self.tape.c@.len() == self.tape.ops@.len()
        &&& self.tape.a@[s] < self.lower@.len() && self.lower@[self.tape.a@[s] as int] <= 1
        &&& self.tape.b@[s] < self.lower@.len() && self.lower@[self.tape.b@[s] as int] <= 1
        &&& self.tape.c@[s] < self.lower@.len() && self.lower@[self.tape.c@[s] as int] <= 1
    }

    closed spec fn value(&self, i: int) -> u8 {
        gate_byte(
            self.tape.ops@[self.start + i],
            self.lower@[self.tape.a@[self.start + i] as int],
            self.lower@[self.tape.b@[self.start + i] as int],
            self.lower@[self.tape.c@[self.start + i] as int],
        )
    }

    #[inline(always)]
    fn eval(&self, i: usize) -> (v: u8) {
        proof {
            vstd::std_specs::vec::axiom_spec_len(&self.tape.ops);
        }
        let s: usize = self.start + i;
        let a: u8 = self.lower[self.tape.a[s] as usize];
        let b: u8 = self.lower[self.tape.b[s] as usize];
        let c: u8 = self.lower[self.tape.c[s] as usize];
        gate_bits(self.tape.ops[s], a, b, c)
    }
}

/// rayon's `par_iter_mut`, `with_min_len`, `enumerate` and `for_each`: the
/// closure runs once for every element, with the element's index, in some
/// order and on some threads; `share` only bounds how finely the work is
/// split. Each element is written by its own call alone,
/// so afterwards every element holds what its gate evaluates to.
#[verifier::external_body]
pub(crate) fn fill_parallel<P: Pass>(pass: &P, share: usize, current: &mut [P::Cell])
    requires
        forall|k: int| 0 <= k < old(current)@.len() ==> #[trigger] pass.ready(k),
    ensures
        final(current)@.len() == old(current)@.len(),
        forall|k: int|
            0 <= k < final(current)@.len() ==> #[trigger] final(current)@[k] == pass.value(k),
{
    current.par_iter_mut().with_min_len(share).enumerate().for_each(|(k, out)| {
        *out = pass.eval(k);
    });
}

/// Evaluate one level in parallel, everything below it being settled.
fn eval_level(tape: &Compiled, values: &mut Vec<u8>, start: usize, end: usize, l: Ghost<int>, env: Ghost<Env>)
    requires
        tape.wf(),
        old(values)@.len() == tape.n(),
        0 <= l@ < tape.levels@.len(),
        start == tape.levels@[l@].start,
        end == tape.levels@[l@].end,
        tape.gate_start <= start <= end <= tape.n(),
        settled_upto(*tape, old(values)@, env@, start as int),
    ensures
        final(values)@.len() == tape.n(),
        settled_upto(*tape, final(values)@, env@, end as int),
{
    let ghost v0 = values@;
    let width: usize = end - start;
    let (lower, rest) = values.as_mut_slice().split_at_mut(start);
    let (current, _tail) = rest.split_at_mut(width);
    let ghost low = lower@;
    let pass = BytePass { tape, start, lower: &*lower };
    proof {
        assert forall|k: int| 0 <= k < width implies #[trigger] pass.ready(k) by {
            lemma_in_level(*tape, l@, start + k);
            assert(low[tape.a@[start + k] as int] == v0[tape.a@[start + k] as int]);
            assert(low[tape.b@[start + k] as int] == v0[tape.b@[start + k] as int]);
            assert(low[tape.c@[start + k] as int] == v0[tape.c@[start + k] as int]);
        }
    }
    fill_parallel(&pass, MIN_SHARE, current);
    proof {
        assert forall|s: int| 0 <= s < end implies #[trigger] values@[s] == bit(tape.value(env@, s)) by {
            if s < start {
                assert(values@[s] == v0[s]);
            } else {
                lemma_in_level(*tape, l@, s);
                lemma_gate_slot(*tape, env@, s);
                let k = s - start;
                assert(values@[start + k] == pass.value(k));
                assert(low[tape.a@[s] as int] == v0[tape.a@[s] as int]);
                assert(low[tape.b@[s] as int] == v0[tape.b@[s] as int]);
                assert(low[tape.c@[s] as int] == v0[tape.c@[s] as int]);
            }
        }
    }
}

/// A slot between a level's ends belongs to that level.
pub proof fn lemma_in_level(tape: Compiled, l: int, s: int)
    requires
        tape.wf(),
        0 <= l < tape.levels@.len(),
        tape.levels@[l].start <= s < tape.levels@[l].end,
        tape.gate_start <= s < tape.n(),
    ensures
        tape.gate_ok(s),
        tape.slot_level@[s] == l,
{
    assert(tape.gate_ok(s));
    let m = tape.slot_level@[s] as int;
    if m < l {
        lemma_levels_ascend(tape, m, l);
    } else if l < m {
        lemma_levels_ascend(tape, l, m);
    }
}

/// A lower level ends before a higher one starts.
pub proof fn lemma_levels_ascend(tape: Compiled, l: int, m: int)
    requires
        tape.wf(),
        0 <= l < m < tape.levels@.len(),
    ensures
        tape.levels@[l].end <= tape.levels@[m].start,
        tape.levels@[l].start <= tape.levels@[l].end,
        tape.levels@[m].start <= tape.levels@[m].end <= tape.n(),
    decreases m - l,
{
    assert(level_ok(tape.levels@, tape.runs@, tape.n(), l));
    assert(level_ok(tape.levels@, tape.runs@, tape.n(), m));
    assert(level_joins(tape.levels@, m));
    if l + 1 < m {
        lemma_levels_ascend(tape, l, m - 1);
        assert(level_ok(tape.levels@, tape.runs@, tape.n(), m - 1));
    }
    lemma_level_in_tape(tape, m);
}

/// Every level lies among the gates.
pub proof fn lemma_level_in_tape(tape: Compiled, l: int)
    requires
        tape.wf(),
        0 <= l < tape.levels@.len(),
    ensures
        tape.levels@[l].end <= tape.n(),
    decreases tape.levels@.len() - l,
{
    if l + 1 < tape.levels@.len() {
        lemma_level_in_tape(tape, l + 1);
        assert(level_joins(tape.levels@, l + 1));
        assert(level_ok(tape.levels@, tape.runs@, tape.n(), l + 1));
    }
}

impl Engine for ThreadedEngine {
    closed spec fn inv(&self) -> bool {
        arrays_ok(shared(self.tape), self.values@, self.reg_scratch@)
    }

    closed spec fn machine(&self) -> Machine {
        machine_of(shared(self.tape), self.values@, self.reg_scratch@)
    }

    fn name(&self) -> (name: &'static str)
        ensures
            name@ == "threaded"@,
    {
        "threaded"
    }

    fn input_count(&self) -> (n: usize) {
        self.tape.input_count()
    }

    fn output_count(&self) -> (n: usize) {
        self.tape.output_count()
    }

    fn set_input(&mut self, index: usize, value: bool)
        ensures
            final(self).threshold() == old(self).threshold(),
    {
        proof {
            lemma_set_input(shared(self.tape), self.values@, self.reg_scratch@, index as int, value);
        }
        let slot: u32 = self.tape.input_slots[index];
        self.values.set(slot as usize, if value { 1 } else { 0 });
    }

    fn output(&self, index: usize) -> (value: bool) {
        self.values[self.tape.output_slots[index] as usize] != 0
    }

    fn tick(&mut self)
        ensures
            final(self).threshold() == old(self).threshold(),
    {
        let ghost m = self.machine();
        let ghost t = shared(self.tape);
        apply_edge(&self.tape, &mut self.values, &self.reg_scratch);
        let count: usize = self.tape.levels.len();
        for l in 0..count
            invariant
                t == shared(self.tape),
                self.tape == old(self).tape,
                self.parallel_threshold == old(self).parallel_threshold,
                self.reg_scratch == old(self).reg_scratch,
                t.wf(),
                count == t.levels@.len(),
                self.values@.len() == t.n(),
                settled_upto(
                    t,
                    self.values@,
                    m.env(),
                    if l == 0 {
                        t.gate_start as int
                    } else {
                        t.levels@[l - 1].end as int
                    },
                ),
        {
            let level = self.tape.levels[l];
            proof {
                assert(level_ok(t.levels@, t.runs@, t.n(), l as int));
                lemma_level_in_tape(t, l as int);
                if l > 0 {
                    assert(level_joins(t.levels@, l as int));
                    lemma_levels_ascend(t, 0, l as int);
                }
            }
            let width: usize = (level.end - level.start) as usize;
            if width < self.parallel_threshold {
                eval_runs(
                    &self.tape,
                    &mut self.values,
                    level.run_start as usize,
                    level.run_end as usize,
                    Ghost(m.env()),
                );
            } else {
                eval_level(
                    &self.tape,
                    &mut self.values,
                    level.start as usize,
                    level.end as usize,
                    Ghost(l as int),
                    Ghost(m.env()),
                );
            }
        }
        assert(t.levels@.last().end == t.n());
        capture_next(&self.tape, &self.values, &mut self.reg_scratch);
        proof {
            lemma_ticked(t, m, self.values@, self.reg_scratch@);
        }
    }

    fn run(&mut self, ticks: u64)
        ensures
            final(self).threshold() == old(self).threshold(),
    {
        for i in 0..ticks
            invariant
                self.inv(),
                self.machine() == old(self).machine().ran(i as nat),
                self.threshold() == old(self).threshold(),
        {
            self.tick();
        }
    }
}

} // verus!
