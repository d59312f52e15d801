//! Batch engine: 64 independent instances of one circuit, bit-packed into one
//! word per slot.
//!
//! Bit `l` of every word belongs to instance `l`, its lane. One word
//! operation evaluates a gate in all lanes.
use std::sync::Arc;

use vstd::prelude::*;

use crate::circuit::Circuit;
use crate::compile::{bit, level_joins, level_ok, same_machine, shared, Compiled};
use crate::engine::{Engine, Machine};
use crate::gather::{lemma_word_logic, wbit};
use crate::jit::{bools, chunk_start, code_ok, fns_ok, lemma_needed_ticked, ready, result, Ins};
use crate::lanes::{
    capture_lanes, edge_lanes, lane_bools, lane_machine, lane_of, lane_settled, lanes_ok,
    lanes_settled, run_lanes, settle_lanes, settle_level,
};
use crate::scalar::{arrays_ok, bits, lemma_power_on, lemma_set_input, lemma_ticked};
use crate::threaded::{lemma_level_in_tape, lemma_levels_ascend};

verus! {

/// All lanes.
const ALL: u64 = 0xffff_ffff_ffff_ffff;

/// The same bit in every lane.
fn spread(v: bool) -> (w: u64)
    ensures
        forall|l: int| 0 <= l < 64 ==> #[trigger] wbit(w, l) == v,
{
    let w: u64 = if v {
        ALL
    } else {
        0
    };
    assert forall|l: int| 0 <= l < 64 implies #[trigger] wbit(w, l) == v by {
        lemma_word_logic(0, 0, l);
    }
    w
}

/// The same bits in every lane.
fn spread_all(bytes: &Vec<u8>) -> (words: Vec<u64>)
    requires
        bits(bytes@),
    ensures
        words@.len() == bytes@.len(),
        forall|l: int| 0 <= l < 64 ==> #[trigger] lane_of(words@, l) == bytes@,
{
    let mut words: Vec<u64> = Vec::with_capacity(bytes.len());
    for s in 0..bytes.len()
        invariant
            words@.len() == s,
            bits(bytes@),
            forall|l: int, j: int|
                0 <= l < 64 && 0 <= j < s ==> bit(#[trigger] wbit(words@[j], l)) == bytes@[j],
    {
        assert(bytes@[s as int] <= 1);
        words.push(spread(bytes[s] != 0));
    }
    assert forall|l: int| 0 <= l < 64 implies #[trigger] lane_of(words@, l) == bytes@ by {
        assert forall|j: int| 0 <= j < words@.len() implies lane_of(words@, l)[j] == bytes@[j] by {
            assert(bit(wbit(words@[j], l)) == bytes@[j]);
        }
        assert(lane_of(words@, l) =~= bytes@);
    }
    words
}

pub struct BatchEngine {
    tape: Arc<Compiled>,
    values: Vec<u64>,
    next: Vec<u64>,
}

impl BatchEngine {
    /// The instance in lane `l`.
    pub closed spec fn lane(&self, l: int) -> Machine {
        lane_machine(shared(self.tape), self.values@, self.next@, l)
    }

    /// The engine shows what the instance in lane 0 shows.
    pub proof fn lane_zero_is_the_machine(&self)
        ensures
            self.machine() == self.lane(0),
    {
    }

    pub fn new(circuit: &Circuit) -> (e: Self)
        requires
            circuit.wf(),
        ensures
            e.inv(),
            same_machine(e.machine().net, circuit.net()),
            forall|l: int| 0 <= l < 64 ==> #[trigger] e.lane(l) == Machine::power_on(e.machine().net),
    {
        Self::with_tape(Arc::new(Compiled::new(circuit)))
    }

    pub fn with_tape(tape: Arc<Compiled>) -> (e: Self)
        requires
            tape.wf(),
        ensures
            e.inv(),
            e.tape() == shared(tape),
            e.machine().net == tape.net(),
            forall|l: int| 0 <= l < 64 ==> #[trigger] e.lane(l) == Machine::power_on(tape.net()),
    {
        let initial = tape.initial_values();
        proof {
            lemma_power_on(shared(tape), initial@, tape.reg_initial@);
        }
        let values = spread_all(&initial);
        let next = spread_all(&tape.reg_initial);
        let e = Self { tape, values, next };
        assert forall|l: int| 0 <= l < 64 implies #[trigger] arrays_ok(
            shared(tape),
            lane_of(values@, l),
            lane_of(next@, l),
        ) by {
            assert(lane_of(values@, l) == initial@);
            assert(lane_of(next@, l) == tape.reg_initial@);
        }
        e
    }

    /// Set input `index` of every instance: lane `l` takes bit `l`.
    pub fn set_input_mask(&mut self, index: usize, mask: u64)
        requires
            old(self).inv(),
            index < old(self).machine().net.inputs,
        ensures
            final(self).inv(),
            final(self).tape() == old(self).tape(),
            forall|l: int|
                0 <= l < 64 ==> #[trigger] final(self).lane(l) == old(self).lane(l).with_input(
                    index as int,
                    wbit(mask, l),
                ),
    {
        let slot: u32 = self.tape.input_slots[index];
        self.values.set(slot as usize, mask);
        proof {
            assert forall|l: int| 0 <= l < 64 implies #[trigger] arrays_ok(
                shared(self.tape),
                lane_of(self.values@, l),
                lane_of(self.next@, l),
            ) && lane_machine(shared(self.tape), self.values@, self.next@, l) == old(self).lane(
                l,
            ).with_input(index as int, wbit(mask, l)) by {
                assert(arrays_ok(
                    shared(self.tape),
                    lane_of(old(self).values@, l),
                    lane_of(self.next@, l),
                ));
                lemma_set_input(
                    shared(self.tape),
                    lane_of(old(self).values@, l),
                    lane_of(self.next@, l),
                    index as int,
                    wbit(mask, l),
                );
                assert(lane_of(self.values@, l) =~= lane_of(old(self).values@, l).update(
                    slot as int,
                    bit(wbit(mask, l)),
                ));
            }
            assert forall|l: int| 0 <= l < 64 implies #[trigger] self.lane(l) == old(self).lane(
                l,
            ).with_input(index as int, wbit(mask, l)) by {
                assert(arrays_ok(
                    shared(self.tape),
                    lane_of(self.values@, l),
                    lane_of(self.next@, l),
                ));
            }
        }
    }

    /// Output `index` of every instance: bit `l` is lane `l`'s.
    pub fn output_mask(&self, index: usize) -> (mask: u64)
        requires
            self.inv(),
            index < self.machine().net.outs.len(),
        ensures
            forall|l: int|
                0 <= l < 64 ==> #[trigger] wbit(mask, l) == self.lane(l).outs[index as int],
    {
        let mask: u64 = self.values[self.tape.output_slots[index] as usize];
        assert forall|l: int| 0 <= l < 64 implies #[trigger] wbit(mask, l) == self.lane(
            l,
        ).outs[index as int] by {
            let s = shared(self.tape).output_slots@[index as int] as int;
            assert(lane_of(self.values@, l)[s] == bit(wbit(mask, l)));
        }
        mask
    }

    /// The tape behind the instances.
    pub closed spec fn tape(&self) -> Compiled {
        shared(self.tape)
    }

    /// Restore power-on state in all lanes.
    pub(crate) fn reset(&mut self)
        requires
            old(self).inv(),
        ensures
            final(self).inv(),
            final(self).tape() == old(self).tape(),
            final(self).machine().net == old(self).machine().net,
            forall|l: int|
                0 <= l < 64 ==> #[trigger] final(self).lane(l) == Machine::power_on(
                    old(self).machine().net,
                ),
    {
        let initial = self.tape.initial_values();
        proof {
            lemma_power_on(shared(self.tape), initial@, self.tape.reg_initial@);
        }
        self.values = spread_all(&initial);
        self.next = spread_all(&self.tape.reg_initial);
        assert forall|l: int| 0 <= l < 64 implies #[trigger] arrays_ok(
            shared(self.tape),
            lane_of(self.values@, l),
            lane_of(self.next@, l),
        ) by {
            assert(lane_of(self.values@, l) == initial@);
            assert(lane_of(self.next@, l) == self.tape.reg_initial@);
        }
    }

    /// Advance all instances one clock cycle, levels of at least `threshold`
    /// gates on several threads.
    pub(crate) fn tick_levels(&mut self, threshold: usize)
        requires
            old(self).inv(),
        ensures
            final(self).inv(),
            final(self).tape() == old(self).tape(),
            final(self).machine() == old(self).machine().ticked(),
            forall|l: int| 0 <= l < 64 ==> #[trigger] final(self).lane(l) == old(self).lane(l).ticked(),
    {
        let ghost t = shared(self.tape);
        let ghost v0 = self.values@;
        let ghost next = self.next@;
        edge_lanes(&self.tape, &mut self.values, &self.next);
        let count: usize = self.tape.levels.len();
        for l in 0..count
            invariant
                t == shared(self.tape),
                self.tape == old(self).tape,
                self.next == old(self).next,
                self.next@ == next,
                t.wf(),
                count == t.levels@.len(),
                self.values@.len() == t.n(),
                lanes_settled(
                    t,
                    self.values@,
                    v0,
                    next,
                    if l == 0 {
                        t.gate_start as int
                    } else {
                        t.levels@[l - 1].end as int
                    },
                ),
        {
            let level = self.tape.levels[l];
            proof {
                assert(level_ok(t.levels@, t.runs@, t.n(), l as int));
                lemma_level_in_tape(t, l as int);
                if l > 0 {
                    assert(level_joins(t.levels@, l as int));
                    lemma_levels_ascend(t, 0, l as int);
                }
            }
            assert(lanes_settled(t, self.values@, v0, next, level.start as int));
            if ((level.end - level.start) as usize) < threshold {
                settle_lanes(
                    &self.tape,
                    &mut self.values,
                    level.run_start as usize,
                    level.run_end as usize,
                    Ghost(v0),
                    Ghost(next),
                );
            } else {
                settle_level(&self.tape, &mut self.values, l, Ghost(v0), Ghost(next));
            }
            assert(lanes_settled(t, self.values@, v0, next, level.end as int));
        }
        assert(t.levels@.last().end == t.n());
        capture_lanes(&self.tape, &self.values, &mut self.next);
        proof {
            lemma_lanes_ticked(t, v0, next, self.values@, self.next@);
        }
    }

    /// Advance all instances one clock cycle, settling by straight-line code.
    pub(crate) fn tick_code(&mut self, fns: &Vec<Vec<Ins>>)
        requires
            old(self).inv(),
            fns_ok(old(self).tape(), fns@),
        ensures
            final(self).inv(),
            final(self).tape() == old(self).tape(),
            final(self).machine() == old(self).machine().ticked(),
            forall|l: int| 0 <= l < 64 ==> #[trigger] final(self).lane(l) == old(self).lane(l).ticked(),
    {
        let ghost t = shared(self.tape);
        let ghost v0 = self.values@;
        let ghost next = self.next@;
        edge_lanes(&self.tape, &mut self.values, &self.next);
        proof {
            assert(chunk_start(t, 0) == t.gate_start);
            assert forall|l: int| 0 <= l < 64 implies #[trigger] lane_ready(
                t,
                self.values@,
                v0,
                next,
                t.gate_start as int,
                l,
            ) by {
                assert(lane_settled(t, self.values@, v0, next, t.gate_start as int, l));
                let env = lane_machine(t, v0, next, l).env();
                assert forall|x: int| 0 <= x < t.gate_start implies #[trigger] lane_bools(self.values@, l)[x]
                    == t.value(env, x) by {
                    assert(lane_of(self.values@, l)[x] == bit(t.value(env, x)));
                }
            }
        }
        let mut k: usize = 0;
        while k < fns.len()
            invariant
                k <= fns@.len(),
                t == shared(self.tape),
                self.tape == old(self).tape,
                self.next@ == next,
                t.wf(),
                fns_ok(t, fns@),
                self.values@.len() == t.n(),
                forall|l: int|
                    0 <= l < 64 ==> #[trigger] lane_ready(
                        t,
                        self.values@,
                        v0,
                        next,
                        chunk_start(t, k as int),
                        l,
                    ),
            decreases fns@.len() - k,
        {
            let ghost before = self.values@;
            assert(code_ok(fns@[k as int]@, t.n()));
            run_lanes(&fns[k], &mut self.values);
            assert forall|l: int| 0 <= l < 64 implies #[trigger] lane_ready(
                t,
                self.values@,
                v0,
                next,
                chunk_start(t, k + 1),
                l,
            ) by {
                let env = lane_machine(t, v0, next, l).env();
                assert(lane_ready(t, before, v0, next, chunk_start(t, k as int), l));
                assert(lane_bools(self.values@, l) == result(fns@[k as int]@, lane_bools(before, l)));
                assert(ready(
                    t,
                    result(fns@[k as int]@, lane_bools(before, l)),
                    env,
                    chunk_start(t, k + 1),
                ));
            }
            k = k + 1;
        }
        capture_lanes(&self.tape, &self.values, &mut self.next);
        proof {
            assert forall|l: int| 0 <= l < 64 implies #[trigger] arrays_ok(
                t,
                lane_of(self.values@, l),
                lane_of(self.next@, l),
            ) && lane_machine(t, self.values@, self.next@, l) == lane_machine(t, v0, next, l).ticked() by {
                assert(lane_ready(t, self.values@, v0, next, t.n(), l));
                let values = lane_of(self.values@, l);
                let then = lane_of(self.next@, l);
                assert(bools(values) =~= lane_bools(self.values@, l));
                assert forall|r: int| 0 <= r < then.len() implies #[trigger] then[r]
                    == values[t.reg_in_slots@[r] as int] by {
                    assert(self.next@[r] == self.values@[t.reg_in_slots@[r] as int]);
                }
                lemma_needed_ticked(t, lane_machine(t, v0, next, l), values, then);
            }
            assert forall|l: int| 0 <= l < 64 implies #[trigger] self.lane(l) == old(self).lane(
                l,
            ).ticked() by {
                assert(arrays_ok(t, lane_of(self.values@, l), lane_of(self.next@, l)));
            }
        }
    }
}

/// What straight-line code needs is in place in lane `l`.
spec fn lane_ready(tape: Compiled, values: Seq<u64>, v0: Seq<u64>, next: Seq<u64>, upto: int, l: int) -> bool {
    ready(tape, lane_bools(values, l), lane_machine(tape, v0, next, l).env(), upto)
}

/// Settled gates and captured registers make ticked instances.
proof fn lemma_lanes_ticked(tape: Compiled, v0: Seq<u64>, n0: Seq<u64>, values: Seq<u64>, next: Seq<u64>)
    requires
        lanes_ok(tape, v0, n0),
        values.len() == tape.n(),
        next.len() == tape.net().drives.len(),
        lanes_settled(tape, values, v0, n0, tape.n()),
        forall|r: int| 0 <= r < next.len() ==> #[trigger] next[r] == values[tape.reg_in_slots@[r] as int],
    ensures
        lanes_ok(tape, values, next),
        forall|l: int|
            0 <= l < 64 ==> #[trigger] lane_machine(tape, values, next, l) == lane_machine(
                tape,
                v0,
                n0,
                l,
            ).ticked(),
{
    assert forall|l: int| 0 <= l < 64 implies #[trigger] arrays_ok(
        tape,
        lane_of(values, l),
        lane_of(next, l),
    ) && lane_machine(tape, values, next, l) == lane_machine(tape, v0, n0, l).ticked() by {
        assert(lane_settled(tape, values, v0, n0, tape.n(), l));
        assert forall|r: int| 0 <= r < next.len() implies #[trigger] lane_of(next, l)[r] == lane_of(values, l)[tape.reg_in_slots@[r] as int] by {
            assert(next[r] == values[tape.reg_in_slots@[r] as int]);
        }
        lemma_ticked(tape, lane_machine(tape, v0, n0, l), lane_of(values, l), lane_of(next, l));
    }
    assert forall|l: int| 0 <= l < 64 implies #[trigger] lane_machine(tape, values, next, l) == lane_machine(
        tape,
        v0,
        n0,
        l,
    ).ticked() by {
        assert(arrays_ok(tape, lane_of(values, l), lane_of(next, l)));
    }
}

impl Engine for BatchEngine {
    closed spec fn inv(&self) -> bool {
        lanes_ok(shared(self.tape), self.values@, self.next@)
    }

    /// The instance in lane 0.
    closed spec fn machine(&self) -> Machine {
        self.lane(0)
    }

    fn name(&self) -> (name: &'static str)
        ensures
            name@ == "batch64"@,
    {
        "batch64"
    }

    fn input_count(&self) -> (n: usize) {
        self.tape.input_count()
    }

    fn output_count(&self) -> (n: usize) {
        self.tape.output_count()
    }

    /// Set an input of all instances.
    fn set_input(&mut self, index: usize, value: bool)
        ensures
            final(self).tape() == old(self).tape(),
            forall|l: int|
                0 <= l < 64 ==> #[trigger] final(self).lane(l) == old(self).lane(l).with_input(
                    index as int,
                    value,
                ),
    {
        let mask: u64 = spread(value);
        self.set_input_mask(index, mask);
        assert forall|l: int| 0 <= l < 64 implies #[trigger] self.lane(l) == old(self).lane(
            l,
        ).with_input(index as int, value) by {
            assert(wbit(mask, l) == value);
        }
    }

    /// Output `index` of the instance in lane 0.
    fn output(&self, index: usize) -> (value: bool) {
        let mask: u64 = self.output_mask(index);
        assert(wbit(mask, 0) == self.lane(0).outs[index as int]);
        let first: u64 = 0;
        (mask >> first) & 1 == 1
    }

    /// Advance all instances one clock cycle.
    fn tick(&mut self)
        ensures
            final(self).tape() == old(self).tape(),
            forall|l: int| 0 <= l < 64 ==> #[trigger] final(self).lane(l) == old(self).lane(l).ticked(),
    {
        let ghost t = shared(self.tape);
        let ghost v0 = self.values@;
        let ghost next = self.next@;
        edge_lanes(&self.tape, &mut self.values, &self.next);
        let runs: usize = self.tape.runs.len();
        settle_lanes(&self.tape, &mut self.values, 0, runs, Ghost(v0), Ghost(next));
        capture_lanes(&self.tape, &self.values, &mut self.next);
        proof {
            lemma_lanes_ticked(t, v0, next, self.values@, self.next@);
        }
    }

    /// Advance all instances `ticks` clock cycles.
    fn run(&mut self, ticks: u64)
        ensures
            final(self).tape() == old(self).tape(),
            forall|l: int|
                0 <= l < 64 ==> #[trigger] final(self).lane(l) == old(self).lane(l).ran(ticks as nat),
    {
        for i in 0..ticks
            invariant
                self.inv(),
                self.tape() == old(self).tape(),
                forall|l: int|
                    0 <= l < 64 ==> #[trigger] self.lane(l) == old(self).lane(l).ran(i as nat),
        {
            let ghost before = *self;
            self.tick();
            assert forall|l: int| 0 <= l < 64 implies #[trigger] self.lane(l) == old(self).lane(
                l,
            ).ran((i + 1) as nat) by {
                assert(before.lane(l) == old(self).lane(l).ran(i as nat));
            }
        }
        assert(self.lane(0) == old(self).lane(0).ran(ticks as nat));
    }
}

} // verus!
