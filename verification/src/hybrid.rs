//! Hybrid engine: measures which engine runs a circuit fastest, and keeps it.
//!
//! Every engine that can serve the circuit is built and timed on it for a
//! fraction of a millisecond. The fastest stays, reset to its power-on state.
//! The values are the same whichever wins; only the speed differs.
//!
//! A hybrid engine runs a single instance, or 64 instances at once. Single
//! instances race the packed code, the packed plan, the event engine and the
//! level-parallel engine. 64 instances race straight-line code against the
//! run loop, whose wide levels go to several threads.
use std::sync::Arc;

use vstd::prelude::*;

use crate::batch::BatchEngine;
use crate::circuit::Circuit;
use crate::clock::{as_nanos, elapsed, now};
use crate::compile::{same_machine, shared, Compiled};
use crate::engine::{played, Act, Engine, Machine};
use crate::event::EventEngine;
use crate::gather::wbit;
use crate::jit::{fns_ok, settle_functions, Ins};
use crate::pack::PackedEngine;
use crate::pack_jit::{PackedJitEngine, STAGE_LIMIT};
use crate::plan::{can_pack, packable};
use crate::threaded::ThreadedEngine;

verus! {

/// The width at which a level goes to several threads, unless told otherwise.
pub const PARALLEL_THRESHOLD: usize = 32768;

/// How many ticks a trial has at most.
const TRIAL_TICKS: u64 = 4096;

/// How long a trial runs, in nanoseconds, before its last tick starts.
const TRIAL_NANOS: u128 = 250_000;

/// How 64 instances are settled.
#[derive(Clone, Copy, Debug, PartialEq, Eq)]
pub enum Strategy {
    /// Whichever is measured to be faster.
    Auto,
    /// Straight-line code.
    Jit,
    /// The run loop.
    Interpret,
}

/// What a hybrid engine runs its circuit with.
#[derive(Clone, Copy, Debug, PartialEq, Eq)]
pub enum Choice {
    PackedJit,
    Packed,
    Event,
    Threaded,
    WideJit,
    WideInterpret,
}

enum Runner {
    PackedJit(PackedJitEngine),
    Packed(PackedEngine),
    Event(EventEngine),
    Threaded(ThreadedEngine),
    /// The settle functions run on words.
    WideJit(BatchEngine, Vec<Vec<Ins>>),
    /// The width at which a level goes to several threads.
    WideInterpret(BatchEngine, usize),
}

pub struct HybridEngine {
    runner: Runner,
}

/// What can run one instance of a circuit, in the order of the race.
pub open spec fn single_field(tape: Compiled) -> Seq<Choice> {
    if !packable(tape) {
        seq![Choice::Event, Choice::Threaded]
    } else if tape.reg_out_slots@.len() > 64 * STAGE_LIMIT {
        seq![Choice::Packed, Choice::Event, Choice::Threaded]
    } else {
        seq![Choice::PackedJit, Choice::Packed, Choice::Event, Choice::Threaded]
    }
}

/// What can run 64 instances, in the order of the race.
pub open spec fn wide_field(strategy: Strategy) -> Seq<Choice> {
    match strategy {
        Strategy::Auto => seq![Choice::WideJit, Choice::WideInterpret],
        Strategy::Jit => seq![Choice::WideJit],
        Strategy::Interpret => seq![Choice::WideInterpret],
    }
}

/// The engine is as it was built: every instance powered on over `tape`.
pub open spec fn fresh(e: HybridEngine, tape: Compiled) -> bool {
    &&& e.inv()
    &&& e.machine().net == tape.net()
    &&& forall|l: int| 0 <= l < 64 ==> #[trigger] e.lane(l) == Machine::power_on(tape.net())
}

/// The field is built: one engine per choice, all of them as built.
pub open spec fn is_field(field: Seq<HybridEngine>, choices: Seq<Choice>, tape: Compiled) -> bool {
    &&& field.len() == choices.len()
    &&& forall|k: int| 0 <= k < field.len() ==> (#[trigger] field[k]).choice() == choices[k]
    &&& forall|k: int| 0 <= k < field.len() ==> fresh(#[trigger] field[k], tape)
}

/// Whoever wins, the values are the same: engines as built over one tape show
/// the same outputs and hold the same state after every script, in every lane.
pub proof fn winners_agree(e1: HybridEngine, e2: HybridEngine, tape: Compiled, script: Seq<Act>, l: int)
    requires
        fresh(e1, tape),
        fresh(e2, tape),
        0 <= l < 64,
    ensures
        played(e1.lane(l), script) == played(e2.lane(l), script),
        played(e1.machine(), script) == played(e2.machine(), script),
        played(e1.machine(), script) == played(Machine::power_on(tape.net()), script),
{
    e1.lane_zero_is_the_machine();
    e2.lane_zero_is_the_machine();
    assert(e1.lane(0) == Machine::power_on(tape.net()));
    assert(e2.lane(0) == Machine::power_on(tape.net()));
}

/// The first of the least times stands at `k`.
pub open spec fn first_least(times: Seq<u64>, k: int) -> bool {
    &&& 0 <= k < times.len()
    &&& forall|j: int| 0 <= j < times.len() ==> times[k] <= #[trigger] times[j]
    &&& forall|j: int| 0 <= j < k ==> times[k] < #[trigger] times[j]
}

/// The contender with the least time; the first of them where several tie.
pub fn fastest(times: &Vec<u64>) -> (k: usize)
    requires
        times@.len() > 0,
    ensures
        first_least(times@, k as int),
{
    let mut k: usize = 0;
    for j in 1..times.len()
        invariant
            k < j <= times@.len(),
            forall|i: int| 0 <= i < j ==> times@[k as int] <= #[trigger] times@[i],
            forall|i: int| 0 <= i < k ==> times@[k as int] < #[trigger] times@[i],
    {
        if times[j] < times[k] {
            k = j;
        }
    }
    k
}

/// How many nanoseconds a tick took, on average; as many as fit.
pub fn nanos_per_tick(nanos: u128, ticks: u64) -> (time: u64)
    requires
        ticks > 0,
    ensures
        time == if nanos / (ticks as u128) > u64::MAX {
            u64::MAX as int
        } else {
            nanos as int / ticks as int
        },
{
    let time: u128 = nanos / (ticks as u128);
    if time > u64::MAX as u128 {
        u64::MAX
    } else {
        time as u64
    }
}

/// `Arc::clone`: another handle to the same tape.
#[verifier::external_body]
fn share(tape: &Arc<Compiled>) -> (other: Arc<Compiled>)
    ensures
        other == *tape,
{
    tape.clone()
}

/// Build everything that can run one instance.
pub fn single_contenders(tape: &Arc<Compiled>, threshold: usize) -> (field: Vec<HybridEngine>)
    requires
        tape.wf(),
    ensures
        is_field(field@, single_field(shared(*tape)), shared(*tape)),
{
    let mut field: Vec<HybridEngine> = Vec::new();
    if can_pack(tape) {
        if tape.register_count() <= 64 * STAGE_LIMIT {
            field.push(HybridEngine { runner: Runner::PackedJit(PackedJitEngine::with_tape(tape)) });
        }
        field.push(HybridEngine { runner: Runner::Packed(PackedEngine::with_tape(tape)) });
    }
    field.push(HybridEngine { runner: Runner::Event(EventEngine::with_tape(share(tape))) });
    let threaded = ThreadedEngine::with_tape(share(tape)).with_threshold(threshold);
    field.push(HybridEngine { runner: Runner::Threaded(threaded) });
    field
}

/// Build everything that can run 64 instances as asked.
pub fn wide_contenders(tape: &Arc<Compiled>, threshold: usize, strategy: Strategy) -> (field: Vec<HybridEngine>)
    requires
        tape.wf(),
    ensures
        is_field(field@, wide_field(strategy), shared(*tape)),
{
    let mut field: Vec<HybridEngine> = Vec::new();
    let jit = match strategy {
        Strategy::Interpret => false,
        _ => true,
    };
    let interpret = match strategy {
        Strategy::Jit => false,
        _ => true,
    };
    if jit {
        let batch = BatchEngine::with_tape(share(tape));
        field.push(HybridEngine { runner: Runner::WideJit(batch, settle_functions(tape)) });
    }
    if interpret {
        let batch = BatchEngine::with_tape(share(tape));
        field.push(HybridEngine { runner: Runner::WideInterpret(batch, threshold) });
    }
    field
}

/// The contender that took the least time, powered on.
pub fn keep_fastest(field: Vec<HybridEngine>, times: &Vec<u64>) -> (e: HybridEngine)
    requires
        field@.len() > 0,
        times@.len() == field@.len(),
        forall|k: int| 0 <= k < field@.len() ==> (#[trigger] field@[k]).inv(),
    ensures
        e.inv(),
        exists|k: int| #[trigger]
            first_least(times@, k) && e.choice() == field@[k].choice() && e.machine().net == field@[k].machine().net
                && forall|l: int| 0 <= l < 64 ==> #[trigger] e.lane(l) == Machine::power_on(field@[k].machine().net),
{
    let mut field = field;
    let k: usize = fastest(times);
    let ghost winner = field@[k as int];
    let mut e = field.swap_remove(k);
    e.reset();
    assert(first_least(times@, k as int));
    e
}

/// Time every contender on the circuit and keep the fastest.
fn race(field: Vec<HybridEngine>, tape: Ghost<Compiled>, choices: Ghost<Seq<Choice>>) -> (e: HybridEngine)
    requires
        field@.len() > 0,
        is_field(field@, choices@, tape@),
    ensures
        fresh(e, tape@),
        choices@.contains(e.choice()),
{
    let mut field = field;
    let mut times: Vec<u64> = Vec::new();
    let count: usize = field.len();
    for k in 0..count
        invariant
            count == field@.len(),
            count == choices@.len(),
            times@.len() == k,
            forall|j: int| 0 <= j < count ==> (#[trigger] field@[j]).inv(),
            forall|j: int| 0 <= j < count ==> (#[trigger] field@[j]).choice() == choices@[j],
            forall|j: int| 0 <= j < count ==> (#[trigger] field@[j]).machine().net == tape@.net(),
    {
        let time: u64 = field[k].trial();
        times.push(time);
    }
    keep_fastest(field, &times)
}

impl HybridEngine {
    /// What runs the circuit.
    pub closed spec fn choice(&self) -> Choice {
        match self.runner {
            Runner::PackedJit(_) => Choice::PackedJit,
            Runner::Packed(_) => Choice::Packed,
            Runner::Event(_) => Choice::Event,
            Runner::Threaded(_) => Choice::Threaded,
            Runner::WideJit(..) => Choice::WideJit,
            Runner::WideInterpret(..) => Choice::WideInterpret,
        }
    }

    /// 64 instances run at once.
    pub open spec fn is_wide(&self) -> bool {
        self.choice() is WideJit || self.choice() is WideInterpret
    }

    /// The instance in lane `l`; a single instance counts for every lane.
    pub closed spec fn lane(&self, l: int) -> Machine {
        match self.runner {
            Runner::WideJit(batch, _) => batch.lane(l),
            Runner::WideInterpret(batch, _) => batch.lane(l),
            _ => self.machine(),
        }
    }

    /// The engine shows what the instance in lane 0 shows.
    pub proof fn lane_zero_is_the_machine(&self)
        ensures
            self.machine() == self.lane(0),
    {
        match self.runner {
            Runner::WideJit(batch, _) => batch.lane_zero_is_the_machine(),
            Runner::WideInterpret(batch, _) => batch.lane_zero_is_the_machine(),
            _ => {},
        }
    }

    /// A single instance counts for every lane.
    pub proof fn single_instance_counts_for_every_lane(&self, l: int)
        requires
            !self.is_wide(),
        ensures
            self.lane(l) == self.machine(),
    {
    }

    /// Accelerate one instance.
    pub fn new(circuit: &Circuit) -> (e: Self)
        requires
            circuit.wf(),
        ensures
            e.inv(),
            same_machine(e.machine().net, circuit.net()),
            e.machine() == Machine::power_on(e.machine().net),
            !e.is_wide(),
    {
        Self::with_parallel_threshold(circuit, PARALLEL_THRESHOLD)
    }

    /// Accelerate one instance; `threshold` is the level width at which the
    /// level-parallel contender fans out.
    pub fn with_parallel_threshold(circuit: &Circuit, threshold: usize) -> (e: Self)
        requires
            circuit.wf(),
        ensures
            e.inv(),
            same_machine(e.machine().net, circuit.net()),
            e.machine() == Machine::power_on(e.machine().net),
            !e.is_wide(),
    {
        let tape = Arc::new(Compiled::new(circuit));
        let field = single_contenders(&tape, threshold);
        let e = race(field, Ghost(shared(tape)), Ghost(single_field(shared(tape))));
        assert(e.lane(0) == e.machine());
        e
    }

    /// Run 64 instances at once, with whatever is measured to be fastest.
    pub fn wide(circuit: &Circuit) -> (e: Self)
        requires
            circuit.wf(),
        ensures
            e.inv(),
            e.is_wide(),
            same_machine(e.machine().net, circuit.net()),
            forall|l: int| 0 <= l < 64 ==> #[trigger] e.lane(l) == Machine::power_on(e.machine().net),
    {
        Self::with_config(Arc::new(Compiled::new(circuit)), PARALLEL_THRESHOLD, Strategy::Auto)
    }

    /// Run 64 instances at once; `threshold` is the level width at which the
    /// run loop fans out.
    pub fn with_config(tape: Arc<Compiled>, threshold: usize, strategy: Strategy) -> (e: Self)
        requires
            tape.wf(),
        ensures
            e.inv(),
            e.machine().net == tape.net(),
            forall|l: int| 0 <= l < 64 ==> #[trigger] e.lane(l) == Machine::power_on(tape.net()),
            e.is_wide(),
            wide_field(strategy).contains(e.choice()),
    {
        let field = wide_contenders(&tape, threshold, strategy);
        race(field, Ghost(shared(tape)), Ghost(wide_field(strategy)))
    }

    /// What won the race.
    pub fn winner(&self) -> (choice: Choice)
        ensures
            choice == self.choice(),
    {
        match &self.runner {
            Runner::PackedJit(_) => Choice::PackedJit,
            Runner::Packed(_) => Choice::Packed,
            Runner::Event(_) => Choice::Event,
            Runner::Threaded(_) => Choice::Threaded,
            Runner::WideJit(..) => Choice::WideJit,
            Runner::WideInterpret(..) => Choice::WideInterpret,
        }
    }

    /// Set input `index` of every instance: lane `l` takes bit `l`.
    pub fn set_input_mask(&mut self, index: usize, mask: u64)
        requires
            old(self).inv(),
            old(self).is_wide(),
            index < old(self).machine().net.inputs,
        ensures
            final(self).inv(),
            final(self).choice() == old(self).choice(),
            forall|l: int|
                0 <= l < 64 ==> #[trigger] final(self).lane(l) == old(self).lane(l).with_input(
                    index as int,
                    wbit(mask, l),
                ),
    {
        match &mut self.runner {
            Runner::WideJit(batch, _) => batch.set_input_mask(index, mask),
            Runner::WideInterpret(batch, _) => batch.set_input_mask(index, mask),
            _ => {},
        }
    }

    /// Output `index` of every instance: bit `l` is lane `l`'s.
    pub fn output_mask(&self, index: usize) -> (mask: u64)
        requires
            self.inv(),
            self.is_wide(),
            index < self.machine().net.outs.len(),
        ensures
            forall|l: int|
                0 <= l < 64 ==> #[trigger] wbit(mask, l) == self.lane(l).outs[index as int],
    {
        match &self.runner {
            Runner::WideJit(batch, _) => batch.output_mask(index),
            Runner::WideInterpret(batch, _) => batch.output_mask(index),
            _ => 0,
        }
    }

    /// Restore power-on state.
    fn reset(&mut self)
        requires
            old(self).inv(),
        ensures
            final(self).inv(),
            final(self).choice() == old(self).choice(),
            final(self).machine().net == old(self).machine().net,
            forall|l: int|
                0 <= l < 64 ==> #[trigger] final(self).lane(l) == Machine::power_on(
                    old(self).machine().net,
                ),
    {
        match &mut self.runner {
            Runner::PackedJit(e) => e.reset(),
            Runner::Packed(e) => e.reset(),
            Runner::Event(e) => e.reset(),
            Runner::Threaded(e) => e.reset(),
            Runner::WideJit(e, _) => e.reset(),
            Runner::WideInterpret(e, _) => e.reset(),
        }
    }

    /// Tick for a fraction of a millisecond; how long a tick took.
    fn trial(&mut self) -> (time: u64)
        requires
            old(self).inv(),
        ensures
            final(self).inv(),
            final(self).choice() == old(self).choice(),
            final(self).machine().net == old(self).machine().net,
            exists|n: nat| 1 <= n <= TRIAL_TICKS && final(self).machine() == #[trigger] old(self).machine().ran(n),
    {
        let start = now();
        let mut ticks: u64 = 0;
        let mut spent: u128 = 0;
        while ticks < TRIAL_TICKS && spent < TRIAL_NANOS
            invariant
                self.inv(),
                self.choice() == old(self).choice(),
                self.machine().net == old(self).machine().net,
                self.machine() == old(self).machine().ran(ticks as nat),
                ticks <= TRIAL_TICKS,
                ticks == 0 ==> spent == 0,
            decreases TRIAL_TICKS - ticks,
        {
            self.tick();
            ticks = ticks + 1;
            spent = as_nanos(&elapsed(&start));
        }
        nanos_per_tick(spent, ticks)
    }
}

impl Engine for HybridEngine {
    closed spec fn inv(&self) -> bool {
        match self.runner {
            Runner::PackedJit(e) => e.inv(),
            Runner::Packed(e) => e.inv(),
            Runner::Event(e) => e.inv(),
            Runner::Threaded(e) => e.inv(),
            Runner::WideJit(e, fns) => e.inv() && fns_ok(e.tape(), fns@),
            Runner::WideInterpret(e, _) => e.inv(),
        }
    }

    /// The instance, or the one in lane 0.
    closed spec fn machine(&self) -> Machine {
        match self.runner {
            Runner::PackedJit(e) => e.machine(),
            Runner::Packed(e) => e.machine(),
            Runner::Event(e) => e.machine(),
            Runner::Threaded(e) => e.machine(),
            Runner::WideJit(e, _) => e.machine(),
            Runner::WideInterpret(e, _) => e.machine(),
        }
    }

    fn name(&self) -> (name: &'static str)
        ensures
            name@ == if self.is_wide() {
                "hybrid64"@
            } else {
                "hybrid"@
            },
    {
        match &self.runner {
            Runner::WideJit(..) => "hybrid64",
            Runner::WideInterpret(..) => "hybrid64",
            _ => "hybrid",
        }
    }

    fn input_count(&self) -> (n: usize) {
        match &self.runner {
            Runner::PackedJit(e) => e.input_count(),
            Runner::Packed(e) => e.input_count(),
            Runner::Event(e) => e.input_count(),
            Runner::Threaded(e) => e.input_count(),
            Runner::WideJit(e, _) => e.input_count(),
            Runner::WideInterpret(e, _) => e.input_count(),
        }
    }

    fn output_count(&self) -> (n: usize) {
        match &self.runner {
            Runner::PackedJit(e) => e.output_count(),
            Runner::Packed(e) => e.output_count(),
            Runner::Event(e) => e.output_count(),
            Runner::Threaded(e) => e.output_count(),
            Runner::WideJit(e, _) => e.output_count(),
            Runner::WideInterpret(e, _) => e.output_count(),
        }
    }

    /// Set an input of all instances.
    fn set_input(&mut self, index: usize, value: bool)
        ensures
            final(self).choice() == old(self).choice(),
            forall|l: int|
                0 <= l < 64 ==> #[trigger] final(self).lane(l) == old(self).lane(l).with_input(
                    index as int,
                    value,
                ),
    {
        match &mut self.runner {
            Runner::PackedJit(e) => e.set_input(index, value),
            Runner::Packed(e) => e.set_input(index, value),
            Runner::Event(e) => e.set_input(index, value),
            Runner::Threaded(e) => e.set_input(index, value),
            Runner::WideJit(e, _) => e.set_input(index, value),
            Runner::WideInterpret(e, _) => e.set_input(index, value),
        }
    }

    /// What the instance shows, or the one in lane 0.
    fn output(&self, index: usize) -> (value: bool) {
        match &self.runner {
            Runner::PackedJit(e) => e.output(index),
            Runner::Packed(e) => e.output(index),
            Runner::Event(e) => e.output(index),
            Runner::Threaded(e) => e.output(index),
            Runner::WideJit(e, _) => e.output(index),
            Runner::WideInterpret(e, _) => e.output(index),
        }
    }

    /// Advance all instances one clock cycle.
    fn tick(&mut self)
        ensures
            final(self).choice() == old(self).choice(),
            forall|l: int| 0 <= l < 64 ==> #[trigger] final(self).lane(l) == old(self).lane(l).ticked(),
    {
        match &mut self.runner {
            Runner::PackedJit(e) => e.tick(),
            Runner::Packed(e) => e.tick(),
            Runner::Event(e) => e.tick(),
            Runner::Threaded(e) => e.tick(),
            Runner::WideJit(e, fns) => e.tick_code(&*fns),
            Runner::WideInterpret(e, threshold) => e.tick_levels(*threshold),
        }
    }

    /// Advance all instances `ticks` clock cycles.
    fn run(&mut self, ticks: u64)
        ensures
            final(self).choice() == old(self).choice(),
            forall|l: int|
                0 <= l < 64 ==> #[trigger] final(self).lane(l) == old(self).lane(l).ran(ticks as nat),
    {
        for i in 0..ticks
            invariant
                self.inv(),
                self.choice() == old(self).choice(),
                self.machine() == old(self).machine().ran(i as nat),
                forall|l: int|
                    0 <= l < 64 ==> #[trigger] self.lane(l) == old(self).lane(l).ran(i as nat),
        {
            let ghost before = *self;
            self.tick();
            assert forall|l: int| 0 <= l < 64 implies #[trigger] self.lane(l) == old(self).lane(
                l,
            ).ran((i + 1) as nat) by {
                assert(before.lane(l) == old(self).lane(l).ran(i as nat));
            }
        }
    }
}

/// Nobody was faster than the winner, and nobody before it as fast.
pub proof fn winners_are_fastest(times: Seq<u64>, k: int, j: int)
    requires
        first_least(times, k),
        0 <= j < times.len(),
    ensures
        0 <= k < times.len(),
        times[k] <= times[j],
        j < k ==> times[k] < times[j],
{
}

/// Who races: one instance is run by the event-driven and the threaded engine,
/// and by the packed ones wherever the tape fits them, machine code first; 64
/// instances by what the strategy asks for, or by both.
pub proof fn races_are_open(tape: Compiled)
    ensures
        single_field(tape).contains(Choice::Event),
        single_field(tape).last() == Choice::Threaded,
        single_field(tape).contains(Choice::Packed) <==> packable(tape),
        single_field(tape).contains(Choice::PackedJit) <==> packable(tape) && tape.reg_out_slots@.len()
            <= 0x200_0000,
        single_field(tape).contains(Choice::PackedJit) ==> single_field(tape)[0] == Choice::PackedJit,
        single_field(tape).no_duplicates(),
        !single_field(tape).contains(Choice::WideJit) && !single_field(tape).contains(Choice::WideInterpret),
        wide_field(Strategy::Auto) == seq![Choice::WideJit, Choice::WideInterpret],
        wide_field(Strategy::Jit) == seq![Choice::WideJit],
        wide_field(Strategy::Interpret) == seq![Choice::WideInterpret],
{
    let f = single_field(tape);
    if !packable(tape) {
        assert(f[0] == Choice::Event);
    } else if tape.reg_out_slots@.len() > 0x200_0000 {
        assert(f[0] == Choice::Packed && f[1] == Choice::Event);
    } else {
        assert(f[0] == Choice::PackedJit && f[1] == Choice::Packed && f[2] == Choice::Event);
    }
}

} // verus!
