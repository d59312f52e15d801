//! The engine interface and the machine every engine implements.
//!
//! One tick is one full clock cycle:
//!
//! 1. combinational settle (every gate sees this tick's source values),
//! 2. registers latch their data inputs,
//! 3. outputs reflect the settled combinational values.
//!
//! Engines differ only in how they arrive at these values.
use vstd::prelude::*;

use crate::compile::{power_on_value, same_machine};
use crate::netlist::{Env, Netlist, Node};

verus! {

/// The state of a running circuit, as its user sees it.
#[verifier::ext_equal]
pub struct Machine {
    pub net: Netlist,
    /// Input values; they stay until changed.
    pub inputs: Seq<bool>,
    /// What the registers will show during the next tick.
    pub state: Seq<bool>,
    /// What the outputs show now.
    pub outs: Seq<bool>,
}

impl Machine {
    /// Power-on: inputs low, registers at their initial values, no gate
    /// evaluated.
    pub open spec fn power_on(net: Netlist) -> Machine {
        Machine {
            net,
            inputs: Seq::new(net.inputs, |k: int| false),
            state: net.inits,
            outs: Seq::new(
                net.outs.len(),
                |k: int| power_on_value(net.nodes[net.outs[k]], net.inits),
            ),
        }
    }

    /// What the sources hold during the next tick.
    pub open spec fn env(self) -> Env {
        Env { inputs: self.inputs, state: self.state }
    }

    /// Setting an input shows at once on the outputs that tap it, and
    /// nowhere else before the next tick.
    pub open spec fn with_input(self, index: int, value: bool) -> Machine {
        Machine {
            inputs: self.inputs.update(index, value),
            outs: Seq::new(
                self.outs.len(),
                |k: int|
                    if self.net.nodes[self.net.outs[k]] == Node::Input(index) {
                        value
                    } else {
                        self.outs[k]
                    },
            ),
            ..self
        }
    }

    /// One clock cycle.
    pub open spec fn ticked(self) -> Machine {
        Machine {
            state: self.net.next_state(self.env()),
            outs: self.net.outputs(self.env()),
            ..self
        }
    }

    /// `n` clock cycles.
    pub open spec fn ran(self, n: nat) -> Machine
        decreases n,
    {
        if n == 0 {
            self
        } else {
            self.ran((n - 1) as nat).ticked()
        }
    }
}

/// A compiled circuit instance that can be ticked.
///
/// Engines own their state; inputs are sticky (latched until changed).
pub trait Engine: Send {
    /// The engine is in a state its methods can work with.
    spec fn inv(&self) -> bool;

    /// What the engine currently represents.
    spec fn machine(&self) -> Machine;

    fn name(&self) -> (name: &'static str);

    fn input_count(&self) -> (n: usize)
        requires
            self.inv(),
        ensures
            n == self.machine().net.inputs,
    ;

    fn output_count(&self) -> (n: usize)
        requires
            self.inv(),
        ensures
            n == self.machine().net.outs.len(),
    ;

    fn set_input(&mut self, index: usize, value: bool)
        requires
            old(self).inv(),
            index < old(self).machine().net.inputs,
        ensures
            final(self).inv(),
            final(self).machine() == old(self).machine().with_input(index as int, value),
    ;

    fn output(&self, index: usize) -> (value: bool)
        requires
            self.inv(),
            index < self.machine().net.outs.len(),
        ensures
            value == self.machine().outs[index as int],
    ;

    /// Advance one clock cycle.
    fn tick(&mut self)
        requires
            old(self).inv(),
        ensures
            final(self).inv(),
            final(self).machine() == old(self).machine().ticked(),
    ;

    /// Advance `ticks` cycles. Engines may override with a tighter loop.
    fn run(&mut self, ticks: u64)
        requires
            old(self).inv(),
        ensures
            final(self).inv(),
            final(self).machine() == old(self).machine().ran(ticks as nat),
    {
        let ghost start = self.machine();
        for i in 0..ticks
            invariant
                self.inv(),
                start == old(self).machine(),
                self.machine() == start.ran(i as nat),
        {
            self.tick();
        }
    }
}

/// Two machines over indistinguishable netlists, holding the same values.
pub open spec fn in_step(m1: Machine, m2: Machine) -> bool {
    &&& same_machine(m1.net, m2.net)
    &&& m1.inputs == m2.inputs
    &&& m1.state == m2.state
    &&& m1.outs == m2.outs
    &&& m1.inputs.len() == m1.net.inputs
    &&& m1.outs.len() == m1.net.outs.len()
}

/// Indistinguishable netlists power on in step.
pub proof fn power_on_in_step(n1: Netlist, n2: Netlist)
    requires
        same_machine(n1, n2),
    ensures
        in_step(Machine::power_on(n1), Machine::power_on(n2)),
{
    let (m1, m2) = (Machine::power_on(n1), Machine::power_on(n2));
    assert forall|k: int| 0 <= k < n1.outs.len() implies m1.outs[k] == m2.outs[k] by {
        let x = n1.outs[k];
    }
    assert(m1.outs =~= m2.outs);
    assert(m1.inputs =~= m2.inputs);
}

/// Machines in step stay in step whatever is done to both: setting an input,
/// ticking once, ticking many times.
pub proof fn engines_stay_in_step(m1: Machine, m2: Machine, index: int, value: bool, n: nat)
    requires
        in_step(m1, m2),
        0 <= index < m1.net.inputs,
    ensures
        in_step(m1.with_input(index, value), m2.with_input(index, value)),
        in_step(m1.ticked(), m2.ticked()),
        in_step(m1.ran(n), m2.ran(n)),
{
    let (w1, w2) = (m1.with_input(index, value), m2.with_input(index, value));
    assert forall|k: int| 0 <= k < w1.outs.len() implies w1.outs[k] == w2.outs[k] by {
        let x = m1.net.outs[k];
    }
    assert(w1.outs =~= w2.outs);
    lemma_tick_in_step(m1, m2);
    lemma_run_in_step(m1, m2, n);
}

proof fn lemma_tick_in_step(m1: Machine, m2: Machine)
    requires
        in_step(m1, m2),
    ensures
        in_step(m1.ticked(), m2.ticked()),
{
    assert(m1.net.outputs(m1.env()) == m2.net.outputs(m1.env()));
    assert(m1.net.next_state(m1.env()) == m2.net.next_state(m1.env()));
}

proof fn lemma_run_in_step(m1: Machine, m2: Machine, n: nat)
    requires
        in_step(m1, m2),
    ensures
        in_step(m1.ran(n), m2.ran(n)),
    decreases n,
{
    if n > 0 {
        lemma_run_in_step(m1, m2, (n - 1) as nat);
        lemma_tick_in_step(m1.ran((n - 1) as nat), m2.ran((n - 1) as nat));
    }
}

/// What a user does to a running circuit.
pub enum Act {
    Input(int, bool),
    Tick,
}

/// The machine after a script of acts.
pub open spec fn played(m: Machine, script: Seq<Act>) -> Machine
    decreases script.len(),
{
    if script.len() == 0 {
        m
    } else {
        let before = played(m, script.drop_last());
        match script.last() {
            Act::Input(index, value) => before.with_input(index, value),
            Act::Tick => before.ticked(),
        }
    }
}

/// The script names inputs of the netlist only.
pub open spec fn fits(net: Netlist, script: Seq<Act>) -> bool {
    forall|i: int|
        0 <= i < script.len() ==> (#[trigger] script[i] matches Act::Input(index, _) ==> 0 <= index
            < net.inputs)
}

/// Engines over one circuit agree, whatever is done to them: from power-on,
/// the same script shows the same outputs and leaves the same state.
pub proof fn engines_agree_on_every_script(n1: Netlist, n2: Netlist, script: Seq<Act>)
    requires
        same_machine(n1, n2),
        fits(n1, script),
    ensures
        in_step(played(Machine::power_on(n1), script), played(Machine::power_on(n2), script)),
        played(Machine::power_on(n1), script).net == n1,
    decreases script.len(),
{
    power_on_in_step(n1, n2);
    if script.len() > 0 {
        let rest = script.drop_last();
        assert(fits(n1, rest)) by {
            assert forall|i: int| 0 <= i < rest.len() implies (
            #[trigger] rest[i] matches Act::Input(index, _) ==> 0 <= index < n1.inputs) by {
                assert(rest[i] == script[i]);
            }
        }
        engines_agree_on_every_script(n1, n2, rest);
        let (m1, m2) = (
            played(Machine::power_on(n1), rest),
            played(Machine::power_on(n2), rest),
        );
        match script.last() {
            Act::Input(index, value) => {
                assert(script[script.len() - 1] == script.last());
                engines_stay_in_step(m1, m2, index, value, 0);
            },
            Act::Tick => {
                lemma_tick_in_step(m1, m2);
            },
        }
    }
}

/// A machine that ticks always shows what the circuit computes from its
/// inputs and the state before the tick, and holds the next state after it.
pub proof fn tick_shows_settled_values(m: Machine)
    ensures
        m.ticked().outs == m.net.outputs(m.env()),
        m.ticked().state == m.net.next_state(m.env()),
        m.ticked().inputs == m.inputs,
{
}

/// Running `a` then `b` cycles is running `a + b`.
pub proof fn running_adds_up(m: Machine, a: nat, b: nat)
    ensures
        m.ran(a).ran(b) == m.ran(a + b),
    decreases b,
{
    if b > 0 {
        running_adds_up(m, a, (b - 1) as nat);
        assert((a + b - 1) as nat == a + (b - 1) as nat);
    }
}

/// A machine powers on with inputs low and registers at their initial values;
/// outputs that tap a constant or a register show it, all others are low.
pub proof fn machines_power_on(net: Netlist, k: int)
    requires
        0 <= k < net.outs.len(),
    ensures
        Machine::power_on(net).net == net,
        Machine::power_on(net).inputs.len() == net.inputs,
        forall|i: int| 0 <= i < net.inputs ==> !#[trigger] Machine::power_on(net).inputs[i],
        Machine::power_on(net).state == net.inits,
        Machine::power_on(net).outs.len() == net.outs.len(),
        Machine::power_on(net).outs[k] == match net.nodes[net.outs[k]] {
            Node::Const(v) => v,
            Node::RegOut(r) => 0 <= r < net.inits.len() && net.inits[r],
            _ => false,
        },
{
}

/// An input stays as it was set. Setting it changes nothing else, except the
/// outputs that tap this very input.
pub proof fn inputs_are_sticky(m: Machine, index: int, value: bool, k: int)
    requires
        0 <= index < m.inputs.len(),
        0 <= k < m.outs.len(),
    ensures
        m.with_input(index, value).net == m.net,
        m.with_input(index, value).state == m.state,
        m.with_input(index, value).inputs == m.inputs.update(index, value),
        m.with_input(index, value).outs.len() == m.outs.len(),
        m.net.nodes[m.net.outs[k]] == Node::Input(index) ==> m.with_input(index, value).outs[k] == value,
        m.net.nodes[m.net.outs[k]] != Node::Input(index) ==> m.with_input(index, value).outs[k] == m.outs[k],
{
}

/// A tick settles the circuit over its inputs and the state before the tick:
/// the outputs show it, and the registers take it over.
pub proof fn ticks_settle_and_latch(m: Machine)
    ensures
        m.ticked().net == m.net,
        m.ticked().inputs == m.inputs,
        m.ticked().outs == m.net.outputs((Env { inputs: m.inputs, state: m.state })),
        m.ticked().state == m.net.next_state((Env { inputs: m.inputs, state: m.state })),
{
}

/// Running is ticking that often.
pub proof fn runs_are_ticks(m: Machine, n: nat)
    ensures
        m.ran(0) == m,
        m.ran(n + 1) == m.ran(n).ticked(),
{
}

/// A script is played act by act.
pub proof fn scripts_are_played_in_order(m: Machine, script: Seq<Act>, index: int, value: bool)
    ensures
        played(m, Seq::empty()) == m,
        played(m, script.push(Act::Tick)) == played(m, script).ticked(),
        played(m, script.push(Act::Input(index, value))) == played(m, script).with_input(index, value),
{
    assert(script.push(Act::Tick).drop_last() =~= script);
    assert(script.push(Act::Input(index, value)).drop_last() =~= script);
}

/// Two engines over one circuit show the same outputs and hold the same state
/// after every script of ticks and inputs.
pub proof fn no_script_tells_engines_apart(n1: Netlist, n2: Netlist, script: Seq<Act>)
    requires
        same_machine(n1, n2),
        forall|i: int|
            0 <= i < script.len() ==> (#[trigger] script[i] matches Act::Input(index, _) ==> 0 <= index
                < n1.inputs),
    ensures
        played(Machine::power_on(n1), script).outs == played(Machine::power_on(n2), script).outs,
        played(Machine::power_on(n1), script).state == played(Machine::power_on(n2), script).state,
        played(Machine::power_on(n1), script).inputs == played(Machine::power_on(n2), script).inputs,
        n1.outs.len() == n2.outs.len(),
        n1.inputs == n2.inputs,
        n1.inits == n2.inits,
{
    engines_agree_on_every_script(n1, n2, script);
}

} // verus!
