//! The race between engines.

use std::sync::Arc;

use ryzr::circuit::{Circuit, CircuitBuilder};
use ryzr::compile::Compiled;
use ryzr::engine::Engine;
use ryzr::hybrid::{
    fastest, keep_fastest, nanos_per_tick, single_contenders, wide_contenders, Choice,
    HybridEngine, Strategy, PARALLEL_THRESHOLD,
};
use ryzr::jit::Ins;
use ryzr::lanes::run_lanes;
use ryzr::threaded::ThreadedEngine;

/// A flip-flop that toggles while `T` is high.
fn toggle() -> Circuit {
    let mut b = CircuitBuilder::new();
    let t = b.input("T");
    let (reg, q) = b.reg("Q", true);
    let next = b.xor(q, t);
    b.drive(reg, next);
    b.output("Q", q);
    b.finish().unwrap()
}

#[test]
fn the_least_time_wins() {
    assert_eq!(fastest(&vec![7]), 0);
    assert_eq!(fastest(&vec![7, 3, 9]), 1);
    assert_eq!(fastest(&vec![4, 3, 3, 5]), 1);
    assert_eq!(fastest(&vec![9, 8, 7, 0]), 3);
}

#[test]
fn times_are_averages() {
    assert_eq!(nanos_per_tick(1000, 8), 125);
    assert_eq!(nanos_per_tick(1007, 8), 125);
    assert_eq!(nanos_per_tick(0, 3), 0);
    assert_eq!(nanos_per_tick(u128::MAX, 3), u64::MAX);
    assert_eq!(nanos_per_tick(u64::MAX as u128, 1), u64::MAX);
}

#[test]
fn every_engine_that_serves_the_request_races() {
    let tape = Arc::new(Compiled::new(&toggle()));
    let choices = |field: Vec<HybridEngine>| -> Vec<Choice> { field.iter().map(|e| e.winner()).collect() };
    assert_eq!(
        choices(single_contenders(&tape, 4)),
        vec![Choice::PackedJit, Choice::Packed, Choice::Event, Choice::Threaded]
    );
    assert_eq!(
        choices(wide_contenders(&tape, 4, Strategy::Auto)),
        vec![Choice::WideJit, Choice::WideInterpret]
    );
    assert_eq!(choices(wide_contenders(&tape, 4, Strategy::Jit)), vec![Choice::WideJit]);
    assert_eq!(choices(wide_contenders(&tape, 4, Strategy::Interpret)), vec![Choice::WideInterpret]);
}

#[test]
fn the_winner_starts_at_power_on() {
    let tape = Arc::new(Compiled::new(&toggle()));
    for winner in 0..4 {
        let mut field = single_contenders(&tape, 4);
        let expected = field[winner].winner();
        for engine in &mut field {
            engine.set_input(0, true);
            engine.run(3);
        }
        let mut times = vec![10; 4];
        times[winner] = 1;
        let mut engine = keep_fastest(field, &times);
        assert_eq!(engine.winner(), expected);
        assert_eq!(engine.name(), "hybrid");
        assert_eq!((engine.input_count(), engine.output_count()), (1, 1));
        engine.tick();
        assert!(engine.output(0));
        engine.set_input(0, true);
        engine.run(2);
        assert!(!engine.output(0));
    }
    for winner in 0..2 {
        let mut field = wide_contenders(&tape, 1, Strategy::Auto);
        let expected = field[winner].winner();
        for engine in &mut field {
            engine.set_input_mask(0, 0xf0f0);
            engine.run(5);
        }
        let times = if winner == 0 { vec![1, 1] } else { vec![2, 1] };
        let mut engine = keep_fastest(field, &times);
        assert_eq!(engine.winner(), expected);
        assert_eq!(engine.name(), "hybrid64");
        engine.set_input_mask(0, 0b10);
        engine.tick();
        assert_eq!(engine.output_mask(0), u64::MAX);
        engine.tick();
        assert_eq!(engine.output_mask(0), !0b10);
        assert!(engine.output(0));
        engine.set_input(0, true);
        engine.tick();
        assert_eq!(engine.output_mask(0), u64::MAX);
        engine.tick();
        assert_eq!(engine.output_mask(0), 0);
    }
}

#[test]
fn hybrid_engines_run_one_instance_or_many() {
    let circuit = toggle();
    assert_eq!(PARALLEL_THRESHOLD, 32768);
    let mut one = HybridEngine::new(&circuit);
    assert_eq!(one.name(), "hybrid");
    let mut many = HybridEngine::wide(&circuit);
    assert_eq!(many.name(), "hybrid64");
    one.set_input(0, true);
    many.set_input_mask(0, !0 << 32);
    for tick in 0..9 {
        one.tick();
        many.tick();
        assert_eq!(one.output(0), tick % 2 == 0);
        let high = if tick % 2 == 0 { !0 << 32 } else { 0 };
        assert_eq!(many.output_mask(0), high | 0xffff_ffff);
    }
}

#[test]
fn every_lane_runs_the_code_on_its_own_bits() {
    let code = vec![
        Ins::Load(0),
        Ins::Load(1),
        Ins::Mux(0, 1, 0),
        Ins::Invert(2),
        Ins::Xor(3, 1),
        Ins::Store(2, 4),
        Ins::Or(5, 0),
        Ins::And(6, 1),
        Ins::Store(3, 7),
    ];
    let mut values: Vec<u64> = vec![0b1100, 0b1010, 0, 0];
    run_lanes(&code, &mut values);
    assert_eq!(values, vec![0b1100, 0b1010, !0b0010, 0b1000]);
}

#[test]
fn parallel_levels_keep_their_threshold_and_values() {
    let circuit = toggle();
    let mut engine = ThreadedEngine::new(&circuit).with_threshold(0);
    engine.set_input(0, true);
    engine.run(3);
    assert!(engine.output(0));
    engine.tick();
    assert!(!engine.output(0));
}
