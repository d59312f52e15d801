//! What holds of all inputs, on some of them.

use ryzr::assembler;
use ryzr::board::{Board, CellPos};
use ryzr::circuit::{Circuit, CircuitBuilder, Error};
use ryzr::compile::Compiled;
use ryzr::emu::Emulator;
use ryzr::engine::Engine;
use ryzr::entity::Signal;
use ryzr::event::EventEngine;
use ryzr::fuse::find_chains;
use ryzr::interp::{Backend, Interpreter};
use ryzr::mem::find_banks;
use ryzr::pack::PackedEngine;
use ryzr::programs;
use ryzr::rtl;
use ryzr::scalar::ScalarEngine;
use ryzr::threaded::ThreadedEngine;
use ryzr::wiring::BoardError;

fn fib(n: u32) -> u32 {
    let (mut a, mut b) = (0u32, 1u32);
    for _ in 0..n {
        (a, b) = (b, a.wrapping_add(b));
    }
    a
}

#[test]
fn a_gate_that_feeds_itself_is_a_cycle() {
    let mut other = CircuitBuilder::new();
    other.input("X");
    let ahead = other.input("Y");
    let mut b = CircuitBuilder::new();
    let a = b.input("A");
    // The signal with this number is the and itself.
    let g = b.and(a, ahead);
    assert_eq!(g, ahead);
    b.output("G", g);
    let err = b.finish().unwrap_err();
    assert_eq!(err, Error::CycleDetected);
    assert_eq!(err.message(), "Cycle detected in combinational logic");
}

#[test]
fn scheduling_lists_sources_first_and_keeps_names() {
    let mut b = CircuitBuilder::new();
    let a = b.input("A");
    let n = b.not(a);
    let c = b.input("C");
    let (r, q) = b.reg("Q", true);
    let m = b.mux(n, c, q);
    b.drive(r, m);
    b.output("M", m);
    let circuit = b.finish().unwrap();
    assert_eq!(circuit.input_names, vec!["A", "C"]);
    assert_eq!(circuit.output_names, vec!["M"]);
    assert_eq!(circuit.debug_names, vec!["Q"]);
    assert_eq!((circuit.input_count, circuit.register_count, circuit.output_count), (2, 1, 1));
    assert_eq!(circuit.initial_state(), vec![true]);
    // Nodes in breadth-first order: A, C, Q, then the inverter, then the mux.
    assert_eq!(circuit.output_signals[0].as_u32(), 4);
}

#[test]
fn terminating_fib_halts_with_the_result() {
    for n in [0u32, 1, 2, 3, 10, 46, 47, 48, 300] {
        let mut emu = Emulator::new(&programs::fib_terminating(n as i32), 4);
        emu.run((6 * n + 4) as usize);
        assert_eq!((emu.pc, emu.regs[10]), (36, fib(n)));
        emu.run(5);
        assert_eq!((emu.pc, emu.regs[10]), (36, fib(n)));
    }
}

#[test]
fn endless_fib_steps_through_the_numbers() {
    let mut emu = Emulator::new(&programs::fib_forever(), 1);
    emu.run(2);
    for k in 0..60 {
        assert_eq!((emu.pc, emu.regs[10], emu.regs[11]), (8, fib(k), fib(k + 1)));
        emu.run(4);
    }
}

#[test]
fn instructions_have_their_standard_encodings() {
    assert_eq!(assembler::addi(1, 0, 5), 0x0050_0093);
    assert_eq!(assembler::addi(5, 5, -1), 0xfff2_8293);
    assert_eq!(assembler::add(12, 10, 11), 0x00b5_0633);
    assert_eq!(assembler::sub(3, 1, 2), 0x4020_81b3);
    assert_eq!(assembler::lui(5, 0x1234_5000), 0x1234_52b7);
    assert_eq!(assembler::jal(0, 0), 0x0000_006f);
    assert_eq!(assembler::jal(0, -20), 0xfedf_f06f);
    assert_eq!(assembler::beq(5, 0, 24), 0x0002_8c63);
    assert_eq!(assembler::sw(0, 5, 8), 0x0050_2423);
    assert_eq!(assembler::lb(7, 0, 9), 0x0090_0383);
    assert_eq!(assembler::srai(1, 2, 3), 0x4031_5093);
}

/// `sum = a + x + cin` over `n` bits.
fn adder(n: usize) -> Circuit {
    let mut b = CircuitBuilder::new();
    let a: Vec<Signal> = (0..n).map(|i| b.input(format!("A{i}"))).collect();
    let x: Vec<Signal> = (0..n).map(|i| b.input(format!("X{i}"))).collect();
    let cin = b.input("CIN");
    let (sum, carry) = rtl::adder(&mut b, &a, &x, cin);
    for (i, &s) in sum.iter().enumerate() {
        b.output(format!("S{i}"), s);
    }
    b.output("COUT", carry);
    b.finish().unwrap()
}

fn set_word(engine: &mut dyn Engine, base: usize, n: usize, value: u64) {
    for i in 0..n {
        engine.set_input(base + i, value >> i & 1 == 1);
    }
}

fn word(engine: &dyn Engine, n: usize) -> u64 {
    (0..n).map(|i| u64::from(engine.output(i)) << i).sum()
}

#[test]
fn fused_carry_chains_add() {
    let n = 40;
    let circuit = adder(n);
    let (chains, _) = find_chains(&Compiled::new(&circuit));
    assert_eq!(chains.len(), 1);
    let mut engine = PackedEngine::new(&circuit);
    for (a, x, cin) in [(0u64, 0u64, 0u64), (1, 0xff_ffff_ffff, 0), (0x12_3456_789a, 0xab_cdef_0123, 1)] {
        set_word(&mut engine, 0, n, a);
        set_word(&mut engine, n, n, x);
        engine.set_input(2 * n, cin == 1);
        engine.tick();
        assert_eq!(word(&engine, n + 1), a + x + cin);
    }
}

#[test]
fn inputs_show_at_once_and_gates_wait_for_the_tick() {
    let mut b = CircuitBuilder::new();
    let a = b.input("A");
    let n = b.not(a);
    let one = b.const_val(true);
    let q = b.register("Q", a, true);
    b.output("A", a);
    b.output("N", n);
    b.output("ONE", one);
    b.output("Q", q);
    let circuit = b.finish().unwrap();
    let engines: Vec<Box<dyn Engine>> = vec![
        Box::new(ScalarEngine::new(&circuit)),
        Box::new(EventEngine::new(&circuit)),
        Box::new(PackedEngine::new(&circuit)),
        Box::new(ThreadedEngine::new(&circuit).with_threshold(1)),
    ];
    for mut e in engines {
        let shown = |e: &dyn Engine| (e.output(0), e.output(1), e.output(2), e.output(3));
        assert_eq!((e.input_count(), e.output_count()), (1, 4));
        assert_eq!(shown(e.as_ref()), (false, false, true, true), "{}", e.name());
        e.set_input(0, true);
        assert_eq!(shown(e.as_ref()), (true, false, true, true), "{}", e.name());
        e.set_input(0, false);
        e.tick();
        assert_eq!(shown(e.as_ref()), (false, true, true, true), "{}", e.name());
        e.tick();
        assert_eq!(shown(e.as_ref()), (false, true, true, false), "{}", e.name());
        e.run(3);
        assert_eq!(shown(e.as_ref()), (false, true, true, false), "{}", e.name());
    }
}

#[test]
fn wide_levels_settle_in_parallel() {
    // 5000 inverters in one level, well past the threshold.
    let mut b = CircuitBuilder::new();
    let inputs: Vec<Signal> = (0..5000).map(|i| b.input(format!("I{i}"))).collect();
    for (i, &s) in inputs.iter().enumerate() {
        let n = b.not(s);
        b.output(format!("O{i}"), n);
    }
    let circuit = b.finish().unwrap();
    let mut e = ThreadedEngine::new(&circuit).with_threshold(16);
    for i in (0..5000).step_by(3) {
        e.set_input(i, true);
    }
    e.tick();
    for i in 0..5000 {
        assert_eq!(e.output(i), i % 3 != 0);
    }
}

#[test]
fn the_interpreter_settles_and_latches() {
    let mut b = CircuitBuilder::new();
    let a = b.input("A");
    let (r, q) = b.reg("Q", false);
    let t = b.xor(a, q);
    b.drive(r, t);
    b.output("T", t);
    let circuit = b.finish().unwrap();
    let mut state = circuit.initial_state();
    let mut outputs = vec![false];
    let mut seen = Vec::new();
    for a in [true, true, false, true] {
        Interpreter.tick(&circuit, &[a], &mut state, &mut outputs);
        seen.push((outputs[0], state[0]));
    }
    assert_eq!(seen, vec![(true, true), (false, false), (false, false), (true, true)]);
}

#[test]
fn a_found_bank_stores_and_recalls() {
    let k = 4;
    let mut b = CircuitBuilder::new();
    let addr: Vec<Signal> = (0..k).map(|j| b.input(format!("A{j}"))).collect();
    let data = b.input("D");
    let store = b.input("STORE");
    let cells: Vec<_> = (0..16).map(|w| b.reg(format!("M{w}"), false)).collect();
    let lines = rtl::decoder(&mut b, &addr);
    for w in 0..16 {
        let we = b.and(store, lines[w]);
        let next = b.mux(we, data, cells[w].1);
        b.drive(cells[w].0, next);
    }
    let words: Vec<Vec<Signal>> = cells.iter().map(|c| vec![c.1]).collect();
    let read = rtl::mux_tree(&mut b, &addr, &words);
    b.output("R", read[0]);
    let circuit = b.finish().unwrap();
    let banks = find_banks(&Compiled::new(&circuit));
    assert_eq!(banks.len(), 1);
    assert_eq!((banks[0].words, banks[0].width), (16, 1));

    let mut engine = ScalarEngine::new(&circuit);
    let pattern = 0xb3c5u64;
    engine.set_input(k + 1, true);
    for w in 0..16 {
        set_word(&mut engine, 0, k, w);
        engine.set_input(k, pattern >> w & 1 == 1);
        engine.tick();
    }
    engine.set_input(k + 1, false);
    engine.set_input(k, false);
    for w in 0..16 {
        set_word(&mut engine, 0, k, w);
        engine.tick();
        assert_eq!(engine.output(0), pattern >> w & 1 == 1);
    }
}

#[test]
fn clones_hold_what_their_originals_hold() {
    let mut board = Board::demo();
    let copy = board.clone();
    board.clear();
    assert_eq!(copy.cells(), Board::demo().cells());
    assert_eq!((copy.width(), copy.height()), (16, 10));
    assert!(copy.cells().iter().all(|c| c.kind.is_source() || !c.input_value));
    let err = BoardError::NoInputAt(CellPos::new(3, 4));
    assert_eq!(err.clone(), err);
    let err = BoardError::Circuit(String::from("loop"));
    assert_eq!(err.clone(), err);
}
