//! Tapes hold what has to be computed, once, and plans pack it.

use ryzr::circuit::{Circuit, CircuitBuilder};
use ryzr::compile::{Compiled, Op, DEAD};
use ryzr::cpu::build_cpu;
use ryzr::engine::Engine;
use ryzr::entity::Signal;
use ryzr::fuse::find_chains;
use ryzr::jit::{self, Ins};
use ryzr::pack_jit::{self, WordIns};
use ryzr::plan::{can_pack, Plan, TaskOp};
use ryzr::programs;
use ryzr::rtl;
use ryzr::scalar::ScalarEngine;

fn gates(tape: &Compiled) -> Vec<Op> {
    tape.ops[tape.gate_start as usize..].to_vec()
}

#[test]
fn constant_operands_leave_the_other_operand() {
    let mut b = CircuitBuilder::new();
    let x = b.input("X");
    let y = b.input("Y");
    let zero = b.const_val(false);
    let one = b.const_val(true);
    // All of these are x, y or a constant.
    let folds = [
        b.and(x, one),
        b.and(zero, x),
        b.or(x, zero),
        b.or(one, x),
        b.xor(zero, y),
        b.mux(one, x, y),
        b.mux(zero, x, y),
    ];
    // None of these is.
    let stays = [b.xor(x, one), b.mux(x, one, zero), b.nand(x, one), b.not(one)];
    let outs: Vec<Signal> =
        folds.iter().chain(&stays).map(|&s| b.not(s)).collect();
    for (i, &s) in outs.iter().enumerate() {
        b.output(format!("O{i}"), s);
    }
    let tape = Compiled::new(&b.finish().unwrap());
    let kept = gates(&tape);
    assert_eq!(kept.iter().filter(|&&op| op == Op::And || op == Op::Or).count(), 0);
    assert_eq!(kept.iter().filter(|&&op| op == Op::Xor).count(), 1);
    assert_eq!(kept.iter().filter(|&&op| op == Op::Mux).count(), 1);
    assert_eq!(kept.iter().filter(|&&op| op == Op::Nand).count(), 1);
    // Eleven outputs and the inverter of a constant.
    assert_eq!(kept.iter().filter(|&&op| op == Op::Not).count(), 12);
}

#[test]
fn equal_gates_are_shared_unless_observed() {
    let mut b = CircuitBuilder::new();
    let x = b.input("X");
    let y = b.input("Y");
    let s = b.input("S");
    let first = b.and(x, y);
    let swapped = b.and(y, x);
    let straight = b.mux(s, x, y);
    let again = b.mux(s, x, y);
    let crossed = b.mux(s, y, x);
    let tapped = b.and(x, y);
    b.output("TAP", tapped);
    let p = b.xor(first, straight);
    let q = b.xor(again, swapped);
    let r = b.or(p, q);
    let t = b.or(r, crossed);
    b.output("T", t);
    let tape = Compiled::new(&b.finish().unwrap());
    let kept = gates(&tape);
    // The two hidden ands are one; the observed one stays.
    assert_eq!(kept.iter().filter(|&&op| op == Op::And).count(), 2);
    assert_eq!(kept.iter().filter(|&&op| op == Op::Mux).count(), 2);
    assert_eq!(kept.iter().filter(|&&op| op == Op::Xor).count(), 1);
    assert_eq!(kept.iter().filter(|&&op| op == Op::Or).count(), 2);
}

#[test]
fn slots_are_sorted_by_level_and_kind() {
    let tape = Compiled::new(&build_cpu(&programs::fib_forever(), 16));
    for s in tape.gate_start as usize + 1..tape.slot_count() {
        assert!(tape.slot_level[s - 1] <= tape.slot_level[s]);
    }
    for pair in tape.runs.windows(2) {
        assert_eq!(pair[0].end, pair[1].start);
        assert!(
            pair[0].op != pair[1].op
                || tape.slot_level[pair[0].start as usize]
                    != tape.slot_level[pair[1].start as usize]
        );
    }
}

#[test]
fn copies_of_a_circuit_run_alike() {
    let circuit = build_cpu(&programs::fib_terminating(10), 4);
    let copy: Circuit = circuit.clone();
    assert_eq!(copy.output_names, circuit.output_names);
    assert_eq!(copy.debug_names, circuit.debug_names);
    let (mut a, mut b) = (ScalarEngine::new(&circuit), ScalarEngine::new(&copy));
    for _ in 0..50 {
        a.tick();
        b.tick();
        assert!((0..a.output_count()).all(|k| a.output(k) == b.output(k)));
    }
}

#[test]
fn every_chain_is_one_add_and_runs_are_packed() {
    let tape = Compiled::new(&build_cpu(&programs::fib_forever(), 16));
    assert!(can_pack(&tape));
    let plan = Plan::new(&tape);
    let (chains, used) = find_chains(&tape);
    let adds = plan.tasks.iter().filter(|t| matches!(t.op, TaskOp::Add)).count();
    assert_eq!(adds, chains.len());
    // One task per 64 gates of a run that no chain claims, and per chain word.
    let run_words: usize = tape
        .runs
        .iter()
        .map(|r| (r.start..r.end).filter(|&s| !used[s as usize]).count().div_ceil(64))
        .sum();
    let chain_words: usize =
        chains.iter().map(|c| 1 + usize::from(c.ext_pxq) + usize::from(c.ext_g)).sum();
    assert_eq!(plan.tasks.len(), run_words + chain_words);
    // Words are numbered without gaps behind inputs and registers.
    let mut words: Vec<u32> = plan.tasks.iter().map(|t| t.dst).collect();
    words.sort_unstable();
    let first = (plan.reg_word + plan.reg_init.len()) as u32;
    assert_eq!(words, (first..first + words.len() as u32).collect::<Vec<u32>>());
    assert_eq!(plan.words, first as usize + words.len() + 1);
}

#[test]
fn a_32_bit_adder_is_one_task() {
    let mut b = CircuitBuilder::new();
    let a: Vec<Signal> = (0..32).map(|i| b.input(format!("A{i}"))).collect();
    let x: Vec<Signal> = (0..32).map(|i| b.input(format!("X{i}"))).collect();
    let cin = b.input("CIN");
    let (sum, carry) = rtl::adder(&mut b, &a, &x, cin);
    for (i, &s) in sum.iter().enumerate() {
        b.output(format!("S{i}"), s);
    }
    b.output("COUT", carry);
    let plan = Plan::new(&Compiled::new(&b.finish().unwrap()));
    assert_eq!(plan.tasks.len(), 1);
    assert!(matches!(plan.tasks[0].op, TaskOp::Add));
}

#[test]
fn nothing_is_loaded_twice() {
    let tape = Compiled::new(&build_cpu(&programs::fib_forever(), 16));
    for code in jit::compile_ranges(&tape, &jit::chunk_ranges(&tape)) {
        let mut seen = vec![false; tape.slot_count()];
        for ins in code {
            match ins {
                Ins::Load(s) => {
                    assert!(!seen[s as usize]);
                    seen[s as usize] = true;
                }
                Ins::Store(s, _) => seen[s as usize] = true,
                _ => {}
            }
        }
    }
    let plan = Plan::new(&tape);
    for code in pack_jit::compile_plan(&plan) {
        let mut seen = vec![false; plan.words];
        for ins in code {
            match ins {
                WordIns::Load(w) => {
                    assert!(!seen[w as usize]);
                    seen[w as usize] = true;
                }
                WordIns::Store(w, _) => seen[w as usize] = true,
                _ => {}
            }
        }
    }
}

#[test]
fn what_nothing_depends_on_is_left_out() {
    let mut b = CircuitBuilder::new();
    let x = b.input("X");
    let y = b.input("Y");
    let unread = b.register("UNREAD", x, false);
    let read = b.register("READ", y, true);
    let idle = b.and(unread, y);
    b.or(idle, x);
    let n = b.not(read);
    b.output("N", n);
    let circuit = b.finish().unwrap();
    let tape = Compiled::new(&circuit);
    assert_eq!(gates(&tape), vec![Op::Not]);
    assert_eq!(tape.reg_out_slots[0], DEAD);
    assert_ne!(tape.reg_out_slots[1], DEAD);
    // Both inputs keep their slots.
    assert_eq!(tape.gate_start, 3);
    let mut e = ScalarEngine::new(&circuit);
    e.set_input(1, true);
    e.tick();
    assert!(!e.output(0));
    e.set_input(1, false);
    e.run(2);
    assert!(e.output(0));
}
