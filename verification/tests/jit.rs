//! Settle functions.

use ryzr::circuit::CircuitBuilder;
use ryzr::compile::Compiled;
use ryzr::jit::{chunk_ranges, compile_ranges, run_bytes, Ins, CHUNK};

#[test]
fn only_what_escapes_a_chunk_is_stored() {
    let mut b = CircuitBuilder::new();
    let x = b.input("X");
    let y = b.input("Y");
    let a = b.and(x, y);
    let n = b.not(a);
    let o = b.or(n, x);
    b.output("O", o);
    let tape = Compiled::new(&b.finish().unwrap());
    let ranges = chunk_ranges(&tape);
    assert_eq!(ranges, vec![(tape.gate_start as usize, tape.slot_count())]);
    assert_eq!(CHUNK, 8192);

    let fns = compile_ranges(&tape, &ranges);
    let count = |code: &Vec<Ins>| code.iter().filter(|i| matches!(i, Ins::Store(..))).count();
    assert_eq!(count(&fns[0]), 1);
    // Each input is loaded once.
    assert_eq!(fns[0].iter().filter(|i| matches!(i, Ins::Load(_))).count(), 2);

    // Split after the first gate: it is read from outside now.
    let start = tape.gate_start as usize;
    let split = compile_ranges(&tape, &vec![(start, start + 1), (start + 1, tape.slot_count())]);
    assert_eq!((count(&split[0]), count(&split[1])), (1, 1));

    for (x, y) in [(0u8, 0u8), (0, 1), (1, 0), (1, 1)] {
        for fns in [&fns, &split] {
            let mut values = tape.initial_values();
            values[tape.input_slots[0] as usize] = x;
            values[tape.input_slots[1] as usize] = y;
            for code in fns.iter() {
                run_bytes(code, &mut values);
            }
            assert_eq!(values[tape.output_slots[0] as usize], (1 - (x & y)) | x);
        }
    }
}
