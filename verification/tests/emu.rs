//! The instruction-level emulator.

use ryzr::assembler::{addi, lb, lhu, lui, sw};
use ryzr::emu::Emulator;
use ryzr::programs;

#[test]
fn fib_20_is_6765() {
    let mut emu = Emulator::new(&programs::fib_terminating(20), 4);
    emu.run(200);
    assert_eq!(emu.regs[10], 6765);
}

#[test]
fn memory_widths_round_trip() {
    let program =
        vec![lui(5, 0x1234_5000), addi(5, 5, 0x678), sw(0, 5, 8), lhu(6, 0, 10), lb(7, 0, 9)];
    let mut emu = Emulator::new(&program, 16);
    emu.run(program.len());
    assert_eq!(emu.ram[2], 0x1234_5678);
    assert_eq!(emu.regs[6], 0x1234);
    assert_eq!(emu.regs[7], 0x56);
}
