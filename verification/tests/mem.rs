//! RAM banks are recognized on the tape.

use ryzr::circuit::{Circuit, CircuitBuilder};
use ryzr::compile::Compiled;
use ryzr::cpu::build_cpu;
use ryzr::entity::Signal;
use ryzr::mem::{find_banks, MIN_WORDS};
use ryzr::programs;

/// What to spoil in a hand-made RAM.
#[derive(Clone, Copy, PartialEq)]
enum Flaw {
    Sound,
    /// An interior read mux is an output too.
    Tapped,
    /// An interior read mux also feeds a register.
    Latched,
    /// A write mux also feeds a register outside the bank.
    Shared,
    /// Two words answer to each other's address.
    Swapped,
    /// The decoder depends on something besides the address.
    Leaky,
    /// One word has its own store-enable.
    Enable,
    /// One tree level reads another select.
    Select,
}

/// A RAM of `1 << k` words of `width` bits.
fn ram(k: usize, width: usize, flaw: Flaw) -> Circuit {
    let words = 1 << k;
    let mut b = CircuitBuilder::new();
    let addr: Vec<Signal> = (0..k).map(|j| b.input(format!("A{j}"))).collect();
    let data: Vec<Signal> = (0..width).map(|i| b.input(format!("D{i}"))).collect();
    let store = b.input("STORE");
    let other = b.input("OTHER");
    let cells: Vec<Vec<_>> = (0..words)
        .map(|w| (0..width).map(|i| b.reg(format!("M{w}_{i}"), false)).collect())
        .collect();
    let inverted: Vec<Signal> = addr.iter().map(|&a| b.not(a)).collect();
    for w in 0..words {
        let v = match (flaw, w) {
            (Flaw::Swapped, 3) => 5,
            (Flaw::Swapped, 5) => 3,
            _ => w,
        };
        let mut dec = if v & 1 == 1 { addr[0] } else { inverted[0] };
        for j in 1..k {
            let bit = if v >> j & 1 == 1 { addr[j] } else { inverted[j] };
            dec = b.and(dec, bit);
        }
        if flaw == Flaw::Leaky && w == 7 {
            dec = b.and(dec, other);
        }
        let enable = if flaw == Flaw::Enable && w == 7 { other } else { store };
        let we = b.and(enable, dec);
        for i in 0..width {
            let next = b.mux(we, data[i], cells[w][i].1);
            b.drive(cells[w][i].0, next);
            if flaw == Flaw::Shared && w == 2 && i == 0 {
                let (extra, seen) = b.reg("EXTRA", false);
                b.drive(extra, next);
                b.output("EXTRA", seen);
            }
        }
    }
    for i in 0..width {
        let mut level: Vec<Signal> = (0..words).map(|w| cells[w][i].1).collect();
        for j in 0..k {
            let sel = if flaw == Flaw::Select && i == 1 && j == 2 { other } else { addr[j] };
            level = level.chunks(2).map(|p| b.mux(sel, p[1], p[0])).collect();
            if j == 1 && i == 0 {
                if flaw == Flaw::Tapped {
                    b.output("TAP", level[0]);
                }
                if flaw == Flaw::Latched {
                    let (extra, seen) = b.reg("EXTRA", false);
                    b.drive(extra, level[0]);
                    b.output("EXTRA", seen);
                }
            }
        }
        b.output(format!("R{i}"), level[0]);
    }
    b.finish().unwrap()
}

#[test]
fn finds_a_ram() {
    let tape = Compiled::new(&ram(4, 3, Flaw::Sound));
    let banks = find_banks(&tape);
    assert_eq!(banks.len(), 1);
    let bank = &banks[0];
    assert_eq!((bank.base_reg, bank.words, bank.width), (0, 16, 3));
    assert_eq!(bank.addr_bits, tape.input_slots[..4].to_vec());
    assert_eq!(bank.data, tape.input_slots[4..7].to_vec());
    assert_eq!(bank.enable, tape.input_slots[7]);
    assert_eq!(bank.read_tops, tape.output_slots);
    // 15 muxes per read tree, then one per cell.
    assert_eq!(bank.fused.len(), 15 * 3 + 16 * 3);
    assert_eq!(bank.fused[45..].to_vec(), tape.reg_in_slots);
    assert_eq!(bank.fused[14], bank.read_tops[0]);
    let mut muxes = bank.fused.clone();
    muxes.sort_unstable();
    muxes.dedup();
    assert_eq!(muxes.len(), (2 * 16 - 1) * 3);
    // The address comes straight from the inputs.
    assert_eq!(bank.read_ready, 1);
    let copy = bank.clone();
    assert_eq!((copy.base_reg, copy.words, copy.width), (bank.base_reg, bank.words, bank.width));
    assert_eq!((copy.addr_bits, copy.data), (bank.addr_bits.clone(), bank.data.clone()));
    assert_eq!((copy.read_tops, copy.fused), (bank.read_tops.clone(), bank.fused.clone()));
    assert_eq!((copy.enable, copy.read_ready), (bank.enable, bank.read_ready));
}

#[test]
fn small_rams_are_left_alone() {
    assert_eq!(MIN_WORDS, 16);
    assert!(find_banks(&Compiled::new(&ram(3, 4, Flaw::Sound))).is_empty());
    assert_eq!(find_banks(&Compiled::new(&ram(5, 1, Flaw::Sound))).len(), 1);
}

#[test]
fn flawed_rams_are_left_alone() {
    for flaw in [
        Flaw::Tapped,
        Flaw::Latched,
        Flaw::Shared,
        Flaw::Swapped,
        Flaw::Leaky,
        Flaw::Enable,
        Flaw::Select,
    ] {
        assert!(find_banks(&Compiled::new(&ram(4, 2, flaw))).is_empty());
    }
}

#[test]
fn finds_the_ram_of_a_core() {
    let tape = Compiled::new(&build_cpu(&programs::fib_forever(), 64));
    let banks = find_banks(&tape);
    assert_eq!(banks.len(), 1);
    assert_eq!((banks[0].words, banks[0].width), (64, 32));
    assert_eq!(banks[0].base_reg, 32 * 32);
    assert_eq!(banks[0].addr_bits.len(), 6);
    // The register file holds 31 words and is no bank.
    assert_eq!(banks[0].fused.len(), 63 * 32 + 64 * 32);
}
