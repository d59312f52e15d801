//! Carry chains are recognized on the tape.

use ryzr::circuit::{Circuit, CircuitBuilder};
use ryzr::compile::Compiled;
use ryzr::entity::Signal;
use ryzr::fuse::{find_chains, NIL};

/// 32-bit ripple accumulator `acc += in`, the canonical full-adder
/// chain (bit 0 is folded away by the optimizer, so 31 links remain).
fn accumulator() -> Circuit {
    let mut b = CircuitBuilder::new();
    let inputs: Vec<Signal> = (0..32).map(|i| b.input(format!("IN{i}"))).collect();
    let regs: Vec<_> = (0..32).map(|i| b.reg(format!("ACC{i}"), false)).collect();
    let mut carry = b.const_val(false);
    for i in 0..32 {
        let (p, q) = (regs[i].1, inputs[i]);
        let pxq = b.xor(p, q);
        let sum = b.xor(pxq, carry);
        let g = b.and(p, q);
        let prop = b.and(pxq, carry);
        carry = b.or(g, prop);
        b.drive(regs[i].0, sum);
    }
    b.output("COUT", carry);
    b.finish().unwrap()
}

#[test]
fn finds_full_adder_chain() {
    let tape = Compiled::new(&accumulator());
    let (chains, dead) = find_chains(&tape);
    assert_eq!(chains.len(), 1);
    let chain = &chains[0];
    assert_eq!(chain.links.len(), 31);
    assert!(!chain.ext_pxq && !chain.ext_g, "interior nets must not escape");
    // Sums for bits 1..31 plus bit 0's folded share: 30 sums present
    // (bit 31's carry feeds COUT, its sum drives ACC31).
    assert!(chain.links.iter().filter(|l| l.sum != NIL).count() >= 30);
    assert!(dead.iter().filter(|&&d| d).count() >= 31 * 4);
}

#[test]
fn finds_incrementer_chain() {
    // 24-bit counter: `bit' = bit ^ carry`, `carry' = carry & bit`.
    let mut b = CircuitBuilder::new();
    let regs: Vec<_> = (0..24).map(|i| b.reg(format!("BIT{i}"), false)).collect();
    let mut carry = b.const_val(true);
    for &(reg, bit) in &regs {
        let next = b.xor(bit, carry);
        b.drive(reg, next);
        carry = b.and(carry, bit);
    }
    b.output("WRAP", carry);
    let tape = Compiled::new(&b.finish().unwrap());
    let (chains, _) = find_chains(&tape);
    assert_eq!(chains.len(), 1);
    assert_eq!(chains[0].links.len(), 23, "bit 0 folds, bits 1..24 fuse");
}

#[test]
fn escaped_pxq_is_flagged() {
    // Same accumulator, but tap one interior xor as an output — CSE
    // merges it with the adder's pxq, which must then be materialized.
    let mut b = CircuitBuilder::new();
    let inputs: Vec<Signal> = (0..16).map(|i| b.input(format!("IN{i}"))).collect();
    let regs: Vec<_> = (0..16).map(|i| b.reg(format!("ACC{i}"), false)).collect();
    let mut carry = b.const_val(false);
    for i in 0..16 {
        let (p, q) = (regs[i].1, inputs[i]);
        let pxq = b.xor(p, q);
        let sum = b.xor(pxq, carry);
        let g = b.and(p, q);
        let prop = b.and(pxq, carry);
        carry = b.or(g, prop);
        b.drive(regs[i].0, sum);
        if i == 8 {
            b.output("TAP", pxq);
        }
    }
    b.output("COUT", carry);
    let tape = Compiled::new(&b.finish().unwrap());
    let (chains, _) = find_chains(&tape);
    assert_eq!(chains.len(), 1);
    assert!(chains[0].ext_pxq);
    assert!(!chains[0].ext_g);
}
