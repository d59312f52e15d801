//! The Fibonacci programs compute Fibonacci numbers.
use vstd::prelude::*;

use crate::assembler::{
    btype_decodes, btype_word, itype_decodes, itype_word, jtype_decodes, jtype_word, raw,
    rtype_decodes, rtype_word,
};
use crate::isa::{
    bit_of, doubled, padded, reset_state, step, steps, steps_add_up, wadd, word_index, written, Arch,
};
use crate::programs::{fib_forever_words, fib_terminating_words};

verus! {

/// The Fibonacci numbers.
pub open spec fn fib(n: nat) -> nat
    decreases n,
{
    if n < 2 {
        n
    } else {
        fib((n - 1) as nat) + fib((n - 2) as nat)
    }
}

/// A Fibonacci number modulo 2^32.
pub open spec fn fib_word(n: nat) -> u32 {
    (fib(n) % 0x1_0000_0000) as u32
}

proof fn lemma_next(k: nat)
    ensures
        fib_word(k + 2) == wadd(fib_word(k), fib_word(k + 1)),
{
    let (a, b) = (fib(k), fib(k + 1));
    assert(fib(k + 2) == b + a);
    assert((a + b) % 0x1_0000_0000 == (a % 0x1_0000_0000 + b % 0x1_0000_0000) % 0x1_0000_0000);
}

/// A fetch at a small address.
proof fn lemma_fetch(rom: Seq<u32>, pc: u32)
    requires
        rom.len() == 8 || rom.len() == 16,
        pc < 4 * rom.len(),
    ensures
        word_index(pc, rom.len()) == pc as int / 4,
{
    vstd::bits::lemma_u32_shr_is_div(pc, 2);
    vstd::arithmetic::power2::lemma2_to64();
}

proof fn lemma_addi(rom: Seq<u32>, s: Arch, imm: i32, rs1: u32, rd: u32)
    requires
        rom.len() == 8 || rom.len() == 16,
        s.pc < 4 * rom.len(),
        rom[s.pc as int / 4] == itype_word(raw(imm), rs1, 0b000, rd, 0b0010011),
        -2048 <= imm < 2048,
        rs1 < 32,
        rd < 32,
    ensures
        step(rom, s) == (Arch {
            pc: (s.pc + 4) as u32,
            regs: written(s.regs, rd, wadd(s.regs[rs1 as int], raw(imm))),
            ram: s.ram,
        }),
{
    lemma_fetch(rom, s.pc);
    itype_decodes(imm, rs1, 0b000, rd, 0b0010011);
}

proof fn lemma_add(rom: Seq<u32>, s: Arch, rs2: u32, rs1: u32, rd: u32)
    requires
        rom.len() == 8 || rom.len() == 16,
        s.pc < 4 * rom.len(),
        rom[s.pc as int / 4] == rtype_word(0, rs2, rs1, 0b000, rd, 0b0110011),
        rs1 < 32,
        rs2 < 32,
        rd < 32,
    ensures
        step(rom, s) == (Arch {
            pc: (s.pc + 4) as u32,
            regs: written(s.regs, rd, wadd(s.regs[rs1 as int], s.regs[rs2 as int])),
            ram: s.ram,
        }),
{
    lemma_fetch(rom, s.pc);
    rtype_decodes(0, rs2, rs1, 0b000, rd, 0b0110011);
    assert(!bit_of(0u32, 5)) by {
        assert((0u32 >> 5u32) & 1 == 0) by (bit_vector);
    }
}

proof fn lemma_beq(rom: Seq<u32>, s: Arch, offset: i32, rs2: u32, rs1: u32)
    requires
        rom.len() == 8 || rom.len() == 16,
        s.pc < 4 * rom.len(),
        rom[s.pc as int / 4] == btype_word(raw(offset), rs2, rs1, 0b000),
        -4096 <= offset < 4096,
        offset % 2 == 0,
        rs1 < 32,
        rs2 < 32,
    ensures
        step(rom, s) == (Arch {
            pc: if s.regs[rs1 as int] == s.regs[rs2 as int] {
                wadd(s.pc, raw(offset))
            } else {
                (s.pc + 4) as u32
            },
            ..s
        }),
{
    lemma_fetch(rom, s.pc);
    btype_decodes(offset, rs2, rs1, 0b000);
}

proof fn lemma_jump(rom: Seq<u32>, s: Arch, offset: i32)
    requires
        rom.len() == 8 || rom.len() == 16,
        s.pc < 4 * rom.len(),
        rom[s.pc as int / 4] == jtype_word(raw(offset), 0),
        -4096 <= offset < 4096,
        offset % 2 == 0,
    ensures
        step(rom, s) == (Arch { pc: wadd(s.pc, raw(offset)), ..s }),
{
    lemma_fetch(rom, s.pc);
    jtype_decodes(offset, 0);
}

/// Two's complement of the offsets the programs use.
proof fn lemma_raw()
    ensures
        raw(0i32) == 0,
        raw(1i32) == 1,
        raw(24i32) == 24,
        raw(-1i32) == 0xffff_ffff,
        raw(-12i32) == 0xffff_fff4,
        raw(-20i32) == 0xffff_ffec,
{
    assert((-1i32) as u32 == 0xffff_ffffu32 && (-12i32) as u32 == 0xffff_fff4u32 && (-20i32) as u32
        == 0xffff_ffecu32) by (bit_vector);
}

/// Small immediates stand for themselves.
proof fn lemma_raw_small(n: i32)
    requires
        0 <= n < 2048,
    ensures
        raw(n) == n,
{
}

/// The ROM of the terminating program.
spec fn rom_of(n: i32) -> Seq<u32> {
    padded(fib_terminating_words(n))
}

proof fn lemma_rom(n: i32)
    ensures
        rom_of(n).len() == 16,
        forall|i: int| 0 <= i < 10 ==> #[trigger] rom_of(n)[i] == fib_terminating_words(n)[i],
{
    reveal_with_fuel(doubled, 5);
}

/// The state at the head of the loop after `k` rounds of `n`.
spec fn at_head(s: Arch, n: i32, k: int) -> bool {
    &&& s.pc == 12
    &&& s.regs.len() == 32
    &&& s.regs[0] == 0
    &&& s.regs[5] == n - k
    &&& s.regs[10] == fib_word(k as nat)
    &&& s.regs[11] == fib_word((k + 1) as nat)
}

/// One round of the loop.
proof fn lemma_round(n: i32, s: Arch, k: int)
    requires
        0 <= k < n < 2048,
        at_head(s, n, k),
    ensures
        at_head(steps(rom_of(n), s, 6), n, k + 1),
        steps(rom_of(n), s, 6).ram == s.ram,
{
    let rom = rom_of(n);
    lemma_rom(n);
    lemma_raw();
    lemma_next(k as nat);
    let s1 = step(rom, s);
    assert(rom[3] == btype_word(raw(24i32), 0, 5, 0b000));
    lemma_beq(rom, s, 24, 0, 5);
    let s2 = step(rom, s1);
    assert(rom[4] == rtype_word(0, 11, 10, 0b000, 12, 0b0110011));
    lemma_add(rom, s1, 11, 10, 12);
    let s3 = step(rom, s2);
    assert(rom[5] == itype_word(raw(0i32), 11, 0b000, 10, 0b0010011));
    lemma_addi(rom, s2, 0, 11, 10);
    let s4 = step(rom, s3);
    assert(rom[6] == itype_word(raw(0i32), 12, 0b000, 11, 0b0010011));
    lemma_addi(rom, s3, 0, 12, 11);
    let s5 = step(rom, s4);
    assert(rom[7] == itype_word(raw(-1i32), 5, 0b000, 5, 0b0010011));
    lemma_addi(rom, s4, -1i32, 5, 5);
    let s6 = step(rom, s5);
    assert(rom[8] == jtype_word(raw(-20i32), 0));
    lemma_jump(rom, s5, -20i32);
    reveal_with_fuel(steps, 7);
    assert(steps(rom, s, 6) == s6);
}

/// All rounds so far.
proof fn lemma_rounds(n: i32, s: Arch, k: nat)
    requires
        k <= n < 2048,
        at_head(s, n, 0),
    ensures
        at_head(steps(rom_of(n), s, 6 * k), n, k as int),
    decreases k,
{
    if k > 0 {
        let j = (k - 1) as nat;
        lemma_rounds(n, s, j);
        lemma_round(n, steps(rom_of(n), s, 6 * j), j as int);
        steps_add_up(rom_of(n), s, 6 * j, 6);
        assert(6 * j + 6 == 6 * k);
    }
}

/// Setting up takes three instructions.
proof fn lemma_setup(n: i32, ram_words: nat)
    requires
        0 <= n < 2048,
    ensures
        at_head(steps(rom_of(n), reset_state(ram_words), 3), n, 0),
{
    let rom = rom_of(n);
    lemma_rom(n);
    lemma_raw();
    lemma_raw_small(n);
    let s0 = reset_state(ram_words);
    let s1 = step(rom, s0);
    assert(rom[0] == itype_word(raw(0i32), 0, 0b000, 10, 0b0010011));
    lemma_addi(rom, s0, 0, 0, 10);
    let s2 = step(rom, s1);
    assert(rom[1] == itype_word(raw(1i32), 0, 0b000, 11, 0b0010011));
    lemma_addi(rom, s1, 1, 0, 11);
    let s3 = step(rom, s2);
    assert(rom[2] == itype_word(raw(n), 0, 0b000, 5, 0b0010011));
    lemma_addi(rom, s2, n, 0, 5);
    reveal_with_fuel(steps, 4);
    assert(steps(rom, s0, 3) == s3);
}

/// `fib_terminating(n)` leaves `fib(n)` in `a0`, modulo 2^32, and then spins
/// in place: after `6 * n + 4` instructions and ever after, when no register
/// and no memory word changes any more.
pub proof fn fib_terminating_computes_fib(n: i32, ram_words: nat, extra: nat)
    requires
        0 <= n < 2048,
    ensures
        ({
            let end = steps(
                padded(fib_terminating_words(n)),
                reset_state(ram_words),
                (6 * n + 4) as nat + extra,
            );
            &&& end.pc == 36
            &&& end.regs[10] == fib(n as nat) % 0x1_0000_0000
            &&& end == steps(
                padded(fib_terminating_words(n)),
                reset_state(ram_words),
                (6 * n + 4) as nat,
            )
        }),
    decreases extra,
{
    let rom = rom_of(n);
    let start = reset_state(ram_words);
    lemma_rom(n);
    lemma_raw();
    if extra == 0 {
        lemma_setup(n, ram_words);
        let head = steps(rom, start, 3);
        lemma_rounds(n, head, n as nat);
        steps_add_up(rom, start, 3, 6 * (n as nat));
        let last = steps(rom, start, 3 + 6 * (n as nat));
        assert(rom[3] == btype_word(raw(24i32), 0, 5, 0b000));
        lemma_beq(rom, last, 24, 0, 5);
        assert(steps(rom, start, (3 + 6 * (n as nat)) + 1) == step(rom, last));
        assert((6 * n + 4) as nat + extra == (3 + 6 * (n as nat)) + 1);
    } else {
        fib_terminating_computes_fib(n, ram_words, (extra - 1) as nat);
        let t = (6 * n + 4) as nat + (extra - 1) as nat;
        let last = steps(rom, start, t);
        assert(rom[9] == jtype_word(raw(0i32), 0));
        lemma_jump(rom, last, 0);
        assert(steps(rom, start, t + 1) == step(rom, last));
        assert(t + 1 == (6 * n + 4) as nat + extra);
    }
}

/// The ROM of the endless program.
spec fn endless_rom() -> Seq<u32> {
    padded(fib_forever_words())
}

proof fn lemma_endless_rom()
    ensures
        endless_rom().len() == 8,
        forall|i: int| 0 <= i < 6 ==> #[trigger] endless_rom()[i] == fib_forever_words()[i],
{
    reveal_with_fuel(doubled, 4);
}

/// `fib_forever` steps through the Fibonacci numbers: after `4 * k + 2`
/// instructions `a0` and `a1` hold `fib(k)` and `fib(k + 1)`, modulo 2^32,
/// and the loop starts over.
pub proof fn fib_forever_steps_through_fib(ram_words: nat, k: nat)
    ensures
        ({
            let s = steps(padded(fib_forever_words()), reset_state(ram_words), 4 * k + 2);
            &&& s.pc == 8
            &&& s.regs.len() == 32
            &&& s.regs[10] == fib(k) % 0x1_0000_0000
            &&& s.regs[11] == fib(k + 1) % 0x1_0000_0000
        }),
    decreases k,
{
    let rom = endless_rom();
    let start = reset_state(ram_words);
    lemma_endless_rom();
    lemma_raw();
    if k == 0 {
        let s1 = step(rom, start);
        assert(rom[0] == itype_word(raw(0i32), 0, 0b000, 10, 0b0010011));
        lemma_addi(rom, start, 0, 0, 10);
        let s2 = step(rom, s1);
        assert(rom[1] == itype_word(raw(1i32), 0, 0b000, 11, 0b0010011));
        lemma_addi(rom, s1, 1, 0, 11);
        reveal_with_fuel(steps, 3);
        assert(steps(rom, start, 2) == s2);
    } else {
        let j = (k - 1) as nat;
        fib_forever_steps_through_fib(ram_words, j);
        let s = steps(rom, start, 4 * j + 2);
        lemma_next(j);
        let s1 = step(rom, s);
        assert(rom[2] == rtype_word(0, 11, 10, 0b000, 12, 0b0110011));
        lemma_add(rom, s, 11, 10, 12);
        let s2 = step(rom, s1);
        assert(rom[3] == itype_word(raw(0i32), 11, 0b000, 10, 0b0010011));
        lemma_addi(rom, s1, 0, 11, 10);
        let s3 = step(rom, s2);
        assert(rom[4] == itype_word(raw(0i32), 12, 0b000, 11, 0b0010011));
        lemma_addi(rom, s2, 0, 12, 11);
        let s4 = step(rom, s3);
        assert(rom[5] == jtype_word(raw(-12i32), 0));
        lemma_jump(rom, s3, -12i32);
        reveal_with_fuel(steps, 5);
        assert(steps(rom, s, 4) == s4);
        steps_add_up(rom, start, 4 * j + 2, 4);
        assert(4 * j + 2 + 4 == 4 * k + 2);
    }
}

/// Every Fibonacci number from the third on is the sum of the two before it.
pub proof fn fibonacci_numbers(n: nat)
    ensures
        fib(0) == 0,
        fib(1) == 1,
        fib(n + 2) == fib(n + 1) + fib(n),
{
}

} // verus!
