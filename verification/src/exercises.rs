//! What the exercise programs leave behind.
use vstd::prelude::*;

use crate::assembler::{
    btype_holds, btype_word, itype_holds, itype_word, jtype_holds, jtype_word, raw, raw_wraps, rtype_decodes,
    rtype_word, stype_holds, stype_word, utype_decodes, utype_word,
};
use crate::isa::{
    alu, branch_taken, byte_shift, doubled, load_value, padded, reset_state, retire, shift_right_arith, step,
    steps, store_merge, wadd, written, Arch,
};
use crate::manual::{lemma_masks, running_past_the_end_halts, steps_fetch_and_retire};
use crate::programs::{alu_exercise_words, branch_exercise_words, memory_exercise_words};

verus! {

/// The instruction at word `i` is retired.
proof fn lemma_fetch(rom: Seq<u32>, s: Arch, i: int)
    requires
        0 <= i < rom.len(),
        s.pc == 4 * i,
    ensures
        step(rom, s) == retire(rom[i], s),
{
    steps_fetch_and_retire(rom, s, 0);
    vstd::arithmetic::div_mod::lemma_small_mod(i as nat, rom.len());
}

/// Register-immediate operations.
proof fn run_imm(rom: Seq<u32>, s: Arch, i: int, imm: i32, rs1: u32, f3: u32, rd: u32) -> (t: Arch)
    requires
        0 <= i < rom.len() <= 64,
        s.pc == 4 * i,
        -2048 <= imm < 2048,
        rom[i] == itype_word(raw(imm), rs1, f3, rd, 0x13),
        rs1 < 32,
        f3 < 8,
        rd < 32,
    ensures
        t == step(rom, s),
        t.pc == 4 * i + 4,
        t.ram == s.ram,
        t.regs == written(
            s.regs,
            rd,
            alu(f3, s.regs[rs1 as int], raw(imm), false, (raw(imm) / 1024) % 2 == 1),
        ),
{
    lemma_fetch(rom, s, i);
    raw_wraps(imm);
    itype_holds(raw(imm), rs1, f3, rd, 0x13);
    step(rom, s)
}

/// Shifts by a constant.
proof fn run_shift(rom: Seq<u32>, s: Arch, i: int, u: u32, rs1: u32, f3: u32, rd: u32) -> (t: Arch)
    requires
        0 <= i < rom.len() <= 64,
        s.pc == 4 * i,
        u < 2048,
        rom[i] == itype_word(u, rs1, f3, rd, 0x13),
        rs1 < 32,
        f3 < 8,
        rd < 32,
    ensures
        t == step(rom, s),
        t.pc == 4 * i + 4,
        t.ram == s.ram,
        t.regs == written(s.regs, rd, alu(f3, s.regs[rs1 as int], u, false, (u / 1024) % 2 == 1)),
{
    lemma_fetch(rom, s, i);
    itype_holds(u, rs1, f3, rd, 0x13);
    step(rom, s)
}

/// Register-register operations.
proof fn run_op(rom: Seq<u32>, s: Arch, i: int, f7: u32, rs2: u32, rs1: u32, f3: u32, rd: u32) -> (t: Arch)
    requires
        0 <= i < rom.len() <= 64,
        s.pc == 4 * i,
        rom[i] == rtype_word(f7, rs2, rs1, f3, rd, 0x33),
        f7 == 0 || f7 == 32,
        rs2 < 32,
        rs1 < 32,
        f3 < 8,
        rd < 32,
    ensures
        t == step(rom, s),
        t.pc == 4 * i + 4,
        t.ram == s.ram,
        t.regs == written(
            s.regs,
            rd,
            alu(f3, s.regs[rs1 as int], s.regs[rs2 as int], f7 == 32, f7 == 32),
        ),
{
    lemma_fetch(rom, s, i);
    rtype_decodes(f7, rs2, rs1, f3, rd, 0x33);
    step(rom, s)
}

/// `lui` and `auipc`.
proof fn run_upper(rom: Seq<u32>, s: Arch, i: int, value: u32, rd: u32, opcode: u32) -> (t: Arch)
    requires
        0 <= i < rom.len() <= 64,
        s.pc == 4 * i,
        rom[i] == utype_word(value, rd, opcode),
        value % 4096 == 0,
        opcode == 0x37 || opcode == 0x17,
        rd < 32,
    ensures
        t == step(rom, s),
        t.pc == 4 * i + 4,
        t.ram == s.ram,
        t.regs == written(
            s.regs,
            rd,
            if opcode == 0x37 {
                value
            } else {
                wadd(s.pc, value)
            },
        ),
{
    lemma_fetch(rom, s, i);
    utype_decodes(value, rd, opcode);
    step(rom, s)
}

/// Branches over the next instruction.
proof fn run_branch(rom: Seq<u32>, s: Arch, i: int, rs2: u32, rs1: u32, f3: u32) -> (t: Arch)
    requires
        0 <= i < rom.len() <= 64,
        s.pc == 4 * i,
        rom[i] == btype_word(raw(8i32), rs2, rs1, f3),
        rs2 < 32,
        rs1 < 32,
        f3 < 8,
    ensures
        t == step(rom, s),
        t.regs == s.regs,
        t.ram == s.ram,
        branch_taken(f3, s.regs[rs1 as int], s.regs[rs2 as int]) ==> t.pc == 4 * i + 8,
        !branch_taken(f3, s.regs[rs1 as int], s.regs[rs2 as int]) ==> t.pc == 4 * i + 4,
{
    lemma_fetch(rom, s, i);
    raw_wraps(8);
    btype_holds(raw(8i32), rs2, rs1, f3);
    step(rom, s)
}

/// `jal` in place spins for good.
proof fn run_spin(rom: Seq<u32>, s: Arch, i: int, n: nat)
    requires
        0 <= i < rom.len() <= 64,
        s.pc == 4 * i,
        rom[i] == jtype_word(raw(0i32), 0),
    ensures
        steps(rom, s, n) == s,
    decreases n,
{
    steps_fetch_and_retire(rom, s, n);
    if n > 0 {
        run_spin(rom, s, i, (n - 1) as nat);
        lemma_fetch(rom, s, i);
        raw_wraps(0);
        jtype_holds(raw(0i32), 0);
    }
}

/// One step more.
proof fn lemma_step(rom: Seq<u32>, start: Arch, n: nat, s: Arch, t: Arch)
    requires
        s == steps(rom, start, n),
        t == step(rom, s),
        rom.len() > 0,
    ensures
        t == steps(rom, start, n + 1),
{
    steps_fetch_and_retire(rom, start, n);
}

/// The branch exercise takes the branches it should and no others, links its
/// jumps, and ends in the padding, where it stays: the skipped instructions
/// leave no trace, the executed ones do.
#[verifier::rlimit(60)]
pub proof fn branch_exercise_ends_in_the_padding(ram_words: nat, extra: nat)
    ensures
        ({
            let end = steps(padded(branch_exercise_words()), reset_state(ram_words), 13 + extra);
            &&& end.pc == 80
            &&& end.regs[1] == 72
            &&& end.regs[5] == 0xffff_ffff
            &&& end.regs[6] == 1
            &&& end.regs[7] == 64
            &&& end.regs[10] == 0
            &&& end.regs[11] == 1
            &&& end.regs[12] == 0
            &&& end.regs[13] == 2
            &&& end.regs[14] == 0
            &&& end.regs[15] == 0
            &&& end.regs[16] == 0
        }),
{
    let words = branch_exercise_words();
    let rom = padded(words);
    reveal_with_fuel(doubled, 6);
    assert(words.len() == 18);
    assert(rom.len() == 32);
    assert forall|i: int| 0 <= i < 18 implies #[trigger] rom[i] == words[i] by {}
    let start = reset_state(ram_words);
    raw_wraps(-1i32);
    raw_wraps(1);
    raw_wraps(2);
    raw_wraps(8);
    raw_wraps(16);
    let s1 = run_imm(rom, start, 0, -1i32, 0, 0, 5);
    lemma_step(rom, start, 0, start, s1);
    let s2 = run_imm(rom, s1, 1, 1, 0, 0, 6);
    lemma_step(rom, start, 1, s1, s2);
    assert(s2.regs[5] == 0xffff_ffff && s2.regs[6] == 1);
    let s3 = run_branch(rom, s2, 2, 6, 5, 4);
    lemma_step(rom, start, 2, s2, s3);
    let s4 = run_branch(rom, s3, 4, 6, 5, 6);
    lemma_step(rom, start, 3, s3, s4);
    let s5 = run_imm(rom, s4, 5, 1, 0, 0, 11);
    lemma_step(rom, start, 4, s4, s5);
    let s6 = run_branch(rom, s5, 6, 5, 6, 5);
    lemma_step(rom, start, 5, s5, s6);
    let s7 = run_branch(rom, s6, 8, 5, 6, 7);
    lemma_step(rom, start, 6, s6, s7);
    let s8 = run_imm(rom, s7, 9, 2, 0, 0, 13);
    lemma_step(rom, start, 7, s7, s8);
    let s9 = run_branch(rom, s8, 10, 6, 5, 1);
    lemma_step(rom, start, 8, s8, s9);
    let s10 = run_branch(rom, s9, 12, 5, 5, 0);
    lemma_step(rom, start, 9, s9, s10);
    // jal ra, 8
    let s11 = step(rom, s10);
    lemma_fetch(rom, s10, 14);
    jtype_holds(raw(8i32), 1);
    lemma_step(rom, start, 10, s10, s11);
    assert(s11.pc == 64 && s11.regs == s10.regs.update(1, 60u32));
    let s12 = run_upper(rom, s11, 16, 0, 7, 0x17);
    lemma_step(rom, start, 11, s11, s12);
    // jalr ra, t2, 16
    let s13 = step(rom, s12);
    lemma_fetch(rom, s12, 17);
    itype_holds(raw(16i32), 7, 0, 1, 0x67);
    lemma_step(rom, start, 12, s12, s13);
    lemma_masks(80);
    assert(s13.pc == 80);
    assert(s13.regs[1] == 72);
    assert(s13.regs.len() == 32);
    running_past_the_end_halts(words, s13, extra);
    crate::isa::steps_add_up(rom, start, 13, extra);
}

/// The bitwise results of the ALU exercise.
proof fn lemma_alu_values()
    by (bit_vector)
    ensures
        3u32 << (3u32 & 31) == 24,
        0xffff_fffbu32 ^ 3 == 0xffff_fff8,
        0xffff_fffbu32 >> (3u32 & 31) == 0x1fff_ffff,
        shift_right_arith(0xffff_fffb, 3u32 & 31) == 0xffff_ffff,
        0xffff_fffbu32 | 3 == 0xffff_fffb,
        0xffff_fffbu32 & 3 == 3,
        0xffff_fffbu32 << (4u32 & 31) == 0xffff_ffb0,
        0xffff_fffbu32 >> (4u32 & 31) == 0x0fff_ffff,
        0x400u32 | 4 == 0x404,
        shift_right_arith(0xffff_fffb, 0x404u32 & 31) == 0xffff_ffff,
        0xffff_fffbu32 ^ 0x55 == 0xffff_ffae,
        0xffff_fffbu32 | 0x0f == 0xffff_ffff,
        0xffff_fffbu32 & 0xff == 0xfb,
{
}

/// The operands, sums and shifts of the ALU exercise.
#[verifier::spinoff_prover]
proof fn alu_setup(rom: Seq<u32>, start: Arch, s0: Arch) -> (end: Arch)
    requires
        rom.len() == 32,
        s0 == steps(rom, start, 0),
        s0.pc == 0,
        s0.regs.len() == 32,
        s0.regs[0] == 0,
        rom[0] == itype_word(raw(-5i32), 0, 0, 5, 0x13),
        rom[1] == itype_word(raw(3i32), 0, 0, 6, 0x13),
        rom[2] == rtype_word(0, 6, 5, 0, 10, 0x33),
        rom[3] == rtype_word(32, 6, 5, 0, 11, 0x33),
        rom[4] == rtype_word(0, 6, 6, 1, 12, 0x33),
        rom[5] == rtype_word(0, 6, 5, 2, 13, 0x33),
    ensures
        end == steps(rom, start, 6),
        end.pc == 24,
        end.regs == s0.regs.update(5, 0xffff_fffb).update(6, 3).update(10, 0xffff_fffe).update(11, 0xffff_fff8)
            .update(12, 24).update(13, 1),
        end.ram == s0.ram,
{
    lemma_alu_values();
    raw_wraps(-5i32);
    raw_wraps(3);
    let s1 = run_imm(rom, s0, 0, -5i32, 0, 0, 5);
    lemma_step(rom, start, 0, s0, s1);
    assert(s1.regs == s0.regs.update(5, 0xffff_fffb));
    let s2 = run_imm(rom, s1, 1, 3, 0, 0, 6);
    lemma_step(rom, start, 1, s1, s2);
    assert(s2.regs == s1.regs.update(6, 3));
    let s3 = run_op(rom, s2, 2, 0, 6, 5, 0, 10);
    lemma_step(rom, start, 2, s2, s3);
    assert(s3.regs == s2.regs.update(10, 0xffff_fffe));
    let s4 = run_op(rom, s3, 3, 32, 6, 5, 0, 11);
    lemma_step(rom, start, 3, s3, s4);
    assert(s4.regs == s3.regs.update(11, 0xffff_fff8));
    let s5 = run_op(rom, s4, 4, 0, 6, 6, 1, 12);
    lemma_step(rom, start, 4, s4, s5);
    assert(s5.regs == s4.regs.update(12, 24));
    let s6 = run_op(rom, s5, 5, 0, 6, 5, 2, 13);
    lemma_step(rom, start, 5, s5, s6);
    assert(s6.regs == s5.regs.update(13, 1));
    s6
}

/// Register against register.
#[verifier::spinoff_prover]
proof fn alu_registers(rom: Seq<u32>, start: Arch, s6: Arch) -> (end: Arch)
    requires
        rom.len() == 32,
        s6 == steps(rom, start, 6),
        s6.pc == 24,
        s6.regs.len() == 32,
        s6.regs[0] == 0,
        s6.regs[5] == 0xffff_fffb,
        s6.regs[6] == 3,
        rom[6] == rtype_word(0, 6, 5, 3, 14, 0x33),
        rom[7] == rtype_word(0, 6, 5, 4, 15, 0x33),
        rom[8] == rtype_word(0, 6, 5, 5, 16, 0x33),
        rom[9] == rtype_word(32, 6, 5, 5, 17, 0x33),
        rom[10] == rtype_word(0, 6, 5, 6, 28, 0x33),
        rom[11] == rtype_word(0, 6, 5, 7, 29, 0x33),
    ensures
        end == steps(rom, start, 12),
        end.pc == 48,
        end.regs == s6.regs.update(14, 0).update(15, 0xffff_fff8).update(16, 0x1fff_ffff)
            .update(17, 0xffff_ffff).update(28, 0xffff_fffb).update(29, 3),
        end.ram == s6.ram,
{
    lemma_alu_values();
    let s7 = run_op(rom, s6, 6, 0, 6, 5, 3, 14);
    lemma_step(rom, start, 6, s6, s7);
    assert(s7.regs == s6.regs.update(14, 0));
    let s8 = run_op(rom, s7, 7, 0, 6, 5, 4, 15);
    lemma_step(rom, start, 7, s7, s8);
    assert(s8.regs == s7.regs.update(15, 0xffff_fff8));
    let s9 = run_op(rom, s8, 8, 0, 6, 5, 5, 16);
    lemma_step(rom, start, 8, s8, s9);
    assert(s9.regs == s8.regs.update(16, 0x1fff_ffff));
    let s10 = run_op(rom, s9, 9, 32, 6, 5, 5, 17);
    lemma_step(rom, start, 9, s9, s10);
    assert(s10.regs == s9.regs.update(17, 0xffff_ffff));
    let s11 = run_op(rom, s10, 10, 0, 6, 5, 6, 28);
    lemma_step(rom, start, 10, s10, s11);
    assert(s11.regs == s10.regs.update(28, 0xffff_fffb));
    let s12 = run_op(rom, s11, 11, 0, 6, 5, 7, 29);
    lemma_step(rom, start, 11, s11, s12);
    assert(s12.regs == s11.regs.update(29, 3));
    s12
}

/// Shifts by constants, and comparisons.
#[verifier::spinoff_prover]
proof fn alu_shifts(rom: Seq<u32>, start: Arch, s12: Arch) -> (end: Arch)
    requires
        rom.len() == 32,
        s12 == steps(rom, start, 12),
        s12.pc == 48,
        s12.regs.len() == 32,
        s12.regs[0] == 0,
        s12.regs[5] == 0xffff_fffb,
        s12.regs[6] == 3,
        rom[12] == itype_word(4, 5, 1, 30, 0x13),
        rom[13] == itype_word(4, 5, 5, 31, 0x13),
        rom[14] == itype_word(0x404, 5, 5, 7, 0x13),
        rom[15] == itype_word(raw(-4i32), 5, 2, 8, 0x13),
        rom[16] == itype_word(raw(100i32), 5, 3, 9, 0x13),
    ensures
        end == steps(rom, start, 17),
        end.pc == 68,
        end.regs == s12.regs.update(30, 0xffff_ffb0).update(31, 0x0fff_ffff).update(7, 0xffff_ffff).update(8, 1)
            .update(9, 0),
        end.ram == s12.ram,
{
    lemma_alu_values();
    raw_wraps(-4i32);
    raw_wraps(100);
    let s13 = run_shift(rom, s12, 12, 4, 5, 1, 30);
    lemma_step(rom, start, 12, s12, s13);
    assert(s13.regs == s12.regs.update(30, 0xffff_ffb0));
    let s14 = run_shift(rom, s13, 13, 4, 5, 5, 31);
    lemma_step(rom, start, 13, s13, s14);
    assert(s14.regs == s13.regs.update(31, 0x0fff_ffff));
    let s15 = run_shift(rom, s14, 14, 0x404, 5, 5, 7);
    lemma_step(rom, start, 14, s14, s15);
    assert(s15.regs == s14.regs.update(7, 0xffff_ffff));
    let s16 = run_imm(rom, s15, 15, -4i32, 5, 2, 8);
    lemma_step(rom, start, 15, s15, s16);
    assert(s16.regs == s15.regs.update(8, 1));
    let s17 = run_imm(rom, s16, 16, 100i32, 5, 3, 9);
    lemma_step(rom, start, 16, s16, s17);
    assert(s17.regs == s16.regs.update(9, 0));
    s17
}

/// Register against constant, and upper immediates.
#[verifier::spinoff_prover]
proof fn alu_constants(rom: Seq<u32>, start: Arch, s17: Arch) -> (end: Arch)
    requires
        rom.len() == 32,
        s17 == steps(rom, start, 17),
        s17.pc == 68,
        s17.regs.len() == 32,
        s17.regs[0] == 0,
        s17.regs[5] == 0xffff_fffb,
        s17.regs[6] == 3,
        rom[17] == itype_word(raw(0x55i32), 5, 4, 18, 0x13),
        rom[18] == itype_word(raw(0x0fi32), 5, 6, 19, 0x13),
        rom[19] == itype_word(raw(0xffi32), 5, 7, 20, 0x13),
        rom[20] == utype_word(0xabcd_e000, 21, 0x37),
        rom[21] == utype_word(0x1000, 22, 0x17),
    ensures
        end == steps(rom, start, 22),
        end.pc == 88,
        end.regs == s17.regs.update(18, 0xffff_ffae).update(19, 0xffff_ffff).update(20, 0xfb)
            .update(21, 0xabcd_e000).update(22, 0x1054),
        end.ram == s17.ram,
{
    lemma_alu_values();
    raw_wraps(0x55);
    raw_wraps(0x0f);
    raw_wraps(0xff);
    let s18 = run_imm(rom, s17, 17, 0x55i32, 5, 4, 18);
    lemma_step(rom, start, 17, s17, s18);
    assert(s18.regs == s17.regs.update(18, 0xffff_ffae));
    let s19 = run_imm(rom, s18, 18, 0x0fi32, 5, 6, 19);
    lemma_step(rom, start, 18, s18, s19);
    assert(s19.regs == s18.regs.update(19, 0xffff_ffff));
    let s20 = run_imm(rom, s19, 19, 0xffi32, 5, 7, 20);
    lemma_step(rom, start, 19, s19, s20);
    assert(s20.regs == s19.regs.update(20, 0xfb));
    let s21 = run_upper(rom, s20, 20, 0xabcd_e000, 21, 0x37);
    lemma_step(rom, start, 20, s20, s21);
    assert(s21.regs == s20.regs.update(21, 0xabcd_e000));
    let s22 = run_upper(rom, s21, 21, 0x1000, 22, 0x17);
    lemma_step(rom, start, 21, s21, s22);
    assert(s22.regs == s21.regs.update(22, 0x1054));
    s22
}

/// The ALU exercise computes every integer operation on -5 and 3, or -5 and a
/// constant, and then spins.
pub proof fn alu_exercise_computes(ram_words: nat, extra: nat)
    ensures
        ({
            let end = steps(padded(alu_exercise_words()), reset_state(ram_words), 22 + extra);
            &&& end.pc == 88
            &&& end.regs[5] == 0xffff_fffb
            &&& end.regs[6] == 3
            &&& end.regs[10] == 0xffff_fffe
            &&& end.regs[11] == 0xffff_fff8
            &&& end.regs[12] == 24
            &&& end.regs[13] == 1
            &&& end.regs[14] == 0
            &&& end.regs[15] == 0xffff_fff8
            &&& end.regs[16] == 0x1fff_ffff
            &&& end.regs[17] == 0xffff_ffff
            &&& end.regs[28] == 0xffff_fffb
            &&& end.regs[29] == 3
            &&& end.regs[30] == 0xffff_ffb0
            &&& end.regs[31] == 0x0fff_ffff
            &&& end.regs[7] == 0xffff_ffff
            &&& end.regs[8] == 1
            &&& end.regs[9] == 0
            &&& end.regs[18] == 0xffff_ffae
            &&& end.regs[19] == 0xffff_ffff
            &&& end.regs[20] == 0xfb
            &&& end.regs[21] == 0xabcd_e000
            &&& end.regs[22] == 0x1054
        }),
{
    let words = alu_exercise_words();
    let rom = padded(words);
    reveal_with_fuel(doubled, 6);
    assert(words.len() == 23);
    assert(rom.len() == 32);
    assert forall|i: int| 0 <= i < 23 implies #[trigger] rom[i] == words[i] by {}
    let start = reset_state(ram_words);
    lemma_alu_values();
    let s6 = alu_setup(rom, start, start);
    let s12 = alu_registers(rom, start, s6);
    let s17 = alu_shifts(rom, start, s12);
    let s22 = alu_constants(rom, start, s17);
    run_spin(rom, s22, 22, extra);
    crate::isa::steps_add_up(rom, start, 22, extra);
}

/// Loads from address `imm`.
proof fn run_load(rom: Seq<u32>, s: Arch, i: int, imm: i32, f3: u32, rd: u32) -> (t: Arch)
    requires
        0 <= i < rom.len() <= 64,
        s.pc == 4 * i,
        0 <= imm < 32,
        s.ram.len() >= 8,
        s.regs[0] == 0,
        rom[i] == itype_word(raw(imm), 0, f3, rd, 0x03),
        f3 < 8,
        rd < 32,
    ensures
        t == step(rom, s),
        t.pc == 4 * i + 4,
        t.ram == s.ram,
        t.regs == written(s.regs, rd, load_value(f3, s.ram[imm as int / 4] >> byte_shift(imm as u32))),
{
    lemma_fetch(rom, s, i);
    raw_wraps(imm);
    itype_holds(raw(imm), 0, f3, rd, 0x03);
    lemma_masks(raw(imm));
    vstd::arithmetic::div_mod::lemma_small_mod((imm as int / 4) as nat, s.ram.len());
    step(rom, s)
}

/// Stores to address `imm`.
proof fn run_store(rom: Seq<u32>, s: Arch, i: int, imm: i32, rs2: u32, f3: u32) -> (t: Arch)
    requires
        0 <= i < rom.len() <= 64,
        s.pc == 4 * i,
        0 <= imm < 32,
        s.ram.len() >= 8,
        s.regs[0] == 0,
        rom[i] == stype_word(raw(imm), rs2, 0, f3),
        rs2 < 32,
        f3 < 8,
    ensures
        t == step(rom, s),
        t.pc == 4 * i + 4,
        t.regs == s.regs,
        t.ram == s.ram.update(
            imm as int / 4,
            store_merge(f3, imm as u32, s.ram[imm as int / 4], s.regs[rs2 as int]),
        ),
{
    lemma_fetch(rom, s, i);
    raw_wraps(imm);
    stype_holds(raw(imm), rs2, 0, f3);
    lemma_masks(raw(imm));
    vstd::arithmetic::div_mod::lemma_small_mod((imm as int / 4) as nat, s.ram.len());
    step(rom, s)
}

/// What the memory exercise stores and loads.
proof fn lemma_memory_values()
    by (bit_vector)
    ensures
        store_merge(2, 8, 0, 0x1234_5678) == 0x1234_5678,
        load_value(2, 0x1234_5678u32 >> byte_shift(8)) == 0x1234_5678,
        load_value(0, 0x1234_5678u32 >> byte_shift(9)) == 0x56,
        load_value(4, 0x1234_5678u32 >> byte_shift(11)) == 0x12,
        load_value(1, 0x1234_5678u32 >> byte_shift(8)) == 0x5678,
        load_value(5, 0x1234_5678u32 >> byte_shift(10)) == 0x1234,
        store_merge(2, 20, 0, 0xfedc_b000) == 0xfedc_b000,
        load_value(0, 0xfedc_b000u32 >> byte_shift(21)) == 0xffff_ffb0,
        load_value(1, 0xfedc_b000u32 >> byte_shift(22)) == 0xffff_fedc,
        store_merge(0, 13, 0, 0x1234_be18) == 0x1800,
        store_merge(1, 18, 0, 0x1234_be18) == 0xbe18_0000,
        load_value(2, 0x1800u32 >> byte_shift(12)) == 0x1800,
        load_value(2, 0xbe18_0000u32 >> byte_shift(16)) == 0xbe18_0000,
{
}

/// A word is stored, and loaded in parts.
#[verifier::spinoff_prover]
proof fn memory_words(rom: Seq<u32>, start: Arch, s0: Arch) -> (end: Arch)
    requires
        rom.len() == 32,
        s0 == steps(rom, start, 0),
        s0.pc == 0,
        s0.regs.len() == 32,
        s0.regs[0] == 0,
        s0.ram.len() >= 8,
        s0.ram[2] == 0,
        rom[0] == utype_word(0x1234_5000, 5, 0x37),
        rom[1] == itype_word(raw(0x678i32), 5, 0, 5, 0x13),
        rom[2] == stype_word(raw(8i32), 5, 0, 2),
        rom[3] == itype_word(raw(8i32), 0, 2, 6, 0x03),
        rom[4] == itype_word(raw(9i32), 0, 0, 7, 0x03),
        rom[5] == itype_word(raw(11i32), 0, 4, 28, 0x03),
    ensures
        end == steps(rom, start, 6),
        end.pc == 24,
        end.regs == s0.regs.update(5, 0x1234_5000).update(5, 0x1234_5678).update(6, 0x1234_5678).update(7, 0x56)
            .update(28, 0x12),
        end.ram == s0.ram.update(2, 0x1234_5678),
{
    lemma_memory_values();
    raw_wraps(0x678);
    let s1 = run_upper(rom, s0, 0, 0x1234_5000, 5, 0x37);
    lemma_step(rom, start, 0, s0, s1);
    assert(s1.regs == s0.regs.update(5, 0x1234_5000));
    let s2 = run_imm(rom, s1, 1, 0x678i32, 5, 0, 5);
    lemma_step(rom, start, 1, s1, s2);
    assert(s2.regs == s1.regs.update(5, 0x1234_5678));
    let s3 = run_store(rom, s2, 2, 8, 5, 2);
    lemma_step(rom, start, 2, s2, s3);
    assert(s3.ram == s2.ram.update(2, 0x1234_5678));
    let s4 = run_load(rom, s3, 3, 8, 2, 6);
    lemma_step(rom, start, 3, s3, s4);
    assert(s4.regs == s3.regs.update(6, 0x1234_5678));
    let s5 = run_load(rom, s4, 4, 9, 0, 7);
    lemma_step(rom, start, 4, s4, s5);
    assert(s5.regs == s4.regs.update(7, 0x56));
    let s6 = run_load(rom, s5, 5, 11, 4, 28);
    lemma_step(rom, start, 5, s5, s6);
    assert(s6.regs == s5.regs.update(28, 0x12));
    s6
}

/// Halves are loaded, and all is added up.
#[verifier::spinoff_prover]
proof fn memory_halves(rom: Seq<u32>, start: Arch, s6: Arch) -> (end: Arch)
    requires
        rom.len() == 32,
        s6 == steps(rom, start, 6),
        s6.pc == 24,
        s6.regs.len() == 32,
        s6.regs[0] == 0,
        s6.ram.len() >= 8,
        s6.ram[2] == 0x1234_5678,
        s6.regs[6] == 0x1234_5678,
        s6.regs[7] == 0x56,
        s6.regs[28] == 0x12,
        rom[6] == itype_word(raw(8i32), 0, 1, 29, 0x03),
        rom[7] == itype_word(raw(10i32), 0, 5, 30, 0x03),
        rom[8] == rtype_word(0, 7, 6, 0, 10, 0x33),
        rom[9] == rtype_word(0, 28, 10, 0, 10, 0x33),
        rom[10] == rtype_word(0, 29, 10, 0, 10, 0x33),
        rom[11] == rtype_word(0, 30, 10, 0, 10, 0x33),
    ensures
        end == steps(rom, start, 12),
        end.pc == 48,
        end.regs == s6.regs.update(29, 0x5678).update(30, 0x1234).update(10, 0x1234_56ce)
            .update(10, 0x1234_56e0).update(10, 0x1234_ad58).update(10, 0x1234_bf8c),
        end.ram == s6.ram,
{
    lemma_memory_values();
    let s7 = run_load(rom, s6, 6, 8, 1, 29);
    lemma_step(rom, start, 6, s6, s7);
    assert(s7.regs == s6.regs.update(29, 0x5678));
    let s8 = run_load(rom, s7, 7, 10, 5, 30);
    lemma_step(rom, start, 7, s7, s8);
    assert(s8.regs == s7.regs.update(30, 0x1234));
    let s9 = run_op(rom, s8, 8, 0, 7, 6, 0, 10);
    lemma_step(rom, start, 8, s8, s9);
    assert(s9.regs == s8.regs.update(10, 0x1234_56ce));
    let s10 = run_op(rom, s9, 9, 0, 28, 10, 0, 10);
    lemma_step(rom, start, 9, s9, s10);
    assert(s10.regs == s9.regs.update(10, 0x1234_56e0));
    let s11 = run_op(rom, s10, 10, 0, 29, 10, 0, 10);
    lemma_step(rom, start, 10, s10, s11);
    assert(s11.regs == s10.regs.update(10, 0x1234_ad58));
    let s12 = run_op(rom, s11, 11, 0, 30, 10, 0, 10);
    lemma_step(rom, start, 11, s11, s12);
    assert(s12.regs == s11.regs.update(10, 0x1234_bf8c));
    s12
}

/// Negative parts are loaded.
#[verifier::spinoff_prover]
proof fn memory_signs(rom: Seq<u32>, start: Arch, s12: Arch) -> (end: Arch)
    requires
        rom.len() == 32,
        s12 == steps(rom, start, 12),
        s12.pc == 48,
        s12.regs.len() == 32,
        s12.regs[0] == 0,
        s12.ram.len() >= 8,
        s12.ram[5] == 0,
        s12.regs[10] == 0x1234_bf8c,
        rom[12] == utype_word(0xfedc_b000, 31, 0x37),
        rom[13] == stype_word(raw(20i32), 31, 0, 2),
        rom[14] == itype_word(raw(21i32), 0, 0, 8, 0x03),
        rom[15] == itype_word(raw(22i32), 0, 1, 9, 0x03),
        rom[16] == rtype_word(0, 8, 10, 0, 10, 0x33),
        rom[17] == rtype_word(0, 9, 10, 0, 10, 0x33),
    ensures
        end == steps(rom, start, 18),
        end.pc == 72,
        end.regs == s12.regs.update(31, 0xfedc_b000).update(8, 0xffff_ffb0).update(9, 0xffff_fedc)
            .update(10, 0x1234_bf3c).update(10, 0x1234_be18),
        end.ram == s12.ram.update(5, 0xfedc_b000),
{
    lemma_memory_values();
    let s13 = run_upper(rom, s12, 12, 0xfedc_b000, 31, 0x37);
    lemma_step(rom, start, 12, s12, s13);
    assert(s13.regs == s12.regs.update(31, 0xfedc_b000));
    let s14 = run_store(rom, s13, 13, 20, 31, 2);
    lemma_step(rom, start, 13, s13, s14);
    assert(s14.ram == s13.ram.update(5, 0xfedc_b000));
    let s15 = run_load(rom, s14, 14, 21, 0, 8);
    lemma_step(rom, start, 14, s14, s15);
    assert(s15.regs == s14.regs.update(8, 0xffff_ffb0));
    let s16 = run_load(rom, s15, 15, 22, 1, 9);
    lemma_step(rom, start, 15, s15, s16);
    assert(s16.regs == s15.regs.update(9, 0xffff_fedc));
    let s17 = run_op(rom, s16, 16, 0, 8, 10, 0, 10);
    lemma_step(rom, start, 16, s16, s17);
    assert(s17.regs == s16.regs.update(10, 0x1234_bf3c));
    let s18 = run_op(rom, s17, 17, 0, 9, 10, 0, 10);
    lemma_step(rom, start, 17, s17, s18);
    assert(s18.regs == s17.regs.update(10, 0x1234_be18));
    s18
}

/// A byte and a half are stored, and loaded as words.
#[verifier::spinoff_prover]
proof fn memory_parts(rom: Seq<u32>, start: Arch, s18: Arch) -> (end: Arch)
    requires
        rom.len() == 32,
        s18 == steps(rom, start, 18),
        s18.pc == 72,
        s18.regs.len() == 32,
        s18.regs[0] == 0,
        s18.ram.len() >= 8,
        s18.ram[3] == 0,
        s18.ram[4] == 0,
        s18.regs[10] == 0x1234_be18,
        rom[18] == stype_word(raw(13i32), 10, 0, 0),
        rom[19] == stype_word(raw(18i32), 10, 0, 1),
        rom[20] == itype_word(raw(12i32), 0, 2, 11, 0x03),
        rom[21] == itype_word(raw(16i32), 0, 2, 12, 0x03),
        rom[22] == rtype_word(0, 12, 11, 0, 10, 0x33),
    ensures
        end == steps(rom, start, 23),
        end.pc == 92,
        end.regs == s18.regs.update(11, 0x1800).update(12, 0xbe18_0000).update(10, 0xbe18_1800),
        end.ram == s18.ram.update(3, 0x1800).update(4, 0xbe18_0000),
{
    lemma_memory_values();
    let s19 = run_store(rom, s18, 18, 13, 10, 0);
    lemma_step(rom, start, 18, s18, s19);
    assert(s19.ram == s18.ram.update(3, 0x1800));
    let s20 = run_store(rom, s19, 19, 18, 10, 1);
    lemma_step(rom, start, 19, s19, s20);
    assert(s20.ram == s19.ram.update(4, 0xbe18_0000));
    let s21 = run_load(rom, s20, 20, 12, 2, 11);
    lemma_step(rom, start, 20, s20, s21);
    assert(s21.regs == s20.regs.update(11, 0x1800));
    let s22 = run_load(rom, s21, 21, 16, 2, 12);
    lemma_step(rom, start, 21, s21, s22);
    assert(s22.regs == s21.regs.update(12, 0xbe18_0000));
    let s23 = run_op(rom, s22, 22, 0, 12, 11, 0, 10);
    lemma_step(rom, start, 22, s22, s23);
    assert(s23.regs == s22.regs.update(10, 0xbe18_1800));
    s23
}

/// The memory exercise stores words, halves and bytes, loads them back with and
/// without sign, and then spins.
pub proof fn memory_exercise_loads_what_it_stores(ram_words: nat, extra: nat)
    requires
        ram_words >= 8,
    ensures
        ({
            let end = steps(padded(memory_exercise_words()), reset_state(ram_words), 23 + extra);
            &&& end.pc == 92
            &&& end.regs[6] == 0x1234_5678
            &&& end.regs[7] == 0x56
            &&& end.regs[28] == 0x12
            &&& end.regs[29] == 0x5678
            &&& end.regs[30] == 0x1234
            &&& end.regs[31] == 0xfedc_b000
            &&& end.regs[8] == 0xffff_ffb0
            &&& end.regs[9] == 0xffff_fedc
            &&& end.regs[11] == 0x1800
            &&& end.regs[12] == 0xbe18_0000
            &&& end.regs[10] == 0xbe18_1800
            &&& end.ram[2] == 0x1234_5678
            &&& end.ram[3] == 0x1800
            &&& end.ram[4] == 0xbe18_0000
            &&& end.ram[5] == 0xfedc_b000
        }),
{
    let words = memory_exercise_words();
    let rom = padded(words);
    reveal_with_fuel(doubled, 6);
    assert(words.len() == 24);
    assert(rom.len() == 32);
    assert forall|i: int| 0 <= i < 24 implies #[trigger] rom[i] == words[i] by {}
    let start = reset_state(ram_words);
    let s6 = memory_words(rom, start, start);
    let s12 = memory_halves(rom, start, s6);
    let s18 = memory_signs(rom, start, s12);
    let s23 = memory_parts(rom, start, s18);
    run_spin(rom, s23, 23, extra);
    crate::isa::steps_add_up(rom, start, 23, extra);
}

} // verus!
