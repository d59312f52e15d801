//! Small RV32I programs used by tests and benchmarks.
use vstd::prelude::*;

use crate::assembler::{
    addi, and, andi, auipc, beq, bge, bgeu, blt, bltu, bne, jal, jalr, lb, lbu, lh, lhu, lui, lw, or, ori, sb, sh, sll, slli, slt, slti, sltiu, sltu, sra, srai, srl, srli, sw, xor, xori,
    btype_word, itype_word, jtype_word, raw, rtype_word, stype_word, utype_word,
};

verus! {

/// The words of [`fib_forever`].
pub open spec fn fib_forever_words() -> Seq<u32> {
    seq![
        itype_word(raw(0i32), 0, 0b000, 10, 0b0010011),
        itype_word(raw(1i32), 0, 0b000, 11, 0b0010011),
        rtype_word(0, 11, 10, 0b000, 12, 0b0110011),
        itype_word(raw(0i32), 11, 0b000, 10, 0b0010011),
        itype_word(raw(0i32), 12, 0b000, 11, 0b0010011),
        jtype_word(raw(-12i32), 0),
    ]
}

/// Endless Fibonacci: every tick retires a useful instruction forever, so
/// throughput benchmarks never run out of work.
///
/// ```text
/// addi a0, x0, 0
/// addi a1, x0, 1
/// loop: add a2, a0, a1
///       addi a0, a1, 0
///       addi a1, a2, 0
///       jal x0, loop
/// ```
pub fn fib_forever() -> (words: Vec<u32>)
    ensures
        words@ == fib_forever_words(),
{
    let words = vec![
        addi(10, 0, 0),
        addi(11, 0, 1),
        crate::assembler::add(12, 10, 11),
        addi(10, 11, 0),
        addi(11, 12, 0),
        jal(0, -12),
    ];
    assert(words@ =~= fib_forever_words());
    words
}

/// The words of [`fib_terminating`].
pub open spec fn fib_terminating_words(n: i32) -> Seq<u32> {
    seq![
        itype_word(raw(0i32), 0, 0b000, 10, 0b0010011),
        itype_word(raw(1i32), 0, 0b000, 11, 0b0010011),
        itype_word(raw(n), 0, 0b000, 5, 0b0010011),
        btype_word(raw(24i32), 0, 5, 0b000),
        rtype_word(0, 11, 10, 0b000, 12, 0b0110011),
        itype_word(raw(0i32), 11, 0b000, 10, 0b0010011),
        itype_word(raw(0i32), 12, 0b000, 11, 0b0010011),
        itype_word(raw(-1i32), 5, 0b000, 5, 0b0010011),
        jtype_word(raw(-20i32), 0),
        jtype_word(raw(0i32), 0),
    ]
}

/// Compute `fib(n)` into `a0`, then spin in place. `fib(20) == 6765`.
pub fn fib_terminating(n: i32) -> (words: Vec<u32>)
    ensures
        words@ == fib_terminating_words(n),
{
    let words = vec![
        addi(10, 0, 0), //  0: a0 = 0
        addi(11, 0, 1), //  4: a1 = 1
        addi(5, 0, n), //  8: t0 = n
        beq(5, 0, 24), // 12: while t0 != 0 {
        crate::assembler::add(12, 10, 11), // 16:   a2 = a0 + a1
        addi(10, 11, 0), // 20:   a0 = a1
        addi(11, 12, 0), // 24:   a1 = a2
        addi(5, 5, -1), // 28:   t0 -= 1
        jal(0, -20), // 32: }
        jal(0, 0), // 36: halt
    ];
    assert(words@ =~= fib_terminating_words(n));
    words
}

/// The words of [`memory_exercise`].
pub open spec fn memory_exercise_words() -> Seq<u32> {
    seq![
        utype_word(0x1234_5000, 5, 0b0110111),
        itype_word(raw(0x678i32), 5, 0b000, 5, 0b0010011),
        stype_word(raw(8i32), 5, 0, 0b010),
        itype_word(raw(8i32), 0, 0b010, 6, 0b0000011),
        itype_word(raw(9i32), 0, 0b000, 7, 0b0000011),
        itype_word(raw(11i32), 0, 0b100, 28, 0b0000011),
        itype_word(raw(8i32), 0, 0b001, 29, 0b0000011),
        itype_word(raw(10i32), 0, 0b101, 30, 0b0000011),
        rtype_word(0, 7, 6, 0b000, 10, 0b0110011),
        rtype_word(0, 28, 10, 0b000, 10, 0b0110011),
        rtype_word(0, 29, 10, 0b000, 10, 0b0110011),
        rtype_word(0, 30, 10, 0b000, 10, 0b0110011),
        utype_word(0xfedc_b000, 31, 0b0110111),
        stype_word(raw(20i32), 31, 0, 0b010),
        itype_word(raw(21i32), 0, 0b000, 8, 0b0000011),
        itype_word(raw(22i32), 0, 0b001, 9, 0b0000011),
        rtype_word(0, 8, 10, 0b000, 10, 0b0110011),
        rtype_word(0, 9, 10, 0b000, 10, 0b0110011),
        stype_word(raw(13i32), 10, 0, 0b000),
        stype_word(raw(18i32), 10, 0, 0b001),
        itype_word(raw(12i32), 0, 0b010, 11, 0b0000011),
        itype_word(raw(16i32), 0, 0b010, 12, 0b0000011),
        rtype_word(0, 12, 11, 0b000, 10, 0b0110011),
        jtype_word(raw(0i32), 0),
    ]
}

/// Every load/store width and sign mode, including a negative byte and a
/// misaligned-by-design halfword lane.
pub fn memory_exercise() -> (words: Vec<u32>)
    ensures
        words@ == memory_exercise_words(),
{
    let words = vec![
        lui(5, 0x1234_5000), // t0 = 0x12345000
        addi(5, 5, 0x678), // t0 = 0x12345678
        sw(0, 5, 8),
        lw(6, 0, 8), // t1 = 0x12345678
        lb(7, 0, 9), // t2 = 0x56
        lbu(28, 0, 11), // t3 = 0x12
        lh(29, 0, 8), // t4 = 0x5678
        lhu(30, 0, 10), // t5 = 0x1234
        crate::assembler::add(10, 6, 7),
        crate::assembler::add(10, 10, 28),
        crate::assembler::add(10, 10, 29),
        crate::assembler::add(10, 10, 30),
        lui(31, 0xfedc_b000), // t6: negative bytes
        sw(0, 31, 20),
        lb(8, 0, 21), // 0xffffffb0 (sign extension)
        lh(9, 0, 22), // 0xfffffedc
        crate::assembler::add(10, 10, 8),
        crate::assembler::add(10, 10, 9),
        sb(0, 10, 13),
        sh(0, 10, 18),
        lw(11, 0, 12),
        lw(12, 0, 16),
        crate::assembler::add(10, 11, 12),
        jal(0, 0), // halt
    ];
    assert(words@ =~= memory_exercise_words());
    words
}

/// The words of [`alu_exercise`].
pub open spec fn alu_exercise_words() -> Seq<u32> {
    seq![
        itype_word(raw(-5i32), 0, 0b000, 5, 0b0010011),
        itype_word(raw(3i32), 0, 0b000, 6, 0b0010011),
        rtype_word(0, 6, 5, 0b000, 10, 0b0110011),
        rtype_word(32, 6, 5, 0b000, 11, 0b0110011),
        rtype_word(0, 6, 6, 0b001, 12, 0b0110011),
        rtype_word(0, 6, 5, 0b010, 13, 0b0110011),
        rtype_word(0, 6, 5, 0b011, 14, 0b0110011),
        rtype_word(0, 6, 5, 0b100, 15, 0b0110011),
        rtype_word(0, 6, 5, 0b101, 16, 0b0110011),
        rtype_word(32, 6, 5, 0b101, 17, 0b0110011),
        rtype_word(0, 6, 5, 0b110, 28, 0b0110011),
        rtype_word(0, 6, 5, 0b111, 29, 0b0110011),
        itype_word(4, 5, 0b001, 30, 0b0010011),
        itype_word(4, 5, 0b101, 31, 0b0010011),
        itype_word(0x400u32 | 4, 5, 0b101, 7, 0b0010011),
        itype_word(raw(-4i32), 5, 0b010, 8, 0b0010011),
        itype_word(raw(100i32), 5, 0b011, 9, 0b0010011),
        itype_word(raw(0x55i32), 5, 0b100, 18, 0b0010011),
        itype_word(raw(0x0fi32), 5, 0b110, 19, 0b0010011),
        itype_word(raw(0xffi32), 5, 0b111, 20, 0b0010011),
        utype_word(0xabcd_e000, 21, 0b0110111),
        utype_word(0x0000_1000, 22, 0b0010111),
        jtype_word(raw(0i32), 0),
    ]
}

/// Every OP and OP-IMM form, both funct7 variants, plus LUI/AUIPC.
pub fn alu_exercise() -> (words: Vec<u32>)
    ensures
        words@ == alu_exercise_words(),
{
    let words = vec![
        addi(5, 0, -5),
        addi(6, 0, 3),
        crate::assembler::add(10, 5, 6),
        crate::assembler::sub(11, 5, 6),
        sll(12, 6, 6),
        slt(13, 5, 6),
        sltu(14, 5, 6),
        xor(15, 5, 6),
        srl(16, 5, 6),
        sra(17, 5, 6),
        or(28, 5, 6),
        and(29, 5, 6),
        slli(30, 5, 4),
        srli(31, 5, 4),
        srai(7, 5, 4),
        slti(8, 5, -4),
        sltiu(9, 5, 100),
        xori(18, 5, 0x55),
        ori(19, 5, 0x0f),
        andi(20, 5, 0xff),
        lui(21, 0xabcd_e000),
        auipc(22, 0x0000_1000),
        jal(0, 0),
    ];
    assert(words@ =~= alu_exercise_words());
    words
}

/// The words of [`branch_exercise`].
pub open spec fn branch_exercise_words() -> Seq<u32> {
    seq![
        itype_word(raw(-1i32), 0, 0b000, 5, 0b0010011),
        itype_word(raw(1i32), 0, 0b000, 6, 0b0010011),
        btype_word(raw(8i32), 6, 5, 0b100),
        itype_word(raw(111i32), 0, 0b000, 10, 0b0010011),
        btype_word(raw(8i32), 6, 5, 0b110),
        itype_word(raw(1i32), 0, 0b000, 11, 0b0010011),
        btype_word(raw(8i32), 5, 6, 0b101),
        itype_word(raw(222i32), 0, 0b000, 12, 0b0010011),
        btype_word(raw(8i32), 5, 6, 0b111),
        itype_word(raw(2i32), 0, 0b000, 13, 0b0010011),
        btype_word(raw(8i32), 6, 5, 0b001),
        itype_word(raw(333i32), 0, 0b000, 14, 0b0010011),
        btype_word(raw(8i32), 5, 5, 0b000),
        itype_word(raw(444i32), 0, 0b000, 15, 0b0010011),
        jtype_word(raw(8i32), 1),
        itype_word(raw(555i32), 0, 0b000, 16, 0b0010011),
        utype_word(0, 7, 0b0010111),
        itype_word(raw(16i32), 7, 0b000, 1, 0b1100111),
    ]
}

/// Every branch kind, taken and not taken, plus JAL/JALR linking.
pub fn branch_exercise() -> (words: Vec<u32>)
    ensures
        words@ == branch_exercise_words(),
{
    let words = vec![
        addi(5, 0, -1), //  0: t0 = -1 (0xffffffff unsigned)
        addi(6, 0, 1), //  4: t1 = 1
        blt(5, 6, 8), //  8: taken (signed)
        addi(10, 0, 111), // 12: skipped
        bltu(5, 6, 8), // 16: not taken (unsigned)
        addi(11, 0, 1), // 20: executed
        bge(6, 5, 8), // 24: taken
        addi(12, 0, 222), // 28: skipped
        bgeu(6, 5, 8), // 32: not taken
        addi(13, 0, 2), // 36: executed
        bne(5, 6, 8), // 40: taken
        addi(14, 0, 333), // 44: skipped
        beq(5, 5, 8), // 48: taken
        addi(15, 0, 444), // 52: skipped
        jal(1, 8), // 56: ra = 60, jump to 64
        addi(16, 0, 555), // 60: skipped
        auipc(7, 0), // 64: t2 = 64
        jalr(1, 7, 16), // 68: ra = 72, jump to 80 (halt padding)
    ];
    assert(words@ =~= branch_exercise_words());
    words
}

} // verus!
