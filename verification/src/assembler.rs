//! Minimal RV32I assembler: instruction-word encoders for programs, tests
//! and benchmarks. Registers are plain numbers (`x0..x31`), branch and jump
//! offsets are byte offsets relative to the instruction itself.
use vstd::prelude::*;

use crate::isa::{
    bit_of, f3_of, imm_b, imm_i, imm_j, imm_s, imm_u, opcode_of, rd_of, rs1_of, rs2_of,
};

verus! {

/// The two's complement bits of a signed number.
pub open spec fn raw(imm: i32) -> u32 {
    imm as u32
}

fn raw_bits(imm: i32) -> (v: u32)
    ensures
        v == raw(imm),
{
    #[verifier::truncate]
    let v: u32 = imm as u32;
    v
}

/// Register-register format.
pub open spec fn rtype_word(funct7: u32, rs2: u32, rs1: u32, funct3: u32, rd: u32, opcode: u32) -> u32 {
    funct7 << 25 | rs2 << 20 | rs1 << 15 | funct3 << 12 | rd << 7 | opcode
}

/// Register-immediate format.
pub open spec fn itype_word(imm: u32, rs1: u32, funct3: u32, rd: u32, opcode: u32) -> u32 {
    (imm & 0xfff) << 20 | rs1 << 15 | funct3 << 12 | rd << 7 | opcode
}

/// Store format.
pub open spec fn stype_word(imm: u32, rs2: u32, rs1: u32, funct3: u32) -> u32 {
    (imm >> 5 & 0x7f) << 25 | rs2 << 20 | rs1 << 15 | funct3 << 12 | (imm & 0x1f) << 7 | 0b0100011
}

/// Branch format.
pub open spec fn btype_word(imm: u32, rs2: u32, rs1: u32, funct3: u32) -> u32 {
    (imm >> 12 & 1) << 31 | (imm >> 5 & 0x3f) << 25 | rs2 << 20 | rs1 << 15 | funct3 << 12 | (imm >> 1
        & 0xf) << 8 | (imm >> 11 & 1) << 7 | 0b1100011
}

/// Upper-immediate format.
pub open spec fn utype_word(value: u32, rd: u32, opcode: u32) -> u32 {
    (value & 0xffff_f000) | rd << 7 | opcode
}

/// Jump format.
pub open spec fn jtype_word(imm: u32, rd: u32) -> u32 {
    (imm >> 20 & 1) << 31 | (imm >> 1 & 0x3ff) << 21 | (imm >> 11 & 1) << 20 | (imm >> 12 & 0xff) << 12 | rd
        << 7 | 0b1101111
}

fn rtype(funct7: u32, rs2: u32, rs1: u32, funct3: u32, rd: u32, opcode: u32) -> (w: u32)
    ensures
        w == rtype_word(funct7, rs2, rs1, funct3, rd, opcode),
{
    funct7 << 25 | rs2 << 20 | rs1 << 15 | funct3 << 12 | rd << 7 | opcode
}

fn itype(imm: i32, rs1: u32, funct3: u32, rd: u32, opcode: u32) -> (w: u32)
    ensures
        w == itype_word(raw(imm), rs1, funct3, rd, opcode),
{
    (raw_bits(imm) & 0xfff) << 20 | rs1 << 15 | funct3 << 12 | rd << 7 | opcode
}

fn stype(imm: i32, rs2: u32, rs1: u32, funct3: u32) -> (w: u32)
    ensures
        w == stype_word(raw(imm), rs2, rs1, funct3),
{
    let imm: u32 = raw_bits(imm);
    (imm >> 5 & 0x7f) << 25 | rs2 << 20 | rs1 << 15 | funct3 << 12 | (imm & 0x1f) << 7 | 0b0100011
}

fn btype(offset: i32, rs2: u32, rs1: u32, funct3: u32) -> (w: u32)
    ensures
        w == btype_word(raw(offset), rs2, rs1, funct3),
{
    let imm: u32 = raw_bits(offset);
    (imm >> 12 & 1) << 31 | (imm >> 5 & 0x3f) << 25 | rs2 << 20 | rs1 << 15 | funct3 << 12 | (imm >> 1
        & 0xf) << 8 | (imm >> 11 & 1) << 7 | 0b1100011
}

// OP-IMM

pub fn addi(rd: u32, rs1: u32, imm: i32) -> (w: u32)
    ensures
        w == itype_word(raw(imm), rs1, 0b000, rd, 0b0010011),
{
    itype(imm, rs1, 0b000, rd, 0b0010011)
}

pub fn slti(rd: u32, rs1: u32, imm: i32) -> (w: u32)
    ensures
        w == itype_word(raw(imm), rs1, 0b010, rd, 0b0010011),
{
    itype(imm, rs1, 0b010, rd, 0b0010011)
}

pub fn sltiu(rd: u32, rs1: u32, imm: i32) -> (w: u32)
    ensures
        w == itype_word(raw(imm), rs1, 0b011, rd, 0b0010011),
{
    itype(imm, rs1, 0b011, rd, 0b0010011)
}

pub fn xori(rd: u32, rs1: u32, imm: i32) -> (w: u32)
    ensures
        w == itype_word(raw(imm), rs1, 0b100, rd, 0b0010011),
{
    itype(imm, rs1, 0b100, rd, 0b0010011)
}

pub fn ori(rd: u32, rs1: u32, imm: i32) -> (w: u32)
    ensures
        w == itype_word(raw(imm), rs1, 0b110, rd, 0b0010011),
{
    itype(imm, rs1, 0b110, rd, 0b0010011)
}

pub fn andi(rd: u32, rs1: u32, imm: i32) -> (w: u32)
    ensures
        w == itype_word(raw(imm), rs1, 0b111, rd, 0b0010011),
{
    itype(imm, rs1, 0b111, rd, 0b0010011)
}

pub fn slli(rd: u32, rs1: u32, shamt: u32) -> (w: u32)
    ensures
        w == itype_word(shamt, rs1, 0b001, rd, 0b0010011),
{
    (shamt & 0xfff) << 20 | rs1 << 15 | 0b001 << 12 | rd << 7 | 0b0010011
}

pub fn srli(rd: u32, rs1: u32, shamt: u32) -> (w: u32)
    ensures
        w == itype_word(shamt, rs1, 0b101, rd, 0b0010011),
{
    (shamt & 0xfff) << 20 | rs1 << 15 | 0b101 << 12 | rd << 7 | 0b0010011
}

pub fn srai(rd: u32, rs1: u32, shamt: u32) -> (w: u32)
    ensures
        w == itype_word(0x400 | shamt, rs1, 0b101, rd, 0b0010011),
{
    ((0x400 | shamt) & 0xfff) << 20 | rs1 << 15 | 0b101 << 12 | rd << 7 | 0b0010011
}

// OP

pub fn add(rd: u32, rs1: u32, rs2: u32) -> (w: u32)
    ensures
        w == rtype_word(0, rs2, rs1, 0b000, rd, 0b0110011),
{
    rtype(0, rs2, rs1, 0b000, rd, 0b0110011)
}

pub fn sub(rd: u32, rs1: u32, rs2: u32) -> (w: u32)
    ensures
        w == rtype_word(32, rs2, rs1, 0b000, rd, 0b0110011),
{
    rtype(32, rs2, rs1, 0b000, rd, 0b0110011)
}

pub fn sll(rd: u32, rs1: u32, rs2: u32) -> (w: u32)
    ensures
        w == rtype_word(0, rs2, rs1, 0b001, rd, 0b0110011),
{
    rtype(0, rs2, rs1, 0b001, rd, 0b0110011)
}

pub fn slt(rd: u32, rs1: u32, rs2: u32) -> (w: u32)
    ensures
        w == rtype_word(0, rs2, rs1, 0b010, rd, 0b0110011),
{
    rtype(0, rs2, rs1, 0b010, rd, 0b0110011)
}

pub fn sltu(rd: u32, rs1: u32, rs2: u32) -> (w: u32)
    ensures
        w == rtype_word(0, rs2, rs1, 0b011, rd, 0b0110011),
{
    rtype(0, rs2, rs1, 0b011, rd, 0b0110011)
}

pub fn xor(rd: u32, rs1: u32, rs2: u32) -> (w: u32)
    ensures
        w == rtype_word(0, rs2, rs1, 0b100, rd, 0b0110011),
{
    rtype(0, rs2, rs1, 0b100, rd, 0b0110011)
}

pub fn srl(rd: u32, rs1: u32, rs2: u32) -> (w: u32)
    ensures
        w == rtype_word(0, rs2, rs1, 0b101, rd, 0b0110011),
{
    rtype(0, rs2, rs1, 0b101, rd, 0b0110011)
}

pub fn sra(rd: u32, rs1: u32, rs2: u32) -> (w: u32)
    ensures
        w == rtype_word(32, rs2, rs1, 0b101, rd, 0b0110011),
{
    rtype(32, rs2, rs1, 0b101, rd, 0b0110011)
}

pub fn or(rd: u32, rs1: u32, rs2: u32) -> (w: u32)
    ensures
        w == rtype_word(0, rs2, rs1, 0b110, rd, 0b0110011),
{
    rtype(0, rs2, rs1, 0b110, rd, 0b0110011)
}

pub fn and(rd: u32, rs1: u32, rs2: u32) -> (w: u32)
    ensures
        w == rtype_word(0, rs2, rs1, 0b111, rd, 0b0110011),
{
    rtype(0, rs2, rs1, 0b111, rd, 0b0110011)
}

// Upper immediates and jumps

/// `value`'s upper 20 bits are kept, low 12 dropped (as the ISA does).
pub fn lui(rd: u32, value: u32) -> (w: u32)
    ensures
        w == utype_word(value, rd, 0b0110111),
{
    (value & 0xffff_f000) | rd << 7 | 0b0110111
}

pub fn auipc(rd: u32, value: u32) -> (w: u32)
    ensures
        w == utype_word(value, rd, 0b0010111),
{
    (value & 0xffff_f000) | rd << 7 | 0b0010111
}

pub fn jal(rd: u32, offset: i32) -> (w: u32)
    ensures
        w == jtype_word(raw(offset), rd),
{
    let imm: u32 = raw_bits(offset);
    (imm >> 20 & 1) << 31 | (imm >> 1 & 0x3ff) << 21 | (imm >> 11 & 1) << 20 | (imm >> 12 & 0xff) << 12 | rd
        << 7 | 0b1101111
}

pub fn jalr(rd: u32, rs1: u32, imm: i32) -> (w: u32)
    ensures
        w == itype_word(raw(imm), rs1, 0b000, rd, 0b1100111),
{
    itype(imm, rs1, 0b000, rd, 0b1100111)
}

// Branches

pub fn beq(rs1: u32, rs2: u32, offset: i32) -> (w: u32)
    ensures
        w == btype_word(raw(offset), rs2, rs1, 0b000),
{
    btype(offset, rs2, rs1, 0b000)
}

pub fn bne(rs1: u32, rs2: u32, offset: i32) -> (w: u32)
    ensures
        w == btype_word(raw(offset), rs2, rs1, 0b001),
{
    btype(offset, rs2, rs1, 0b001)
}

pub fn blt(rs1: u32, rs2: u32, offset: i32) -> (w: u32)
    ensures
        w == btype_word(raw(offset), rs2, rs1, 0b100),
{
    btype(offset, rs2, rs1, 0b100)
}

pub fn bge(rs1: u32, rs2: u32, offset: i32) -> (w: u32)
    ensures
        w == btype_word(raw(offset), rs2, rs1, 0b101),
{
    btype(offset, rs2, rs1, 0b101)
}

pub fn bltu(rs1: u32, rs2: u32, offset: i32) -> (w: u32)
    ensures
        w == btype_word(raw(offset), rs2, rs1, 0b110),
{
    btype(offset, rs2, rs1, 0b110)
}

pub fn bgeu(rs1: u32, rs2: u32, offset: i32) -> (w: u32)
    ensures
        w == btype_word(raw(offset), rs2, rs1, 0b111),
{
    btype(offset, rs2, rs1, 0b111)
}

// Loads and stores

pub fn lb(rd: u32, rs1: u32, imm: i32) -> (w: u32)
    ensures
        w == itype_word(raw(imm), rs1, 0b000, rd, 0b0000011),
{
    itype(imm, rs1, 0b000, rd, 0b0000011)
}

pub fn lh(rd: u32, rs1: u32, imm: i32) -> (w: u32)
    ensures
        w == itype_word(raw(imm), rs1, 0b001, rd, 0b0000011),
{
    itype(imm, rs1, 0b001, rd, 0b0000011)
}

pub fn lw(rd: u32, rs1: u32, imm: i32) -> (w: u32)
    ensures
        w == itype_word(raw(imm), rs1, 0b010, rd, 0b0000011),
{
    itype(imm, rs1, 0b010, rd, 0b0000011)
}

pub fn lbu(rd: u32, rs1: u32, imm: i32) -> (w: u32)
    ensures
        w == itype_word(raw(imm), rs1, 0b100, rd, 0b0000011),
{
    itype(imm, rs1, 0b100, rd, 0b0000011)
}

pub fn lhu(rd: u32, rs1: u32, imm: i32) -> (w: u32)
    ensures
        w == itype_word(raw(imm), rs1, 0b101, rd, 0b0000011),
{
    itype(imm, rs1, 0b101, rd, 0b0000011)
}

pub fn sb(rs1: u32, rs2: u32, imm: i32) -> (w: u32)
    ensures
        w == stype_word(raw(imm), rs2, rs1, 0b000),
{
    stype(imm, rs2, rs1, 0b000)
}

pub fn sh(rs1: u32, rs2: u32, imm: i32) -> (w: u32)
    ensures
        w == stype_word(raw(imm), rs2, rs1, 0b001),
{
    stype(imm, rs2, rs1, 0b001)
}

pub fn sw(rs1: u32, rs2: u32, imm: i32) -> (w: u32)
    ensures
        w == stype_word(raw(imm), rs2, rs1, 0b010),
{
    stype(imm, rs2, rs1, 0b010)
}

/// Two's complement: a negative number stands for itself plus 2^32.
pub proof fn raw_wraps(imm: i32)
    by (bit_vector)
    ensures
        raw(imm) == if imm < 0 {
            imm + 0x1_0000_0000
        } else {
            imm + 0
        },
{
}

/// The words, bit by bit and for all arguments: every format joins its fields,
/// each shifted to its place. Immediates are cut to the bits that the format
/// holds.
pub proof fn words_join_their_fields(
    funct7: u32,
    rs2: u32,
    rs1: u32,
    funct3: u32,
    rd: u32,
    opcode: u32,
    imm: u32,
    i: u32,
)
    by (bit_vector)
    requires
        i < 32,
    ensures
        (rtype_word(funct7, rs2, rs1, funct3, rd, opcode) >> i) & 1 == 1 <==> ((i >= 25 && (funct7 >> ((i
            - 25) as u32)) & 1 == 1) || (i >= 20 && (rs2 >> ((i - 20) as u32)) & 1 == 1) || (i >= 15 && (rs1 >> ((i
            - 15) as u32)) & 1 == 1) || (i >= 12 && (funct3 >> ((i - 12) as u32)) & 1 == 1) || (i >= 7 && (rd >> ((i
            - 7) as u32)) & 1 == 1) || (opcode >> i) & 1 == 1),
        (itype_word(imm, rs1, funct3, rd, opcode) >> i) & 1 == 1 <==> ((i >= 20 && (imm >> ((i - 20) as u32)) & 1 == 1)
            || (i >= 15 && (rs1 >> ((i - 15) as u32)) & 1 == 1) || (i >= 12 && (funct3 >> ((i - 12) as u32)) & 1 == 1)
            || (i >= 7 && (rd >> ((i - 7) as u32)) & 1 == 1) || (opcode >> i) & 1 == 1),
        (stype_word(imm, rs2, rs1, funct3) >> i) & 1 == 1 <==> ((i >= 25 && (imm >> ((i - 20) as u32)) & 1 == 1) || (i
            >= 20 && (rs2 >> ((i - 20) as u32)) & 1 == 1) || (i >= 15 && (rs1 >> ((i - 15) as u32)) & 1 == 1) || (i
            >= 12 && (funct3 >> ((i - 12) as u32)) & 1 == 1) || (i >= 7 && i < 12 && (imm >> ((i - 7) as u32)) & 1
            == 1) || i == 0 || i == 1 || i == 5),
        (btype_word(imm, rs2, rs1, funct3) >> i) & 1 == 1 <==> ((i == 31 && (imm >> 12u32) & 1 == 1) || (i >= 25 && i
            < 31 && (imm >> ((i - 20) as u32)) & 1 == 1) || (i >= 20 && (rs2 >> ((i - 20) as u32)) & 1 == 1) || (i
            >= 15 && (rs1 >> ((i - 15) as u32)) & 1 == 1) || (i >= 12 && (funct3 >> ((i - 12) as u32)) & 1 == 1) || (i
            >= 8 && i < 12 && (imm >> ((i - 7) as u32)) & 1 == 1) || (i == 7 && (imm >> 11u32) & 1 == 1) || i == 0 || i
            == 1 || i == 5 || i == 6),
        (utype_word(imm, rd, opcode) >> i) & 1 == 1 <==> ((i >= 12 && (imm >> i) & 1 == 1) || (i >= 7 && (rd >> ((i
            - 7) as u32)) & 1 == 1) || (opcode >> i) & 1 == 1),
        (jtype_word(imm, rd) >> i) & 1 == 1 <==> ((i == 31 && (imm >> 20u32) & 1 == 1) || (i >= 21 && i < 31 && (imm
            >> ((i - 20) as u32)) & 1 == 1) || (i == 20 && (imm >> 11u32) & 1 == 1) || (i >= 12 && i < 20 && (imm >> i)
            & 1 == 1) || (i >= 7 && (rd >> ((i - 7) as u32)) & 1 == 1) || i == 0 || i == 1 || i == 2 || i == 3 || i == 5
            || i == 6),
{
}

/// Decoding a register-register word gives back what was encoded, all seven
/// bits of `funct7` among it: the six fields stand side by side and fill the
/// word.
pub proof fn rtype_decodes(funct7: u32, rs2: u32, rs1: u32, funct3: u32, rd: u32, opcode: u32)
    requires
        funct7 < 128,
        rs2 < 32,
        rs1 < 32,
        funct3 < 8,
        rd < 32,
        opcode < 128,
    ensures
        rtype_word(funct7, rs2, rs1, funct3, rd, opcode) == funct7 * 0x200_0000 + rs2 * 0x10_0000 + rs1 * 0x8000
            + funct3 * 0x1000 + rd * 0x80 + opcode,
        rtype_word(funct7, rs2, rs1, funct3, rd, opcode) >> 25 == funct7,
        opcode_of(rtype_word(funct7, rs2, rs1, funct3, rd, opcode)) == opcode,
        rd_of(rtype_word(funct7, rs2, rs1, funct3, rd, opcode)) == rd,
        f3_of(rtype_word(funct7, rs2, rs1, funct3, rd, opcode)) == funct3,
        rs1_of(rtype_word(funct7, rs2, rs1, funct3, rd, opcode)) == rs1,
        rs2_of(rtype_word(funct7, rs2, rs1, funct3, rd, opcode)) == rs2,
        bit_of(rtype_word(funct7, rs2, rs1, funct3, rd, opcode), 30) == bit_of(funct7, 5),
        bit_of(funct7, 5) == ((funct7 / 32) % 2 == 1),
{
    let w = rtype_word(funct7, rs2, rs1, funct3, rd, opcode);
    assert(w & 0x7f == opcode && w >> 7 & 0x1f == rd && w >> 12 & 7 == funct3 && w >> 15 & 0x1f == rs1 && w
        >> 20 & 0x1f == rs2 && (w >> 30u32) & 1 == (funct7 >> 5u32) & 1 && w >> 25 == funct7 && (funct7 >> 5u32)
        & 1 == (funct7 / 32) % 2 && w == funct7 * 0x200_0000 + rs2 * 0x10_0000 + rs1 * 0x8000 + funct3 * 0x1000
        + rd * 0x80 + opcode) by (bit_vector)
        requires
            funct7 < 128,
            rs2 < 32,
            rs1 < 32,
            funct3 < 8,
            rd < 32,
            opcode < 128,
            w == funct7 << 25 | rs2 << 20 | rs1 << 15 | funct3 << 12 | rd << 7 | opcode,
    ;
}

/// A register-immediate word holds the low 12 bits of its immediate and
/// decodes to them, sign-extended.
pub proof fn itype_holds(u: u32, rs1: u32, funct3: u32, rd: u32, opcode: u32)
    requires
        rs1 < 32,
        funct3 < 8,
        rd < 32,
        opcode < 128,
    ensures
        itype_word(u, rs1, funct3, rd, opcode) == (u % 4096) * 0x10_0000 + rs1 * 0x8000 + funct3 * 0x1000 + rd
            * 0x80 + opcode,
        opcode_of(itype_word(u, rs1, funct3, rd, opcode)) == opcode,
        rd_of(itype_word(u, rs1, funct3, rd, opcode)) == rd,
        f3_of(itype_word(u, rs1, funct3, rd, opcode)) == funct3,
        rs1_of(itype_word(u, rs1, funct3, rd, opcode)) == rs1,
        imm_i(itype_word(u, rs1, funct3, rd, opcode)) == if u % 4096 >= 2048 {
            u % 4096 + 0xffff_f000
        } else {
            u % 4096 + 0
        },
        bit_of(itype_word(u, rs1, funct3, rd, opcode), 30) == ((u / 1024) % 2 == 1),
{
    let w = itype_word(u, rs1, funct3, rd, opcode);
    assert(w & 0x7f == opcode && w >> 7 & 0x1f == rd && w >> 12 & 7 == funct3 && w >> 15 & 0x1f == rs1 && (if w
        & 0x8000_0000 != 0 {
        (w >> 20) | 0xffff_f000
    } else {
        w >> 20
    }) == (if u % 4096 >= 2048 {
        u % 4096 + 0xffff_f000
    } else {
        u % 4096 + 0
    }) && (w >> 30u32) & 1 == (u / 1024) % 2 && w == (u % 4096) * 0x10_0000 + rs1 * 0x8000 + funct3 * 0x1000 + rd
        * 0x80 + opcode) by (bit_vector)
        requires
            rs1 < 32,
            funct3 < 8,
            rd < 32,
            opcode < 128,
            w == (u & 0xfff) << 20 | rs1 << 15 | funct3 << 12 | rd << 7 | opcode,
    ;
}

/// Decoding a register-immediate word gives back what was encoded, the
/// immediate being sign-extended from 12 bits.
pub proof fn itype_decodes(imm: i32, rs1: u32, funct3: u32, rd: u32, opcode: u32)
    requires
        -2048 <= imm < 2048,
        rs1 < 32,
        funct3 < 8,
        rd < 32,
        opcode < 128,
    ensures
        itype_word(raw(imm), rs1, funct3, rd, opcode) == (imm as int % 4096) * 0x10_0000 + rs1 * 0x8000 + funct3
            * 0x1000 + rd * 0x80 + opcode,
        opcode_of(itype_word(raw(imm), rs1, funct3, rd, opcode)) == opcode,
        rd_of(itype_word(raw(imm), rs1, funct3, rd, opcode)) == rd,
        f3_of(itype_word(raw(imm), rs1, funct3, rd, opcode)) == funct3,
        rs1_of(itype_word(raw(imm), rs1, funct3, rd, opcode)) == rs1,
        imm_i(itype_word(raw(imm), rs1, funct3, rd, opcode)) == raw(imm),
{
    raw_wraps(imm);
    itype_holds(raw(imm), rs1, funct3, rd, opcode);
}

/// A store word holds the low 12 bits of its immediate, split into the low
/// five and the seven above them, and decodes to them, sign-extended.
pub proof fn stype_holds(u: u32, rs2: u32, rs1: u32, funct3: u32)
    requires
        rs2 < 32,
        rs1 < 32,
        funct3 < 8,
    ensures
        stype_word(u, rs2, rs1, funct3) == ((u % 4096) / 32) * 0x200_0000 + rs2 * 0x10_0000 + rs1 * 0x8000
            + funct3 * 0x1000 + (u % 32) * 0x80 + 0x23,
        opcode_of(stype_word(u, rs2, rs1, funct3)) == 0b0100011,
        f3_of(stype_word(u, rs2, rs1, funct3)) == funct3,
        rs1_of(stype_word(u, rs2, rs1, funct3)) == rs1,
        rs2_of(stype_word(u, rs2, rs1, funct3)) == rs2,
        imm_s(stype_word(u, rs2, rs1, funct3)) == if u % 4096 >= 2048 {
            u % 4096 + 0xffff_f000
        } else {
            u % 4096 + 0
        },
{
    let w = stype_word(u, rs2, rs1, funct3);
    assert(w & 0x7f == 0b0100011 && w >> 12 & 7 == funct3 && w >> 15 & 0x1f == rs1 && w >> 20 & 0x1f == rs2 && (
    (if w & 0x8000_0000 != 0 {
        0xffff_f000u32
    } else {
        0
    }) | (w >> 25 & 0x7f) << 5 | (w >> 7 & 0x1f)) == (if u % 4096 >= 2048 {
        u % 4096 + 0xffff_f000
    } else {
        u % 4096 + 0
    }) && w == ((u % 4096) / 32) * 0x200_0000 + rs2 * 0x10_0000 + rs1 * 0x8000 + funct3 * 0x1000 + (u % 32) * 0x80
        + 0x23) by (bit_vector)
        requires
            rs2 < 32,
            rs1 < 32,
            funct3 < 8,
            w == (u >> 5 & 0x7f) << 25 | rs2 << 20 | rs1 << 15 | funct3 << 12 | (u & 0x1f) << 7 | 0b0100011,
    ;
}

/// Decoding a store word gives back what was encoded.
pub proof fn stype_decodes(imm: i32, rs2: u32, rs1: u32, funct3: u32)
    requires
        -2048 <= imm < 2048,
        rs2 < 32,
        rs1 < 32,
        funct3 < 8,
    ensures
        opcode_of(stype_word(raw(imm), rs2, rs1, funct3)) == 0b0100011,
        f3_of(stype_word(raw(imm), rs2, rs1, funct3)) == funct3,
        rs1_of(stype_word(raw(imm), rs2, rs1, funct3)) == rs1,
        rs2_of(stype_word(raw(imm), rs2, rs1, funct3)) == rs2,
        imm_s(stype_word(raw(imm), rs2, rs1, funct3)) == raw(imm),
{
    raw_wraps(imm);
    stype_holds(raw(imm), rs2, rs1, funct3);
}

/// A branch word holds bits 12 to 1 of its offset, in the order 12, 10 to 5,
/// 4 to 1, 11, and decodes to them, sign-extended.
pub proof fn btype_holds(u: u32, rs2: u32, rs1: u32, funct3: u32)
    requires
        rs2 < 32,
        rs1 < 32,
        funct3 < 8,
    ensures
        btype_word(u, rs2, rs1, funct3) == ((u % 8192) / 4096) * 0x8000_0000 + ((u % 2048) / 32) * 0x200_0000
            + rs2 * 0x10_0000 + rs1 * 0x8000 + funct3 * 0x1000 + ((u % 32) / 2) * 0x100 + ((u % 4096) / 2048)
            * 0x80 + 0x63,
        opcode_of(btype_word(u, rs2, rs1, funct3)) == 0b1100011,
        f3_of(btype_word(u, rs2, rs1, funct3)) == funct3,
        rs1_of(btype_word(u, rs2, rs1, funct3)) == rs1,
        rs2_of(btype_word(u, rs2, rs1, funct3)) == rs2,
        imm_b(btype_word(u, rs2, rs1, funct3)) == if u % 8192 >= 4096 {
            u % 8192 - u % 2 + 0xffff_e000
        } else {
            u % 8192 - u % 2
        },
{
    let w = btype_word(u, rs2, rs1, funct3);
    assert(w & 0x7f == 0b1100011 && w >> 12 & 7 == funct3 && w >> 15 & 0x1f == rs1 && w >> 20 & 0x1f == rs2 && (
    (if w & 0x8000_0000 != 0 {
        0xffff_f000u32
    } else {
        0
    }) | (w >> 7 & 1) << 11 | (w >> 25 & 0x3f) << 5 | (w >> 8 & 0xf) << 1) == (if u % 8192 >= 4096 {
        u % 8192 - u % 2 + 0xffff_e000
    } else {
        u % 8192 - u % 2
    }) && w == ((u % 8192) / 4096) * 0x8000_0000 + ((u % 2048) / 32) * 0x200_0000 + rs2 * 0x10_0000 + rs1 * 0x8000
        + funct3 * 0x1000 + ((u % 32) / 2) * 0x100 + ((u % 4096) / 2048) * 0x80 + 0x63) by (bit_vector)
        requires
            rs2 < 32,
            rs1 < 32,
            funct3 < 8,
            w == (u >> 12 & 1) << 31 | (u >> 5 & 0x3f) << 25 | rs2 << 20 | rs1 << 15 | funct3 << 12 | (u >> 1
                & 0xf) << 8 | (u >> 11 & 1) << 7 | 0b1100011,
    ;
}

/// Decoding a branch word gives back what was encoded. Branch offsets are
/// even and span 13 signed bits.
pub proof fn btype_decodes(offset: i32, rs2: u32, rs1: u32, funct3: u32)
    requires
        -4096 <= offset < 4096,
        offset % 2 == 0,
        rs2 < 32,
        rs1 < 32,
        funct3 < 8,
    ensures
        opcode_of(btype_word(raw(offset), rs2, rs1, funct3)) == 0b1100011,
        f3_of(btype_word(raw(offset), rs2, rs1, funct3)) == funct3,
        rs1_of(btype_word(raw(offset), rs2, rs1, funct3)) == rs1,
        rs2_of(btype_word(raw(offset), rs2, rs1, funct3)) == rs2,
        imm_b(btype_word(raw(offset), rs2, rs1, funct3)) == raw(offset),
{
    raw_wraps(offset);
    btype_holds(raw(offset), rs2, rs1, funct3);
}

/// Decoding an upper-immediate word gives back what was encoded, the low 12
/// bits of the value being dropped.
pub proof fn utype_decodes(value: u32, rd: u32, opcode: u32)
    requires
        rd < 32,
        opcode < 128,
    ensures
        utype_word(value, rd, opcode) == (value / 4096) * 4096 + rd * 0x80 + opcode,
        opcode_of(utype_word(value, rd, opcode)) == opcode,
        rd_of(utype_word(value, rd, opcode)) == rd,
        imm_u(utype_word(value, rd, opcode)) == value & 0xffff_f000,
        imm_u(utype_word(value, rd, opcode)) == (value / 4096) * 4096,
{
    let w = utype_word(value, rd, opcode);
    assert(w & 0x7f == opcode && w >> 7 & 0x1f == rd && w & 0xffff_f000 == value & 0xffff_f000 && w & 0xffff_f000
        == (value / 4096) * 4096 && w == (value / 4096) * 4096 + rd * 0x80 + opcode) by (bit_vector)
        requires
            rd < 32,
            opcode < 128,
            w == (value & 0xffff_f000) | rd << 7 | opcode,
    ;
}

/// A jump word holds bits 20 to 1 of its offset, in the order 20, 10 to 1,
/// 11, 19 to 12, and decodes to them, sign-extended.
pub proof fn jtype_holds(u: u32, rd: u32)
    requires
        rd < 32,
    ensures
        jtype_word(u, rd) == ((u % 0x20_0000) / 0x10_0000) * 0x8000_0000 + ((u % 2048) / 2) * 0x20_0000 + ((u
            % 4096) / 2048) * 0x10_0000 + ((u % 0x10_0000) / 4096) * 0x1000 + rd * 0x80 + 0x6f,
        opcode_of(jtype_word(u, rd)) == 0b1101111,
        rd_of(jtype_word(u, rd)) == rd,
        imm_j(jtype_word(u, rd)) == if u % 0x20_0000 >= 0x10_0000 {
            u % 0x20_0000 - u % 2 + 0xffe0_0000
        } else {
            u % 0x20_0000 - u % 2
        },
{
    let w = jtype_word(u, rd);
    assert(w & 0x7f == 0b1101111 && w >> 7 & 0x1f == rd && ((if w & 0x8000_0000 != 0 {
        0xfff0_0000u32
    } else {
        0
    }) | (w & 0x000f_f000) | (w >> 20 & 1) << 11 | (w >> 21 & 0x3ff) << 1) == (if u % 0x20_0000 >= 0x10_0000 {
        u % 0x20_0000 - u % 2 + 0xffe0_0000
    } else {
        u % 0x20_0000 - u % 2
    }) && w == ((u % 0x20_0000) / 0x10_0000) * 0x8000_0000 + ((u % 2048) / 2) * 0x20_0000 + ((u % 4096) / 2048)
        * 0x10_0000 + ((u % 0x10_0000) / 4096) * 0x1000 + rd * 0x80 + 0x6f) by (bit_vector)
        requires
            rd < 32,
            w == (u >> 20 & 1) << 31 | (u >> 1 & 0x3ff) << 21 | (u >> 11 & 1) << 20 | (u >> 12 & 0xff) << 12
                | rd << 7 | 0b1101111,
    ;
}

/// Decoding a jump word gives back what was encoded. Jump offsets are even
/// and span 21 signed bits.
pub proof fn jtype_decodes(offset: i32, rd: u32)
    requires
        -0x10_0000 <= offset < 0x10_0000,
        offset % 2 == 0,
        rd < 32,
    ensures
        opcode_of(jtype_word(raw(offset), rd)) == 0b1101111,
        rd_of(jtype_word(raw(offset), rd)) == rd,
        imm_j(jtype_word(raw(offset), rd)) == raw(offset),
{
    raw_wraps(offset);
    jtype_holds(raw(offset), rd);
}

} // verus!
