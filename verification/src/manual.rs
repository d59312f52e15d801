//! The instruction set as its manual tells it: words are given by their
//! fields, results by arithmetic and by single bits, memory by bytes.
use vstd::arithmetic::power2::pow2;
use vstd::prelude::*;

use crate::assembler::{
    btype_holds, btype_word, itype_holds, itype_word, jtype_holds, jtype_word, rtype_decodes, rtype_word,
    stype_holds, stype_word, utype_decodes, utype_word,
};
use crate::isa::{
    alu, branch_taken, byte_shift, f3_of, imm_b, imm_j, is_pow2, load_value, opcode_of, padded, rd_of, reset_state,
    retire, rs1_of, rs2_of, shift_right_arith, step, steps, store_merge, wadd, word_index, written, Arch,
};

verus! {

/// Bitwise operations and shifts, bit by bit.
proof fn lemma_bits(a: u32, b: u32, i: u32, sh: u32)
    by (bit_vector)
    requires
        i < 32,
        sh < 32,
    ensures
        (((a & b) >> i) & 1 == 1) == ((a >> i) & 1 == 1 && (b >> i) & 1 == 1),
        (((a | b) >> i) & 1 == 1) == ((a >> i) & 1 == 1 || (b >> i) & 1 == 1),
        (((a ^ b) >> i) & 1 == 1) == (((a >> i) & 1 == 1) != ((b >> i) & 1 == 1)),
        (((a << sh) >> i) & 1 == 1) == (i >= sh && (a >> ((i - sh) as u32)) & 1 == 1),
        (((a >> sh) >> i) & 1 == 1) == (i + sh < 32 && (a >> ((i + sh) as u32)) & 1 == 1),
        ((shift_right_arith(a, sh) >> i) & 1 == 1) == ((if i + sh < 32 {
            (a >> ((i + sh) as u32)) & 1
        } else {
            (a >> 31u32) & 1
        }) == 1),
{
}

/// Masks and shifts as arithmetic.
pub proof fn lemma_masks(x: u32)
    by (bit_vector)
    ensures
        x & 31 == x % 32,
        x & 3 == x % 4,
        x >> 2 == x / 4,
        x & !1u32 == x - x % 2,
        x & 0x7f == x % 128,
        byte_shift(x) == 8 * (x % 4),
{
}

/// What loads make of a word that was shifted to the addressed byte.
proof fn lemma_loads(word: u32, addr: u32)
    by (bit_vector)
    ensures
        word >> byte_shift(addr) == (if addr % 4 == 0 {
            word / 1
        } else if addr % 4 == 1 {
            word / 256
        } else if addr % 4 == 2 {
            word / 0x1_0000
        } else {
            word / 0x100_0000
        }),
        load_value(0, word) == (if word % 256 >= 128 {
            word % 256 + 0xffff_ff00
        } else {
            word % 256 + 0
        }),
        load_value(1, word) == (if word % 0x1_0000 >= 0x8000 {
            word % 0x1_0000 + 0xffff_0000
        } else {
            word % 0x1_0000 + 0
        }),
        load_value(4, word) == word % 256,
        load_value(5, word) == word % 0x1_0000,
        load_value(2, word) == word,
        load_value(3, word) == word,
        load_value(6, word) == word,
        load_value(7, word) == word,
{
}

/// What stores make of the bytes of a word.
proof fn lemma_stores(f3: u32, addr: u32, word: u32, data: u32, j: u32)
    by (bit_vector)
    requires
        f3 < 8,
        j < 4,
    ensures
        (store_merge(f3, addr, word, data) >> ((8 * j) as u32)) % 256 == (if (f3 == 0 && j == addr % 4) || (f3 == 1 && j
            / 2 == (addr % 4) / 2) || f3 == 2 {
            if j >= addr % 4 {
                (data >> ((8 * (j - addr % 4)) as u32)) % 256
            } else {
                0
            }
        } else {
            (word >> ((8 * j) as u32)) % 256
        }),
{
}

/// The result of an integer operation on `a` and `b`: `funct3` selects the
/// operation, `minus` and `arith` the second form of addition and of the right
/// shift.
proof fn lemma_alu(f3: u32, a: u32, b: u32, minus: bool, arith: bool)
    requires
        f3 < 8,
    ensures
        ({
            let v = alu(f3, a, b, minus, arith);
            let sa = if a >= 0x8000_0000 {
                a - 0x1_0000_0000
            } else {
                a as int
            };
            let sb = if b >= 0x8000_0000 {
                b - 0x1_0000_0000
            } else {
                b as int
            };
            &&& f3 == 0 && !minus ==> v == (a + b) % 0x1_0000_0000
            &&& f3 == 0 && minus ==> v == (a - b) % 0x1_0000_0000
            &&& f3 == 1 ==> forall|i: u32|
                i < 32 ==> (#[trigger] ((v >> i) & 1) == 1 <==> (i >= b % 32 && (a >> ((i - b % 32) as u32)) & 1
                    == 1))
            &&& f3 == 2 ==> v == (if sa < sb {
                1int
            } else {
                0
            })
            &&& f3 == 3 ==> v == (if a < b {
                1int
            } else {
                0
            })
            &&& f3 == 4 ==> forall|i: u32|
                i < 32 ==> (#[trigger] ((v >> i) & 1) == 1 <==> (((a >> i) & 1) == 1) != (((b >> i) & 1) == 1))
            &&& f3 == 5 && !arith ==> forall|i: u32|
                i < 32 ==> (#[trigger] ((v >> i) & 1) == 1 <==> (i + b % 32 < 32 && (a >> ((i + b % 32) as u32)) & 1
                    == 1))
            &&& f3 == 5 && arith ==> forall|i: u32|
                i < 32 ==> (#[trigger] ((v >> i) & 1) == 1 <==> (if i + b % 32 < 32 {
                    (a >> ((i + b % 32) as u32)) & 1
                } else {
                    (a >> 31u32) & 1
                }) == 1)
            &&& f3 == 6 ==> forall|i: u32|
                i < 32 ==> (#[trigger] ((v >> i) & 1) == 1 <==> ((a >> i) & 1) == 1 || ((b >> i) & 1) == 1)
            &&& f3 == 7 ==> forall|i: u32|
                i < 32 ==> (#[trigger] ((v >> i) & 1) == 1 <==> ((a >> i) & 1) == 1 && ((b >> i) & 1) == 1)
        }),
{
    lemma_masks(b);
    let v = alu(f3, a, b, minus, arith);
    let sh = b & 31;
    assert forall|i: u32| i < 32 implies #[trigger] ((v >> i) & 1) == ((alu(f3, a, b, minus, arith) >> i) & 1) && (f3
        == 1 ==> (((v >> i) & 1) == 1 <==> (i >= b % 32 && (a >> ((i - b % 32) as u32)) & 1 == 1))) by {
        lemma_bits(a, b, i, sh);
    }
    assert forall|i: u32| i < 32 && f3 == 4 implies (#[trigger] ((v >> i) & 1) == 1 <==> (((a >> i) & 1) == 1)
        != (((b >> i) & 1) == 1)) by {
        lemma_bits(a, b, i, sh);
    }
    assert forall|i: u32| i < 32 && f3 == 5 && !arith implies (#[trigger] ((v >> i) & 1) == 1 <==> (i + b % 32 < 32 && (
    a >> ((i + b % 32) as u32)) & 1 == 1)) by {
        lemma_bits(a, b, i, sh);
    }
    assert forall|i: u32| i < 32 && f3 == 5 && arith implies (#[trigger] ((v >> i) & 1) == 1 <==> (if i + b % 32 < 32 {
        (a >> ((i + b % 32) as u32)) & 1
    } else {
        (a >> 31u32) & 1
    }) == 1) by {
        lemma_bits(a, b, i, sh);
    }
    assert forall|i: u32| i < 32 && f3 == 6 implies (#[trigger] ((v >> i) & 1) == 1 <==> ((a >> i) & 1) == 1 || ((b
        >> i) & 1) == 1) by {
        lemma_bits(a, b, i, sh);
    }
    assert forall|i: u32| i < 32 && f3 == 7 implies (#[trigger] ((v >> i) & 1) == 1 <==> ((a >> i) & 1) == 1 && ((b
        >> i) & 1) == 1) by {
        lemma_bits(a, b, i, sh);
    }
}

/// Register-register and register-immediate instructions: nothing but the
/// destination, unless it is `x0`, and the program counter changes. `add`,
/// `sub` and `addi` compute modulo 2^32; `slt` and `sltu` compare as signed and
/// as unsigned numbers; `and`, `or` and `xor` act bit by bit; `sll`, `srl` and
/// `sra` move bits by the low five bits of the second operand, filling with
/// zeros or with the sign.
#[verifier::spinoff_prover]
pub proof fn integer_operations(
    w: u32,
    s: Arch,
    f7: u32,
    rs2: u32,
    imm: u32,
    rs1: u32,
    f3: u32,
    rd: u32,
    b: u32,
    minus: bool,
    arith: bool,
)
    requires
        s.regs.len() == 32,
        f7 < 128,
        rs2 < 32,
        imm < 4096,
        rs1 < 32,
        f3 < 8,
        rd < 32,
        ({
            ||| {
                &&& w == f7 * 0x200_0000 + rs2 * 0x10_0000 + rs1 * 0x8000 + f3 * 0x1000 + rd * 0x80 + 0x33
                &&& b == s.regs[rs2 as int]
                &&& minus == ((f7 / 32) % 2 == 1)
                &&& arith == ((f7 / 32) % 2 == 1)
            }
            ||| {
                &&& w == imm * 0x10_0000 + rs1 * 0x8000 + f3 * 0x1000 + rd * 0x80 + 0x13
                &&& b == (if imm >= 2048 {
                    imm + 0xffff_f000
                } else {
                    imm as int
                })
                &&& !minus
                &&& arith == ((imm / 1024) % 2 == 1)
            }
        }),
    ensures
        retire(w, s).pc == (s.pc + 4) % 0x1_0000_0000,
        retire(w, s).ram == s.ram,
        retire(w, s).regs.len() == 32,
        forall|r: int| 0 <= r < 32 && (r != rd || r == 0) ==> #[trigger] retire(w, s).regs[r] == s.regs[r],
        rd != 0 ==> ({
            let v = retire(w, s).regs[rd as int];
            let a = s.regs[rs1 as int];
            let sa = if a >= 0x8000_0000 {
                a - 0x1_0000_0000
            } else {
                a as int
            };
            let sb = if b >= 0x8000_0000 {
                b - 0x1_0000_0000
            } else {
                b as int
            };
            &&& f3 == 0 && !minus ==> v == (a + b) % 0x1_0000_0000
            &&& f3 == 0 && minus ==> v == (a - b) % 0x1_0000_0000
            &&& f3 == 1 ==> forall|i: u32|
                i < 32 ==> (#[trigger] ((v >> i) & 1) == 1 <==> (i >= b % 32 && (a >> ((i - b % 32) as u32)) & 1
                    == 1))
            &&& f3 == 2 ==> v == (if sa < sb {
                1int
            } else {
                0
            })
            &&& f3 == 3 ==> v == (if a < b {
                1int
            } else {
                0
            })
            &&& f3 == 4 ==> forall|i: u32|
                i < 32 ==> (#[trigger] ((v >> i) & 1) == 1 <==> (((a >> i) & 1) == 1) != (((b >> i) & 1) == 1))
            &&& f3 == 5 && !arith ==> forall|i: u32|
                i < 32 ==> (#[trigger] ((v >> i) & 1) == 1 <==> (i + b % 32 < 32 && (a >> ((i + b % 32) as u32)) & 1
                    == 1))
            &&& f3 == 5 && arith ==> forall|i: u32|
                i < 32 ==> (#[trigger] ((v >> i) & 1) == 1 <==> (if i + b % 32 < 32 {
                    (a >> ((i + b % 32) as u32)) & 1
                } else {
                    (a >> 31u32) & 1
                }) == 1)
            &&& f3 == 6 ==> forall|i: u32|
                i < 32 ==> (#[trigger] ((v >> i) & 1) == 1 <==> ((a >> i) & 1) == 1 || ((b >> i) & 1) == 1)
            &&& f3 == 7 ==> forall|i: u32|
                i < 32 ==> (#[trigger] ((v >> i) & 1) == 1 <==> ((a >> i) & 1) == 1 && ((b >> i) & 1) == 1)
        }),
{
    rtype_decodes(f7, rs2, rs1, f3, rd, 0x33);
    itype_holds(imm, rs1, f3, rd, 0x13);
    assert(w == rtype_word(f7, rs2, rs1, f3, rd, 0x33) || w == itype_word(imm, rs1, f3, rd, 0x13));
    lemma_alu(f3, s.regs[rs1 as int], b, minus, arith);
}

/// `lui` loads its 20 bits into the upper part of the destination, `auipc` adds
/// them to the program counter.
pub proof fn upper_immediates(w: u32, s: Arch, imm: u32, rd: u32, from_pc: bool)
    requires
        s.regs.len() == 32,
        imm < 0x10_0000,
        rd < 32,
        w == imm * 0x1000 + rd * 0x80 + (if from_pc {
            0x17int
        } else {
            0x37
        }),
    ensures
        retire(w, s).pc == (s.pc + 4) % 0x1_0000_0000,
        retire(w, s).ram == s.ram,
        retire(w, s).regs.len() == 32,
        forall|r: int| 0 <= r < 32 && (r != rd || r == 0) ==> #[trigger] retire(w, s).regs[r] == s.regs[r],
        rd != 0 && !from_pc ==> retire(w, s).regs[rd as int] == imm * 0x1000,
        rd != 0 && from_pc ==> retire(w, s).regs[rd as int] == (s.pc + imm * 0x1000) % 0x1_0000_0000,
{
    let value = (imm * 0x1000) as u32;
    let op: u32 = if from_pc {
        0x17
    } else {
        0x37
    };
    utype_decodes(value, rd, op);
    assert(w == utype_word(value, rd, op));
}

/// An offset and its two's complement leave the same remainder.
proof fn lemma_residue(offset: int, u: int, k: int, m: int)
    requires
        m > 0,
        k * m == 0x1_0000_0000,
        u == offset || u == offset + 0x1_0000_0000,
    ensures
        u % m == offset % m,
{
    vstd::arithmetic::div_mod::lemma_mod_multiples_vanish(k, offset, m);
    assert(m * k == k * m) by (nonlinear_arith);
}

/// Adding an offset's two's complement adds the offset, modulo 2^32.
proof fn lemma_wrap(x: u32, offset: int, u: u32)
    requires
        -0x8000_0000 <= offset < 0x8000_0000,
        u == offset || u == offset + 0x1_0000_0000,
    ensures
        wadd(x, u) == (x + offset) % 0x1_0000_0000,
{
    let t = x + offset;
    if t < 0 {
        assert(t % 0x1_0000_0000 == t + 0x1_0000_0000);
    } else if t >= 0x1_0000_0000 {
        assert(t % 0x1_0000_0000 == t - 0x1_0000_0000);
    } else {
        assert(t % 0x1_0000_0000 == t);
    }
}

/// The remainder of an offset in a window of twice its reach.
proof fn lemma_window(offset: int, reach: int)
    requires
        0 < reach,
        -reach <= offset < reach,
    ensures
        offset % (2 * reach) == if offset < 0 {
            offset + 2 * reach
        } else {
            offset
        },
{
    if offset < 0 {
        vstd::arithmetic::div_mod::lemma_mod_multiples_vanish(1, offset, 2 * reach);
        vstd::arithmetic::div_mod::lemma_small_mod((offset + 2 * reach) as nat, (2 * reach) as nat);
    } else {
        vstd::arithmetic::div_mod::lemma_small_mod(offset as nat, (2 * reach) as nat);
    }
}

/// What a jump word holds.
#[verifier::spinoff_prover]
proof fn lemma_jump_word(w: u32, offset: int, u: u32, rd: u32)
    requires
        -0x10_0000 <= offset < 0x10_0000,
        offset % 2 == 0,
        u == (if offset < 0 {
            offset + 0x1_0000_0000
        } else {
            offset
        }),
        rd < 32,
        w == ((offset % 0x20_0000) / 0x10_0000) * 0x8000_0000 + ((offset % 2048) / 2) * 0x20_0000 + ((offset % 4096)
            / 2048) * 0x10_0000 + ((offset % 0x10_0000) / 4096) * 0x1000 + rd * 0x80 + 0x6f,
    ensures
        w == jtype_word(u, rd),
        opcode_of(w) == 0x6f,
        rd_of(w) == rd,
        imm_j(w) == u,
{
    lemma_residue(offset, u as int, 0x800, 0x20_0000);
    lemma_residue(offset, u as int, 0x1000, 0x10_0000);
    lemma_residue(offset, u as int, 0x10_0000, 4096);
    lemma_residue(offset, u as int, 0x20_0000, 2048);
    lemma_residue(offset, u as int, 0x8000_0000, 2);
    lemma_window(offset, 0x10_0000);
    jtype_holds(u, rd);
}

/// What a jump does, given what its word holds.
proof fn lemma_jump_retires(w: u32, s: Arch, u: u32, rd: u32)
    requires
        opcode_of(w) == 0x6f,
        rd_of(w) == rd,
        imm_j(w) == u,
    ensures
        retire(w, s) == (Arch { pc: wadd(s.pc, u), regs: written(s.regs, rd, wadd(s.pc, 4)), ram: s.ram }),
{
}

/// What a branch word holds.
#[verifier::spinoff_prover]
proof fn lemma_branch_word(w: u32, offset: int, u: u32, rs2: u32, rs1: u32, f3: u32)
    requires
        -4096 <= offset < 4096,
        offset % 2 == 0,
        u == (if offset < 0 {
            offset + 0x1_0000_0000
        } else {
            offset
        }),
        rs2 < 32,
        rs1 < 32,
        f3 < 8,
        w == ((offset % 8192) / 4096) * 0x8000_0000 + ((offset % 2048) / 32) * 0x200_0000 + rs2 * 0x10_0000 + rs1
            * 0x8000 + f3 * 0x1000 + ((offset % 32) / 2) * 0x100 + ((offset % 4096) / 2048) * 0x80 + 0x63,
    ensures
        w == btype_word(u, rs2, rs1, f3),
        opcode_of(w) == 0x63,
        f3_of(w) == f3,
        rs1_of(w) == rs1,
        rs2_of(w) == rs2,
        imm_b(w) == u,
{
    lemma_residue(offset, u as int, 0x8_0000, 8192);
    lemma_residue(offset, u as int, 0x10_0000, 4096);
    lemma_residue(offset, u as int, 0x20_0000, 2048);
    lemma_residue(offset, u as int, 0x800_0000, 32);
    lemma_residue(offset, u as int, 0x8000_0000, 2);
    lemma_window(offset, 4096);
    btype_holds(u, rs2, rs1, f3);
}

/// What a branch does, given what its word holds.
proof fn lemma_branch_retires(w: u32, s: Arch, u: u32, rs2: u32, rs1: u32, f3: u32)
    requires
        opcode_of(w) == 0x63,
        f3_of(w) == f3,
        rs1_of(w) == rs1,
        rs2_of(w) == rs2,
        imm_b(w) == u,
    ensures
        retire(w, s).regs == s.regs,
        retire(w, s).ram == s.ram,
        retire(w, s).pc == (if branch_taken(f3, s.regs[rs1 as int], s.regs[rs2 as int]) {
            wadd(s.pc, u)
        } else {
            wadd(s.pc, 4)
        }),
{
}

/// `jal` jumps to an even distance from its own address and keeps the address
/// behind it in the destination.
#[verifier::spinoff_prover]
pub proof fn jumps(w: u32, s: Arch, offset: int, rd: u32)
    requires
        s.regs.len() == 32,
        -0x10_0000 <= offset < 0x10_0000,
        offset % 2 == 0,
        rd < 32,
        w == ((offset % 0x20_0000) / 0x10_0000) * 0x8000_0000 + ((offset % 2048) / 2) * 0x20_0000 + ((offset % 4096)
            / 2048) * 0x10_0000 + ((offset % 0x10_0000) / 4096) * 0x1000 + rd * 0x80 + 0x6f,
    ensures
        retire(w, s).pc == (s.pc + offset) % 0x1_0000_0000,
        retire(w, s).ram == s.ram,
        retire(w, s).regs.len() == 32,
        forall|r: int| 0 <= r < 32 && (r != rd || r == 0) ==> #[trigger] retire(w, s).regs[r] == s.regs[r],
        rd != 0 ==> retire(w, s).regs[rd as int] == (s.pc + 4) % 0x1_0000_0000,
{
    let u: u32 = if offset < 0 {
        (offset + 0x1_0000_0000) as u32
    } else {
        offset as u32
    };
    lemma_jump_word(w, offset, u, rd);
    lemma_jump_retires(w, s, u, rd);
    lemma_wrap(s.pc, offset, u);
    lemma_wrap(s.pc, 4, 4);
}

/// `jalr` jumps to a register plus an immediate, rounded down to an even
/// address, and keeps the address behind it in the destination.
pub proof fn indirect_jumps(w: u32, s: Arch, imm: u32, rs1: u32, f3: u32, rd: u32)
    requires
        s.regs.len() == 32,
        imm < 4096,
        rs1 < 32,
        f3 < 8,
        rd < 32,
        w == imm * 0x10_0000 + rs1 * 0x8000 + f3 * 0x1000 + rd * 0x80 + 0x67,
    ensures
        ({
            let target = (s.regs[rs1 as int] + imm - (if imm >= 2048 {
                4096int
            } else {
                0
            })) % 0x1_0000_0000;
            retire(w, s).pc == target - target % 2
        }),
        retire(w, s).ram == s.ram,
        retire(w, s).regs.len() == 32,
        forall|r: int| 0 <= r < 32 && (r != rd || r == 0) ==> #[trigger] retire(w, s).regs[r] == s.regs[r],
        rd != 0 ==> retire(w, s).regs[rd as int] == (s.pc + 4) % 0x1_0000_0000,
{
    itype_holds(imm, rs1, f3, rd, 0x67);
    assert(w == itype_word(imm, rs1, f3, rd, 0x67));
    let target = (s.regs[rs1 as int] + imm - (if imm >= 2048 {
        4096int
    } else {
        0
    })) % 0x1_0000_0000;
    lemma_masks(target as u32);
}

/// Branches go an even distance from their own address if their condition
/// holds, else to the next instruction: `beq`, `bne`, `blt` and `bge` on signed
/// numbers, `bltu` and `bgeu` on unsigned ones. The two undefined codes act as
/// `beq` and `bne`.
#[verifier::spinoff_prover]
pub proof fn branches(w: u32, s: Arch, offset: int, rs2: u32, rs1: u32, f3: u32)
    requires
        s.regs.len() == 32,
        -4096 <= offset < 4096,
        offset % 2 == 0,
        rs2 < 32,
        rs1 < 32,
        f3 < 8,
        w == ((offset % 8192) / 4096) * 0x8000_0000 + ((offset % 2048) / 32) * 0x200_0000 + rs2 * 0x10_0000 + rs1
            * 0x8000 + f3 * 0x1000 + ((offset % 32) / 2) * 0x100 + ((offset % 4096) / 2048) * 0x80 + 0x63,
    ensures
        retire(w, s).regs == s.regs,
        retire(w, s).ram == s.ram,
        ({
            let a = s.regs[rs1 as int];
            let b = s.regs[rs2 as int];
            let sa = if a >= 0x8000_0000 {
                a - 0x1_0000_0000
            } else {
                a as int
            };
            let sb = if b >= 0x8000_0000 {
                b - 0x1_0000_0000
            } else {
                b as int
            };
            let taken = (f3 == 0 && a == b) || (f3 == 1 && a != b) || (f3 == 2 && a == b) || (f3 == 3 && a != b) || (
            f3 == 4 && sa < sb) || (f3 == 5 && sa >= sb) || (f3 == 6 && a < b) || (f3 == 7 && a >= b);
            retire(w, s).pc == (s.pc + (if taken {
                offset
            } else {
                4
            })) % 0x1_0000_0000
        }),
{
    let u: u32 = if offset < 0 {
        (offset + 0x1_0000_0000) as u32
    } else {
        offset as u32
    };
    lemma_branch_word(w, offset, u, rs2, rs1, f3);
    lemma_branch_retires(w, s, u, rs2, rs1, f3);
    lemma_wrap(s.pc, offset, u);
    lemma_wrap(s.pc, 4, 4);
}

/// Loads read the word that holds the addressed byte, the address wrapping at
/// the end of memory, and take the byte, the two bytes or all bytes from the
/// addressed one up to the end of the word. `lb` and `lh` extend the sign.
#[verifier::spinoff_prover]
pub proof fn loads(w: u32, s: Arch, imm: u32, rs1: u32, f3: u32, rd: u32)
    requires
        s.regs.len() == 32,
        s.ram.len() > 0,
        imm < 4096,
        rs1 < 32,
        f3 < 8,
        rd < 32,
        w == imm * 0x10_0000 + rs1 * 0x8000 + f3 * 0x1000 + rd * 0x80 + 0x03,
    ensures
        retire(w, s).pc == (s.pc + 4) % 0x1_0000_0000,
        retire(w, s).ram == s.ram,
        retire(w, s).regs.len() == 32,
        forall|r: int| 0 <= r < 32 && (r != rd || r == 0) ==> #[trigger] retire(w, s).regs[r] == s.regs[r],
        rd != 0 ==> ({
            let addr = (s.regs[rs1 as int] + imm - (if imm >= 2048 {
                4096int
            } else {
                0
            })) % 0x1_0000_0000;
            let word = s.ram[(addr / 4) % s.ram.len() as int];
            let lane = if addr % 4 == 0 {
                word as int
            } else if addr % 4 == 1 {
                word as int / 256
            } else if addr % 4 == 2 {
                word as int / 0x1_0000
            } else {
                word as int / 0x100_0000
            };
            let v = retire(w, s).regs[rd as int];
            &&& f3 == 0 ==> v == lane % 256 + (if lane % 256 >= 128 {
                0xffff_ff00int
            } else {
                0
            })
            &&& f3 == 1 ==> v == lane % 0x1_0000 + (if lane % 0x1_0000 >= 0x8000 {
                0xffff_0000int
            } else {
                0
            })
            &&& f3 == 4 ==> v == lane % 256
            &&& f3 == 5 ==> v == lane % 0x1_0000
            &&& f3 == 2 || f3 == 3 || f3 == 6 || f3 == 7 ==> v == lane
        }),
{
    itype_holds(imm, rs1, f3, rd, 0x03);
    assert(w == itype_word(imm, rs1, f3, rd, 0x03));
    let addr = (s.regs[rs1 as int] + imm - (if imm >= 2048 {
        4096int
    } else {
        0
    })) % 0x1_0000_0000;
    let at = addr as u32;
    lemma_masks(at);
    let word = s.ram[word_index(at, s.ram.len())];
    lemma_loads(word, at);
    lemma_loads(word >> byte_shift(at), at);
}

/// Stores change one word of memory, the one that holds the addressed byte,
/// the address wrapping at the end of memory: `sb` its addressed byte, `sh` the
/// addressed half, `sw` all of it. The data stands from the addressed byte on,
/// low byte first, with zeros below.
#[verifier::spinoff_prover]
pub proof fn stores(w: u32, s: Arch, imm: u32, rs2: u32, rs1: u32, f3: u32)
    requires
        s.regs.len() == 32,
        s.ram.len() > 0,
        imm < 4096,
        rs2 < 32,
        rs1 < 32,
        f3 < 8,
        w == (imm / 32) * 0x200_0000 + rs2 * 0x10_0000 + rs1 * 0x8000 + f3 * 0x1000 + (imm % 32) * 0x80 + 0x23,
    ensures
        retire(w, s).pc == (s.pc + 4) % 0x1_0000_0000,
        retire(w, s).regs == s.regs,
        retire(w, s).ram.len() == s.ram.len(),
        ({
            let addr = (s.regs[rs1 as int] + imm - (if imm >= 2048 {
                4096int
            } else {
                0
            })) % 0x1_0000_0000;
            let at = (addr / 4) % s.ram.len() as int;
            let data = s.regs[rs2 as int];
            &&& forall|k: int| 0 <= k < s.ram.len() && k != at ==> #[trigger] retire(w, s).ram[k] == s.ram[k]
            &&& forall|j: u32|
                j < 4 ==> (#[trigger] (retire(w, s).ram[at] >> ((8 * j) as u32))) % 256 == (if (f3 == 0 && j == addr
                    % 4) || (f3 == 1 && j / 2 == (addr % 4) / 2) || f3 == 2 {
                    if j >= addr % 4 {
                        (data >> ((8 * (j - addr % 4)) as u32)) % 256
                    } else {
                        0
                    }
                } else {
                    (s.ram[at] >> ((8 * j) as u32)) % 256
                })
        }),
{
    stype_holds(imm, rs2, rs1, f3);
    assert(w == stype_word(imm, rs2, rs1, f3));
    let addr = (s.regs[rs1 as int] + imm - (if imm >= 2048 {
        4096int
    } else {
        0
    })) % 0x1_0000_0000;
    let at = addr as u32;
    lemma_masks(at);
    let k = word_index(at, s.ram.len());
    let data = s.regs[rs2 as int];
    assert forall|j: u32| j < 4 implies (#[trigger] (retire(w, s).ram[k] >> ((8 * j) as u32))) % 256 == (if (f3 == 0 && j
        == addr % 4) || (f3 == 1 && j / 2 == (addr % 4) / 2) || f3 == 2 {
        if j >= addr % 4 {
            (data >> ((8 * (j - addr % 4)) as u32)) % 256
        } else {
            0
        }
    } else {
        (s.ram[k] >> ((8 * j) as u32)) % 256
    }) by {
        lemma_stores(f3, at, s.ram[k], data, j);
    }
}

/// Any other opcode does nothing but go on.
pub proof fn unknown_opcodes(w: u32, s: Arch)
    requires
        w % 128 != 0x37,
        w % 128 != 0x17,
        w % 128 != 0x6f,
        w % 128 != 0x67,
        w % 128 != 0x63,
        w % 128 != 0x03,
        w % 128 != 0x23,
        w % 128 != 0x13,
        w % 128 != 0x33,
    ensures
        retire(w, s).pc == (s.pc + 4) % 0x1_0000_0000,
        retire(w, s).regs == s.regs,
        retire(w, s).ram == s.ram,
{
    lemma_masks(w);
}

/// A step retires the word that the program counter addresses, wrapping at the
/// end of the ROM, and steps follow one another.
pub proof fn steps_fetch_and_retire(rom: Seq<u32>, s: Arch, n: nat)
    requires
        rom.len() > 0,
    ensures
        step(rom, s) == retire(rom[(s.pc as int / 4) % rom.len() as int], s),
        steps(rom, s, 0) == s,
        steps(rom, s, n + 1) == step(rom, steps(rom, s, n)),
{
    lemma_masks(s.pc);
}

/// Powers of two, counted by their exponent.
pub proof fn powers_of_two(n: int)
    ensures
        is_pow2(n) <==> exists|k: nat| n == #[trigger] pow2(k),
    decreases n,
{
    vstd::arithmetic::power2::lemma2_to64();
    if n > 1 && n % 2 == 0 {
        powers_of_two(n / 2);
        if is_pow2(n / 2) {
            let k = choose|k: nat| n / 2 == #[trigger] pow2(k);
            vstd::arithmetic::power2::lemma_pow2_unfold(k + 1);
            assert(n == pow2(k + 1));
        }
    }
    if exists|k: nat| n == #[trigger] pow2(k) {
        let k = choose|k: nat| n == #[trigger] pow2(k);
        if k > 0 {
            vstd::arithmetic::power2::lemma_pow2_unfold(k);
            vstd::arithmetic::power2::lemma_pow2_pos((k - 1) as nat);
            assert(n / 2 == pow2((k - 1) as nat));
            assert(n % 2 == 0);
            powers_of_two(n / 2);
        }
    }
    if n == 1 {
        assert(n == pow2(0));
    }
}

/// The ROM is the program, and as small as a power of two that holds it and two
/// words can be.
pub proof fn roms_hold_the_program(program: Seq<u32>)
    ensures
        padded(program).len() >= 2,
        padded(program).len() >= program.len(),
        padded(program).len() == 2 || padded(program).len() < 2 * program.len(),
        exists|k: nat| padded(program).len() == #[trigger] pow2(k),
        padded(program).take(program.len() as int) == program,
{
    assert(is_pow2(1));
    assert(is_pow2(2));
    crate::isa::lemma_doubled(2, program.len());
    powers_of_two(padded(program).len() as int);
    assert(padded(program).take(program.len() as int) =~= program);
}

/// A program that runs past its last word halts: nothing changes any more.
pub proof fn running_past_the_end_halts(program: Seq<u32>, s: Arch, n: nat)
    requires
        s.regs.len() == 32,
        program.len() <= (s.pc as int / 4) % padded(program).len() as int,
    ensures
        steps(padded(program), s, n) == s,
    decreases n,
{
    roms_hold_the_program(program);
    let rom = padded(program);
    if n > 0 {
        running_past_the_end_halts(program, s, (n - 1) as nat);
        steps_fetch_and_retire(rom, s, (n - 1) as nat);
        let w = rom[(s.pc as int / 4) % rom.len() as int];
        jumps(w, s, 0, 0);
        assert(retire(w, s).regs =~= s.regs);
    }
}

/// Power-on: everything is zero.
pub proof fn power_on_is_zero(ram_words: nat)
    ensures
        reset_state(ram_words).pc == 0,
        reset_state(ram_words).regs.len() == 32,
        reset_state(ram_words).ram.len() == ram_words,
        forall|r: int| 0 <= r < 32 ==> #[trigger] reset_state(ram_words).regs[r] == 0,
        forall|k: int| 0 <= k < ram_words ==> #[trigger] reset_state(ram_words).ram[k] == 0,
{
}

} // verus!
