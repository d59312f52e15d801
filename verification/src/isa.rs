//! RV32I as this project's core implements it: decoding, and what retiring
//! one instruction does to the architectural state.
//!
//! The fetch and data addresses wrap modulo the ROM/RAM size, loads shift
//! the addressed word right by the byte offset with zero fill before width
//! selection, stores byte-merge, undefined branch funct3 values fall back to
//! eq/ne, and unknown opcodes retire as no-ops.
use vstd::prelude::*;

verus! {

/// Program counter, registers and data memory.
#[verifier::ext_equal]
pub struct Arch {
    pub pc: u32,
    pub regs: Seq<u32>,
    pub ram: Seq<u32>,
}

/// Bit `i` of a word.
pub open spec fn bit_of(w: u32, i: int) -> bool {
    (w >> (i as u32)) & 1 == 1
}

pub open spec fn opcode_of(w: u32) -> u32 {
    w & 0x7f
}

pub open spec fn rd_of(w: u32) -> u32 {
    w >> 7 & 0x1f
}

pub open spec fn f3_of(w: u32) -> u32 {
    w >> 12 & 7
}

pub open spec fn rs1_of(w: u32) -> u32 {
    w >> 15 & 0x1f
}

pub open spec fn rs2_of(w: u32) -> u32 {
    w >> 20 & 0x1f
}

/// `fill` where the instruction's sign bit is set.
pub open spec fn sign_fill(w: u32, fill: u32) -> u32 {
    if w & 0x8000_0000 != 0 {
        fill
    } else {
        0
    }
}

pub open spec fn imm_i(w: u32) -> u32 {
    if w & 0x8000_0000 != 0 {
        (w >> 20) | 0xffff_f000
    } else {
        w >> 20
    }
}

pub open spec fn imm_s(w: u32) -> u32 {
    sign_fill(w, 0xffff_f000) | (w >> 25 & 0x7f) << 5 | (w >> 7 & 0x1f)
}

pub open spec fn imm_b(w: u32) -> u32 {
    sign_fill(w, 0xffff_f000) | (w >> 7 & 1) << 11 | (w >> 25 & 0x3f) << 5 | (w >> 8 & 0xf) << 1
}

pub open spec fn imm_u(w: u32) -> u32 {
    w & 0xffff_f000
}

pub open spec fn imm_j(w: u32) -> u32 {
    sign_fill(w, 0xfff0_0000) | (w & 0x000f_f000) | (w >> 20 & 1) << 11 | (w >> 21 & 0x3ff) << 1
}

/// Addition modulo 2^32.
pub open spec fn wadd(a: u32, b: u32) -> u32 {
    if a + b > u32::MAX {
        (a + b - 0x1_0000_0000) as u32
    } else {
        (a + b) as u32
    }
}

/// Subtraction modulo 2^32.
pub open spec fn wsub(a: u32, b: u32) -> u32 {
    if a < b {
        (a - b + 0x1_0000_0000) as u32
    } else {
        (a - b) as u32
    }
}

/// A word as a two's complement number.
pub open spec fn signed(a: u32) -> int {
    if a >= 0x8000_0000 {
        a - 0x1_0000_0000
    } else {
        a as int
    }
}

/// Arithmetic right shift.
pub open spec fn shift_right_arith(a: u32, k: u32) -> u32 {
    if a & 0x8000_0000 != 0 {
        (a >> k) | !(0xffff_ffffu32 >> k)
    } else {
        a >> k
    }
}

/// Whether a branch is taken.
pub open spec fn branch_taken(f3: u32, a: u32, b: u32) -> bool {
    if f3 == 0 || f3 == 2 {
        a == b
    } else if f3 == 1 || f3 == 3 {
        a != b
    } else if f3 == 4 {
        signed(a) < signed(b)
    } else if f3 == 5 {
        signed(a) >= signed(b)
    } else if f3 == 6 {
        a < b
    } else {
        a >= b
    }
}

/// The result of an integer operation. `alt` is bit 30 of the instruction.
pub open spec fn alu(f3: u32, a: u32, b: u32, subtract: bool, alt: bool) -> u32 {
    if f3 == 0 {
        if subtract {
            wsub(a, b)
        } else {
            wadd(a, b)
        }
    } else if f3 == 1 {
        a << (b & 31)
    } else if f3 == 2 {
        if signed(a) < signed(b) {
            1
        } else {
            0
        }
    } else if f3 == 3 {
        if a < b {
            1
        } else {
            0
        }
    } else if f3 == 4 {
        a ^ b
    } else if f3 == 5 {
        if alt {
            shift_right_arith(a, b & 31)
        } else {
            a >> (b & 31)
        }
    } else if f3 == 6 {
        a | b
    } else {
        a & b
    }
}

/// What a load writes back, `lane` being the word shifted to the addressed
/// byte.
pub open spec fn load_value(f3: u32, lane: u32) -> u32 {
    if f3 == 0 {
        if lane & 0x80 != 0 {
            (lane & 0xff) | 0xffff_ff00
        } else {
            lane & 0xff
        }
    } else if f3 == 1 {
        if lane & 0x8000 != 0 {
            (lane & 0xffff) | 0xffff_0000
        } else {
            lane & 0xffff
        }
    } else if f3 == 4 {
        lane & 0xff
    } else if f3 == 5 {
        lane & 0xffff
    } else {
        lane
    }
}

/// The bits a store replaces.
pub open spec fn store_mask(f3: u32, addr: u32) -> u32 {
    if f3 == 0 {
        0xffu32 << byte_shift(addr)
    } else if f3 == 1 {
        if addr & 2 != 0 {
            0xffff_0000
        } else {
            0x0000_ffff
        }
    } else if f3 == 2 {
        0xffff_ffff
    } else {
        0
    }
}

/// Distance of the addressed byte within its word, in bits.
pub open spec fn byte_shift(addr: u32) -> u32 {
    (addr & 3) << 3
}

/// The memory word after a store.
pub open spec fn store_merge(f3: u32, addr: u32, word: u32, data: u32) -> u32 {
    (word & !store_mask(f3, addr)) | ((data << byte_shift(addr)) & store_mask(f3, addr))
}

/// The word index of a byte address in a memory of `len` words.
pub open spec fn word_index(addr: u32, len: nat) -> int {
    (addr >> 2) as int % len as int
}

/// The registers after `rd` takes a value; `x0` stays.
pub open spec fn written(regs: Seq<u32>, rd: u32, value: u32) -> Seq<u32> {
    if rd != 0 {
        regs.update(rd as int, value)
    } else {
        regs
    }
}

/// Retire one instruction word.
pub open spec fn retire(w: u32, s: Arch) -> Arch {
    let op = opcode_of(w);
    let rd = rd_of(w);
    let f3 = f3_of(w);
    let a = s.regs[rs1_of(w) as int];
    let b = s.regs[rs2_of(w) as int];
    let pc4 = wadd(s.pc, 4);
    if op == 0b0110111 {
        Arch { pc: pc4, regs: written(s.regs, rd, imm_u(w)), ram: s.ram }
    } else if op == 0b0010111 {
        Arch { pc: pc4, regs: written(s.regs, rd, wadd(s.pc, imm_u(w))), ram: s.ram }
    } else if op == 0b1101111 {
        Arch { pc: wadd(s.pc, imm_j(w)), regs: written(s.regs, rd, pc4), ram: s.ram }
    } else if op == 0b1100111 {
        Arch { pc: wadd(a, imm_i(w)) & !1u32, regs: written(s.regs, rd, pc4), ram: s.ram }
    } else if op == 0b1100011 {
        let target = if branch_taken(f3, a, b) {
            wadd(s.pc, imm_b(w))
        } else {
            pc4
        };
        Arch { pc: target, regs: s.regs, ram: s.ram }
    } else if op == 0b0000011 {
        let addr = wadd(a, imm_i(w));
        let lane = s.ram[word_index(addr, s.ram.len())] >> byte_shift(addr);
        Arch { pc: pc4, regs: written(s.regs, rd, load_value(f3, lane)), ram: s.ram }
    } else if op == 0b0100011 {
        let addr = wadd(a, imm_s(w));
        let i = word_index(addr, s.ram.len());
        Arch { pc: pc4, regs: s.regs, ram: s.ram.update(i, store_merge(f3, addr, s.ram[i], b)) }
    } else if op == 0b0010011 {
        let alt = bit_of(w, 30);
        Arch { pc: pc4, regs: written(s.regs, rd, alu(f3, a, imm_i(w), false, alt)), ram: s.ram }
    } else if op == 0b0110011 {
        let alt = bit_of(w, 30);
        Arch { pc: pc4, regs: written(s.regs, rd, alu(f3, a, b, alt, alt)), ram: s.ram }
    } else {
        Arch { pc: pc4, regs: s.regs, ram: s.ram }
    }
}

/// Fetch and retire.
pub open spec fn step(rom: Seq<u32>, s: Arch) -> Arch {
    retire(rom[word_index(s.pc, rom.len())], s)
}

/// `n` instructions.
pub open spec fn steps(rom: Seq<u32>, s: Arch, n: nat) -> Arch
    decreases n,
{
    if n == 0 {
        s
    } else {
        step(rom, steps(rom, s, (n - 1) as nat))
    }
}

/// A power of two.
pub open spec fn is_pow2(n: int) -> bool
    decreases n,
{
    n == 1 || (n > 1 && n % 2 == 0 && is_pow2(n / 2))
}

/// The smallest `len * 2^k` that is at least `n`.
pub open spec fn doubled(len: nat, n: nat) -> nat
    decreases 2 * n - len,
{
    if len == 0 || len >= n {
        len
    } else {
        doubled(2 * len, n)
    }
}

/// `jal x0, 0`: spins in place forever; pads the ROM.
pub const HALT: u32 = 0x0000_006F;

/// ROM image: the program padded with [`HALT`] to a power of two, at least
/// two words.
pub open spec fn padded(program: Seq<u32>) -> Seq<u32> {
    Seq::new(
        doubled(2, program.len()),
        |i: int|
            if i < program.len() {
                program[i]
            } else {
                HALT
            },
    )
}

/// Everything zero.
pub open spec fn reset_state(ram_words: nat) -> Arch {
    Arch { pc: 0, regs: Seq::new(32, |i: int| 0u32), ram: Seq::new(ram_words, |i: int| 0u32) }
}

/// Doubling a power of two gives a power of two.
pub proof fn lemma_doubled(len: nat, n: nat)
    requires
        is_pow2(len as int),
    ensures
        is_pow2(doubled(len, n) as int),
        doubled(len, n) >= len,
        doubled(len, n) >= n,
        doubled(len, n) == len || doubled(len, n) < 2 * n,
    decreases 2 * n - len,
{
    if len < n {
        assert((2 * len as int) / 2 == len);
        assert(is_pow2((2 * len) as int));
        lemma_doubled(2 * len, n);
    }
}

/// `x0` reads zero forever, and the sizes never change.
pub proof fn x0_stays_zero(rom: Seq<u32>, s: Arch, n: nat)
    requires
        s.regs.len() == 32,
        s.regs[0] == 0,
        s.ram.len() > 0,
    ensures
        steps(rom, s, n).regs.len() == 32,
        steps(rom, s, n).regs[0] == 0,
        steps(rom, s, n).ram.len() == s.ram.len(),
    decreases n,
{
    if n > 0 {
        x0_stays_zero(rom, s, (n - 1) as nat);
        let t = steps(rom, s, (n - 1) as nat);
        let w = rom[word_index(t.pc, rom.len())];
        assert(w >> 7 & 0x1f < 32) by (bit_vector);
    }
}

/// Running `a` then `b` instructions is running `a + b`.
pub proof fn steps_add_up(rom: Seq<u32>, s: Arch, a: nat, b: nat)
    ensures
        steps(rom, steps(rom, s, a), b) == steps(rom, s, a + b),
    decreases b,
{
    if b > 0 {
        steps_add_up(rom, s, a, (b - 1) as nat);
    }
}

} // verus!
