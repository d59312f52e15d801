//! Instruction-level RV32I reference emulator.
//!
//! Mirrors the hardware core exactly, including its quirks, so the two can
//! run in lockstep on arbitrary programs.
use vstd::prelude::*;

use crate::isa::{
    alu, branch_taken, doubled, imm_b, imm_i, imm_j, imm_s, imm_u, is_pow2, lemma_doubled,
    load_value, padded, reset_state, retire, sign_fill, signed, step, steps, store_mask, word_index,
    written, Arch, HALT,
};

verus! {

/// ROM image padded with [`HALT`] to a power of two, so the fetch mux tree
/// is complete and the program counter wraps instead of fetching garbage.
pub fn pad_rom(program: &[u32]) -> (rom: Vec<u32>)
    requires
        padded(program@).len() <= usize::MAX,
    ensures
        rom@ == padded(program@),
        is_pow2(rom@.len() as int),
        2 <= rom@.len(),
{
    let n: usize = program.len();
    let mut len: usize = 2;
    proof {
        assert(is_pow2(1));
        assert(is_pow2(2));
        lemma_doubled(2, n as nat);
    }
    while len < n
        invariant
            n == program@.len(),
            2 <= len <= doubled(2, n as nat) <= usize::MAX,
            is_pow2(len as int),
            doubled(2, n as nat) == doubled(len as nat, n as nat),
        decreases 2 * n - len,
    {
        proof {
            assert((2 * len as int) / 2 == len);
            assert(is_pow2(2 * len as int));
            lemma_doubled(2 * len as nat, n as nat);
        }
        len = len * 2;
    }
    assert(doubled(len as nat, n as nat) == len);
    let mut rom: Vec<u32> = Vec::with_capacity(len);
    for i in 0..len
        invariant
            n == program@.len(),
            rom@.len() == i,
            forall|j: int|
                0 <= j < i ==> #[trigger] rom@[j] == if j < n {
                    program@[j]
                } else {
                    HALT
                },
    {
        if i < n {
            rom.push(program[i]);
        } else {
            rom.push(HALT);
        }
    }
    assert(rom@ =~= padded(program@));
    rom
}

/// The program an emulator runs, padded to a power of two.
pub struct Rom {
    words: Vec<u32>,
}

impl View for Rom {
    type V = Seq<u32>;

    closed spec fn view(&self) -> Seq<u32> {
        self.words@
    }
}

pub struct Emulator {
    pub pc: u32,
    pub regs: [u32; 32],
    pub ram: Vec<u32>,
    pub rom: Rom,
}

fn sign_bits(w: u32, fill: u32) -> (v: u32)
    ensures
        v == sign_fill(w, fill),
{
    if w & 0x8000_0000 != 0 {
        fill
    } else {
        0
    }
}

/// Signed comparison of two words.
fn less_signed(a: u32, b: u32) -> (lt: bool)
    ensures
        lt == (signed(a) < signed(b)),
{
    if a >= 0x8000_0000 {
        if b >= 0x8000_0000 {
            a < b
        } else {
            true
        }
    } else if b >= 0x8000_0000 {
        false
    } else {
        a < b
    }
}

fn alu_value(f3: u32, a: u32, b: u32, subtract: bool, alt: bool) -> (v: u32)
    ensures
        v == alu(f3, a, b, subtract, alt),
{
    assert(b & 31 < 32) by (bit_vector);
    let amount: u32 = b & 31;
    match f3 {
        0 => if subtract {
            a.wrapping_sub(b)
        } else {
            a.wrapping_add(b)
        },
        1 => a << amount,
        2 => if less_signed(a, b) {
            1
        } else {
            0
        },
        3 => if a < b {
            1
        } else {
            0
        },
        4 => a ^ b,
        5 => if alt && a & 0x8000_0000 != 0 {
            (a >> amount) | !(0xffff_ffffu32 >> amount)
        } else {
            a >> amount
        },
        6 => a | b,
        _ => a & b,
    }
}

fn taken(f3: u32, a: u32, b: u32) -> (t: bool)
    ensures
        t == branch_taken(f3, a, b),
{
    match f3 {
        0 | 2 => a == b,
        1 | 3 => a != b,
        4 => less_signed(a, b),
        5 => !less_signed(a, b),
        6 => a < b,
        _ => a >= b,
    }
}

fn loaded(f3: u32, lane: u32) -> (v: u32)
    ensures
        v == load_value(f3, lane),
{
    match f3 {
        0 => if lane & 0x80 != 0 {
            (lane & 0xff) | 0xffff_ff00
        } else {
            lane & 0xff
        },
        1 => if lane & 0x8000 != 0 {
            (lane & 0xffff) | 0xffff_0000
        } else {
            lane & 0xffff
        },
        4 => lane & 0xff,
        5 => lane & 0xffff,
        _ => lane,
    }
}

fn mask_for(f3: u32, addr: u32) -> (m: u32)
    ensures
        m == store_mask(f3, addr),
{
    assert((addr & 3) << 3 < 32) by (bit_vector);
    match f3 {
        0 => 0xffu32 << ((addr & 3) << 3),
        1 => if addr & 2 != 0 {
            0xffff_0000
        } else {
            0x0000_ffff
        },
        2 => 0xffff_ffff,
        _ => 0,
    }
}

impl Emulator {
    pub open spec fn arch(&self) -> Arch {
        Arch { pc: self.pc, regs: self.regs@, ram: self.ram@ }
    }

    pub open spec fn wf(&self) -> bool {
        &&& is_pow2(self.rom@.len() as int)
        &&& is_pow2(self.ram@.len() as int)
    }

    pub fn new(program: &[u32], ram_words: usize) -> (e: Self)
        requires
            padded(program@).len() <= usize::MAX,
            is_pow2(ram_words as int),
        ensures
            e.wf(),
            e.rom@ == padded(program@),
            e.arch() == reset_state(ram_words as nat),
    {
        let mut ram: Vec<u32> = Vec::with_capacity(ram_words);
        for i in 0..ram_words
            invariant
                ram@.len() == i,
                forall|j: int| 0 <= j < i ==> #[trigger] ram@[j] == 0,
        {
            ram.push(0);
        }
        let e = Self { pc: 0, regs: [0;32], ram, rom: Rom { words: pad_rom(program) } };
        assert(e.arch() =~= reset_state(ram_words as nat));
        e
    }

    /// Write a register; `x0` stays zero.
    fn write(&mut self, rd: u32, value: u32)
        requires
            rd < 32,
        ensures
            final(self).regs@ == written(old(self).regs@, rd, value),
            final(self).pc == old(self).pc,
            final(self).ram == old(self).ram,
            final(self).rom == old(self).rom,
    {
        if rd != 0 {
            self.regs[rd as usize] = value;
        }
    }

    /// Retire one instruction.
    pub fn step(&mut self)
        requires
            old(self).wf(),
        ensures
            final(self).wf(),
            final(self).rom == old(self).rom,
            final(self).arch() == step(old(self).rom@, old(self).arch()),
    {
        let w: u32 = self.rom.words[(self.pc >> 2) as usize % self.rom.words.len()];
        assert(w == self.rom@[word_index(self.pc, self.rom@.len())]);
        assert(w >> 7 & 0x1f < 32 && w >> 15 & 0x1f < 32 && w >> 20 & 0x1f < 32) by (bit_vector);
        let opcode: u32 = w & 0x7f;
        let rd: u32 = w >> 7 & 0x1f;
        let f3: u32 = w >> 12 & 7;
        let rs1: u32 = self.regs[(w >> 15 & 0x1f) as usize];
        let rs2: u32 = self.regs[(w >> 20 & 0x1f) as usize];

        let imm_i: u32 = if w & 0x8000_0000 != 0 {
            (w >> 20) | 0xffff_f000
        } else {
            w >> 20
        };
        let imm_s: u32 = sign_bits(w, 0xffff_f000) | (w >> 25 & 0x7f) << 5 | (w >> 7 & 0x1f);
        let imm_b: u32 = sign_bits(w, 0xffff_f000) | (w >> 7 & 1) << 11 | (w >> 25 & 0x3f) << 5 | (w >> 8
            & 0xf) << 1;
        let imm_u: u32 = w & 0xffff_f000;
        let imm_j: u32 = sign_bits(w, 0xfff0_0000) | (w & 0x000f_f000) | (w >> 20 & 1) << 11 | (w >> 21
            & 0x3ff) << 1;

        let mut next_pc: u32 = self.pc.wrapping_add(4);
        let ghost before = self.arch();

        match opcode {
            0b0110111 => self.write(rd, imm_u),
            0b0010111 => {
                let value: u32 = self.pc.wrapping_add(imm_u);
                self.write(rd, value);
            },
            0b1101111 => {
                self.write(rd, next_pc);
                next_pc = self.pc.wrapping_add(imm_j);
            },
            0b1100111 => {
                self.write(rd, next_pc);
                next_pc = rs1.wrapping_add(imm_i) & !1u32;
            },
            0b1100011 => {
                if taken(f3, rs1, rs2) {
                    next_pc = self.pc.wrapping_add(imm_b);
                }
            },
            0b0000011 => {
                let addr: u32 = rs1.wrapping_add(imm_i);
                let word: u32 = self.ram[(addr >> 2) as usize % self.ram.len()];
                assert((addr & 3) << 3 < 32) by (bit_vector);
                let lane: u32 = word >> ((addr & 3) << 3);
                self.write(rd, loaded(f3, lane));
            },
            0b0100011 => {
                let addr: u32 = rs1.wrapping_add(imm_s);
                let index: usize = (addr >> 2) as usize % self.ram.len();
                assert((addr & 3) << 3 < 32) by (bit_vector);
                let shift: u32 = (addr & 3) << 3;
                let mask: u32 = mask_for(f3, addr);
                self.ram.set(index, (self.ram[index] & !mask) | ((rs2 << shift) & mask));
            },
            0b0010011 | 0b0110011 => {
                let operand: u32 = if opcode == 0b0010011 {
                    imm_i
                } else {
                    rs2
                };
                let bit30: bool = (w >> 30u32) & 1 == 1;
                let subtract: bool = opcode == 0b0110011 && bit30;
                self.write(rd, alu_value(f3, rs1, operand, subtract, bit30));
            },
            _ => {},
        }
        self.pc = next_pc;
        assert(self.arch() =~= retire(w, before));
    }

    /// Retire `n` instructions.
    pub fn run(&mut self, n: usize)
        requires
            old(self).wf(),
        ensures
            final(self).wf(),
            final(self).rom == old(self).rom,
            final(self).arch() == steps(old(self).rom@, old(self).arch(), n as nat),
    {
        for i in 0..n
            invariant
                self.wf(),
                self.rom == old(self).rom,
                self.arch() == steps(old(self).rom@, old(self).arch(), i as nat),
        {
            self.step();
        }
    }
}

/// The emulator's state is what its fields hold.
pub proof fn the_emulator_shows_its_fields(e: Emulator)
    ensures
        e.arch().pc == e.pc,
        e.arch().regs == e.regs@,
        e.arch().ram == e.ram@,
{
}

} // verus!
