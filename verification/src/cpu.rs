//! Single-cycle gate-level RV32I core: one tick = one retired instruction.
//!
//! Everything is honest hardware built from the nine gate kinds: the
//! register file and RAM are D flip-flops behind mux trees, the ALU is a
//! ripple-carry adder plus barrel shifters, instruction decode is wired bit
//! matching. Nothing is pattern-matched into native arithmetic.
//!
//! Memory follows a simple word-RAM model: the byte address is reduced
//! modulo the RAM size, loads shift the addressed word right by the byte
//! offset (zero fill) before width/sign selection, stores byte-merge into
//! the addressed word. Unimplemented opcodes retire as no-ops (pc advances).
//! The bundled [`crate::emu::Emulator`] mirrors this model exactly.
//!
//! Architectural state is exported as circuit outputs: `pc` at bit indices
//! `0..32`, register `xN` at `32 * (N + 1) .. 32 * (N + 2)`.
use vstd::arithmetic::power2::pow2;
use vstd::prelude::*;
use vstd::string::StringExecFns;

use crate::circuit::{Circuit, CircuitBuilder, MAX_GATES, MAX_SIGNALS};
use crate::datapath::{
    alu_result, arith_ok, arithmetic, decode, decode_funct3, f3_lines, fetch, flags_ok, immediates,
    imms_ok, lemma_carries, lemma_wval, load_path, next_pc, next_pc_ok, second_operand, select32,
    store_path, within, word_in, writeback, writeback_ok, wval,
};
use crate::emu::pad_rom;
use crate::engine::Machine;
use crate::entity::{Reg, Signal};
use crate::isa::{
    alu, bit_of, branch_taken, byte_shift, f3_of, imm_b, imm_i, imm_j, imm_s, imm_u, is_pow2, load_value,
    opcode_of, padded, rd_of, reset_state, retire, rs1_of, rs2_of, step, steps, store_merge, wadd,
    word_index, written, wsub, Arch,
};
use crate::kahn::{renumbering_keeps_behaviour, schedule};
use crate::names::{decimal, numbered};
use crate::netlist::{node_ordered, node_value, Env, Netlist, Node};
use crate::rtl;
use crate::rtl::{same_wires, table_ok, Word};
use crate::wires::{
    const_bit, has_all, keeps, lemma_gate, lemma_has_all_grows, lemma_keeps_chain, lemma_keeps_self,
    num, on, tidy, word_on,
};
use crate::words::{lemma_fields, lemma_word_select};

verus! {

broadcast use {
    Signal::lemma_range,
    Reg::lemma_range,
    lemma_keeps_chain,
    lemma_keeps_self,
    lemma_gate,
    lemma_has_all_grows,
};

/// Word `k` of the stored state: the program counter, `x1..x31`, then RAM.
/// `x0` is hardwired zero and has no storage.
pub open spec fn stored_word(s: Arch, k: int) -> u32 {
    if k == 0 {
        s.pc
    } else if k < 32 {
        s.regs[k]
    } else {
        s.ram[k - 32]
    }
}

/// The register bits that hold an architectural state.
pub open spec fn state_bits(s: Arch) -> Seq<bool> {
    Seq::new(32 * (32 + s.ram.len()), |j: int| bit_of(stored_word(s, j / 32), j % 32))
}

/// What the core's registers hold in a state.
pub open spec fn env_of(s: Arch) -> Env {
    Env { inputs: Seq::empty(), state: state_bits(s) }
}

/// Word `k` of the exported state: the program counter, then `x0..x31`.
pub open spec fn shown_word(s: Arch, k: int) -> u32 {
    if k == 0 {
        s.pc
    } else {
        s.regs[k - 1]
    }
}

/// The output bits that show an architectural state.
pub open spec fn output_bits(s: Arch) -> Seq<bool> {
    Seq::new(32 * 33, |j: int| bit_of(shown_word(s, j / 32), j % 32))
}

/// A state of a core with `ram` words of memory.
pub open spec fn arch_ok(s: Arch, ram: nat) -> bool {
    s.regs.len() == 32 && s.regs[0] == 0 && s.ram.len() == ram
}

/// Label of stored word `k`, up to the bit number.
pub open spec fn store_prefix(k: nat) -> Seq<char> {
    if k == 0 {
        "PC"@
    } else if k < 32 {
        "X"@ + decimal(k) + "_"@
    } else {
        "M"@ + decimal((k - 32) as nat) + "_"@
    }
}

/// Label of exported word `k`, up to the bit number.
pub open spec fn show_prefix(k: nat) -> Seq<char> {
    if k == 0 {
        "PC"@
    } else {
        "X"@ + decimal((k - 1) as nat) + "_"@
    }
}

/// `letter`, a number, and an underscore.
fn word_label(letter: &str, n: usize) -> (text: String)
    ensures
        text@ == letter@ + decimal(n as nat) + "_"@,
{
    let mut text = numbered(letter, n);
    text.append("_");
    text
}

/// The flip-flops: their handles and the wires they drive.
struct Bank {
    regs: Vec<Vec<Reg>>,
    words: Vec<Word>,
}

spec fn bank_ok(b: &CircuitBuilder, bank: Bank) -> bool {
    &&& bank.regs@.len() == bank.words@.len()
    &&& b.net().drives.len() == 32 * bank.words@.len()
    &&& table_ok(b, bank.words@, 32)
    &&& forall|k: int| 0 <= k < bank.regs@.len() ==> (#[trigger] bank.regs@[k])@.len() == 32
    &&& forall|k: int, i: int|
        #![trigger bank.regs@[k]@[i]]
        0 <= k < bank.regs@.len() && 0 <= i < 32 ==> bank.regs@[k]@[i].id() == 32 * k + i
}

/// Wire `i` of stored word `k` shows its flip-flop.
spec fn shows(nodes: Seq<Node>, env: Env, w: Seq<Signal>, k: int) -> bool {
    forall|i: int|
        0 <= i < 32 ==> on(nodes, env, #[trigger] w[i]) == (32 * k + i < env.state.len() && env.state[32 * k + i])
}

/// Nothing but flip-flops and their labels was added.
spec fn regs_added(before: &CircuitBuilder, after: &CircuitBuilder, k: int) -> bool {
    &&& after.net().nodes.len() == before.net().nodes.len() + k
    &&& after.gates() == before.gates()
    &&& keeps(before.net().nodes, after.net().nodes)
    &&& after.net().drives.len() == before.net().drives.len() + k
    &&& after.net().inits.len() == before.net().inits.len() + k
    &&& forall|i: int| 0 <= i < before.net().inits.len() ==> #[trigger] after.net().inits[i] == before.net().inits[i]
    &&& forall|i: int|
        before.net().inits.len() <= i < after.net().inits.len() ==> !#[trigger] after.net().inits[i]
    &&& after.net().outs == before.net().outs
    &&& after.net().inputs == before.net().inputs
    &&& after.input_names() == before.input_names()
    &&& after.output_names() == before.output_names()
    &&& after.debug_names().len() == before.debug_names().len() + k
    &&& forall|i: int|
        0 <= i < before.debug_names().len() ==> #[trigger] after.debug_names()[i] == before.debug_names()[i]
}

/// Labels `from..to` of a list are a prefix and a bit number.
spec fn labelled(names: Seq<String>, prefix: Seq<char>, from: int, to: int) -> bool {
    forall|i: int| from <= i < to ==> (#[trigger] names[i])@ == prefix + decimal((i - from) as nat)
}

/// One word of flip-flops.
#[verifier::rlimit(40)]
fn reg_word(b: &mut CircuitBuilder, prefix: &str, k: Ghost<int>) -> (res: (Vec<Reg>, Word))
    requires
        tidy(old(b)),
        old(b).source_room(32),
        old(b).net().drives.len() == 32 * k@,
        0 <= k@,
    ensures
        tidy(final(b)),
        regs_added(old(b), final(b), 32),
        labelled(final(b).debug_names(), prefix@, 32 * k@, 32 * k@ + 32),
        res.0@.len() == 32,
        forall|i: int| 0 <= i < 32 ==> (#[trigger] res.0@[i]).id() == 32 * k@ + i,
        word_in(final(b), res.1@),
        forall|nodes: Seq<Node>, env: Env|
            keeps(final(b).net().nodes, nodes) ==> #[trigger] shows(nodes, env, res.1@, k@),
{
    let mut regs: Vec<Reg> = Vec::new();
    let mut word: Word = Vec::new();
    proof {
        old(b).lemma_inv();
    }
    for i in 0..32usize
        invariant
            tidy(b),
            old(b).source_room(32),
            old(b).net().drives.len() == 32 * k@,
            old(b).debug_names().len() == 32 * k@,
            old(b).net().inits.len() == 32 * k@,
            0 <= k@,
            regs_added(old(b), b, i as int),
            labelled(b.debug_names(), prefix@, 32 * k@, 32 * k@ + i),
            regs@.len() == i,
            forall|j: int| 0 <= j < i ==> (#[trigger] regs@[j]).id() == 32 * k@ + j,
            word@.len() == i,
            has_all(b, word@),
            forall|nodes: Seq<Node>, env: Env, j: int|
                keeps(b.net().nodes, nodes) && 0 <= j < i ==> #[trigger] on(nodes, env, word@[j]) == (32 * k@ + j
                    < env.state.len() && env.state[32 * k@ + j]),
    {
        let ghost b0 = *b;
        let ghost word0 = word@;
        let (reg, q) = b.push_register(numbered(prefix, i), None, false);
        regs.push(reg);
        word.push(q);
        proof {
            b.lemma_inv();
            reveal(keeps);
            let n = b0.net().nodes.len() as int;
            assert(keeps(b0.net().nodes, b.net().nodes));
            assert forall|x: int| 0 <= x < b.net().nodes.len() implies #[trigger] node_ordered(
                b.net().nodes,
                x,
            ) by {
                if x < n {
                    assert(node_ordered(b0.net().nodes, x));
                    assert(b.net().nodes[x] == b0.net().nodes[x]);
                }
            }
            assert forall|nodes: Seq<Node>, env: Env, j: int|
                keeps(b.net().nodes, nodes) && 0 <= j < i + 1 implies #[trigger] on(nodes, env, word@[j]) == (32
                * k@ + j < env.state.len() && env.state[32 * k@ + j]) by {
                if j < i {
                    assert(word@[j] == word0[j]);
                    assert(keeps(b0.net().nodes, nodes));
                } else {
                    assert(nodes[n] == b.net().nodes[n]);
                }
            }
            assert forall|x: int| 0 <= x < old(b).debug_names().len() implies #[trigger] b.debug_names()[x]
                == old(b).debug_names()[x] by {
                assert(b0.debug_names()[x] == old(b).debug_names()[x]);
            }
            assert forall|x: int| 32 * k@ <= x < 32 * k@ + i + 1 implies (#[trigger] b.debug_names()[x])@
                == prefix@ + decimal((x - 32 * k@) as nat) by {
                if x < 32 * k@ + i {
                    assert(b.debug_names()[x] == b0.debug_names()[x]);
                }
            }
            assert forall|x: int| 0 <= x < word@.len() implies b.has(#[trigger] word@[x]) by {
                if x < i {
                    assert(b0.has(word0[x]));
                }
            }
        }
    }
    proof {
        assert forall|nodes: Seq<Node>, env: Env| keeps(b.net().nodes, nodes) implies #[trigger] shows(
            nodes,
            env,
            word@,
            k@,
        ) by {}
    }
    (regs, word)
}

/// Every stored word so far is labelled.
spec fn labels_ok(names: Seq<String>, count: int) -> bool {
    forall|k: int| 0 <= k < count ==> labelled(names, #[trigger] store_prefix(k as nat), 32 * k, 32 * k + 32)
}

/// Every stored word shows its flip-flops.
spec fn bank_shows(nodes: Seq<Node>, env: Env, words: Seq<Word>) -> bool {
    forall|k: int| 0 <= k < words.len() ==> shows(nodes, env, (#[trigger] words[k])@, k)
}

/// State: pc, x1..x31, RAM.
#[verifier::rlimit(40)]
fn state_bank(b: &mut CircuitBuilder, ram_words: usize) -> (bank: Bank)
    requires
        tidy(old(b)),
        old(b).net().drives.len() == 0,
        ram_words <= 0x100_0000,
        old(b).source_room(32 * (32 + ram_words)),
    ensures
        tidy(final(b)),
        regs_added(old(b), final(b), 32 * (32 + ram_words)),
        bank.words@.len() == 32 + ram_words,
        bank_ok(final(b), bank),
        labels_ok(final(b).debug_names(), 32 + ram_words),
        forall|nodes: Seq<Node>, env: Env|
            keeps(final(b).net().nodes, nodes) ==> #[trigger] bank_shows(nodes, env, bank.words@),
{
    let total: usize = 32 + ram_words;
    let mut bank = Bank { regs: Vec::new(), words: Vec::new() };
    proof {
        b.lemma_inv();
    }
    for k in 0..total
        invariant
            total == 32 + ram_words,
            tidy(b),
            old(b).source_room(32 * total),
            old(b).net().drives.len() == 0,
            old(b).debug_names().len() == 0,
            old(b).net().inits.len() == 0,
            regs_added(old(b), b, 32 * k),
            bank.words@.len() == k,
            bank_ok(b, bank),
            labels_ok(b.debug_names(), k as int),
            forall|nodes: Seq<Node>, env: Env|
                keeps(b.net().nodes, nodes) ==> #[trigger] bank_shows(nodes, env, bank.words@),
    {
        let ghost b0 = *b;
        let ghost bank0 = bank;
        let prefix: String = if k == 0 {
            String::from_str("PC")
        } else if k < 32 {
            word_label("X", k)
        } else {
            word_label("M", k - 32)
        };
        assert(prefix@ == store_prefix(k as nat));
        let (regs, word) = reg_word(b, prefix.as_str(), Ghost(k as int));
        bank.regs.push(regs);
        bank.words.push(word);
        proof {
            b.lemma_inv();
            assert forall|j: int| 0 <= j < bank.words@.len() implies (#[trigger] bank.words@[j])@.len() == 32
                && has_all(b, bank.words@[j]@) by {
                if j < k {
                    assert(bank.words@[j] == bank0.words@[j]);
                    assert(has_all(&b0, bank0.words@[j]@));
                    assert forall|i: int| 0 <= i < bank.words@[j]@.len() implies b.has(
                        #[trigger] bank.words@[j]@[i],
                    ) by {
                        assert(b0.has(bank0.words@[j]@[i]));
                    }
                }
            }
            assert forall|j: int| 0 <= j < k + 1 implies labelled(
                b.debug_names(),
                #[trigger] store_prefix(j as nat),
                32 * j,
                32 * j + 32,
            ) by {
                if j < k {
                    assert(labelled(b0.debug_names(), store_prefix(j as nat), 32 * j, 32 * j + 32));
                    assert forall|i: int| 32 * j <= i < 32 * j + 32 implies (#[trigger] b.debug_names()[i])@
                        == store_prefix(j as nat) + decimal((i - 32 * j) as nat) by {
                        assert(b.debug_names()[i] == b0.debug_names()[i]);
                    }
                }
            }
            assert forall|nodes: Seq<Node>, env: Env| keeps(b.net().nodes, nodes) implies #[trigger] bank_shows(
                nodes,
                env,
                bank.words@,
            ) by {
                assert(keeps(b0.net().nodes, nodes));
                assert(bank_shows(nodes, env, bank0.words@));
                assert(shows(nodes, env, word@, k as int));
                assert forall|j: int| 0 <= j < bank.words@.len() implies shows(
                    nodes,
                    env,
                    (#[trigger] bank.words@[j])@,
                    j,
                ) by {
                    if j < k {
                        assert(bank.words@[j] == bank0.words@[j]);
                    }
                }
            }
            assert forall|x: int| 0 <= x < bank.regs@.len() implies (#[trigger] bank.regs@[x])@.len() == 32 by {
                if x < k {
                    assert(bank.regs@[x] == bank0.regs@[x]);
                }
            }
            assert forall|x: int, i: int|
                #![trigger bank.regs@[x]@[i]]
                0 <= x < bank.regs@.len() && 0 <= i < 32 implies bank.regs@[x]@[i].id() == 32 * x + i by {
                if x < k {
                    assert(bank.regs@[x] == bank0.regs@[x]);
                }
            }
            assert(regs_added(old(b), b, 32 * (k + 1))) by {
                assert forall|i: int| 0 <= i < b.net().inits.len() implies !#[trigger] b.net().inits[i] by {
                    if i < b0.net().inits.len() {
                        assert(b.net().inits[i] == b0.net().inits[i]);
                    }
                }
            }
        }
    }
    bank
}

/// Shown flip-flops of a state carry its words.
proof fn lemma_bank_carries(nodes: Seq<Node>, s: Arch, words: Seq<Word>, k: int)
    requires
        bank_shows(nodes, env_of(s), words),
        words.len() == 32 + s.ram.len(),
        0 <= k < words.len(),
        words[k]@.len() == 32,
    ensures
        wval(nodes, env_of(s), words[k]@) == stored_word(s, k),
{
    let env = env_of(s);
    let w = words[k]@;
    assert(shows(nodes, env, w, k));
    assert forall|i: int| 0 <= i < 32 implies on(nodes, env, #[trigger] w[i]) == bit_of(stored_word(s, k), i) by {
        let j = 32 * k + i;
        assert(j / 32 == k && j % 32 == i) by (nonlinear_arith)
            requires
                j == 32 * k + i,
                0 <= i < 32,
        ;
        assert(env.state[j] == bit_of(stored_word(s, k), i));
    }
    lemma_carries(nodes, env, w, stored_word(s, k));
}

/// The wires that decide the next state.
struct Core {
    next_pc: Word,
    wb: Word,
    reg_write: Signal,
    rd_lines: Vec<Signal>,
    merged: Word,
    store: Signal,
    mem_lines: Vec<Signal>,
}

/// The core's wires carry the next state.
spec fn core_ok(nodes: Seq<Node>, core: Core, rom: Seq<u32>, s: Arch) -> bool {
    let env = env_of(s);
    let t = step(rom, s);
    &&& wval(nodes, env, core.next_pc@) == t.pc
    &&& t.regs.len() == 32
    &&& t.ram.len() == s.ram.len()
    &&& forall|k: int|
        1 <= k < 32 ==> #[trigger] t.regs[k] == (if on(nodes, env, core.reg_write) && on(
            nodes,
            env,
            core.rd_lines@[k],
        ) {
            wval(nodes, env, core.wb@)
        } else {
            s.regs[k]
        })
    &&& t.regs[0] == s.regs[0]
    &&& forall|m: int|
        0 <= m < s.ram.len() ==> #[trigger] t.ram[m] == (if on(nodes, env, core.store) && on(
            nodes,
            env,
            core.mem_lines@[m],
        ) {
            wval(nodes, env, core.merged@)
        } else {
            s.ram[m]
        })
}

/// What the decoded instruction does, from the values its wires carry.
proof fn lemma_retires(
    w: u32,
    s: Arch,
    operand: u32,
    sum: u32,
    next: u32,
    mem_word: u32,
    wb: u32,
    reg_write: bool,
    merged: u32,
)
    requires
        s.regs.len() == 32,
        s.ram.len() > 0,
        rs1_of(w) < 32,
        rs2_of(w) < 32,
        rd_of(w) < 32,
        0 <= word_index(sum, s.ram.len()) < s.ram.len(),
        operand == (if opcode_of(w) == 0b0100011 {
            imm_s(w)
        } else if opcode_of(w) == 0b0000011 || opcode_of(w) == 0b1100111 || opcode_of(w) == 0b0010011 {
            imm_i(w)
        } else {
            s.regs[rs2_of(w) as int]
        }),
        sum == (if opcode_of(w) == 0b0110011 && bit_of(w, 30) && f3_of(w) == 0 {
            wsub(s.regs[rs1_of(w) as int], operand)
        } else {
            wadd(s.regs[rs1_of(w) as int], operand)
        }),
        mem_word == s.ram[word_index(sum, s.ram.len())],
        next == (if opcode_of(w) == 0b1100111 {
            sum & !1u32
        } else if opcode_of(w) == 0b1101111 || (opcode_of(w) == 0b1100011 && branch_taken(
            f3_of(w),
            s.regs[rs1_of(w) as int],
            operand,
        )) {
            wadd(
                s.pc,
                if opcode_of(w) == 0b0010111 {
                    imm_u(w)
                } else if opcode_of(w) == 0b1101111 {
                    imm_j(w)
                } else {
                    imm_b(w)
                },
            )
        } else {
            wadd(s.pc, 4)
        }),
        wb == (if opcode_of(w) == 0b0000011 {
            load_value(f3_of(w), mem_word >> byte_shift(sum))
        } else if opcode_of(w) == 0b1101111 || opcode_of(w) == 0b1100111 {
            wadd(s.pc, 4)
        } else if opcode_of(w) == 0b0010111 {
            wadd(s.pc, imm_u(w))
        } else if opcode_of(w) == 0b0110111 {
            imm_u(w)
        } else {
            alu(
                f3_of(w),
                s.regs[rs1_of(w) as int],
                operand,
                opcode_of(w) == 0b0110011 && bit_of(w, 30) && f3_of(w) == 0,
                bit_of(w, 30),
            )
        }),
        reg_write == (opcode_of(w) == 0b0010011 || opcode_of(w) == 0b0110011 || opcode_of(w) == 0b0110111
            || opcode_of(w) == 0b0010111 || opcode_of(w) == 0b1101111 || opcode_of(w) == 0b1100111
            || opcode_of(w) == 0b0000011),
        merged == store_merge(f3_of(w), sum, mem_word, s.regs[rs2_of(w) as int]),
    ensures
        retire(w, s).pc == next,
        retire(w, s).regs == (if reg_write {
            written(s.regs, rd_of(w), wb)
        } else {
            s.regs
        }),
        retire(w, s).ram == (if opcode_of(w) == 0b0100011 {
            s.ram.update(word_index(sum, s.ram.len()), merged)
        } else {
            s.ram
        }),
{
}

/// Everything between the flip-flops' outputs and their inputs.
#[verifier::rlimit(100)]
fn build_core(
    b: &mut CircuitBuilder,
    rom: &Vec<u32>,
    rom_bits: usize,
    ram_bits: usize,
    pc: &Word,
    reg_words: &Vec<Word>,
    mem_words: &Vec<Word>,
    zero: Signal,
    one: Signal,
) -> (core: Core)
    requires
        tidy(old(b)),
        rom_bits <= 30,
        ram_bits <= 24,
        rom@.len() == pow2(rom_bits as nat),
        mem_words@.len() == pow2(ram_bits as nat),
        word_in(old(b), pc@),
        reg_words@.len() == 32,
        table_ok(old(b), reg_words@, 32),
        table_ok(old(b), mem_words@, 32),
        old(b).has(zero),
        old(b).has(one),
        old(b).source_room(core_size(rom@.len(), mem_words@.len())),
        old(b).gates() + core_gates(rom@.len(), mem_words@.len()) <= MAX_GATES,
    ensures
        tidy(final(b)),
        within(old(b), final(b), core_size(rom@.len(), mem_words@.len())),
        final(b).gates() <= old(b).gates() + core_gates(rom@.len(), mem_words@.len()),
        word_in(final(b), core.next_pc@),
        word_in(final(b), core.wb@),
        word_in(final(b), core.merged@),
        final(b).has(core.reg_write),
        final(b).has(core.store),
        core.rd_lines@.len() == 32,
        has_all(final(b), core.rd_lines@),
        core.mem_lines@.len() == mem_words@.len(),
        has_all(final(b), core.mem_lines@),
        forall|nodes: Seq<Node>, s: Arch|
            keeps(final(b).net().nodes, nodes) && core_reads(
                nodes,
                s,
                pc@,
                reg_words@,
                mem_words@,
                zero,
                one,
            ) ==> #[trigger] core_ok(nodes, core, rom@, s),
{
    proof {
        vstd::arithmetic::power2::lemma2_to64();
        vstd::arithmetic::power2::lemma_pow2_pos(ram_bits as nat);
        vstd::arithmetic::power2::lemma_pow2_pos(rom_bits as nat);
        lemma_decoder_bound(ram_bits as nat);
        reveal_with_fuel(rtl::decoder_size, 6);
    }
    // Fetch and decode.
    let instr = fetch(b, rom, rom_bits, pc);
    let fl = decode(b, &instr);
    let f3d = decode_funct3(b, &instr);
    let im = immediates(b, &instr, zero);

    // Register file read ports.
    let rs1_sel = vstd::slice::slice_subrange(instr.as_slice(), 15, 20);
    assert forall|i: int| 0 <= i < rs1_sel@.len() implies b.has(#[trigger] rs1_sel@[i]) by {
        assert(b.has(instr@[15 + i]));
    }
    proof {
        lemma_table_grows(old(b), b, reg_words@);
    }
    let rs1_data = select32(b, rs1_sel, reg_words.as_slice());
    let rs2_sel = vstd::slice::slice_subrange(instr.as_slice(), 20, 25);
    assert forall|i: int| 0 <= i < rs2_sel@.len() implies b.has(#[trigger] rs2_sel@[i]) by {
        assert(b.has(instr@[20 + i]));
    }
    proof {
        lemma_table_grows(old(b), b, reg_words@);
    }
    let rs2_data = select32(b, rs2_sel, reg_words.as_slice());

    // ALU.
    let alu_b = second_operand(b, &fl, &im, &rs2_data);
    assert(b.has(instr@[30]) && b.has(f3d@[0]));
    let op_f30 = b.and(fl.op, instr[30]);
    let sub_flag = b.and(op_f30, f3d[0]);
    let ar = arithmetic(b, sub_flag, &rs1_data, &alu_b, one);
    let alu_out = alu_result(b, &instr, &rs1_data, &alu_b, &ar, zero);

    // Data memory.
    proof {
        lemma_table_grows(old(b), b, mem_words@);
    }
    let (mem_word, load_data) = load_path(b, &instr, &ar.add_sub, mem_words, ram_bits, zero);
    let merged = store_path(b, &f3d, &ar.add_sub, &rs2_data, &mem_word, zero);
    let mem_sel = vstd::slice::slice_subrange(ar.add_sub.as_slice(), 2, 2 + ram_bits);
    assert forall|i: int| 0 <= i < mem_sel@.len() implies b.has(#[trigger] mem_sel@[i]) by {
        assert(b.has(ar.add_sub@[2 + i]));
    }
    let mem_lines = rtl::decoder(b, mem_sel);

    // Next pc and writeback.
    let np = next_pc(b, &instr, pc, &fl, &im, &ar, zero);
    let (wb, reg_write) = writeback(b, &fl, &im, &np, &alu_out, &load_data);
    let rd_sel = vstd::slice::slice_subrange(instr.as_slice(), 7, 12);
    assert forall|i: int| 0 <= i < rd_sel@.len() implies b.has(#[trigger] rd_sel@[i]) by {
        assert(b.has(instr@[7 + i]));
    }
    let rd_lines = rtl::decoder(b, rd_sel);

    let ghost (pc4, target, any_jal) = (np.pc4@, np.target@, np.any_jal);
    let ghost np_copy = np;
    let core = Core { next_pc: np.next, wb, reg_write, rd_lines, merged, store: fl.store, mem_lines };
    proof {
        assert forall|nodes: Seq<Node>, s: Arch|
            keeps(b.net().nodes, nodes) && core_reads(
                nodes,
                s,
                pc@,
                reg_words@,
                mem_words@,
                zero,
                one,
            ) implies #[trigger] core_ok(nodes, core, rom@, s) by {
            let env = env_of(s);
            let w = wval(nodes, env, instr@);
            assert(w == rom@[word_index(s.pc, rom@.len())]);
            let v = word_on(nodes, env, instr@);
            lemma_wval(nodes, env, instr@);
            lemma_fields(v, w);
            assert(flags_ok(nodes, env, fl, w));
            assert(imms_ok(nodes, env, im, w));
            assert(f3_lines(nodes, env, f3d@, f3_of(w)));
            assert(on(nodes, env, f3d@[0]) == (f3_of(w) == 0));
            assert(on(nodes, env, instr@[30]) == bit_of(w, 30));
            assert(word_on(nodes, env, rs1_sel@) =~= v.subrange(15, 20));
            assert(word_on(nodes, env, rs2_sel@) =~= v.subrange(20, 25));
            let x = wval(nodes, env, rs1_data@);
            assert(x == wval(nodes, env, reg_words@[rs1_of(w) as int]@));
            assert(x == s.regs[rs1_of(w) as int]);
            let r2 = wval(nodes, env, rs2_data@);
            assert(r2 == wval(nodes, env, reg_words@[rs2_of(w) as int]@));
            assert(r2 == s.regs[rs2_of(w) as int]);
            let y = wval(nodes, env, alu_b@);
            let subtract = on(nodes, env, sub_flag);
            assert(subtract == (opcode_of(w) == 0b0110011 && bit_of(w, 30) && f3_of(w) == 0));
            assert(arith_ok(nodes, env, ar, subtract, x, y));
            let sum = wval(nodes, env, ar.add_sub@);
            let va = word_on(nodes, env, ar.add_sub@);
            lemma_wval(nodes, env, ar.add_sub@);
            lemma_word_select(va, sum, ram_bits as nat);
            assert(word_on(nodes, env, mem_sel@) =~= va.subrange(2, 2 + ram_bits as int));
            let at = word_index(sum, s.ram.len());
            let mw = wval(nodes, env, mem_word@);
            assert(mw == wval(nodes, env, mem_words@[at]@));
            assert(mw == s.ram[at]);
            assert(wval(nodes, env, alu_out@) == alu(f3_of(w), x, y, subtract, bit_of(w, 30)));
            assert(wval(nodes, env, load_data@) == load_value(f3_of(w), mw >> byte_shift(sum)));
            assert(wval(nodes, env, merged@) == store_merge(f3_of(w), sum, mw, r2));
            assert(next_pc_ok(nodes, env, np_copy, fl, im, w, s.pc, sum, x, y));
            assert(writeback_ok(nodes, env, wb@, reg_write, fl, im, np_copy, alu_out@, load_data@));
            lemma_retires(
                w,
                s,
                y,
                sum,
                wval(nodes, env, core.next_pc@),
                mw,
                wval(nodes, env, wb@),
                on(nodes, env, reg_write),
                wval(nodes, env, merged@),
            );
            assert(word_on(nodes, env, rd_sel@) =~= v.subrange(7, 12));
            let t = step(rom@, s);
            assert forall|k: int| 1 <= k < 32 implies #[trigger] t.regs[k] == (if on(
                nodes,
                env,
                core.reg_write,
            ) && on(nodes, env, core.rd_lines@[k]) {
                wval(nodes, env, core.wb@)
            } else {
                s.regs[k]
            }) by {
                assert(on(nodes, env, core.rd_lines@[k]) == (rd_of(w) == k));
            }
            assert forall|m: int| 0 <= m < s.ram.len() implies #[trigger] t.ram[m] == (if on(
                nodes,
                env,
                core.store,
            ) && on(nodes, env, core.mem_lines@[m]) {
                wval(nodes, env, core.merged@)
            } else {
                s.ram[m]
            }) by {
                assert(on(nodes, env, core.mem_lines@[m]) == (at == m));
            }
        }
    }
    core
}

/// The wires that the core reads carry the state.
spec fn core_reads(
    nodes: Seq<Node>,
    s: Arch,
    pc: Seq<Signal>,
    reg_words: Seq<Word>,
    mem_words: Seq<Word>,
    zero: Signal,
    one: Signal,
) -> bool {
    let env = env_of(s);
    &&& arch_ok(s, mem_words.len())
    &&& !on(nodes, env, zero)
    &&& on(nodes, env, one)
    &&& wval(nodes, env, pc) == s.pc
    &&& forall|k: int| 0 <= k < 32 ==> wval(nodes, env, (#[trigger] reg_words[k])@) == s.regs[k]
    &&& forall|m: int| 0 <= m < mem_words.len() ==> wval(nodes, env, (#[trigger] mem_words[m])@) == s.ram[m]
}

/// An upper bound on the nodes between the flip-flops. A ROM word takes 32
/// constants and 32 muxes.
pub open spec fn core_size(rom: nat, ram: nat) -> int {
    (64 * rom + 35 * ram + 8192) as int
}

/// An upper bound on the gates between the flip-flops.
pub open spec fn core_gates(rom: nat, ram: nat) -> int {
    (32 * rom + 35 * ram + 8192) as int
}

proof fn lemma_decoder_bound(n: nat)
    ensures
        rtl::decoder_size(n) <= 2 * pow2(n) + n,
        n < pow2(n),
    decreases n,
{
    vstd::arithmetic::power2::lemma2_to64();
    if n > 0 {
        lemma_decoder_bound((n - 1) as nat);
        vstd::arithmetic::power2::lemma_pow2_unfold(n);
    }
}

/// A table of words stays in the builder as it grows.
proof fn lemma_table_grows(before: &CircuitBuilder, after: &CircuitBuilder, items: Seq<Word>)
    requires
        table_ok(before, items, 32),
        before.net().nodes.len() <= after.net().nodes.len(),
    ensures
        table_ok(after, items, 32),
{
    assert forall|k: int| 0 <= k < items.len() implies (#[trigger] items[k])@.len() == 32 && has_all(
        after,
        items[k]@,
    ) by {
        assert(has_all(before, items[k]@));
        assert forall|i: int| 0 <= i < items[k]@.len() implies after.has(#[trigger] items[k]@[i]) by {
            assert(before.has(items[k]@[i]));
        }
    }
}

/// The word that the drivers of stored word `k` carry.
spec fn dval(nodes: Seq<Node>, env: Env, drives: Seq<int>, k: int) -> u32 {
    num(Seq::new(32, |i: int| node_value(nodes, env, drives[32 * k + i]))) as u32
}

/// Drivers `32k..32k+32` are nodes.
spec fn driven_in(b: &CircuitBuilder, k: int) -> bool {
    forall|j: int|
        32 * k <= j < 32 * k + 32 ==> 0 <= #[trigger] b.net().drives[j] < b.net().nodes.len()
}

/// Only gates were added and drivers changed.
spec fn rewired(before: &CircuitBuilder, after: &CircuitBuilder, k: int) -> bool {
    &&& after.net().nodes.len() == before.net().nodes.len() + k
    &&& before.gates() <= after.gates() <= before.gates() + k
    &&& k >= 0
    &&& keeps(before.net().nodes, after.net().nodes)
    &&& after.net().drives.len() == before.net().drives.len()
    &&& after.net().inits == before.net().inits
    &&& after.net().outs == before.net().outs
    &&& after.net().inputs == before.net().inputs
    &&& after.input_names() == before.input_names()
    &&& after.output_names() == before.output_names()
    &&& after.debug_names() == before.debug_names()
}

/// Drivers outside words `from..to` are unchanged.
spec fn others_kept(before: &CircuitBuilder, after: &CircuitBuilder, from: int, to: int) -> bool {
    forall|j: int|
        0 <= j < before.net().drives.len() && !(32 * from <= j < 32 * to) ==> #[trigger] after.net().drives[j]
            == before.net().drives[j]
}

proof fn lemma_dval_same(nodes: Seq<Node>, env: Env, d1: Seq<int>, d2: Seq<int>, k: int)
    requires
        forall|j: int| 32 * k <= j < 32 * k + 32 ==> #[trigger] d1[j] == d2[j],
    ensures
        dval(nodes, env, d1, k) == dval(nodes, env, d2, k),
{
    let v1 = Seq::new(32, |i: int| node_value(nodes, env, d1[32 * k + i]));
    let v2 = Seq::new(32, |i: int| node_value(nodes, env, d2[32 * k + i]));
    assert(v1 =~= v2);
}

/// Drive one word of flip-flops.
fn drive_word(b: &mut CircuitBuilder, regs: &Vec<Reg>, next: &Word, k: Ghost<int>)
    requires
        tidy(old(b)),
        word_in(old(b), next@),
        regs@.len() == 32,
        0 <= k@,
        32 * k@ + 32 <= old(b).net().drives.len(),
        forall|i: int| 0 <= i < 32 ==> (#[trigger] regs@[i]).id() == 32 * k@ + i,
    ensures
        tidy(final(b)),
        rewired(old(b), final(b), 0),
        final(b).net().nodes == old(b).net().nodes,
        others_kept(old(b), final(b), k@, k@ + 1),
        driven_in(final(b), k@),
        forall|nodes: Seq<Node>, env: Env|
            #[trigger] dval(nodes, env, final(b).net().drives, k@) == wval(nodes, env, next@),
{
    for i in 0..32usize
        invariant
            tidy(b),
            word_in(old(b), next@),
            regs@.len() == 32,
            0 <= k@,
            32 * k@ + 32 <= old(b).net().drives.len(),
            forall|j: int| 0 <= j < 32 ==> (#[trigger] regs@[j]).id() == 32 * k@ + j,
            rewired(old(b), b, 0),
            b.net().nodes == old(b).net().nodes,
            others_kept(old(b), b, k@, k@ + 1),
            forall|j: int| 0 <= j < i ==> b.net().drives[32 * k@ + j] == (#[trigger] next@[j]).id(),
    {
        assert(old(b).has(next@[i as int]));
        b.drive(regs[i], next[i]);
    }
    proof {
        assert forall|j: int| 32 * k@ <= j < 32 * k@ + 32 implies 0 <= #[trigger] b.net().drives[j]
            < b.net().nodes.len() by {
            let i = j - 32 * k@;
            assert(b.net().drives[32 * k@ + i] == next@[i].id());
            assert(old(b).has(next@[i]));
        }
        assert forall|nodes: Seq<Node>, env: Env| #[trigger] dval(nodes, env, b.net().drives, k@) == wval(
            nodes,
            env,
            next@,
        ) by {
            let v = Seq::new(32, |i: int| node_value(nodes, env, b.net().drives[32 * k@ + i]));
            assert forall|i: int| 0 <= i < 32 implies v[i] == word_on(nodes, env, next@)[i] by {
                assert(b.net().drives[32 * k@ + i] == next@[i].id());
            }
            assert(v =~= word_on(nodes, env, next@));
        }
    }
}

/// A write port: stored word `first + k` takes `data` where `enable` and its
/// line are on, else keeps its value.
#[verifier::rlimit(60)]
fn write_port(
    b: &mut CircuitBuilder,
    bank: &Bank,
    first: usize,
    count: usize,
    enable: Signal,
    lines: &Vec<Signal>,
    skip: usize,
    data: &Word,
)
    requires
        tidy(old(b)),
        bank_ok(old(b), *bank),
        first + count <= bank.words@.len(),
        old(b).has(enable),
        has_all(old(b), lines@),
        skip + count <= lines@.len(),
        word_in(old(b), data@),
        old(b).room(33 * count),
    ensures
        tidy(final(b)),
        rewired(old(b), final(b), 33 * count),
        others_kept(old(b), final(b), first as int, first + count),
        forall|k: int| first <= k < first + count ==> #[trigger] driven_in(final(b), k),
        forall|nodes: Seq<Node>, env: Env, k: int|
            keeps(final(b).net().nodes, nodes) && first <= k < first + count ==> #[trigger] dval(
                nodes,
                env,
                final(b).net().drives,
                k,
            ) == (if on(nodes, env, enable) && on(nodes, env, lines@[skip + k - first]) {
                wval(nodes, env, data@)
            } else {
                wval(nodes, env, bank.words@[k]@)
            }),
{
    let word_count: usize = bank.words.len();
    let line_count: usize = lines.len();
    for c in 0..count
        invariant
            word_count == bank.words@.len(),
            line_count == lines@.len(),
            tidy(b),
            bank_ok(old(b), *bank),
            first + count <= word_count,
            old(b).has(enable),
            has_all(old(b), lines@),
            skip + count <= line_count,
            word_in(old(b), data@),
            old(b).room(33 * count),
            rewired(old(b), b, 33 * c),
            others_kept(old(b), b, first as int, first + c),
            forall|k: int| first <= k < first + c ==> #[trigger] driven_in(b, k),
            forall|nodes: Seq<Node>, env: Env, k: int|
                keeps(b.net().nodes, nodes) && first <= k < first + c ==> #[trigger] dval(
                    nodes,
                    env,
                    b.net().drives,
                    k,
                ) == (if on(nodes, env, enable) && on(nodes, env, lines@[skip + k - first]) {
                    wval(nodes, env, data@)
                } else {
                    wval(nodes, env, bank.words@[k]@)
                }),
    {
        let ghost b0 = *b;
        let at: usize = first + c;
        let ghost kk = at as int;
        let q = &bank.words[at];
        assert(old(b).has(lines@[skip + c]));
        assert(q@.len() == 32 && has_all(old(b), q@));
        proof {
            lemma_word_grows(old(b), b, q@);
            lemma_word_grows(old(b), b, data@);
        }
        let we = b.and(enable, lines[skip + c]);
        let next = crate::datapath::mux32(b, we, data, q);
        let ghost b2 = *b;
        assert(bank.regs@[kk]@.len() == 32);
        assert forall|i: int| 0 <= i < 32 implies (#[trigger] bank.regs@[kk]@[i]).id() == 32 * kk + i by {}
        drive_word(b, &bank.regs[at], &next, Ghost(kk));
        proof {
            assert forall|j: int|
                0 <= j < old(b).net().drives.len() && !(32 * first <= j < 32 * (first + c + 1)) implies #[trigger] b.net().drives[j]
                == old(b).net().drives[j] by {
                assert(b2.net().drives[j] == b0.net().drives[j]);
            }
            assert forall|k: int| first <= k < first + c + 1 implies #[trigger] driven_in(b, k) by {
                if k < kk {
                    assert(driven_in(&b0, k));
                    assert forall|j: int| 32 * k <= j < 32 * k + 32 implies 0 <= #[trigger] b.net().drives[j]
                        < b.net().nodes.len() by {
                        assert(b.net().drives[j] == b2.net().drives[j]);
                        assert(b0.net().drives[j] < b0.net().nodes.len());
                    }
                }
            }
            assert forall|nodes: Seq<Node>, env: Env, k: int|
                keeps(b.net().nodes, nodes) && first <= k < first + c + 1 implies #[trigger] dval(
                nodes,
                env,
                b.net().drives,
                k,
            ) == (if on(nodes, env, enable) && on(nodes, env, lines@[skip + k - first]) {
                wval(nodes, env, data@)
            } else {
                wval(nodes, env, bank.words@[k]@)
            }) by {
                assert(keeps(b0.net().nodes, nodes));
                if k < kk {
                    lemma_dval_same(nodes, env, b.net().drives, b0.net().drives, k);
                } else {
                    assert(keeps(b2.net().nodes, nodes));
                    assert(wval(nodes, env, next@) == if on(nodes, env, we) {
                        wval(nodes, env, data@)
                    } else {
                        wval(nodes, env, q@)
                    });
                }
            }
        }
    }
}

proof fn lemma_word_grows(before: &CircuitBuilder, after: &CircuitBuilder, w: Seq<Signal>)
    requires
        has_all(before, w),
        before.net().nodes.len() <= after.net().nodes.len(),
    ensures
        has_all(after, w),
{
    assert forall|i: int| 0 <= i < w.len() implies after.has(#[trigger] w[i]) by {
        assert(before.has(w[i]));
    }
}

/// Every exported word so far is labelled.
spec fn shown_labels(names: Seq<String>, count: int) -> bool {
    forall|k: int| 0 <= k < count ==> labelled(names, #[trigger] show_prefix(k as nat), 32 * k, 32 * k + 32)
}

/// Only outputs were added.
spec fn outs_added(before: &CircuitBuilder, after: &CircuitBuilder, k: int) -> bool {
    &&& after.net().nodes == before.net().nodes
    &&& after.net().drives == before.net().drives
    &&& after.net().inits == before.net().inits
    &&& after.net().inputs == before.net().inputs
    &&& after.net().outs.len() == before.net().outs.len() + k
    &&& forall|i: int|
        0 <= i < before.net().outs.len() ==> #[trigger] after.net().outs[i] == before.net().outs[i]
    &&& after.input_names() == before.input_names()
    &&& after.debug_names() == before.debug_names()
    &&& after.output_names().len() == before.output_names().len() + k
    &&& forall|i: int|
        0 <= i < before.output_names().len() ==> #[trigger] after.output_names()[i]
            == before.output_names()[i]
}

/// Export one word.
fn show_word(b: &mut CircuitBuilder, prefix: &str, word: &Word, k: Ghost<int>)
    requires
        tidy(old(b)),
        word@.len() == 32,
        0 <= k@,
        old(b).net().outs.len() == 32 * k@,
    ensures
        tidy(final(b)),
        outs_added(old(b), final(b), 32),
        labelled(final(b).output_names(), prefix@, 32 * k@, 32 * k@ + 32),
        forall|i: int| 0 <= i < 32 ==> final(b).net().outs[32 * k@ + i] == (#[trigger] word@[i]).id(),
{
    proof {
        b.lemma_inv();
    }
    for i in 0..32usize
        invariant
            tidy(b),
            word@.len() == 32,
            0 <= k@,
            old(b).net().outs.len() == 32 * k@,
            old(b).output_names().len() == 32 * k@,
            outs_added(old(b), b, i as int),
            labelled(b.output_names(), prefix@, 32 * k@, 32 * k@ + i),
            forall|j: int| 0 <= j < i ==> b.net().outs[32 * k@ + j] == (#[trigger] word@[j]).id(),
    {
        let ghost b0 = *b;
        b.output_named(numbered(prefix, i), word[i]);
        proof {
            assert forall|x: int| 32 * k@ <= x < 32 * k@ + i + 1 implies (#[trigger] b.output_names()[x])@
                == prefix@ + decimal((x - 32 * k@) as nat) by {
                if x < 32 * k@ + i {
                    assert(b.output_names()[x] == b0.output_names()[x]);
                }
            }
        }
    }
}

/// A circuit whose flip-flops step as the instruction set does and whose
/// outputs show the architectural state, whatever state it is in.
pub open spec fn is_core(net: Netlist, rom: Seq<u32>, ram: nat) -> bool {
    &&& net.inputs == 0
    &&& net.inits == state_bits(reset_state(ram))
    &&& net.drives.len() == 32 * (32 + ram)
    &&& net.outs.len() == 32 * 33
    &&& forall|s: Arch|
        arch_ok(s, ram) ==> #[trigger] net.next_state(env_of(s)) == state_bits(step(rom, s))
    &&& forall|s: Arch| arch_ok(s, ram) ==> #[trigger] net.outputs(env_of(s)) == output_bits(s)
}

/// An upper bound on the nodes of a core.
pub open spec fn cpu_size(rom: nat, ram: nat) -> int {
    core_size(rom, ram) + 32 * (32 + ram) + 33 * (31 + ram) + 2
}

/// An upper bound on the gates of a core.
pub open spec fn cpu_gates(rom: nat, ram: nat) -> int {
    core_gates(rom, ram) + 33 * (31 + ram)
}

/// The exponent of a power of two.
fn log2(n: usize) -> (k: usize)
    requires
        is_pow2(n as int),
    ensures
        pow2(k as nat) == n,
        k < n,
{
    let mut m: usize = n;
    let mut k: usize = 0;
    proof {
        vstd::arithmetic::power2::lemma2_to64();
    }
    while m > 1
        invariant
            is_pow2(m as int),
            m * pow2(k as nat) == n,
            k + m <= n,
            m >= 1,
        decreases m,
    {
        proof {
            vstd::arithmetic::power2::lemma_pow2_unfold((k + 1) as nat);
            let h = m / 2;
            assert(m == 2 * h);
            assert(h * (2 * pow2(k as nat)) == (2 * h) * pow2(k as nat)) by (nonlinear_arith);
        }
        m = m / 2;
        k = k + 1;
    }
    k
}

/// A word of hardwired zeros.
fn zero_word(b: &CircuitBuilder, zero: Signal) -> (w: Word)
    requires
        b.has(zero),
    ensures
        word_in(b, w@),
        forall|i: int| 0 <= i < 32 ==> #[trigger] w@[i] == zero,
{
    let mut w: Word = Vec::new();
    for i in 0..32usize
        invariant
            b.has(zero),
            w@.len() == i,
            forall|j: int| 0 <= j < i ==> #[trigger] w@[j] == zero,
            has_all(b, w@),
    {
        w.push(zero);
    }
    w
}

/// Hardwired zeros carry 0.
proof fn lemma_zero_word(nodes: Seq<Node>, env: Env, w: Seq<Signal>, zero: Signal)
    requires
        w.len() == 32,
        forall|i: int| 0 <= i < 32 ==> #[trigger] w[i] == zero,
        !on(nodes, env, zero),
    ensures
        wval(nodes, env, w) == 0,
{
    assert forall|i: int| 0 <= i < 32 implies on(nodes, env, #[trigger] w[i]) == bit_of(0, i) by {
        crate::words::lemma_bits_of_logic(0, 0, i);
    }
    lemma_carries(nodes, env, w, 0);
}

/// `x0` and the register file's outputs.
fn read_words(b: &CircuitBuilder, bank: &Bank, zero: Signal) -> (words: Vec<Word>)
    requires
        bank_ok(b, *bank),
        bank.words@.len() >= 32,
        b.has(zero),
    ensures
        words@.len() == 32,
        table_ok(b, words@, 32),
        forall|i: int| 0 <= i < 32 ==> #[trigger] words@[0]@[i] == zero,
        forall|k: int| 1 <= k < 32 ==> (#[trigger] words@[k])@ == bank.words@[k]@,
{
    let mut words: Vec<Word> = Vec::new();
    words.push(zero_word(b, zero));
    for k in 1..32usize
        invariant
            bank_ok(b, *bank),
            bank.words@.len() >= 32,
            words@.len() == k,
            table_ok(b, words@, 32),
            forall|i: int| 0 <= i < 32 ==> #[trigger] words@[0]@[i] == zero,
            forall|j: int| 1 <= j < k ==> (#[trigger] words@[j])@ == bank.words@[j]@,
    {
        assert(bank.words@[k as int]@.len() == 32);
        words.push(same_wires(bank.words[k].as_slice()));
    }
    words
}

/// The RAM's outputs.
fn memory_words(b: &CircuitBuilder, bank: &Bank, ram_words: usize) -> (words: Vec<Word>)
    requires
        bank_ok(b, *bank),
        bank.words@.len() == 32 + ram_words,
    ensures
        words@.len() == ram_words,
        table_ok(b, words@, 32),
        forall|m: int| 0 <= m < ram_words ==> (#[trigger] words@[m])@ == bank.words@[32 + m]@,
{
    let mut words: Vec<Word> = Vec::new();
    let total: usize = bank.words.len();
    for m in 0..ram_words
        invariant
            total == bank.words@.len(),
            bank_ok(b, *bank),
            bank.words@.len() == 32 + ram_words,
            words@.len() == m,
            table_ok(b, words@, 32),
            forall|j: int| 0 <= j < m ==> (#[trigger] words@[j])@ == bank.words@[32 + j]@,
    {
        assert(bank.words@[32 + m]@.len() == 32);
        words.push(same_wires(bank.words[32 + m].as_slice()));
    }
    words
}

/// Words that carry the state make up the state's bits.
proof fn lemma_next_bits(net: Netlist, s: Arch, t: Arch)
    requires
        net.drives.len() == 32 * (32 + s.ram.len()),
        t.ram.len() == s.ram.len(),
        forall|k: int|
            0 <= k < 32 + s.ram.len() ==> #[trigger] dval(net.nodes, env_of(s), net.drives, k)
                == stored_word(t, k),
    ensures
        net.next_state(env_of(s)) == state_bits(t),
{
    let env = env_of(s);
    let ns = net.next_state(env);
    assert forall|j: int| 0 <= j < ns.len() implies ns[j] == state_bits(t)[j] by {
        let k = j / 32;
        let i = j % 32;
        assert(j == 32 * k + i);
        let v = Seq::new(32, |i: int| node_value(net.nodes, env, net.drives[32 * k + i]));
        crate::words::lemma_num_spells(v);
        assert(dval(net.nodes, env, net.drives, k) == stored_word(t, k));
        assert(v[i] == bit_of(num(v) as u32, i));
    }
    assert(ns =~= state_bits(t));
}

/// Export the architectural state.
fn show_all(b: &mut CircuitBuilder, pc: &Word, reg_words: &Vec<Word>)
    requires
        tidy(old(b)),
        old(b).net().outs.len() == 0,
        pc@.len() == 32,
        reg_words@.len() == 32,
        forall|k: int| 0 <= k < 32 ==> (#[trigger] reg_words@[k])@.len() == 32,
    ensures
        tidy(final(b)),
        outs_added(old(b), final(b), 1056),
        shown_labels(final(b).output_names(), 33),
        forall|k: int, i: int|
            #![trigger final(b).net().outs[32 * k + i]]
            0 <= k < 33 && 0 <= i < 32 ==> final(b).net().outs[32 * k + i] == (if k == 0 {
                pc@[i]
            } else {
                reg_words@[k - 1]@[i]
            }).id(),
{
    show_word(b, "PC", pc, Ghost(0));
    for r in 0..32usize
        invariant
            tidy(b),
            old(b).net().outs.len() == 0,
            pc@.len() == 32,
            reg_words@.len() == 32,
            forall|k: int| 0 <= k < 32 ==> (#[trigger] reg_words@[k])@.len() == 32,
            outs_added(old(b), b, 32 * (r + 1)),
            shown_labels(b.output_names(), r + 1),
            forall|k: int, i: int|
                #![trigger b.net().outs[32 * k + i]]
                0 <= k < r + 1 && 0 <= i < 32 ==> b.net().outs[32 * k + i] == (if k == 0 {
                    pc@[i]
                } else {
                    reg_words@[k - 1]@[i]
                }).id(),
    {
        let ghost b0 = *b;
        proof {
            b.lemma_inv();
        }
        let prefix = word_label("X", r);
        assert(prefix@ == show_prefix((r + 1) as nat));
        assert(reg_words@[r as int]@.len() == 32);
        show_word(b, prefix.as_str(), &reg_words[r], Ghost(r + 1));
        proof {
            assert forall|k: int| 0 <= k < r + 2 implies labelled(
                b.output_names(),
                #[trigger] show_prefix(k as nat),
                32 * k,
                32 * k + 32,
            ) by {
                if k < r + 1 {
                    assert(labelled(b0.output_names(), show_prefix(k as nat), 32 * k, 32 * k + 32));
                    assert forall|x: int| 32 * k <= x < 32 * k + 32 implies (#[trigger] b.output_names()[x])@
                        == show_prefix(k as nat) + decimal((x - 32 * k) as nat) by {
                        assert(b.output_names()[x] == b0.output_names()[x]);
                    }
                }
            }
            assert forall|k: int, i: int|
                #![trigger b.net().outs[32 * k + i]]
                0 <= k < r + 2 && 0 <= i < 32 implies b.net().outs[32 * k + i] == (if k == 0 {
                pc@[i]
            } else {
                reg_words@[k - 1]@[i]
            }).id() by {
                if k < r + 1 {
                    assert(b.net().outs[32 * k + i] == b0.net().outs[32 * k + i]);
                } else {
                    assert(b.net().outs[32 * (r + 1) + i] == reg_words@[r as int]@[i].id());
                }
            }
        }
    }
}

/// Build the CPU circuit around a program ROM and `ram_words` words of RAM
/// (must be a power of two).
#[verifier::rlimit(100)]
pub fn build_cpu(program: &[u32], ram_words: usize) -> (c: Circuit)
    requires
        is_pow2(ram_words as int),
        cpu_size(padded(program@).len(), ram_words as nat) <= MAX_SIGNALS,
        cpu_gates(padded(program@).len(), ram_words as nat) <= MAX_GATES,
    ensures
        c.wf(),
        is_core(c.net(), padded(program@), ram_words as nat),
        c.input_names@.len() == 0,
        forall|k: int, i: int|
            #![trigger c.output_names@[32 * k + i]]
            0 <= k < 33 && 0 <= i < 32 ==> c.output_names@[32 * k + i]@ == show_prefix(k as nat) + decimal(
                i as nat,
            ),
        forall|k: int, i: int|
            #![trigger c.debug_names@[32 * k + i]]
            0 <= k < 32 + ram_words && 0 <= i < 32 ==> c.debug_names@[32 * k + i]@ == store_prefix(k as nat)
                + decimal(i as nat),
{
    let rom = pad_rom(program);
    let rom_bits: usize = log2(rom.len());
    let ram_bits: usize = log2(ram_words);
    proof {
        vstd::arithmetic::power2::lemma2_to64();
        lemma_log_bound(rom_bits as nat, 30);
        lemma_log_bound(ram_bits as nat, 24);
    }
    let mut b = CircuitBuilder::new();
    let zero = const_bit(&mut b, false);
    let one = const_bit(&mut b, true);
    let ghost b1 = b;
    let bank = state_bank(&mut b, ram_words);
    let ghost b2 = b;
    assert(bank.words@[0]@.len() == 32);
    let pc: Word = same_wires(bank.words[0].as_slice());
    let reg_words = read_words(&b, &bank, zero);
    let mem_words = memory_words(&b, &bank, ram_words);
    let core = build_core(
        &mut b,
        &rom,
        rom_bits,
        ram_bits,
        &pc,
        &reg_words,
        &mem_words,
        zero,
        one,
    );
    let ghost b3 = b;
    proof {
        lemma_table_grows(&b2, &b3, bank.words@);
    }
    write_port(&mut b, &bank, 32, ram_words, core.store, &core.mem_lines, 0, &core.merged);
    let ghost b4 = b;
    proof {
        lemma_word_grows(&b3, &b4, core.next_pc@);
        lemma_word_grows(&b3, &b4, core.wb@);
        lemma_word_grows(&b3, &b4, core.rd_lines@);
        lemma_table_grows(&b2, &b4, bank.words@);
    }
    assert(bank.regs@[0]@.len() == 32);
    assert forall|i: int| 0 <= i < 32 implies (#[trigger] bank.regs@[0]@[i]).id() == 32 * 0 + i by {}
    drive_word(&mut b, &bank.regs[0], &core.next_pc, Ghost(0));
    let ghost b5 = b;
    write_port(&mut b, &bank, 1, 31, core.reg_write, &core.rd_lines, 1, &core.wb);
    let ghost b6 = b;
    show_all(&mut b, &pc, &reg_words);
    let ghost b7 = b;
    let ghost net = b.net();
    proof {
        b.lemma_inv();
        crate::kahn::ordered_is_acyclic(net);
        assert forall|j: int| 0 <= j < net.drives.len() implies 0 <= #[trigger] net.drives[j] < net.nodes.len() by {
            let k = j / 32;
            assert(32 * k <= j < 32 * k + 32);
            assert(net.drives[j] == b6.net().drives[j]);
            if k == 0 {
                assert(driven_in(&b5, 0));
                assert(b6.net().drives[j] == b5.net().drives[j]);
            } else if k < 32 {
                assert(driven_in(&b6, k));
            } else {
                assert(driven_in(&b4, k));
                assert(b5.net().drives[j] == b4.net().drives[j]);
                assert(b6.net().drives[j] == b5.net().drives[j]);
            }
        }
        assert forall|j: int| 0 <= j < net.outs.len() implies 0 <= #[trigger] net.outs[j] < net.nodes.len() by {
            let k = j / 32;
            let i = j % 32;
            assert(j == 32 * k + i);
            assert(net.outs[32 * k + i] == (if k == 0 {
                pc@[i]
            } else {
                reg_words@[k - 1]@[i]
            }).id());
            assert(has_all(&b2, bank.words@[0]@));
            if k > 0 {
                assert(has_all(&b2, reg_words@[k - 1]@));
                assert(b2.has(reg_words@[k - 1]@[i]));
            } else {
                assert(b2.has(bank.words@[0]@[i]));
            }
        }
        assert(net.inits =~= state_bits(reset_state(ram_words as nat))) by {
            let bits = state_bits(reset_state(ram_words as nat));
            assert forall|j: int| 0 <= j < bits.len() implies net.inits[j] == bits[j] by {
                crate::words::lemma_bits_of_logic(0, 0, j % 32);
                assert(!b2.net().inits[j]);
                assert(stored_word(reset_state(ram_words as nat), j / 32) == 0);
            }
        }
        assert forall|s: Arch| arch_ok(s, ram_words as nat) implies #[trigger] net.next_state(env_of(s))
            == state_bits(step(rom@, s)) && net.outputs(env_of(s)) == output_bits(s) by {
            lemma_core_steps(
                &b1,
                &b2,
                &b3,
                &b4,
                &b5,
                &b6,
                net,
                bank,
                core,
                pc@,
                reg_words@,
                mem_words@,
                zero,
                one,
                rom@,
                s,
            );
        }
    }
    match b.finish() {
        Ok(c) => {
            proof {
                let order = schedule(net.nodes);
                assert forall|s: Arch| arch_ok(s, ram_words as nat) implies #[trigger] c.net().next_state(
                    env_of(s),
                ) == state_bits(step(rom@, s)) by {
                    renumbering_keeps_behaviour(net, order, env_of(s));
                    assert(net.next_state(env_of(s)) == state_bits(step(rom@, s)));
                }
                assert forall|s: Arch| arch_ok(s, ram_words as nat) implies #[trigger] c.net().outputs(
                    env_of(s),
                ) == output_bits(s) by {
                    renumbering_keeps_behaviour(net, order, env_of(s));
                    assert(net.next_state(env_of(s)) == state_bits(step(rom@, s)));
                }
                assert forall|k: int, i: int|
                    #![trigger c.output_names@[32 * k + i]]
                    0 <= k < 33 && 0 <= i < 32 implies c.output_names@[32 * k + i]@ == show_prefix(k as nat)
                    + decimal(i as nat) by {
                    assert(labelled(b7.output_names(), show_prefix(k as nat), 32 * k, 32 * k + 32));
                }
                assert forall|k: int, i: int|
                    #![trigger c.debug_names@[32 * k + i]]
                    0 <= k < 32 + ram_words && 0 <= i < 32 implies c.debug_names@[32 * k + i]@
                    == store_prefix(k as nat) + decimal(i as nat) by {
                    assert(labelled(b2.debug_names(), store_prefix(k as nat), 32 * k, 32 * k + 32));
                }
            }
            c
        },
        Err(_) => vstd::pervasive::unreached(),
    }
}

proof fn lemma_log_bound(k: nat, m: nat)
    requires
        pow2(k) <= pow2(m),
        m <= 30,
    ensures
        k <= m,
{
    if k > m {
        vstd::arithmetic::power2::lemma_pow2_strictly_increases(m, k);
    }
}

/// The drivers of every stored word carry the next state, and the outputs
/// show the current one.
#[verifier::rlimit(60)]
proof fn lemma_core_steps(
    b1: &CircuitBuilder,
    b2: &CircuitBuilder,
    b3: &CircuitBuilder,
    b4: &CircuitBuilder,
    b5: &CircuitBuilder,
    b6: &CircuitBuilder,
    net: Netlist,
    bank: Bank,
    core: Core,
    pc: Seq<Signal>,
    reg_words: Seq<Word>,
    mem_words: Seq<Word>,
    zero: Signal,
    one: Signal,
    rom: Seq<u32>,
    s: Arch,
)
    requires
        keeps(b1.net().nodes, b2.net().nodes),
        keeps(b2.net().nodes, b3.net().nodes),
        keeps(b3.net().nodes, b4.net().nodes),
        b5.net().nodes == b4.net().nodes,
        keeps(b5.net().nodes, b6.net().nodes),
        net.nodes == b6.net().nodes,
        net.drives == b6.net().drives,
        net.drives.len() == 32 * bank.words@.len(),
        b4.net().drives.len() == net.drives.len(),
        b5.net().drives.len() == net.drives.len(),
        bank.words@.len() == 32 + s.ram.len(),
        mem_words.len() == s.ram.len(),
        arch_ok(s, mem_words.len()),
        table_ok(b2, bank.words@, 32),
        pc == bank.words@[0]@,
        reg_words.len() == 32,
        forall|k: int| 0 <= k < 32 ==> (#[trigger] reg_words[k])@.len() == 32,
        forall|i: int| 0 <= i < 32 ==> #[trigger] reg_words[0]@[i] == zero,
        forall|k: int| 1 <= k < 32 ==> (#[trigger] reg_words[k])@ == bank.words@[k]@,
        forall|m: int| 0 <= m < mem_words.len() ==> (#[trigger] mem_words[m])@ == bank.words@[32 + m]@,
        forall|nodes: Seq<Node>, env: Env|
            keeps(b1.net().nodes, nodes) ==> #[trigger] on(nodes, env, zero) == false,
        forall|nodes: Seq<Node>, env: Env|
            keeps(b1.net().nodes, nodes) ==> #[trigger] on(nodes, env, one) == true,
        forall|nodes: Seq<Node>, env: Env|
            keeps(b2.net().nodes, nodes) ==> #[trigger] bank_shows(nodes, env, bank.words@),
        forall|nodes: Seq<Node>, s: Arch|
            keeps(b3.net().nodes, nodes) && core_reads(nodes, s, pc, reg_words, mem_words, zero, one)
                ==> #[trigger] core_ok(nodes, core, rom, s),
        forall|nodes: Seq<Node>, env: Env, k: int|
            keeps(b4.net().nodes, nodes) && 32 <= k < 32 + mem_words.len() ==> #[trigger] dval(
                nodes,
                env,
                b4.net().drives,
                k,
            ) == (if on(nodes, env, core.store) && on(nodes, env, core.mem_lines@[k - 32]) {
                wval(nodes, env, core.merged@)
            } else {
                wval(nodes, env, bank.words@[k]@)
            }),
        forall|nodes: Seq<Node>, env: Env|
            #[trigger] dval(nodes, env, b5.net().drives, 0) == wval(nodes, env, core.next_pc@),
        others_kept(b4, b5, 0, 1),
        others_kept(b5, b6, 1, 32),
        forall|nodes: Seq<Node>, env: Env, k: int|
            keeps(b6.net().nodes, nodes) && 1 <= k < 32 ==> #[trigger] dval(
                nodes,
                env,
                b6.net().drives,
                k,
            ) == (if on(nodes, env, core.reg_write) && on(nodes, env, core.rd_lines@[k]) {
                wval(nodes, env, core.wb@)
            } else {
                wval(nodes, env, bank.words@[k]@)
            }),
        net.outs.len() == 32 * 33,
        forall|k: int, i: int|
            #![trigger net.outs[32 * k + i]]
            0 <= k < 33 && 0 <= i < 32 ==> net.outs[32 * k + i] == (if k == 0 {
                pc[i]
            } else {
                reg_words[k - 1]@[i]
            }).id(),
    ensures
        net.next_state(env_of(s)) == state_bits(step(rom, s)),
        net.outputs(env_of(s)) == output_bits(s),
{
    let env = env_of(s);
    let nodes = net.nodes;
    let t = step(rom, s);
    assert(keeps(nodes, nodes));
    assert(keeps(b4.net().nodes, nodes));
    assert(keeps(b3.net().nodes, nodes));
    assert(keeps(b2.net().nodes, nodes));
    assert(keeps(b1.net().nodes, nodes));
    assert(bank_shows(nodes, env, bank.words@));
    assert(!on(nodes, env, zero));
    assert(on(nodes, env, one));
    assert forall|k: int| 0 <= k < bank.words@.len() implies wval(nodes, env, (#[trigger] bank.words@[k])@)
        == stored_word(s, k) by {
        assert(bank.words@[k]@.len() == 32);
        lemma_bank_carries(nodes, s, bank.words@, k);
    }
    assert(wval(nodes, env, bank.words@[0]@) == stored_word(s, 0));
    lemma_zero_word(nodes, env, reg_words[0]@, zero);
    assert forall|k: int| 0 <= k < 32 implies wval(nodes, env, (#[trigger] reg_words[k])@) == s.regs[k] by {
        if k >= 1 {
            assert(wval(nodes, env, bank.words@[k]@) == stored_word(s, k));
        }
    }
    assert forall|m: int| 0 <= m < mem_words.len() implies wval(nodes, env, (#[trigger] mem_words[m])@)
        == s.ram[m] by {
        assert(wval(nodes, env, bank.words@[32 + m]@) == stored_word(s, 32 + m));
    }
    assert(core_reads(nodes, s, pc, reg_words, mem_words, zero, one));
    assert(core_ok(nodes, core, rom, s));
    assert forall|k: int| 0 <= k < 32 + s.ram.len() implies #[trigger] dval(nodes, env, net.drives, k)
        == stored_word(t, k) by {
        if k == 0 {
            lemma_dval_same(nodes, env, b6.net().drives, b5.net().drives, 0);
            assert(dval(nodes, env, b5.net().drives, 0) == wval(nodes, env, core.next_pc@));
        } else if k < 32 {
            assert(wval(nodes, env, bank.words@[k]@) == stored_word(s, k));
        } else {
            lemma_dval_same(nodes, env, b6.net().drives, b5.net().drives, k);
            lemma_dval_same(nodes, env, b5.net().drives, b4.net().drives, k);
            assert(wval(nodes, env, bank.words@[k]@) == stored_word(s, k));
        }
    }
    lemma_next_bits(net, s, t);
    let outs = net.outputs(env);
    assert forall|j: int| 0 <= j < outs.len() implies outs[j] == output_bits(s)[j] by {
        let k = j / 32;
        let i = j % 32;
        assert(j == 32 * k + i);
        assert(net.outs[32 * k + i] == (if k == 0 {
            pc[i]
        } else {
            reg_words[k - 1]@[i]
        }).id());
        if k == 0 {
            lemma_wval(nodes, env, pc);
            assert(on(nodes, env, pc[i]) == bit_of(s.pc, i));
        } else {
            let w = reg_words[k - 1]@;
            lemma_wval(nodes, env, w);
            assert(on(nodes, env, w[i]) == bit_of(s.regs[k - 1], i));
        }
    }
    assert(outs =~= output_bits(s));
}

/// The hardware runs in lockstep with the instruction set: after any number
/// of ticks from power-on the flip-flops hold the state reached by retiring
/// as many instructions, and during each tick the outputs show the state
/// before it.
pub proof fn hardware_runs_in_lockstep(net: Netlist, rom: Seq<u32>, ram: nat, n: nat)
    requires
        is_core(net, rom, ram),
        ram > 0,
    ensures
        Machine::power_on(net).ran(n).state == state_bits(steps(rom, reset_state(ram), n)),
        Machine::power_on(net).ran(n + 1).outs == output_bits(steps(rom, reset_state(ram), n)),
        arch_ok(steps(rom, reset_state(ram), n), ram),
    decreases n,
{
    let m0 = Machine::power_on(net);
    let s = steps(rom, reset_state(ram), n);
    crate::isa::x0_stays_zero(rom, reset_state(ram), n);
    if n > 0 {
        hardware_runs_in_lockstep(net, rom, ram, (n - 1) as nat);
        let m = m0.ran((n - 1) as nat);
        let p = steps(rom, reset_state(ram), (n - 1) as nat);
        lemma_ran_net(net, (n - 1) as nat);
        assert(m.env() == env_of(p)) by {
            assert(m.inputs =~= Seq::<bool>::empty());
        }
        assert(net.next_state(env_of(p)) == state_bits(step(rom, p)));
    }
    let m = m0.ran(n);
    lemma_ran_net(net, n);
    assert(m.env() == env_of(s)) by {
        assert(m.inputs =~= Seq::<bool>::empty());
    }
    assert(net.outputs(env_of(s)) == output_bits(s));
}

/// Running changes neither the netlist nor the inputs.
proof fn lemma_ran_net(net: Netlist, n: nat)
    ensures
        Machine::power_on(net).ran(n).net == net,
        Machine::power_on(net).ran(n).inputs == Machine::power_on(net).inputs,
    decreases n,
{
    if n > 0 {
        lemma_ran_net(net, (n - 1) as nat);
    }
}

/// A core shows the program counter on its first 32 outputs and register `r` on
/// the 32 outputs from `32 * (r + 1)` on, lowest bit first. In the cycle after
/// `n` others, it shows what `n` instructions leave behind from power-on.
pub proof fn cores_show_pc_and_registers(net: Netlist, rom: Seq<u32>, ram: nat, n: nat, r: int, i: u32)
    requires
        is_core(net, rom, ram),
        ram > 0,
        0 <= r < 32,
        i < 32,
    ensures
        Machine::power_on(net).ran(n + 1).outs.len() == 1056,
        Machine::power_on(net).ran(n + 1).outs[i as int] <==> (steps(rom, reset_state(ram), n).pc >> i) & 1 == 1,
        Machine::power_on(net).ran(n + 1).outs[32 * (r + 1) + i] <==> (steps(rom, reset_state(ram), n).regs[r] >> i)
            & 1 == 1,
        net.inputs == 0,
        net.drives.len() == 32 * (32 + ram),
{
    hardware_runs_in_lockstep(net, rom, ram, n);
    let s = steps(rom, reset_state(ram), n);
    assert((i as int) / 32 == 0 && (i as int) % 32 == i);
    assert((32 * (r + 1) + i) / 32 == r + 1 && (32 * (r + 1) + i) % 32 == i);
    assert(output_bits(s)[i as int] == bit_of(s.pc, i as int));
    assert(output_bits(s)[32 * (r + 1) + i] == bit_of(s.regs[r], i as int));
}

/// What the words of a core are called, up to the bit number.
pub proof fn words_have_labels(k: nat)
    ensures
        show_prefix(0) == "PC"@,
        show_prefix(k + 1) == "X"@ + decimal(k) + "_"@,
        store_prefix(0) == "PC"@,
        1 <= k < 32 ==> store_prefix(k) == "X"@ + decimal(k) + "_"@,
        store_prefix(k + 32) == "M"@ + decimal(k) + "_"@,
{
}

} // verus!
