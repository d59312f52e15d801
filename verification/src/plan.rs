//! The word-level execution plan: arena layout, gather programs and register
//! capture.
//!
//! Every signal is one bit of a dense `u64` arena, and up to 64 gates of one
//! kind are evaluated per word operation. The arena holds the inputs first,
//! then live register outputs (contiguous, in register order, so the clock
//! edge is a straight word copy), then each gate run word-aligned so every
//! store is a full-word write, then the words of fused carry chains. Pad
//! bits hold garbage; nothing ever reads them, because gather masks only
//! cover real positions. A trailing pad word keeps the funnel's second load
//! in bounds.
use vstd::prelude::*;

use crate::adding::wadd64;
use crate::circuit::MAX_SIGNALS;
use crate::compile::{
    bit, is_lowering, lowered, slot_before, slot_from, DEAD, Compiled, Lowering, Op,
};
use crate::emission::{
    avail, chains_done, ctx_ok, emit_all, known_task, lemma_gates_apart, lemma_observed_avail,
    lemma_stream_value, lemma_window_fits, lemma_word_settled, runs_done, task_at, window_avail, Ctx,
    Emit,
};
use crate::fuse::{find_chains, found, observed, NIL, Found};
use crate::fusion::found_chains_are_sound;
use crate::gather::{
    bit_at, gather_bit, gathers, is_program, plan_stream, segs_in, wbit, NOT_CONST, Seg, StreamRef,
};
use crate::layout::{block_count, block_placed, block_slots, block_word, lay_out, make_blocks};
use crate::netlist::{gate_arity, gate_fn, Env, Netlist, Node};

verus! {

/// Tapes up to this size always fit 32-bit positions.
pub const PACK_LIMIT: usize = 0x1ff_0000;

/// Word-level operation of a task: an ordinary boolean gate word, or a fused
/// ripple-carry chain evaluated as one native add (see [`crate::fuse`]).
#[derive(Clone, Copy)]
pub enum TaskOp {
    Gate(Op),
    /// `dst = a + b + c`: sums in bits `0..len`, carry-out at bit `len`.
    Add,
}

/// One output word: up to 64 same-op gates of one run, or one chain word.
#[derive(Clone, Copy)]
pub struct Task {
    pub op: TaskOp,
    /// Destination word index in the arena.
    pub dst: u32,
    pub streams: [StreamRef; 3],
    /// Constant-folded bits per operand stream.
    pub imm: [u64; 3],
    /// Where the task's segments start in the pool.
    pub at: Ghost<int>,
}

/// Where an output reads from.
#[derive(Clone, Copy)]
pub enum OutSrc {
    Bit(u32),
    Const(bool),
}

/// The complete plan. The packed engine interprets it; the packed JIT engine
/// compiles it. Both execute the exact same plan.
pub struct Plan {
    /// Arena size in words (including the trailing pad word).
    pub words: usize,
    pub tasks: Vec<Task>,
    /// Shared segment pool, consumed in task/stream order.
    pub segs: Vec<Seg>,
    /// Gather program for the register capture: one entry per staging word.
    pub capture: Vec<(u64, StreamRef)>,
    pub cap_segs: Vec<Seg>,
    /// Where each capture program starts in `cap_segs`.
    pub cap_at: Ghost<Seq<int>>,
    /// First word of the register-output region (edge = word copy).
    pub reg_word: usize,
    /// Initial staging content, kept for reset.
    pub reg_init: Vec<u64>,
    pub outputs: Vec<OutSrc>,
    pub input_count: usize,
    /// What the plan executes.
    pub tape: Ghost<Compiled>,
    /// Arena position of each slot.
    pub pos: Ghost<Seq<u32>>,
    /// The registers whose outputs are read.
    pub live: Ghost<Seq<usize>>,
}

/// How many segments a task consumes.
pub open spec fn task_len(task: Task) -> int {
    task.streams[0].len() + task.streams[1].len() + task.streams[2].len()
}

/// Where stream `k` of a task starts in the pool.
pub open spec fn stream_start(task: Task, k: int) -> int {
    if k == 0 {
        task.at@
    } else if k == 1 {
        task.at@ + task.streams[0].len()
    } else {
        task.at@ + task.streams[0].len() + task.streams[1].len()
    }
}

/// The segments of stream `k`.
pub open spec fn stream_segs(segs: Seq<Seg>, task: Task, k: int) -> Seq<Seg> {
    segs.subrange(stream_start(task, k), stream_start(task, k) + task.streams[k].len())
}

/// `w` is what stream `k` gathers.
pub open spec fn stream_yields(bits: Seq<u64>, segs: Seq<Seg>, task: Task, k: int, w: u64) -> bool {
    gathers(bits, stream_segs(segs, task, k), task.streams[k].funnels as int, task.imm[k], w)
}

/// Whether an operation reads its second and third stream.
pub open spec fn reads_stream(op: TaskOp, k: int) -> bool {
    match op {
        TaskOp::Gate(g) => k < gate_arity(g),
        TaskOp::Add => true,
    }
}

/// The word an operation makes of its operand words.
pub open spec fn combine(op: TaskOp, a: u64, b: u64, c: u64) -> u64 {
    match op {
        TaskOp::Gate(Op::Not) => !a,
        TaskOp::Gate(Op::Buf) => a,
        TaskOp::Gate(Op::And) => a & b,
        TaskOp::Gate(Op::Or) => a | b,
        TaskOp::Gate(Op::Xor) => a ^ b,
        TaskOp::Gate(Op::Nand) => !(a & b),
        TaskOp::Gate(Op::Nor) => !(a | b),
        TaskOp::Gate(Op::Xnor) => !(a ^ b),
        TaskOp::Gate(Op::Mux) => c ^ (a & (b ^ c)),
        TaskOp::Add => wadd64(wadd64(a, b), c),
    }
}

/// `w` is what the task computes on the arena.
pub open spec fn task_yields(bits: Seq<u64>, segs: Seq<Seg>, task: Task, w: u64) -> bool {
    exists|a: u64, b: u64, c: u64|
        #![trigger combine(task.op, a, b, c)]
        w == combine(task.op, a, b, c) && stream_yields(bits, segs, task, 0, a) && (reads_stream(task.op, 1)
            ==> stream_yields(bits, segs, task, 1, b)) && (reads_stream(task.op, 2) ==> stream_yields(
            bits,
            segs,
            task,
            2,
            c,
        ))
}

/// One of the first `t` tasks writes word `w`.
pub open spec fn made(tasks: Seq<Task>, t: int, w: int) -> bool {
    exists|j: int| 0 <= j < t && (#[trigger] tasks[j]).dst == w
}

/// After `t` tasks: sources, and slots whose word has been written, hold
/// their settled values.
pub open spec fn held(
    tape: Compiled,
    pos: Seq<u32>,
    tasks: Seq<Task>,
    t: int,
    bits: Seq<u64>,
    env: Env,
) -> bool {
    forall|x: int|
        0 <= x < tape.n() && #[trigger] pos[x] != NIL && (x < tape.gate_start || made(
            tasks,
            t,
            pos[x] as int / 64,
        )) ==> bit_at(bits, pos[x] as int) == tape.value(env, x)
}

/// Every gate that lives in word `dst` finds its value in `w`.
pub open spec fn word_right(tape: Compiled, pos: Seq<u32>, env: Env, dst: int, w: u64) -> bool {
    forall|x: int|
        tape.gate_start <= x < tape.n() && #[trigger] pos[x] != NIL && pos[x] as int / 64 == dst ==> wbit(
            w,
            pos[x] as int % 64,
        ) == tape.value(env, x)
}

/// Task `t` computes the right word from what the tasks before it left.
pub open spec fn task_sound(
    tape: Compiled,
    pos: Seq<u32>,
    words: int,
    tasks: Seq<Task>,
    segs: Seq<Seg>,
    t: int,
) -> bool {
    forall|env: Env, bits: Seq<u64>, w: u64|
        bits.len() == words && #[trigger] held(tape, pos, tasks, t, bits, env) && #[trigger] task_yields(
            bits,
            segs,
            tasks[t],
            w,
        ) ==> word_right(tape, pos, env, tasks[t].dst as int, w)
}

/// The tasks' segments lie end to end in the pool.
pub open spec fn tasks_tile(tasks: Seq<Task>, segs: Seq<Seg>) -> bool {
    &&& tasks.len() == 0 ==> segs.len() == 0
    &&& tasks.len() > 0 ==> tasks[0].at@ == 0 && tasks.last().at@ + task_len(tasks.last()) == segs.len()
    &&& forall|t: int| 0 <= t < tasks.len() - 1 ==> #[trigger] task_joins(tasks, t)
    &&& forall|t: int|
        0 <= t < tasks.len() ==> 0 <= (#[trigger] tasks[t]).at@ && tasks[t].at@ + task_len(tasks[t])
            <= segs.len()
}

pub open spec fn task_joins(tasks: Seq<Task>, t: int) -> bool {
    tasks[t + 1].at@ == tasks[t].at@ + task_len(tasks[t])
}

/// No two tasks write the same word.
pub open spec fn dsts_distinct(tasks: Seq<Task>) -> bool {
    forall|i: int, j: int|
        0 <= i < j < tasks.len() ==> (#[trigger] tasks[i]).dst != (#[trigger] tasks[j]).dst
}

/// What stands behind a slot that is read from the arena or folded.
pub open spec fn slot_const(tape: Compiled, s: int) -> u8 {
    if s < tape.gate_start {
        match tape.sources@[s] {
            Node::Const(v) => bit(v),
            _ => NOT_CONST,
        }
    } else {
        NOT_CONST
    }
}

/// The constant of each slot.
pub open spec fn cval_ok(tape: Compiled, cval: Seq<u8>) -> bool {
    &&& cval.len() == tape.n()
    &&& forall|s: int| 0 <= s < tape.n() ==> #[trigger] cval[s] == slot_const(tape, s)
}

/// Number of words that hold `n` bits.
pub open spec fn words_for(n: int) -> int {
    (n + 63) / 64
}

fn count_words(n: usize) -> (words: usize)
    ensures
        words == words_for(n as int),
{
    if n % 64 == 0 {
        n / 64
    } else {
        n / 64 + 1
    }
}

/// The registers below `k` whose outputs are read, in order.
pub open spec fn live_regs(tape: Compiled, k: int) -> Seq<usize>
    decreases k,
{
    if k <= 0 {
        seq![]
    } else if tape.reg_out_slots@[k - 1] != DEAD {
        live_regs(tape, k - 1).push((k - 1) as usize)
    } else {
        live_regs(tape, k - 1)
    }
}

/// The first word behind the inputs and the registers.
pub open spec fn first_word(tape: Compiled) -> int {
    words_for(tape.input_slots@.len() as int) + words_for(
        live_regs(tape, tape.reg_out_slots@.len() as int).len() as int,
    )
}

/// The first word of block `k`.
pub open spec fn home(tape: Compiled, k: int) -> int {
    block_word(tape, found(tape), first_word(tape), k)
}

/// Number of blocks.
pub open spec fn total_blocks(tape: Compiled) -> int {
    block_count(tape, found(tape))
}

/// Arena positions fit 32 bits, with a word to spare.
pub open spec fn packable(tape: Compiled) -> bool {
    64 * (home(tape, total_blocks(tape)) + 2) <= u32::MAX
}

/// The tape of the circuit can be packed.
pub open spec fn fits_arena(net: Netlist) -> bool {
    forall|tape: Compiled| tape.wf() && #[trigger] lowered(net, tape) ==> packable(tape)
}

/// The operation that settles a block: a run's gate kind; for a chain, the
/// addition, then the xor and the and of its operands.
pub open spec fn block_op(tape: Compiled, k: int) -> TaskOp {
    let runs = tape.runs@.len();
    if k < runs {
        TaskOp::Gate(tape.runs@[k].op)
    } else if (k - runs) % 3 == 0 {
        TaskOp::Add
    } else if (k - runs) % 3 == 1 {
        TaskOp::Gate(Op::Xor)
    } else {
        TaskOp::Gate(Op::And)
    }
}

/// The operand slots at place `q`.
pub open spec fn column(tape: Compiled, q: int) -> Seq<u32> {
    if q == 0 {
        tape.a@
    } else if q == 1 {
        tape.b@
    } else {
        tape.c@
    }
}

/// The slots that operand stream `q` of word `c` of block `k` gathers.
pub open spec fn block_window(tape: Compiled, f: Found, k: int, c: int, q: int) -> Seq<u32> {
    let runs = tape.runs@.len();
    if k < runs {
        let slots = block_slots(tape, f, k);
        let len = if slots.len() - 64 * c < 64 {
            slots.len() - 64 * c
        } else {
            64
        };
        if q < gate_arity(tape.runs@[k].op) {
            Seq::new(len as nat, |i: int| column(tape, q)[slots[64 * c + i] as int])
        } else {
            seq![]
        }
    } else {
        let ch = f.chains[(k - runs) / 3];
        if q == 0 {
            Seq::new(ch.links.len(), |i: int| ch.links[i].p)
        } else if q == 1 {
            Seq::new(ch.links.len(), |i: int| ch.links[i].q)
        } else if (k - runs) % 3 == 0 {
            seq![ch.cin]
        } else {
            seq![]
        }
    }
}

/// Stream `q` of a task is the gather program of its window.
pub open spec fn gathered(
    tape: Compiled,
    f: Found,
    pos: Seq<u32>,
    cval: Seq<u8>,
    segs: Seq<Seg>,
    task: Task,
    k: int,
    c: int,
    q: int,
) -> bool {
    is_program(
        pos,
        cval,
        block_window(tape, f, k, c, q),
        stream_segs(segs, task, q),
        task.streams[q].funnels as int,
        task.imm[q],
    )
}

/// The task of word `c` of block `k`: one operation on the block's operand
/// words, whatever number of gates they pack.
pub open spec fn settles_word(
    tape: Compiled,
    f: Found,
    pos: Seq<u32>,
    cval: Seq<u8>,
    segs: Seq<Seg>,
    task: Task,
    k: int,
    c: int,
) -> bool {
    &&& 0 <= k < block_count(tape, f)
    &&& 0 <= c < words_for(block_slots(tape, f, k).len() as int)
    &&& task.op == block_op(tape, k)
    &&& gathered(tape, f, pos, cval, segs, task, k, c, 0)
    &&& gathered(tape, f, pos, cval, segs, task, k, c, 1)
    &&& gathered(tape, f, pos, cval, segs, task, k, c, 2)
}

/// The slots that feed live registers `64k..64k+64`.
pub open spec fn capture_window(tape: Compiled, live: Seq<usize>, k: int) -> Seq<u32> {
    let len = if live.len() - 64 * k < 64 {
        live.len() - 64 * k
    } else {
        64
    };
    Seq::new(len as nat, |i: int| tape.reg_in_slots@[live[64 * k + i] as int])
}

/// Entry `k` of the register capture is the gather program of its window.
pub open spec fn captures_word(
    tape: Compiled,
    live: Seq<usize>,
    pos: Seq<u32>,
    cval: Seq<u8>,
    segs: Seq<Seg>,
    at: int,
    entry: (u64, StreamRef),
    k: int,
) -> bool {
    is_program(
        pos,
        cval,
        capture_window(tape, live, k),
        segs.subrange(at, at + entry.1.len()),
        entry.1.funnels as int,
        entry.0,
    )
}

/// The constant values of all slots.
pub open spec fn slot_consts(tape: Compiled) -> Seq<u8> {
    Seq::new(tape.ops@.len(), |s: int| slot_const(tape, s))
}

/// The live registers, in order.
pub open spec fn live_ok(tape: Compiled, live: Seq<usize>) -> bool {
    &&& forall|k: int|
        0 <= k < live.len() ==> (#[trigger] live[k]) < tape.reg_out_slots@.len()
            && tape.reg_out_slots@[live[k] as int] != DEAD
    &&& forall|j: int, k: int| 0 <= j < k < live.len() ==> #[trigger] live[j] < #[trigger] live[k]
    &&& forall|r: int|
        0 <= r < tape.reg_out_slots@.len() && #[trigger] tape.reg_out_slots@[r] != DEAD ==> exists|k: int|
            0 <= k < live.len() && #[trigger] live[k] == r
}

impl Plan {
    /// Sources have their places: inputs from bit 0, register outputs from
    /// the register region, constants none.
    pub open spec fn sources_placed(&self) -> bool {
        let tape = self.tape@;
        let pos = self.pos@;
        &&& self.input_count == tape.input_slots@.len()
        &&& forall|k: int|
            0 <= k < tape.input_slots@.len() ==> pos[#[trigger] tape.input_slots@[k] as int] == k
        &&& live_ok(tape, self.live@)
        &&& forall|k: int|
            0 <= k < self.live@.len() ==> pos[tape.reg_out_slots@[#[trigger] self.live@[k] as int] as int]
                == 64 * self.reg_word + k
        &&& words_for(tape.input_slots@.len() as int) == self.reg_word
        &&& self.reg_init@.len() == words_for(self.live@.len() as int)
        &&& forall|s: int|
            0 <= s < tape.gate_start && tape.sources@[s] is Const ==> #[trigger] pos[s] == NIL
    }

    /// Register initials, packed.
    pub open spec fn init_ok(&self) -> bool {
        forall|k: int|
            0 <= k < self.live@.len() ==> bit_at(self.reg_init@, k) == (self.tape@.reg_initial@[#[trigger] self.live@[k] as int]
                != 0)
    }

    /// Outputs read constants or placed slots that end up written.
    pub open spec fn outputs_ok(&self) -> bool {
        let tape = self.tape@;
        &&& self.outputs@.len() == tape.output_slots@.len()
        &&& forall|k: int|
            0 <= k < self.outputs@.len() ==> match #[trigger] self.outputs@[k] {
                OutSrc::Const(v) => slot_const(tape, tape.output_slots@[k] as int) == bit(v),
                OutSrc::Bit(p) => self.available(tape.output_slots@[k] as int) && p
                    == self.pos@[tape.output_slots@[k] as int],
            }
    }

    /// The slot has a place, and holds its value once all tasks have run.
    pub open spec fn available(&self, x: int) -> bool {
        &&& 0 <= x < self.tape@.n()
        &&& self.pos@[x] != NIL
        &&& x < self.tape@.gate_start || made(self.tasks@, self.tasks@.len() as int, self.pos@[x] as int / 64)
    }

    /// Once everything is settled, the capture programs yield the live
    /// registers' next states.
    pub open spec fn capture_sound(&self) -> bool {
        &&& self.capture@.len() == self.reg_init@.len()
        &&& captures_tile(self.capture@, self.cap_segs@, self.cap_at@)
        &&& forall|k: int| 0 <= k < self.capture@.len() ==> #[trigger] self.capture_right(k)
    }

    pub open spec fn capture_right(&self, k: int) -> bool {
        forall|env: Env, bits: Seq<u64>, w: u64|
            bits.len() == self.words && #[trigger] held(
                self.tape@,
                self.pos@,
                self.tasks@,
                self.tasks@.len() as int,
                bits,
                env,
            ) && #[trigger] gathers(
                bits,
                self.cap_segs@.subrange(self.cap_at@[k], self.cap_at@[k] + self.capture@[k].1.len()),
                self.capture@[k].1.funnels as int,
                self.capture@[k].0,
                w,
            ) ==> next_states(self.tape@, self.live@, env, k, w)
    }

    /// What every plan satisfies.
    pub open spec fn ok(&self) -> bool {
        let tape = self.tape@;
        &&& tape.wf()
        &&& self.pos@.len() == tape.n()
        &&& self.words >= 1
        &&& 64 * self.words + 64 <= u32::MAX
        &&& forall|x: int|
            0 <= x < tape.n() && #[trigger] self.pos@[x] != NIL ==> self.pos@[x] < 64 * (self.words - 1)
        &&& forall|x: int, y: int|
            0 <= x < y < tape.n() && self.pos@[x] != NIL ==> #[trigger] self.pos@[x] != #[trigger] self.pos@[y]
        &&& self.sources_placed()
        &&& self.init_ok()
        &&& self.reg_word + self.reg_init@.len() <= self.words - 1
        &&& forall|x: int|
            tape.gate_start <= x < tape.n() && #[trigger] self.pos@[x] != NIL ==> self.pos@[x] as int / 64
                >= self.reg_word + self.reg_init@.len()
        &&& forall|t: int|
            0 <= t < self.tasks@.len() ==> self.reg_word + self.reg_init@.len() <= (
            #[trigger] self.tasks@[t]).dst < self.words - 1
        &&& dsts_distinct(self.tasks@)
        &&& tasks_tile(self.tasks@, self.segs@)
        &&& segs_in(self.segs@, self.words as int)
        &&& segs_in(self.cap_segs@, self.words as int)
        &&& forall|t: int|
            0 <= t < self.tasks@.len() ==> #[trigger] task_sound(
                tape,
                self.pos@,
                self.words as int,
                self.tasks@,
                self.segs@,
                t,
            )
        &&& self.capture_sound()
        &&& self.outputs_ok()
    }
}

/// Combining gathered words bit by bit is evaluating a gate bit by bit.
pub proof fn lemma_combine_bits(op: Op, a: u64, b: u64, c: u64, i: int)
    requires
        0 <= i < 64,
    ensures
        wbit(combine(TaskOp::Gate(op), a, b, c), i) == gate_fn(op, wbit(a, i), wbit(b, i), wbit(c, i)),
{
    crate::gather::lemma_word_logic(a, b, i);
    crate::gather::lemma_word_logic(a & b, 0, i);
    crate::gather::lemma_word_logic(a | b, 0, i);
    crate::gather::lemma_word_logic(a ^ b, 0, i);
    crate::gather::lemma_word_logic(b, c, i);
    crate::gather::lemma_word_logic(a, b ^ c, i);
    crate::gather::lemma_word_logic(c, a & (b ^ c), i);
}

/// Where each output reads from.
fn plan_outputs(
    ctx: Ghost<Ctx>,
    e: &Emit,
    tape: &Compiled,
    pos: &Vec<u32>,
    cval: &Vec<u8>,
) -> (outputs: Vec<OutSrc>)
    requires
        ctx_ok(ctx@),
        ctx@.tape == *tape,
        e.ok(ctx@),
        pos@ == ctx@.pos,
        cval@ == ctx@.cval,
        runs_done(ctx@, e.prog@, tape.runs@.len() as int),
        chains_done(ctx@, e.prog@, tape.levels@.len() as int),
    ensures
        outputs@.len() == tape.output_slots@.len(),
        forall|k: int|
            0 <= k < outputs@.len() ==> match #[trigger] outputs@[k] {
                OutSrc::Const(v) => slot_const(*tape, tape.output_slots@[k] as int) == bit(v),
                OutSrc::Bit(p) => avail(ctx@, e.tasks@, tape.output_slots@[k] as int)
                    && ctx@.cval[tape.output_slots@[k] as int] == NOT_CONST && p
                    == ctx@.pos[tape.output_slots@[k] as int],
            },
{
    let mut outputs: Vec<OutSrc> = Vec::new();
    for k in 0..tape.output_slots.len()
        invariant
            ctx_ok(ctx@),
            ctx@.tape == *tape,
            e.ok(ctx@),
            pos@ == ctx@.pos,
            cval@ == ctx@.cval,
            runs_done(ctx@, e.prog@, tape.runs@.len() as int),
            chains_done(ctx@, e.prog@, tape.levels@.len() as int),
            outputs@.len() == k,
            forall|j: int|
                0 <= j < k ==> match #[trigger] outputs@[j] {
                    OutSrc::Const(v) => slot_const(*tape, tape.output_slots@[j] as int) == bit(v),
                    OutSrc::Bit(p) => avail(ctx@, e.tasks@, tape.output_slots@[j] as int)
                        && ctx@.cval[tape.output_slots@[j] as int] == NOT_CONST && p
                        == ctx@.pos[tape.output_slots@[j] as int],
                },
    {
        let slot: usize = tape.output_slots[k] as usize;
        assert(tape.output_slots@[k as int] == slot);
        assert(cval@[slot as int] == slot_const(*tape, slot as int));
        let v: u8 = cval[slot];
        if v == NOT_CONST {
            proof {
                assert(observed(*tape, slot as int));
                lemma_observed_avail(ctx@, *e, slot as int);
            }
            outputs.push(OutSrc::Bit(pos[slot]));
        } else {
            outputs.push(OutSrc::Const(v != 0));
        }
    }
    outputs
}

impl Plan {
    /// A task settles word `c` of block `k`.
    pub open spec fn settles(&self, t: int, k: int, c: int) -> bool {
        &&& settles_word(
            self.tape@,
            found(self.tape@),
            self.pos@,
            slot_consts(self.tape@),
            self.segs@,
            self.tasks@[t],
            k,
            c,
        )
        &&& self.tasks@[t].dst == home(self.tape@, k) + c
    }

    /// Some task settles word `c` of block `k`.
    pub open spec fn is_settled(&self, k: int, c: int) -> bool {
        exists|t: int| 0 <= t < self.tasks@.len() && #[trigger] self.settles(t, k, c)
    }

    /// Task `t` settles a word of a block.
    pub open spec fn has_block(&self, t: int) -> bool {
        exists|k: int, c: int| #[trigger] self.settles(t, k, c)
    }

    /// The gates of every block are packed side by side from a word boundary
    /// on, and every word of a block is settled by one task.
    pub open spec fn packs(&self) -> bool {
        let tape = self.tape@;
        &&& self.reg_word == words_for(tape.input_slots@.len() as int)
        &&& self.live@ == live_regs(tape, tape.reg_out_slots@.len() as int)
        &&& self.words == home(tape, total_blocks(tape)) + 1
        &&& forall|k: int|
            0 <= k < total_blocks(tape) ==> block_placed(
                self.pos@,
                #[trigger] block_slots(tape, found(tape), k),
                home(tape, k),
            )
        &&& forall|x: int|
            tape.gate_start <= x < tape.n() && #[trigger] self.pos@[x] != NIL ==> exists|k: int|
                0 <= k < total_blocks(tape) && #[trigger] block_slots(tape, found(tape), k).contains(
                    x as u32,
                )
        &&& forall|t: int| 0 <= t < self.tasks@.len() ==> #[trigger] self.has_block(t)
        &&& self.capture@.len() == words_for(self.live@.len() as int)
        &&& forall|k: int|
            0 <= k < self.capture@.len() ==> captures_word(
                tape,
                self.live@,
                self.pos@,
                slot_consts(tape),
                self.cap_segs@,
                self.cap_at@[k],
                #[trigger] self.capture@[k],
                k,
            )
        &&& forall|k: int, c: int|
            0 <= k < total_blocks(tape) && 0 <= c < words_for(
                block_slots(tape, found(tape), k).len() as int,
            ) ==> #[trigger] self.is_settled(k, c)
    }

    /// Plan a tape.
    #[verifier::rlimit(80)]
    pub fn new(tape: &Compiled) -> (plan: Plan)
        requires
            tape.wf(),
            packable(*tape),
        ensures
            plan.ok(),
            plan.packs(),
            plan.tape@ == *tape,
    {
        // Recognize ripple-carry adders first: their gates leave the window
        // pipeline entirely and settle as native word adds instead.
        let (chains, fused) = find_chains(tape);
        let ghost f = found(*tape);
        proof {
            found_chains_are_sound(*tape);
            crate::layout::lemma_chains_few(*tape, f);
            crate::layout::lemma_block_words(*tape, f, first_word(*tape), 0, total_blocks(*tape) + 1);
            crate::layout::lemma_block_words(*tape, f, first_word(*tape), total_blocks(*tape), total_blocks(*tape) + 1);
        }
        let cval = const_values(tape);
        let live = live_registers(tape);
        proof {
            lemma_source_counts(*tape, live@);
        }
        let reg_word: u32 = count_words(tape.input_slots.len()) as u32;
        let first: u32 = reg_word + count_words(live.len()) as u32;
        let mut pos = place_sources(tape, &live, reg_word);
        let blocks = make_blocks(tape, &chains, &fused);
        let (word, end) = lay_out(tape, Ghost(f), &blocks, &mut pos, first);
        let words: usize = end as usize + 1;
        let ghost ctx = Ctx {
            tape: *tape,
            f,
            cval: cval@,
            pos: pos@,
            word: word@,
            first: first as int,
            words: words as int,
        };
        proof {
            lemma_ctx_ok(ctx, live@, reg_word as int, blocks@);
        }
        let e = emit_all(Ghost(ctx), tape, &chains, &blocks, &word, &pos, &cval);
        let (capture, cap_segs, cap_at) = plan_capture(Ghost(ctx), &e, tape, &live, &pos, &cval);
        let reg_init = pack_initials(tape, &live);
        let outputs = plan_outputs(Ghost(ctx), &e, tape, &pos, &cval);
        let ghost tasks = e.tasks@;
        let ghost e0 = e;
        let plan = Plan {
            words,
            tasks: e.tasks,
            segs: e.segs,
            capture,
            cap_segs,
            cap_at,
            reg_word: reg_word as usize,
            reg_init,
            outputs,
            input_count: tape.input_slots.len(),
            tape: Ghost(*tape),
            pos: Ghost(pos@),
            live: Ghost(live@),
        };
        proof {
            lemma_positions_apart(ctx, live@, reg_word as int);
            assert forall|x: int|
                tape.gate_start <= x < tape.n() && #[trigger] plan.pos@[x] != NIL implies plan.pos@[x] as int / 64
                >= plan.reg_word + plan.reg_init@.len() by {
                lemma_gates_apart(ctx, x, x);
            }
            assert forall|k: int| 0 <= k < plan.capture@.len() implies #[trigger] plan.capture_right(k) by {
                assert(capture_right(ctx, tasks, live@, capture@, cap_segs@, cap_at@, k));
            }
            assert forall|t: int| 0 <= t < plan.tasks@.len() implies #[trigger] task_sound(
                *tape,
                plan.pos@,
                plan.words as int,
                plan.tasks@,
                plan.segs@,
                t,
            ) by {
                assert(task_sound(ctx.tape, ctx.pos, ctx.words, tasks, plan.segs@, t));
            }
            assert forall|t: int| 0 <= t < plan.tasks@.len() implies plan.reg_word + plan.reg_init@.len() <= (
            #[trigger] plan.tasks@[t]).dst < plan.words - 1 by {
                assert(ctx.first <= tasks[t].dst < ctx.words - 1);
            }
            assert(cval@ =~= slot_consts(*tape));
            assert forall|k: int| 0 <= k < total_blocks(*tape) implies block_placed(
                plan.pos@,
                #[trigger] block_slots(*tape, f, k),
                home(*tape, k),
            ) by {
                assert(word@[k] == home(*tape, k));
            }
            assert forall|x: int| tape.gate_start <= x < tape.n() && #[trigger] plan.pos@[x] != NIL implies exists|
                k: int,
            |
                0 <= k < total_blocks(*tape) && #[trigger] block_slots(*tape, f, k).contains(x as u32) by {
                assert(ctx.pos[x] != NIL);
                let k = choose|k: int|
                    0 <= k < ctx.word.len() && #[trigger] block_slots(ctx.tape, ctx.f, k).contains(
                        x as u32,
                    );
                assert(block_slots(*tape, f, k).contains(x as u32));
            }
            assert forall|k: int| 0 <= k < plan.capture@.len() implies captures_word(
                *tape,
                plan.live@,
                plan.pos@,
                slot_consts(*tape),
                plan.cap_segs@,
                plan.cap_at@[k],
                #[trigger] plan.capture@[k],
                k,
            ) by {
                assert(capture_right(ctx, tasks, live@, capture@, cap_segs@, cap_at@, k));
            }
            assert forall|t: int| 0 <= t < plan.tasks@.len() implies #[trigger] plan.has_block(t) by {
                assert(known_task(ctx, plan.segs@, tasks[t]));
                let (k, c) = choose|k: int, c: int| #[trigger] task_at(ctx, plan.segs@, tasks[t], k, c);
                assert(plan.settles(t, k, c));
            }
            assert forall|k: int, c: int|
                0 <= k < total_blocks(*tape) && 0 <= c < words_for(
                    block_slots(*tape, f, k).len() as int,
                ) implies #[trigger] plan.is_settled(k, c) by {
                let t = lemma_word_settled(ctx, e0, k, c);
                assert(plan.settles(t, k, c));
            }
            assert(plan.outputs_ok()) by {
                assert forall|k: int| 0 <= k < plan.outputs@.len() implies match #[trigger] plan.outputs@[k] {
                    OutSrc::Const(v) => slot_const(*tape, tape.output_slots@[k] as int) == bit(v),
                    OutSrc::Bit(p) => plan.available(tape.output_slots@[k] as int) && p
                        == plan.pos@[tape.output_slots@[k] as int],
                } by {
                    assert(outputs@[k] == plan.outputs@[k]);
                }
            }
        }
        plan
    }
}

/// The layout is fit for emission.
proof fn lemma_ctx_ok(ctx: Ctx, live: Seq<usize>, reg_word: int, blocks: Seq<Vec<u32>>)
    requires
        ctx.tape.wf(),
        crate::fusion::all_chains_sound(ctx.tape, ctx.f),
        cval_ok(ctx.tape, ctx.cval),
        live_ok(ctx.tape, live),
        sources_at(ctx.tape, live, ctx.pos, reg_word),
        0 <= reg_word,
        words_for(ctx.tape.input_slots@.len() as int) == reg_word,
        ctx.first == reg_word + words_for(live.len() as int),
        ctx.first <= ctx.words - 1,
        64 * (ctx.words + 1) <= u32::MAX,
        blocks.len() == crate::layout::block_count(ctx.tape, ctx.f),
        forall|k: int|
            0 <= k < blocks.len() ==> (#[trigger] blocks[k])@ == crate::layout::block_slots(
                ctx.tape,
                ctx.f,
                k,
            ),
        crate::layout::words_ascend(ctx.word, blocks, ctx.first, ctx.words - 1),
        forall|k: int|
            0 <= k < blocks.len() ==> crate::layout::block_placed(
                ctx.pos,
                (#[trigger] blocks[k])@,
                ctx.word[k] as int,
            ),
        forall|x: int|
            ctx.tape.gate_start <= x < ctx.tape.n() && #[trigger] ctx.pos[x] != NIL ==> exists|k: int|
                0 <= k < blocks.len() && (#[trigger] blocks[k])@.contains(x as u32),
    ensures
        ctx_ok(ctx),
{
    let tape = ctx.tape;
    assert forall|k: int| 0 <= k < ctx.word.len() implies ctx.first <= #[trigger] ctx.word[k] && ctx.word[k]
        + crate::emission::chunks(ctx, k) <= ctx.words - 1 by {
        assert(blocks[k]@ == crate::layout::block_slots(tape, ctx.f, k));
    }
    assert forall|k: int, l: int| 0 <= k < l < ctx.word.len() implies (#[trigger] ctx.word[k])
        + crate::emission::chunks(ctx, k) <= #[trigger] ctx.word[l] by {
        assert(blocks[k]@ == crate::layout::block_slots(tape, ctx.f, k));
    }
    assert forall|k: int| 0 <= k < ctx.word.len() implies crate::layout::block_placed(
        ctx.pos,
        crate::layout::block_slots(tape, ctx.f, k),
        #[trigger] ctx.word[k] as int,
    ) by {
        assert(blocks[k]@ == crate::layout::block_slots(tape, ctx.f, k));
    }
    assert forall|x: int| tape.gate_start <= x < tape.n() && #[trigger] ctx.pos[x] != NIL implies exists|k: int|
        0 <= k < ctx.word.len() && #[trigger] crate::layout::block_slots(tape, ctx.f, k).contains(x as u32) by {
        let k = choose|k: int| 0 <= k < blocks.len() && (#[trigger] blocks[k])@.contains(x as u32);
        assert(blocks[k]@ == crate::layout::block_slots(tape, ctx.f, k));
        assert(crate::layout::block_slots(tape, ctx.f, k).contains(x as u32));
    }
    assert forall|s: int| 0 <= s < tape.gate_start && #[trigger] ctx.cval[s] == NOT_CONST implies ctx.pos[s]
        != NIL && ctx.pos[s] < 64 * ctx.first by {
        assert(ctx.cval[s] == slot_const(tape, s));
        lemma_source_place(tape, live, ctx.pos, reg_word, s);
    }
    assert forall|x: int| 0 <= x < tape.n() && #[trigger] ctx.pos[x] != NIL implies ctx.pos[x] < 64 * (ctx.words
        - 1) by {
        if x < tape.gate_start {
            assert(ctx.cval[x] == slot_const(tape, x));
            assert(ctx.cval[x] == NOT_CONST ==> ctx.pos[x] < 64 * ctx.first);
        } else {
            let k = choose|k: int| 0 <= k < blocks.len() && (#[trigger] blocks[k])@.contains(x as u32);
            let b = blocks[k]@;
            let i = choose|i: int| 0 <= i < b.len() && b[i] == x as u32;
            assert(crate::layout::block_placed(ctx.pos, b, ctx.word[k] as int));
            assert(b[i] != NIL);
            assert(ctx.word[k] + words_for(b.len() as int) <= ctx.words - 1);
        }
    }
}

/// Where a source is.
proof fn lemma_source_place(tape: Compiled, live: Seq<usize>, pos: Seq<u32>, reg_word: int, s: int)
    requires
        tape.wf(),
        live_ok(tape, live),
        sources_at(tape, live, pos, reg_word),
        0 <= reg_word,
        words_for(tape.input_slots@.len() as int) == reg_word,
        64 * (reg_word + words_for(live.len() as int)) <= u32::MAX,
        0 <= s < tape.gate_start,
    ensures
        match tape.sources@[s] {
            Node::Const(_) => pos[s] == NIL,
            Node::Input(k) => pos[s] == k && 0 <= k < 64 * reg_word && k < tape.input_slots@.len(),
            Node::RegOut(r) => 64 * reg_word <= pos[s] < 64 * reg_word + live.len() && live[pos[s] - 64 * reg_word]
                == r,
            _ => false,
        },
        !(tape.sources@[s] is Const) ==> pos[s] != NIL && pos[s] < 64 * (reg_word + words_for(
            live.len() as int,
        )),
{
    lemma_source_counts(tape, live);
    match tape.sources@[s] {
        Node::Input(k) => {
            assert(tape.input_slots@[k] == s);
        },
        Node::RegOut(r) => {
            assert(tape.reg_out_slots@[r] == s);
            let k = choose|k: int| 0 <= k < live.len() && #[trigger] live[k] == r;
            assert(pos[tape.reg_out_slots@[live[k] as int] as int] == 64 * reg_word + k);
        },
        _ => {},
    }
}

/// No two slots share a position.
proof fn lemma_positions_apart(ctx: Ctx, live: Seq<usize>, reg_word: int)
    requires
        ctx_ok(ctx),
        live_ok(ctx.tape, live),
        sources_at(ctx.tape, live, ctx.pos, reg_word),
        0 <= reg_word,
        words_for(ctx.tape.input_slots@.len() as int) == reg_word,
        ctx.first == reg_word + words_for(live.len() as int),
        64 * ctx.first <= u32::MAX,
    ensures
        forall|x: int, y: int|
            0 <= x < y < ctx.tape.n() && ctx.pos[x] != NIL ==> #[trigger] ctx.pos[x] != #[trigger] ctx.pos[y],
{
    let tape = ctx.tape;
    assert forall|x: int, y: int| 0 <= x < y < tape.n() && ctx.pos[x] != NIL implies #[trigger] ctx.pos[x]
        != #[trigger] ctx.pos[y] by {
        if ctx.pos[x] == ctx.pos[y] {
            if x < tape.gate_start {
                lemma_source_place(tape, live, ctx.pos, reg_word, x);
            }
            if y < tape.gate_start {
                lemma_source_place(tape, live, ctx.pos, reg_word, y);
                match tape.sources@[y] {
                    Node::Input(k) => {
                        assert(tape.input_slots@[k] == y);
                        assert(tape.sources@[x] == Node::Input(k));
                        assert(tape.input_slots@[k] == x);
                    },
                    Node::RegOut(r) => {
                        assert(tape.reg_out_slots@[r] == y);
                        assert(tape.sources@[x] == Node::RegOut(r));
                        assert(tape.reg_out_slots@[r] == x);
                    },
                    _ => {},
                }
            } else {
                if x >= tape.gate_start {
                    lemma_gates_apart(ctx, x, y);
                } else {
                    lemma_gates_apart(ctx, y, y);
                }
            }
        }
    }
}

/// The constant of each slot.
fn const_values(tape: &Compiled) -> (cval: Vec<u8>)
    requires
        tape.wf(),
    ensures
        cval_ok(*tape, cval@),
{
    let n: usize = tape.slot_count();
    let mut cval: Vec<u8> = Vec::with_capacity(n);
    for i in 0..n
        invariant
            cval@.len() == i,
            forall|s: int| 0 <= s < i ==> #[trigger] cval@[s] == NOT_CONST,
    {
        cval.push(NOT_CONST);
    }
    for j in 0..tape.const_slots.len()
        invariant
            tape.wf(),
            n == tape.n(),
            cval@.len() == n,
            forall|s: int|
                0 <= s < n ==> #[trigger] cval@[s] == NOT_CONST || (cval@[s] == slot_const(*tape, s) && cval@[s] <= 1),
            forall|i: int|
                0 <= i < j ==> cval@[(#[trigger] tape.const_slots@[i]).0 as int] <= 1,
    {
        let (slot, v) = tape.const_slots[j];
        assert(tape.const_slots@[j as int] == (slot, v));
        assert(tape.sources@[slot as int] == Node::Const(v == 1));
        cval.set(slot as usize, v);
    }
    assert forall|s: int| 0 <= s < n implies #[trigger] cval@[s] == slot_const(*tape, s) by {
        if s < tape.gate_start && tape.sources@[s] is Const {
            let j = choose|j: int|
                0 <= j < tape.const_slots@.len() && (#[trigger] tape.const_slots@[j]).0 == s;
            assert(cval@[tape.const_slots@[j].0 as int] <= 1);
        }
    }
    cval
}

/// The registers whose outputs are read.
fn live_registers(tape: &Compiled) -> (live: Vec<usize>)
    requires
        tape.wf(),
    ensures
        live_ok(*tape, live@),
        live@ == live_regs(*tape, tape.reg_out_slots@.len() as int),
{
    let mut live: Vec<usize> = Vec::new();
    for r in 0..tape.reg_out_slots.len()
        invariant
            live@ == live_regs(*tape, r as int),
            forall|k: int|
                0 <= k < live@.len() ==> (#[trigger] live@[k]) < r && tape.reg_out_slots@[live@[k] as int] != DEAD,
            forall|j: int, k: int| 0 <= j < k < live@.len() ==> #[trigger] live@[j] < #[trigger] live@[k],
            forall|q: int|
                0 <= q < r && #[trigger] tape.reg_out_slots@[q] != DEAD ==> exists|k: int|
                    0 <= k < live@.len() && #[trigger] live@[k] == q,
    {
        let ghost before = live@;
        if tape.reg_out_slots[r] != DEAD {
            live.push(r);
        }
        assert forall|q: int| 0 <= q < r + 1 && #[trigger] tape.reg_out_slots@[q] != DEAD implies exists|k: int|
            0 <= k < live@.len() && #[trigger] live@[k] == q by {
            if q < r {
                let k = choose|k: int| 0 <= k < before.len() && #[trigger] before[k] == q;
                assert(live@[k] == q);
            } else {
                assert(live@[before.len() as int] == q);
            }
        }
    }
    live
}

/// Inputs and live registers are no more than slots.
proof fn lemma_source_counts(tape: Compiled, live: Seq<usize>)
    requires
        tape.wf(),
        live_ok(tape, live),
    ensures
        tape.input_slots@.len() <= tape.gate_start,
        live.len() <= tape.gate_start,
{
    let ins = Seq::new(tape.input_slots@.len(), |k: int| tape.input_slots@[k] as int);
    assert forall|i: int, j: int| 0 <= i < ins.len() && 0 <= j < ins.len() && i != j implies ins[i] != ins[j] by {
        assert(tape.sources@[tape.input_slots@[i] as int] == Node::Input(i));
        assert(tape.sources@[tape.input_slots@[j] as int] == Node::Input(j));
    }
    assert forall|i: int| 0 <= i < ins.len() implies 0 <= #[trigger] ins[i] < tape.gate_start by {
        assert(tape.input_slots@[i] < tape.gate_start);
    }
    crate::kahn::lemma_bounded(ins, tape.gate_start as int);
    let outs = Seq::new(live.len(), |k: int| tape.reg_out_slots@[live[k] as int] as int);
    assert forall|i: int, j: int| 0 <= i < outs.len() && 0 <= j < outs.len() && i != j implies outs[i] != outs[j] by {
        let (a, b) = (live[i] as int, live[j] as int);
        assert(tape.sources@[tape.reg_out_slots@[a] as int] == Node::RegOut(a));
        assert(tape.sources@[tape.reg_out_slots@[b] as int] == Node::RegOut(b));
    }
    assert forall|i: int| 0 <= i < outs.len() implies 0 <= #[trigger] outs[i] < tape.gate_start by {
        let a = live[i] as int;
        assert(tape.reg_out_slots@[a] < tape.gate_start);
    }
    crate::kahn::lemma_bounded(outs, tape.gate_start as int);
}

/// Sources are at their places, and nothing else is placed.
pub open spec fn sources_at(tape: Compiled, live: Seq<usize>, pos: Seq<u32>, reg_word: int) -> bool {
    &&& pos.len() == tape.n()
    &&& forall|k: int| 0 <= k < tape.input_slots@.len() ==> pos[#[trigger] tape.input_slots@[k] as int] == k
    &&& forall|k: int|
        0 <= k < live.len() ==> pos[tape.reg_out_slots@[#[trigger] live[k] as int] as int] == 64 * reg_word + k
    &&& forall|s: int|
        0 <= s < tape.gate_start && tape.sources@[s] is Const ==> #[trigger] pos[s] == NIL
}

/// Give the inputs and the live registers their places.
fn place_sources(tape: &Compiled, live: &Vec<usize>, reg_word: u32) -> (pos: Vec<u32>)
    requires
        tape.wf(),
        live_ok(*tape, live@),
        64 * reg_word + live@.len() <= u32::MAX,
    ensures
        sources_at(*tape, live@, pos@, reg_word as int),
        forall|x: int| tape.gate_start <= x < tape.n() ==> #[trigger] pos@[x] == NIL,
{
    let n: usize = tape.slot_count();
    let mut pos: Vec<u32> = Vec::with_capacity(n);
    proof {
        lemma_source_counts(*tape, live@);
    }
    for i in 0..n
        invariant
            pos@.len() == i,
            forall|s: int| 0 <= s < i ==> #[trigger] pos@[s] == NIL,
    {
        pos.push(NIL);
    }
    for k in 0..tape.input_slots.len()
        invariant
            tape.wf(),
            n == tape.n(),
            pos@.len() == n,
            tape.input_slots@.len() <= n,
            forall|j: int| 0 <= j < k ==> pos@[#[trigger] tape.input_slots@[j] as int] == j,
            forall|s: int|
                0 <= s < n && !(s < tape.gate_start && tape.sources@[s] is Input) ==> #[trigger] pos@[s] == NIL,
    {
        let slot: usize = tape.input_slots[k] as usize;
        assert(tape.sources@[tape.input_slots@[k as int] as int] == Node::Input(k as int));
        pos.set(slot, k as u32);
        assert forall|j: int| 0 <= j < k + 1 implies pos@[#[trigger] tape.input_slots@[j] as int] == j by {
            assert(tape.sources@[tape.input_slots@[j] as int] == Node::Input(j));
        }
    }
    for k in 0..live.len()
        invariant
            tape.wf(),
            n == tape.n(),
            pos@.len() == n,
            live_ok(*tape, live@),
            64 * reg_word + live@.len() <= u32::MAX,
            forall|j: int|
                0 <= j < tape.input_slots@.len() ==> pos@[#[trigger] tape.input_slots@[j] as int] == j,
            forall|j: int|
                0 <= j < k ==> pos@[tape.reg_out_slots@[#[trigger] live@[j] as int] as int] == 64 * reg_word + j,
            forall|s: int|
                0 <= s < n && !(s < tape.gate_start && (tape.sources@[s] is Input || tape.sources@[s] is RegOut))
                    ==> #[trigger] pos@[s] == NIL,
    {
        let r: usize = live[k];
        let ghost before = pos@;
        let slot: usize = tape.reg_out_slots[r] as usize;
        assert(tape.sources@[tape.reg_out_slots@[r as int] as int] == Node::RegOut(r as int));
        pos.set(slot, 64 * reg_word + k as u32);
        assert forall|j: int| 0 <= j < k + 1 implies pos@[tape.reg_out_slots@[#[trigger] live@[j] as int] as int]
            == 64 * reg_word + j by {
            let q = live@[j] as int;
            assert(tape.sources@[tape.reg_out_slots@[q] as int] == Node::RegOut(q));
            if j < k {
                assert(live@[j] < live@[k as int]);
            }
        }
        assert forall|j: int| 0 <= j < tape.input_slots@.len() implies pos@[#[trigger] tape.input_slots@[j] as int] == j by {
            assert(tape.sources@[tape.input_slots@[j] as int] == Node::Input(j));
            assert(before[tape.input_slots@[j] as int] == j);
        }
    }
    pos
}

/// Pack the live registers' initial values.
fn pack_initials(tape: &Compiled, live: &Vec<usize>) -> (init: Vec<u64>)
    requires
        tape.wf(),
        live_ok(*tape, live@),
        live@.len() <= MAX_SIGNALS,
    ensures
        init@.len() == words_for(live@.len() as int),
        forall|k: int|
            0 <= k < live@.len() ==> bit_at(init@, k) == (tape.reg_initial@[#[trigger] live@[k] as int] != 0),
{
    let count: usize = count_words(live.len());
    let mut init: Vec<u64> = Vec::new();
    for i in 0..count
        invariant
            init@.len() == i,
            forall|j: int| 0 <= j < i ==> #[trigger] init@[j] == 0,
    {
        init.push(0);
    }
    proof {
        assert forall|p: int| 0 <= p < 64 * count implies !#[trigger] bit_at(init@, p) by {
            crate::gather::lemma_one_bit(0, 0, p % 64);
        }
    }
    for k in 0..live.len()
        invariant
            tape.wf(),
            live_ok(*tape, live@),
            live@.len() <= 64 * count,
            init@.len() == count,
            forall|j: int|
                0 <= j < k ==> bit_at(init@, j) == (tape.reg_initial@[#[trigger] live@[j] as int] != 0),
            forall|p: int| k <= p < 64 * count ==> !#[trigger] bit_at(init@, p),
    {
        let r: usize = live[k];
        assert(tape.reg_initial@[r as int] <= 1);
        if tape.reg_initial[r] != 0 {
            let ghost before = init@;
            let w: usize = k / 64;
            let o: u64 = (k % 64) as u64;
            init.set(w, init[w] | (1u64 << o));
            proof {
                assert forall|p: int| 0 <= p < 64 * count implies #[trigger] bit_at(init@, p) == (p == k || bit_at(
                    before,
                    p,
                )) by {
                    crate::gather::lemma_one_bit(before[p / 64], k as int % 64, p % 64);
                }
            }
        }
    }
    init
}

/// The next-state gather programs of the live registers.
#[verifier::rlimit(60)]
fn plan_capture(
    ctx: Ghost<Ctx>,
    e: &Emit,
    tape: &Compiled,
    live: &Vec<usize>,
    pos: &Vec<u32>,
    cval: &Vec<u8>,
) -> (res: (Vec<(u64, StreamRef)>, Vec<Seg>, Ghost<Seq<int>>))
    requires
        ctx_ok(ctx@),
        ctx@.tape == *tape,
        e.ok(ctx@),
        pos@ == ctx@.pos,
        cval@ == ctx@.cval,
        live_ok(*tape, live@),
        live@.len() <= MAX_SIGNALS,
        runs_done(ctx@, e.prog@, tape.runs@.len() as int),
        chains_done(ctx@, e.prog@, tape.levels@.len() as int),
    ensures
        res.0@.len() == words_for(live@.len() as int),
        res.2@.len() == res.0@.len(),
        segs_in(res.1@, ctx@.words),
        captures_tile(res.0@, res.1@, res.2@),
        forall|k: int| 0 <= k < res.0@.len() ==> #[trigger] capture_right(
            ctx@,
            e.tasks@,
            live@,
            res.0@,
            res.1@,
            res.2@,
            k,
        ),
{
    let count: usize = count_words(live.len());
    let mut capture: Vec<(u64, StreamRef)> = Vec::new();
    let mut segs: Vec<Seg> = Vec::new();
    let ghost mut at: Seq<int> = Seq::empty();
    let ghost limit = 64 * (ctx@.words - 1);
    proof {
        assert forall|s: int| 0 <= s < cval@.len() implies #[trigger] cval@[s] <= 1 || cval@[s] == NOT_CONST by {
            assert(cval@[s] == slot_const(ctx@.tape, s));
        }
    }
    for k in 0..count
        invariant
            ctx_ok(ctx@),
            ctx@.tape == *tape,
            e.ok(ctx@),
            pos@ == ctx@.pos,
            cval@ == ctx@.cval,
            limit == 64 * (ctx@.words - 1),
            forall|s: int| 0 <= s < cval@.len() ==> #[trigger] cval@[s] <= 1 || cval@[s] == NOT_CONST,
            live_ok(*tape, live@),
            live@.len() <= MAX_SIGNALS,
            count == words_for(live@.len() as int),
            runs_done(ctx@, e.prog@, tape.runs@.len() as int),
            chains_done(ctx@, e.prog@, tape.levels@.len() as int),
            capture@.len() == k,
            at.len() == k,
            segs_in(segs@, ctx@.words),
            captures_tile(capture@, segs@, at),
            forall|j: int| 0 <= j < k ==> #[trigger] capture_right(
                ctx@,
                e.tasks@,
                live@,
                capture@,
                segs@,
                at,
                j,
            ),
    {
        let lo: usize = 64 * k;
        let hi: usize = if live.len() - lo < 64 {
            live.len()
        } else {
            lo + 64
        };
        let mut window: Vec<u32> = Vec::new();
        for i in lo..hi
            invariant
                lo <= hi <= live@.len(),
                tape.wf(),
                live_ok(*tape, live@),
                window@.len() == i - lo,
                forall|j: int|
                    0 <= j < i - lo ==> #[trigger] window@[j] == tape.reg_in_slots@[live@[lo + j] as int],
        {
            assert(live@[i as int] < tape.reg_out_slots@.len());
            window.push(tape.reg_in_slots[live[i]]);
        }
        proof {
            assert forall|j: int| 0 <= j < window@.len() && #[trigger] window@[j] != NIL implies avail(
                ctx@,
                e.tasks@,
                window@[j] as int,
            ) by {
                let r = live@[lo + j] as int;
                assert(tape.reg_out_slots@[r] != DEAD);
                assert(tape.reg_in_slots@[r] == window@[j]);
                assert(observed(*tape, window@[j] as int));
                lemma_observed_avail(ctx@, *e, window@[j] as int);
            }
            assert(window_avail(ctx@, e.tasks@, window@));
            lemma_window_fits(ctx@, e.tasks@, window@);
        }
        let ghost segs0 = segs@;
        let ghost capture0 = capture@;
        let ghost at0 = at;
        let (imm, sr) = plan_stream(&window, pos, cval, &mut segs);
        capture.push((imm, sr));
        proof {
            at = at.push(segs0.len() as int);
            assert(segs_in(segs@, ctx@.words)) by {
                assert forall|j: int| 0 <= j < segs@.len() implies (#[trigger] segs@[j]).src < (ctx@.words - 1) * 64
                    && segs@[j].shift < 64 by {
                    if j < segs0.len() {
                        assert(segs@.take(segs0.len() as int)[j] == segs0[j]);
                    }
                }
            }
            assert(captures_tile(capture@, segs@, at)) by {
                assert forall|j: int| 0 <= j < capture@.len() implies 0 <= #[trigger] at[j] && at[j]
                    + capture@[j].1.len() <= segs@.len() by {
                    if j < k {
                        assert(at[j] == at0[j]);
                    }
                }
                assert forall|j: int| 0 <= j < capture@.len() - 1 implies #[trigger] captures_join(
                    capture@,
                    at,
                    j,
                ) by {
                    if j < k - 1 {
                        assert(captures_join(capture0, at0, j));
                    }
                }
            }
            assert forall|j: int| 0 <= j < k + 1 implies #[trigger] capture_right(
                ctx@,
                e.tasks@,
                live@,
                capture@,
                segs@,
                at,
                j,
            ) by {
                if j < k {
                    assert(capture_right(ctx@, e.tasks@, live@, capture0, segs0, at0, j));
                    assert(at0[j] + capture0[j].1.len() <= segs0.len());
                    assert(segs@.subrange(at[j], at[j] + capture@[j].1.len()) =~= segs0.subrange(
                        at0[j],
                        at0[j] + capture0[j].1.len(),
                    )) by {
                        assert forall|q: int| at[j] <= q < at[j] + capture@[j].1.len() implies segs@[q] == segs0[q] by {
                            assert(segs@.take(segs0.len() as int)[q] == segs0[q]);
                        }
                    }
                } else {
                    assert(segs@.subrange(at[k as int], at[k as int] + sr.len()) =~= segs@.skip(
                        segs0.len() as int,
                    ));
                    assert(window@ =~= capture_window(*tape, live@, k as int));
                    assert forall|env: Env, bits: Seq<u64>, w: u64|
                        bits.len() == ctx@.words && #[trigger] held(
                            *tape,
                            ctx@.pos,
                            e.tasks@,
                            e.tasks@.len() as int,
                            bits,
                            env,
                        ) && #[trigger] gathers(
                            bits,
                            segs@.subrange(at[k as int], at[k as int] + sr.len()),
                            sr.funnels as int,
                            imm,
                            w,
                        ) implies next_states(*tape, live@, env, k as int, w) by {
                        assert forall|q: int|
                            64 * k <= q < 64 * k + 64 && q < live@.len() implies wbit(w, q - 64 * k)
                            == tape.value(env, tape.reg_in_slots@[#[trigger] live@[q] as int] as int) by {
                            let i = q - 64 * k;
                            assert(window@[i] == tape.reg_in_slots@[live@[lo + i] as int]);
                            assert(wbit(w, i) == gather_bit(
                                bits,
                                segs@.skip(segs0.len() as int),
                                sr.funnels as int,
                                imm,
                                i,
                            ));
                            lemma_stream_value(ctx@, e.tasks@, bits, env, window@, i);
                            assert(live@[q] < tape.reg_out_slots@.len());
                            assert(tape.reg_in_slots@[live@[q] as int] < tape.n());
                        }
                    }
                }
            }
        }
    }
    (capture, segs, Ghost(at))
}

/// Capture programs lie end to end in their pool.
pub open spec fn captures_tile(capture: Seq<(u64, StreamRef)>, segs: Seq<Seg>, at: Seq<int>) -> bool {
    &&& at.len() == capture.len()
    &&& capture.len() > 0 ==> at[0] == 0 && at.last() + capture.last().1.len() == segs.len()
    &&& capture.len() == 0 ==> segs.len() == 0
    &&& forall|k: int|
        0 <= k < capture.len() ==> 0 <= #[trigger] at[k] && at[k] + capture[k].1.len() <= segs.len()
    &&& forall|k: int| 0 <= k < capture.len() - 1 ==> #[trigger] captures_join(capture, at, k)
}

pub open spec fn captures_join(capture: Seq<(u64, StreamRef)>, at: Seq<int>, k: int) -> bool {
    at[k + 1] == at[k] + capture[k].1.len()
}

/// `w` holds the next states of live registers `64k..64k+64`.
pub open spec fn next_states(tape: Compiled, live: Seq<usize>, env: Env, k: int, w: u64) -> bool {
    forall|j: int|
        64 * k <= j < 64 * k + 64 && j < live.len() ==> wbit(w, j - 64 * k) == tape.value(
            env,
            tape.reg_in_slots@[#[trigger] live[j] as int] as int,
        )
}

/// Capture program `k` yields next states once everything is settled.
pub open spec fn capture_right(
    ctx: Ctx,
    tasks: Seq<Task>,
    live: Seq<usize>,
    capture: Seq<(u64, StreamRef)>,
    segs: Seq<Seg>,
    at: Seq<int>,
    k: int,
) -> bool {
    &&& captures_word(ctx.tape, live, ctx.pos, ctx.cval, segs, at[k], capture[k], k)
    &&& forall|env: Env, bits: Seq<u64>, w: u64|
        bits.len() == ctx.words && #[trigger] held(
            ctx.tape,
            ctx.pos,
            tasks,
            tasks.len() as int,
            bits,
            env,
        ) && #[trigger] gathers(
            bits,
            segs.subrange(at[k], at[k] + capture[k].1.len()),
            capture[k].1.funnels as int,
            capture[k].0,
            w,
        ) ==> next_states(ctx.tape, live, env, k, w)
}

/// Tapes of moderate size can be packed.
pub proof fn small_tapes_are_packable(tape: Compiled)
    requires
        tape.wf(),
        tape.n() <= PACK_LIMIT,
    ensures
        packable(tape),
{
    let f = found(tape);
    let live = live_regs(tape, tape.reg_out_slots@.len() as int);
    found_chains_are_sound(tape);
    crate::layout::lemma_chains_few(tape, f);
    crate::layout::lemma_block_total(tape, f, first_word(tape), total_blocks(tape));
    lemma_live_ok(tape, tape.reg_out_slots@.len() as int);
    lemma_source_counts(tape, live);
}

/// Circuits of moderate size can be packed.
pub proof fn small_circuits_are_packable(net: Netlist)
    requires
        net.nodes.len() <= PACK_LIMIT,
    ensures
        fits_arena(net),
{
    assert forall|tape: Compiled| tape.wf() && #[trigger] lowered(net, tape) implies packable(tape) by {
        let l = choose|l: Lowering| is_lowering(net, l, tape);
        assert(l.origin.no_duplicates()) by {
            assert forall|s: int, t: int|
                0 <= s < l.origin.len() && 0 <= t < l.origin.len() && s != t implies l.origin[s]
                != l.origin[t] by {
                assert(s < t ==> slot_before(net, l.level, l.origin[s], l.origin[t]));
                assert(t < s ==> slot_before(net, l.level, l.origin[t], l.origin[s]));
            }
        }
        assert forall|s: int| 0 <= s < l.origin.len() implies 0 <= #[trigger] l.origin[s] < net.nodes.len() by {
            assert(slot_from(net, l, tape, s));
        }
        crate::kahn::lemma_bounded(l.origin, net.nodes.len() as int);
        small_tapes_are_packable(tape);
    }
}

/// Whether a tape can be packed.
pub fn can_pack(tape: &Compiled) -> (yes: bool)
    requires
        tape.wf(),
    ensures
        yes == packable(*tape),
{
    let (chains, fused) = find_chains(tape);
    let ghost f = found(*tape);
    proof {
        found_chains_are_sound(*tape);
        crate::layout::lemma_chains_few(*tape, f);
    }
    let live = live_registers(tape);
    proof {
        lemma_source_counts(*tape, live@);
    }
    let blocks = make_blocks(tape, &chains, &fused);
    let mut end: u64 = (count_words(tape.input_slots.len()) + count_words(live.len())) as u64;
    let ghost first = first_word(*tape);
    for k in 0..blocks.len()
        invariant
            tape.wf(),
            f == found(*tape),
            crate::fusion::all_chains_sound(*tape, f),
            8 * f.chains.len() <= tape.n(),
            first <= tape.gate_start + 2,
            first == first_word(*tape),
            blocks@.len() == block_count(*tape, f),
            forall|k: int| 0 <= k < blocks@.len() ==> (#[trigger] blocks@[k])@ == block_slots(*tape, f, k),
            end == block_word(*tape, f, first, k as int),
    {
        proof {
            crate::layout::lemma_block_range(*tape, f, k as int);
            crate::layout::lemma_block_total(*tape, f, first, k as int);
            if k < tape.runs@.len() {
                crate::scalar::lemma_run_bounds(*tape, k as int);
            }
            assert(blocks@[k as int]@ == block_slots(*tape, f, k as int));
        }
        end = end + (blocks[k].len() as u64 + 63) / 64;
    }
    proof {
        crate::layout::lemma_block_total(*tape, f, first, block_count(*tape, f));
    }
    64 * (end + 2) <= 0xffff_ffff
}

/// There are no more live registers than registers.
pub proof fn lemma_live_few(tape: Compiled, n: int)
    requires
        0 <= n,
    ensures
        live_regs(tape, n).len() <= n,
    decreases n,
{
    if n > 0 {
        lemma_live_few(tape, n - 1);
    }
}

/// The list of live registers lists them.
proof fn lemma_live_ok(tape: Compiled, n: int)
    requires
        tape.wf(),
        0 <= n <= tape.reg_out_slots@.len(),
    ensures
        forall|k: int|
            0 <= k < live_regs(tape, n).len() ==> (#[trigger] live_regs(tape, n)[k]) < n
                && tape.reg_out_slots@[live_regs(tape, n)[k] as int] != DEAD,
        forall|j: int, k: int|
            0 <= j < k < live_regs(tape, n).len() ==> #[trigger] live_regs(tape, n)[j]
                < #[trigger] live_regs(tape, n)[k],
        forall|r: int|
            0 <= r < n && #[trigger] tape.reg_out_slots@[r] != DEAD ==> exists|k: int|
                0 <= k < live_regs(tape, n).len() && #[trigger] live_regs(tape, n)[k] == r,
    decreases n,
{
    if n > 0 {
        lemma_live_ok(tape, n - 1);
        let (before, after) = (live_regs(tape, n - 1), live_regs(tape, n));
        assert forall|r: int| 0 <= r < n && #[trigger] tape.reg_out_slots@[r] != DEAD implies exists|k: int|
            0 <= k < after.len() && #[trigger] after[k] == r by {
            if r < n - 1 {
                let k = choose|k: int| 0 <= k < before.len() && #[trigger] before[k] == r;
                assert(after[k] == r);
            } else {
                assert(after[before.len() as int] == r);
            }
        }
    }
}

/// Every carry chain of the tape is one addition: its sums stand side by
/// side in the word that one add writes, and the carry-out behind them.
pub proof fn chains_become_additions(plan: Plan, c: int) -> (t: int)
    requires
        plan.tape@.wf(),
        plan.packs(),
        0 <= c < found(plan.tape@).chains.len(),
    ensures
        0 <= t < plan.tasks@.len(),
        plan.tasks@[t].op == TaskOp::Add,
        ({
            let links = found(plan.tape@).chains[c].links;
            &&& forall|i: int|
                0 <= i < links.len() && (#[trigger] links[i]).sum != NIL ==> plan.pos@[links[i].sum as int]
                    == 64 * plan.tasks@[t].dst + i
            &&& plan.pos@[links.last().carry as int] == 64 * plan.tasks@[t].dst + links.len()
        }),
{
    let tape = plan.tape@;
    let f = found(tape);
    let k = tape.runs@.len() + 3 * c;
    let ch = f.chains[c];
    found_chains_are_sound(tape);
    assert(crate::fusion::chain_sound(tape, ch));
    assert((k - tape.runs@.len()) / 3 == c && (k - tape.runs@.len()) % 3 == 0);
    let slots = block_slots(tape, f, k);
    assert(slots == crate::layout::sum_slots(ch));
    assert(block_placed(plan.pos@, slots, home(tape, k)));
    assert(plan.is_settled(k, 0));
    let t = choose|t: int| 0 <= t < plan.tasks@.len() && #[trigger] plan.settles(t, k, 0);
    assert forall|i: int| 0 <= i < ch.links.len() && (#[trigger] ch.links[i]).sum != NIL implies plan.pos@[ch.links[i].sum as int]
        == 64 * plan.tasks@[t].dst + i by {
        assert(slots[i] == ch.links[i].sum);
    }
    let last = ch.links.len() as int;
    assert(crate::fuse::link_sound(tape, ch.links[last - 1]));
    assert(slots[last] == ch.links.last().carry);
    t
}

/// The gates of a run that no chain claims are packed 64 to a word: gate `i`
/// of them stands at bit `i` from a word boundary, in the word that one task
/// of the run's kind writes.
pub proof fn runs_are_packed(plan: Plan, k: int, i: int) -> (t: int)
    requires
        plan.tape@.wf(),
        plan.packs(),
        0 <= k < plan.tape@.runs@.len(),
        0 <= i < block_slots(plan.tape@, found(plan.tape@), k).len(),
    ensures
        0 <= t < plan.tasks@.len(),
        plan.tasks@[t].op == TaskOp::Gate(plan.tape@.runs@[k].op),
        plan.tasks@[t].dst == home(plan.tape@, k) + i / 64,
        plan.pos@[block_slots(plan.tape@, found(plan.tape@), k)[i] as int] == 64 * home(plan.tape@, k) + i,
{
    let tape = plan.tape@;
    let f = found(tape);
    found_chains_are_sound(tape);
    let slots = block_slots(tape, f, k);
    assert(block_placed(plan.pos@, slots, home(tape, k)));
    crate::layout::lemma_block_range(tape, f, k);
    crate::scalar::lemma_run_bounds(tape, k);
    crate::layout::lemma_unclaimed(f.used, tape.runs@[k].start as int, tape.runs@[k].end as int, i);
    assert(slots[i] != NIL);
    assert(plan.is_settled(k, i / 64));
    choose|t: int| 0 <= t < plan.tasks@.len() && #[trigger] plan.settles(t, k, i / 64)
}

} // verus!
