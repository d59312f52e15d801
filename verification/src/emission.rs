//! The tasks of a plan, in execution order.
//!
//! Every 64-gate window of every run becomes a task, level by level. A chain
//! runs right before the windows of its `ready` level: by then all of its
//! operands have settled, and everything that reads a chain output lives at
//! a higher level than the output, which is at `ready` or above.
use vstd::prelude::*;

use crate::adding::lemma_add_settles_chain;
use crate::compile::{arity, level_joins, level_ok, run_ok, run_pos, Compiled, Op};
use crate::fuse::{
    chain_values, in_link, in_links, link_sound, observed, ready_level, shown, NIL, Chain,
    ChainView, Found,
};
use crate::fusion::{
    all_chains_sound, carry_into, chain_is_an_adder, chain_sound, link_is_a_full_adder,
    operands_settle_first, p_bits, q_bits, sum_bits, what_escapes_is_shown,
};
use crate::gather::{
    bit_at, gather_bit, plan_stream, segs_in, stream_bit, wbit, window_ok, NOT_CONST, Seg,
};
use crate::layout::{
    block_count, block_placed, block_slots, g_slots, lemma_block_range, lemma_unclaimed_has,
    pxq_slots, sum_slots,
};
use crate::netlist::{gate_arity, Env};
use crate::plan::{
    block_op, block_window, combine, cval_ok, dsts_distinct, held, lemma_combine_bits, made,
    reads_stream, settles_word, slot_const, stream_segs, stream_start, stream_yields, task_joins,
    task_len, task_sound, task_yields, tasks_tile, word_right, words_for, Task, TaskOp,
};
use crate::scalar::{lemma_gate_slot, lemma_run_bounds};

verus! {

/// What emission works from.
pub struct Ctx {
    pub tape: Compiled,
    pub f: Found,
    pub cval: Seq<u8>,
    pub pos: Seq<u32>,
    /// First word of each block.
    pub word: Seq<u32>,
    /// First word behind the register region.
    pub first: int,
    /// Arena size.
    pub words: int,
}

/// How many words block `k` occupies.
pub open spec fn chunks(ctx: Ctx, k: int) -> int {
    words_for(block_slots(ctx.tape, ctx.f, k).len() as int)
}

pub open spec fn ctx_ok(ctx: Ctx) -> bool {
    let n = ctx.tape.n();
    &&& ctx.tape.wf()
    &&& all_chains_sound(ctx.tape, ctx.f)
    &&& cval_ok(ctx.tape, ctx.cval)
    &&& ctx.pos.len() == n
    &&& 0 <= ctx.first
    &&& 64 * ctx.words + 64 <= u32::MAX
    &&& ctx.word.len() == block_count(ctx.tape, ctx.f)
    &&& forall|k: int|
        0 <= k < ctx.word.len() ==> ctx.first <= #[trigger] ctx.word[k] && ctx.word[k] + chunks(ctx, k)
            <= ctx.words - 1
    &&& forall|k: int, l: int|
        0 <= k < l < ctx.word.len() ==> (#[trigger] ctx.word[k]) + chunks(ctx, k) <= #[trigger] ctx.word[l]
    &&& forall|k: int|
        0 <= k < ctx.word.len() ==> block_placed(
            ctx.pos,
            block_slots(ctx.tape, ctx.f, k),
            #[trigger] ctx.word[k] as int,
        )
    &&& forall|x: int|
        ctx.tape.gate_start <= x < n && #[trigger] ctx.pos[x] != NIL ==> exists|k: int|
            0 <= k < ctx.word.len() && #[trigger] block_slots(ctx.tape, ctx.f, k).contains(x as u32)
    &&& forall|s: int|
        0 <= s < ctx.tape.gate_start && #[trigger] ctx.cval[s] == NOT_CONST ==> ctx.pos[s] != NIL
    &&& forall|x: int| 0 <= x < n && #[trigger] ctx.pos[x] != NIL ==> ctx.pos[x] < 64 * (ctx.words - 1)
}

/// The slots in word `c` of block `k` are its slots `64c..64c+64`.
proof fn lemma_word_content(ctx: Ctx, k: int, c: int, x: int)
    requires
        ctx_ok(ctx),
        0 <= k < ctx.word.len(),
        0 <= c < chunks(ctx, k),
        ctx.tape.gate_start <= x < ctx.tape.n(),
        ctx.pos[x] != NIL,
        ctx.pos[x] as int / 64 == ctx.word[k] + c,
    ensures
        0 <= 64 * c + ctx.pos[x] as int % 64 < block_slots(ctx.tape, ctx.f, k).len(),
        block_slots(ctx.tape, ctx.f, k)[64 * c + ctx.pos[x] as int % 64] == x,
{
    let l = choose|l: int|
        0 <= l < ctx.word.len() && #[trigger] block_slots(ctx.tape, ctx.f, l).contains(x as u32);
    let slots = block_slots(ctx.tape, ctx.f, l);
    let i = choose|i: int| 0 <= i < slots.len() && slots[i] == x as u32;
    assert(block_placed(ctx.pos, slots, ctx.word[l] as int));
    assert(slots[i] != NIL);
    assert(ctx.pos[x] == 64 * ctx.word[l] + i);
    assert(ctx.pos[x] as int / 64 == ctx.word[l] + i / 64);
    assert(i / 64 < chunks(ctx, l));
    if l < k {
        assert(ctx.word[l] + chunks(ctx, l) <= ctx.word[k]);
    } else if k < l {
        assert(ctx.word[k] + chunks(ctx, k) <= ctx.word[l]);
    }
}

/// Two words of blocks coincide only where block and word agree.
proof fn lemma_words_apart(ctx: Ctx, k: int, c: int, l: int, d: int)
    requires
        ctx_ok(ctx),
        0 <= k < ctx.word.len(),
        0 <= c < chunks(ctx, k),
        0 <= l < ctx.word.len(),
        0 <= d < chunks(ctx, l),
        ctx.word[k] + c == ctx.word[l] + d,
    ensures
        k == l,
        c == d,
{
    if l < k {
        assert(ctx.word[l] + chunks(ctx, l) <= ctx.word[k]);
    } else if k < l {
        assert(ctx.word[k] + chunks(ctx, k) <= ctx.word[l]);
    }
}

/// Tasks and segments under construction.
pub struct Emit {
    pub tasks: Vec<Task>,
    pub segs: Vec<Seg>,
    /// How many words of each block are written.
    pub prog: Ghost<Seq<int>>,
}

/// Exactly the first words of each block are written, as `prog` says.
pub open spec fn progress(ctx: Ctx, tasks: Seq<Task>, prog: Seq<int>) -> bool {
    &&& prog.len() == ctx.word.len()
    &&& forall|k: int| 0 <= k < prog.len() ==> 0 <= #[trigger] prog[k] <= chunks(ctx, k)
    &&& forall|k: int, c: int|
        0 <= k < prog.len() && 0 <= c < chunks(ctx, k) ==> (#[trigger] word_made(ctx, tasks, k, c) <==> c
            < prog[k])
}

/// Word `c` of block `k` is written.
pub open spec fn word_made(ctx: Ctx, tasks: Seq<Task>, k: int, c: int) -> bool {
    made(tasks, tasks.len() as int, ctx.word[k] + c)
}

impl Emit {
    pub open spec fn ok(&self, ctx: Ctx) -> bool {
        &&& tasks_tile(self.tasks@, self.segs@)
        &&& segs_in(self.segs@, ctx.words)
        &&& dsts_distinct(self.tasks@)
        &&& forall|t: int|
            0 <= t < self.tasks@.len() ==> ctx.first <= (#[trigger] self.tasks@[t]).dst < ctx.words - 1
        &&& forall|t: int|
            0 <= t < self.tasks@.len() ==> #[trigger] task_sound(
                ctx.tape,
                ctx.pos,
                ctx.words,
                self.tasks@,
                self.segs@,
                t,
            )
        &&& progress(ctx, self.tasks@, self.prog@)
        &&& forall|t: int|
            0 <= t < self.tasks@.len() ==> known_task(ctx, self.segs@, #[trigger] self.tasks@[t])
    }
}

/// The task writes word `c` of block `k`.
pub open spec fn task_at(ctx: Ctx, segs: Seq<Seg>, task: Task, k: int, c: int) -> bool {
    &&& settles_word(ctx.tape, ctx.f, ctx.pos, ctx.cval, segs, task, k, c)
    &&& task.dst == ctx.word[k] + c
}

/// The task writes a word of a block.
pub open spec fn known_task(ctx: Ctx, segs: Seq<Seg>, task: Task) -> bool {
    exists|k: int, c: int| #[trigger] task_at(ctx, segs, task, k, c)
}

/// More segments behind a task's own leave its streams alone.
proof fn lemma_known_stable(ctx: Ctx, segs: Seq<Seg>, more: Seq<Seg>, task: Task)
    requires
        known_task(ctx, segs, task),
        0 <= task.at@,
        task.at@ + task_len(task) <= segs.len() <= more.len(),
        more.take(segs.len() as int) == segs,
    ensures
        known_task(ctx, more, task),
{
    let (k, c) = choose|k: int, c: int| #[trigger] task_at(ctx, segs, task, k, c);
    assert forall|q: int| 0 <= q < 3 implies #[trigger] stream_segs(more, task, q) == stream_segs(
        segs,
        task,
        q,
    ) by {
        assert forall|i: int|
            stream_start(task, q) <= i < stream_start(task, q) + task.streams[q].len() implies more[i]
            == segs[i] by {
            assert(more.take(segs.len() as int)[i] == segs[i]);
        }
        assert(stream_segs(more, task, q) =~= stream_segs(segs, task, q));
    }
    assert(stream_segs(more, task, 0) == stream_segs(segs, task, 0));
    assert(stream_segs(more, task, 1) == stream_segs(segs, task, 1));
    assert(stream_segs(more, task, 2) == stream_segs(segs, task, 2));
    assert(task_at(ctx, more, task, k, c));
}

/// When all is done, every word of every block has its task.
pub proof fn lemma_word_settled(ctx: Ctx, e: Emit, k: int, c: int) -> (t: int)
    requires
        ctx_ok(ctx),
        e.ok(ctx),
        runs_done(ctx, e.prog@, ctx.tape.runs@.len() as int),
        chains_done(ctx, e.prog@, ctx.tape.levels@.len() as int),
        0 <= k < block_count(ctx.tape, ctx.f),
        0 <= c < chunks(ctx, k),
    ensures
        0 <= t < e.tasks@.len(),
        task_at(ctx, e.segs@, e.tasks@[t], k, c),
{
    let runs = ctx.tape.runs@.len() as int;
    assert(e.prog@[k] == chunks(ctx, k)) by {
        if k >= runs {
            let d = (k - runs) / 3;
            assert(chain_sound(ctx.tape, ctx.f.chains[d]));
            lemma_ready_fits(ctx.tape, ctx.f.chains[d]);
            assert(chain_done(ctx, e.prog@, d));
        }
    }
    assert(word_made(ctx, e.tasks@, k, c));
    let t = choose|t: int|
        0 <= t < e.tasks@.len() && (#[trigger] e.tasks@[t]).dst == ctx.word[k] + c;
    assert(known_task(ctx, e.segs@, e.tasks@[t]));
    let (l, d) = choose|l: int, d: int| #[trigger] task_at(ctx, e.segs@, e.tasks@[t], l, d);
    lemma_words_apart(ctx, k, c, l, d);
    t
}

/// The word is spelled by the stream of a window.
pub open spec fn spelled(ctx: Ctx, bits: Seq<u64>, window: Seq<u32>, w: u64) -> bool {
    forall|i: int|
        0 <= i < 64 ==> #[trigger] wbit(w, i) == stream_bit(bits, ctx.pos, ctx.cval, window, i)
}

/// What a task over three windows computes.
pub open spec fn means(
    ctx: Ctx,
    bits: Seq<u64>,
    op: TaskOp,
    wa: Seq<u32>,
    wb: Seq<u32>,
    wc: Seq<u32>,
    w: u64,
) -> bool {
    exists|a: u64, b: u64, c: u64|
        #![trigger combine(op, a, b, c)]
        w == combine(op, a, b, c) && spelled(ctx, bits, wa, a) && (reads_stream(op, 1) ==> spelled(
            ctx,
            bits,
            wb,
            b,
        )) && (reads_stream(op, 2) ==> spelled(ctx, bits, wc, c))
}

proof fn lemma_made_push(tasks: Seq<Task>, task: Task, t: int, w: int)
    requires
        0 <= t <= tasks.len(),
    ensures
        made(tasks.push(task), t, w) == made(tasks, t, w),
        made(tasks.push(task), tasks.len() as int + 1, w) == (made(tasks, tasks.len() as int, w) || task.dst == w),
{
    let more = tasks.push(task);
    if made(tasks, t, w) {
        let j = choose|j: int| 0 <= j < t && (#[trigger] tasks[j]).dst == w;
        assert(more[j] == tasks[j]);
    }
    if made(more, t, w) {
        let j = choose|j: int| 0 <= j < t && (#[trigger] more[j]).dst == w;
        assert(more[j] == tasks[j]);
    }
    if made(tasks, tasks.len() as int, w) {
        let j = choose|j: int| 0 <= j < tasks.len() && (#[trigger] tasks[j]).dst == w;
        assert(more[j] == tasks[j]);
    }
    if task.dst == w {
        assert(more[tasks.len() as int].dst == w);
    }
    if made(more, tasks.len() as int + 1, w) && task.dst != w {
        let j = choose|j: int| 0 <= j < more.len() && (#[trigger] more[j]).dst == w;
        assert(more[j] == tasks[j]);
    }
}

proof fn lemma_held_push(
    tape: Compiled,
    pos: Seq<u32>,
    tasks: Seq<Task>,
    task: Task,
    t: int,
    bits: Seq<u64>,
    env: Env,
)
    requires
        0 <= t <= tasks.len(),
    ensures
        held(tape, pos, tasks.push(task), t, bits, env) == held(tape, pos, tasks, t, bits, env),
{
    assert forall|w: int| #[trigger] made(tasks.push(task), t, w) == made(tasks, t, w) by {
        lemma_made_push(tasks, task, t, w);
    }
    if held(tape, pos, tasks, t, bits, env) {
        assert forall|x: int|
            0 <= x < tape.n() && #[trigger] pos[x] != NIL && (x < tape.gate_start || made(
                tasks.push(task),
                t,
                pos[x] as int / 64,
            )) implies bit_at(bits, pos[x] as int) == tape.value(env, x) by {
            assert(made(tasks.push(task), t, pos[x] as int / 64) == made(tasks, t, pos[x] as int / 64));
        }
    }
    if held(tape, pos, tasks.push(task), t, bits, env) {
        assert forall|x: int|
            0 <= x < tape.n() && #[trigger] pos[x] != NIL && (x < tape.gate_start || made(
                tasks,
                t,
                pos[x] as int / 64,
            )) implies bit_at(bits, pos[x] as int) == tape.value(env, x) by {
            assert(made(tasks.push(task), t, pos[x] as int / 64) == made(tasks, t, pos[x] as int / 64));
        }
    }
}

/// More segments behind a task's own do not change what it yields.
proof fn lemma_yields_stable(bits: Seq<u64>, segs: Seq<Seg>, more: Seq<Seg>, task: Task, w: u64)
    requires
        0 <= task.at@,
        task.at@ + task_len(task) <= segs.len() <= more.len(),
        more.take(segs.len() as int) == segs,
    ensures
        task_yields(bits, more, task, w) == task_yields(bits, segs, task, w),
{
    assert forall|k: int| 0 <= k < 3 implies #[trigger] stream_segs(more, task, k) == stream_segs(
        segs,
        task,
        k,
    ) by {
        assert forall|i: int|
            stream_start(task, k) <= i < stream_start(task, k) + task.streams[k].len() implies more[i] == segs[i] by {
            assert(more.take(segs.len() as int)[i] == segs[i]);
        }
        assert(stream_segs(more, task, k) =~= stream_segs(segs, task, k));
    }
    assert(stream_segs(more, task, 0) == stream_segs(segs, task, 0));
    assert(stream_segs(more, task, 1) == stream_segs(segs, task, 1));
    assert(stream_segs(more, task, 2) == stream_segs(segs, task, 2));
    if task_yields(bits, segs, task, w) {
        let (a, b, c) = choose|a: u64, b: u64, c: u64|
            #![trigger combine(task.op, a, b, c)]
            w == combine(task.op, a, b, c) && stream_yields(bits, segs, task, 0, a) && (reads_stream(
                task.op,
                1,
            ) ==> stream_yields(bits, segs, task, 1, b)) && (reads_stream(task.op, 2) ==> stream_yields(
                bits,
                segs,
                task,
                2,
                c,
            ));
        assert(stream_yields(bits, more, task, 0, a));
        assert(w == combine(task.op, a, b, c));
    }
    if task_yields(bits, more, task, w) {
        let (a, b, c) = choose|a: u64, b: u64, c: u64|
            #![trigger combine(task.op, a, b, c)]
            w == combine(task.op, a, b, c) && stream_yields(bits, more, task, 0, a) && (reads_stream(
                task.op,
                1,
            ) ==> stream_yields(bits, more, task, 1, b)) && (reads_stream(task.op, 2) ==> stream_yields(
                bits,
                more,
                task,
                2,
                c,
            ));
        assert(stream_yields(bits, segs, task, 0, a));
        assert(w == combine(task.op, a, b, c));
    }
}

/// Earlier tasks stay sound when one is added.
proof fn lemma_sound_stable(ctx: Ctx, tasks: Seq<Task>, segs: Seq<Seg>, task: Task, more: Seq<Seg>, t: int)
    requires
        0 <= t < tasks.len(),
        task_sound(ctx.tape, ctx.pos, ctx.words, tasks, segs, t),
        0 <= tasks[t].at@,
        tasks[t].at@ + task_len(tasks[t]) <= segs.len() <= more.len(),
        more.take(segs.len() as int) == segs,
    ensures
        task_sound(ctx.tape, ctx.pos, ctx.words, tasks.push(task), more, t),
{
    let all = tasks.push(task);
    assert forall|env: Env, bits: Seq<u64>, w: u64|
        bits.len() == ctx.words && #[trigger] held(ctx.tape, ctx.pos, all, t, bits, env)
            && #[trigger] task_yields(bits, more, all[t], w) implies word_right(
        ctx.tape,
        ctx.pos,
        env,
        all[t].dst as int,
        w,
    ) by {
        lemma_held_push(ctx.tape, ctx.pos, tasks, task, t, bits, env);
        lemma_yields_stable(bits, segs, more, tasks[t], w);
        assert(held(ctx.tape, ctx.pos, tasks, t, bits, env));
        assert(task_yields(bits, segs, tasks[t], w));
    }
}

/// Streams that gather their windows make the task mean what it says.
proof fn lemma_means(
    ctx: Ctx,
    bits: Seq<u64>,
    segs: Seq<Seg>,
    task: Task,
    wa: Seq<u32>,
    wb: Seq<u32>,
    wc: Seq<u32>,
    w: u64,
)
    requires
        forall|i: int|
            0 <= i < 64 ==> #[trigger] gather_bit(
                bits,
                stream_segs(segs, task, 0),
                task.streams[0].funnels as int,
                task.imm[0],
                i,
            ) == stream_bit(bits, ctx.pos, ctx.cval, wa, i),
        forall|i: int|
            0 <= i < 64 ==> #[trigger] gather_bit(
                bits,
                stream_segs(segs, task, 1),
                task.streams[1].funnels as int,
                task.imm[1],
                i,
            ) == stream_bit(bits, ctx.pos, ctx.cval, wb, i),
        forall|i: int|
            0 <= i < 64 ==> #[trigger] gather_bit(
                bits,
                stream_segs(segs, task, 2),
                task.streams[2].funnels as int,
                task.imm[2],
                i,
            ) == stream_bit(bits, ctx.pos, ctx.cval, wc, i),
        task_yields(bits, segs, task, w),
    ensures
        means(ctx, bits, task.op, wa, wb, wc, w),
{
    let (a, b, c) = choose|a: u64, b: u64, c: u64|
        #![trigger combine(task.op, a, b, c)]
        w == combine(task.op, a, b, c) && stream_yields(bits, segs, task, 0, a) && (reads_stream(task.op, 1)
            ==> stream_yields(bits, segs, task, 1, b)) && (reads_stream(task.op, 2) ==> stream_yields(
            bits,
            segs,
            task,
            2,
            c,
        ));
    assert(spelled(ctx, bits, wa, a));
    assert(reads_stream(task.op, 1) ==> spelled(ctx, bits, wb, b));
    assert(reads_stream(task.op, 2) ==> spelled(ctx, bits, wc, c));
    assert(w == combine(task.op, a, b, c));
}

/// A window of slots that are absent, constant or placed.
pub open spec fn window_fits(ctx: Ctx, window: Seq<u32>) -> bool {
    window_ok(ctx.pos, ctx.cval, window, 64 * (ctx.words - 1))
}

/// Append a task over three windows that writes word `prog[k]` of block `k`.
/// That the word comes out right is for the caller to show.
#[verifier::rlimit(60)]
fn push_task(
    ctx: Ghost<Ctx>,
    e: &mut Emit,
    pos: &Vec<u32>,
    cval: &Vec<u8>,
    op: TaskOp,
    dst: u32,
    wa: &Vec<u32>,
    wb: &Vec<u32>,
    wc: &Vec<u32>,
    k: Ghost<int>,
)
    requires
        ctx_ok(ctx@),
        old(e).ok(ctx@),
        pos@ == ctx@.pos,
        cval@ == ctx@.cval,
        window_fits(ctx@, wa@),
        window_fits(ctx@, wb@),
        window_fits(ctx@, wc@),
        0 <= k@ < ctx@.word.len(),
        old(e).prog@[k@] < chunks(ctx@, k@),
        op == block_op(ctx@.tape, k@),
        wa@ == block_window(ctx@.tape, ctx@.f, k@, old(e).prog@[k@], 0),
        wb@ == block_window(ctx@.tape, ctx@.f, k@, old(e).prog@[k@], 1),
        wc@ == block_window(ctx@.tape, ctx@.f, k@, old(e).prog@[k@], 2),
        dst == ctx@.word[k@] + old(e).prog@[k@],
        forall|env: Env, bits: Seq<u64>, w: u64|
            bits.len() == ctx@.words && #[trigger] held(
                ctx@.tape,
                ctx@.pos,
                old(e).tasks@,
                old(e).tasks@.len() as int,
                bits,
                env,
            ) && #[trigger] means(ctx@, bits, op, wa@, wb@, wc@, w) ==> word_right(
                ctx@.tape,
                ctx@.pos,
                env,
                dst as int,
                w,
            ),
    ensures
        final(e).ok(ctx@),
        final(e).prog@ == old(e).prog@.update(k@, old(e).prog@[k@] + 1),
        final(e).tasks@.len() == old(e).tasks@.len() + 1,
        final(e).tasks@.drop_last() == old(e).tasks@,
{
    let ghost tasks0 = e.tasks@;
    let ghost segs0 = e.segs@;
    proof {
        assert forall|s: int| 0 <= s < cval@.len() implies #[trigger] cval@[s] <= 1 || cval@[s] == NOT_CONST by {
            assert(cval@[s] == slot_const(ctx@.tape, s));
        }
    }
    let (imm0, s0) = plan_stream(wa, pos, cval, &mut e.segs);
    let ghost segs1 = e.segs@;
    let (imm1, s1) = plan_stream(wb, pos, cval, &mut e.segs);
    let ghost segs2 = e.segs@;
    let (imm2, s2) = plan_stream(wc, pos, cval, &mut e.segs);
    let ghost segs3 = e.segs@;
    let ghost at = segs0.len() as int;
    let task = Task {
        op,
        dst,
        streams: [s0, s1, s2],
        imm: [imm0, imm1, imm2],
        at: Ghost(at),
    };
    e.tasks.push(task);
    e.prog = Ghost(e.prog@.update(k@, e.prog@[k@] + 1));
    proof {
        assert(segs3.take(segs0.len() as int) =~= segs0) by {
            assert forall|i: int| 0 <= i < segs0.len() implies segs3[i] == segs0[i] by {
                assert(segs3.take(segs2.len() as int)[i] == segs2[i]);
                assert(segs2.take(segs1.len() as int)[i] == segs1[i]);
                assert(segs1.take(segs0.len() as int)[i] == segs0[i]);
            }
        }
        assert(stream_segs(segs3, task, 0) =~= segs1.skip(segs0.len() as int)) by {
            assert forall|i: int| 0 <= i < s0.len() implies stream_segs(segs3, task, 0)[i] == segs1.skip(
                segs0.len() as int,
            )[i] by {
                assert(segs3.take(segs2.len() as int)[at + i] == segs2[at + i]);
                assert(segs2.take(segs1.len() as int)[at + i] == segs1[at + i]);
            }
        }
        assert(stream_segs(segs3, task, 1) =~= segs2.skip(segs1.len() as int)) by {
            assert forall|i: int| 0 <= i < s1.len() implies stream_segs(segs3, task, 1)[i] == segs2.skip(
                segs1.len() as int,
            )[i] by {
                assert(segs3.take(segs2.len() as int)[segs1.len() + i] == segs2[segs1.len() + i]);
            }
        }
        assert(stream_segs(segs3, task, 2) =~= segs3.skip(segs2.len() as int));
        let t = tasks0.len() as int;
        assert forall|j: int| 0 <= j < e.tasks@.len() implies known_task(
            ctx@,
            e.segs@,
            #[trigger] e.tasks@[j],
        ) by {
            if j < t {
                assert(e.tasks@[j] == tasks0[j]);
                assert(known_task(ctx@, segs0, tasks0[j]));
                lemma_known_stable(ctx@, segs0, segs3, tasks0[j]);
            } else {
                assert(task_at(ctx@, segs3, task, k@, old(e).prog@[k@]));
            }
        }
        assert forall|j: int| 0 <= j < e.tasks@.len() implies #[trigger] task_sound(
            ctx@.tape,
            ctx@.pos,
            ctx@.words,
            e.tasks@,
            e.segs@,
            j,
        ) by {
            if j < t {
                lemma_sound_stable(ctx@, tasks0, segs0, task, segs3, j);
            } else {
                assert forall|env: Env, bits: Seq<u64>, w: u64|
                    bits.len() == ctx@.words && #[trigger] held(
                        ctx@.tape,
                        ctx@.pos,
                        e.tasks@,
                        t,
                        bits,
                        env,
                    ) && #[trigger] task_yields(bits, segs3, e.tasks@[t], w) implies word_right(
                    ctx@.tape,
                    ctx@.pos,
                    env,
                    e.tasks@[t].dst as int,
                    w,
                ) by {
                    lemma_held_push(ctx@.tape, ctx@.pos, tasks0, task, t, bits, env);
                    lemma_means(ctx@, bits, segs3, task, wa@, wb@, wc@, w);
                    assert(held(ctx@.tape, ctx@.pos, tasks0, t, bits, env));
                    assert(means(ctx@, bits, op, wa@, wb@, wc@, w));
                }
            }
        }
        assert(e.tasks@.drop_last() =~= tasks0);
        assert(word_made(ctx@, tasks0, k@, old(e).prog@[k@]) == false);
        assert forall|l: int, c: int|
            0 <= l < e.prog@.len() && 0 <= c < chunks(ctx@, l) implies (#[trigger] word_made(
            ctx@,
            e.tasks@,
            l,
            c,
        ) <==> c < e.prog@[l]) by {
            lemma_made_push(tasks0, task, t, ctx@.word[l] + c);
            assert(word_made(ctx@, tasks0, l, c) <==> c < old(e).prog@[l]);
            if dst == ctx@.word[l] + c {
                lemma_words_apart(ctx@, k@, old(e).prog@[k@], l, c);
            }
        }
        assert(dsts_distinct(e.tasks@)) by {
            assert forall|i: int, j: int| 0 <= i < j < e.tasks@.len() implies (#[trigger] e.tasks@[i]).dst != (
            #[trigger] e.tasks@[j]).dst by {
                if j == t && tasks0[i].dst == dst {
                    assert(made(tasks0, t, dst as int));
                }
            }
        }
        assert(tasks_tile(e.tasks@, e.segs@)) by {
            assert forall|j: int| 0 <= j < e.tasks@.len() - 1 implies #[trigger] task_joins(e.tasks@, j) by {
                if j < t - 1 {
                    assert(task_joins(tasks0, j));
                }
            }
            assert forall|j: int| 0 <= j < e.tasks@.len() implies 0 <= (#[trigger] e.tasks@[j]).at@
                && e.tasks@[j].at@ + task_len(e.tasks@[j]) <= e.segs@.len() by {
                if j < t {
                    assert(e.tasks@[j] == tasks0[j]);
                }
            }
        }
        assert(segs_in(e.segs@, ctx@.words)) by {
            assert forall|j: int| 0 <= j < e.segs@.len() implies (#[trigger] e.segs@[j]).src < (ctx@.words - 1) * 64
                && e.segs@[j].shift < 64 by {
                if j < segs0.len() {
                    assert(segs3.take(segs0.len() as int)[j] == segs0[j]);
                } else if j < segs1.len() {
                    assert(segs3.take(segs2.len() as int)[j] == segs2[j]);
                    assert(segs2.take(segs1.len() as int)[j] == segs1[j]);
                } else if j < segs2.len() {
                    assert(segs3.take(segs2.len() as int)[j] == segs2[j]);
                }
            }
        }
    }
}

/// The slot is a constant, or has a place and is settled by now.
pub open spec fn avail(ctx: Ctx, tasks: Seq<Task>, x: int) -> bool {
    &&& 0 <= x < ctx.tape.n()
    &&& ctx.cval[x] != NOT_CONST || (ctx.pos[x] != NIL && (x < ctx.tape.gate_start || made(
        tasks,
        tasks.len() as int,
        ctx.pos[x] as int / 64,
    )))
}

/// Every slot of the window is absent or available.
pub open spec fn window_avail(ctx: Ctx, tasks: Seq<Task>, window: Seq<u32>) -> bool {
    &&& window.len() <= 64
    &&& forall|i: int|
        0 <= i < window.len() && #[trigger] window[i] != NIL ==> avail(ctx, tasks, window[i] as int)
}

pub proof fn lemma_window_fits(ctx: Ctx, tasks: Seq<Task>, window: Seq<u32>)
    requires
        ctx_ok(ctx),
        window_avail(ctx, tasks, window),
    ensures
        window_fits(ctx, window),
{
    assert forall|i: int| 0 <= i < window.len() && #[trigger] window[i] != NIL implies window[i] < ctx.pos.len()
        && (ctx.cval[window[i] as int] == NOT_CONST ==> ctx.pos[window[i] as int] < 64 * (ctx.words - 1)) by {
        assert(avail(ctx, tasks, window[i] as int));
    }
}

/// An available slot's stream bit is its value.
pub proof fn lemma_stream_value(
    ctx: Ctx,
    tasks: Seq<Task>,
    bits: Seq<u64>,
    env: Env,
    window: Seq<u32>,
    i: int,
)
    requires
        ctx_ok(ctx),
        held(ctx.tape, ctx.pos, tasks, tasks.len() as int, bits, env),
        window_avail(ctx, tasks, window),
        0 <= i < window.len(),
    ensures
        stream_bit(bits, ctx.pos, ctx.cval, window, i) == (window[i] != NIL && ctx.tape.value(
            env,
            window[i] as int,
        )),
{
    if window[i] != NIL {
        let x = window[i] as int;
        assert(avail(ctx, tasks, window[i] as int));
        assert(ctx.cval[x] == slot_const(ctx.tape, x));
        if ctx.cval[x] != NOT_CONST {
            assert(ctx.tape.net().nodes[x] == ctx.tape.slot_node(x));
        } else {
            assert(ctx.pos[x] != NIL);
        }
    }
}

/// The operand slots of a stretch of gates.
fn window_of(sel: &Vec<u32>, slots: &Vec<u32>, lo: usize, hi: usize) -> (window: Vec<u32>)
    requires
        lo <= hi <= slots@.len(),
        forall|i: int| lo <= i < hi ==> (#[trigger] slots@[i]) < sel@.len(),
    ensures
        window@.len() == hi - lo,
        forall|j: int| 0 <= j < hi - lo ==> #[trigger] window@[j] == sel@[slots@[lo + j] as int],
{
    let mut window: Vec<u32> = Vec::new();
    for i in lo..hi
        invariant
            lo <= hi <= slots@.len(),
            forall|i: int| lo <= i < hi ==> (#[trigger] slots@[i]) < sel@.len(),
            window@.len() == i - lo,
            forall|j: int| 0 <= j < i - lo ==> #[trigger] window@[j] == sel@[slots@[lo + j] as int],
    {
        window.push(sel[slots[i] as usize]);
    }
    window
}

/// A 64-gate window of a run comes out right.
proof fn lemma_run_word(
    ctx: Ctx,
    tasks: Seq<Task>,
    r: int,
    c: int,
    wa: Seq<u32>,
    wb: Seq<u32>,
    wc: Seq<u32>,
    env: Env,
    bits: Seq<u64>,
    w: u64,
)
    requires
        ctx_ok(ctx),
        0 <= r < ctx.tape.runs@.len(),
        0 <= c < chunks(ctx, r),
        held(ctx.tape, ctx.pos, tasks, tasks.len() as int, bits, env),
        means(ctx, bits, TaskOp::Gate(ctx.tape.runs@[r].op), wa, wb, wc, w),
        window_avail(ctx, tasks, wa),
        window_avail(ctx, tasks, wb),
        window_avail(ctx, tasks, wc),
        forall|j: int|
            0 <= j < 64 && 64 * c + j < block_slots(ctx.tape, ctx.f, r).len() ==> j < wa.len()
                && #[trigger] wa[j] == ctx.tape.a@[block_slots(ctx.tape, ctx.f, r)[64 * c + j] as int],
        gate_arity(ctx.tape.runs@[r].op) > 1 ==> forall|j: int|
            0 <= j < 64 && 64 * c + j < block_slots(ctx.tape, ctx.f, r).len() ==> j < wb.len()
                && #[trigger] wb[j] == ctx.tape.b@[block_slots(ctx.tape, ctx.f, r)[64 * c + j] as int],
        gate_arity(ctx.tape.runs@[r].op) > 2 ==> forall|j: int|
            0 <= j < 64 && 64 * c + j < block_slots(ctx.tape, ctx.f, r).len() ==> j < wc.len()
                && #[trigger] wc[j] == ctx.tape.c@[block_slots(ctx.tape, ctx.f, r)[64 * c + j] as int],
    ensures
        word_right(ctx.tape, ctx.pos, env, ctx.word[r] + c, w),
{
    let tape = ctx.tape;
    let op = tape.runs@[r].op;
    let slots = block_slots(tape, ctx.f, r);
    let (a, b, cc) = choose|a: u64, b: u64, cc: u64|
        #![trigger combine(TaskOp::Gate(op), a, b, cc)]
        w == combine(TaskOp::Gate(op), a, b, cc) && spelled(ctx, bits, wa, a) && (reads_stream(
            TaskOp::Gate(op),
            1,
        ) ==> spelled(ctx, bits, wb, b)) && (reads_stream(TaskOp::Gate(op), 2) ==> spelled(
            ctx,
            bits,
            wc,
            cc,
        ));
    assert forall|x: int|
        tape.gate_start <= x < tape.n() && #[trigger] ctx.pos[x] != NIL && ctx.pos[x] as int / 64 == ctx.word[r]
            + c implies wbit(w, ctx.pos[x] as int % 64) == tape.value(env, x) by {
        lemma_word_content(ctx, r, c, x);
        let j = ctx.pos[x] as int % 64;
        assert(slots[64 * c + j] == x);
        lemma_run_slot(tape, ctx.f, r, 64 * c + j);
        lemma_gate_slot(tape, env, x);
        assert(wa[j] == tape.a@[x]);
        lemma_combine_bits(op, a, b, cc, j);
        lemma_stream_value(ctx, tasks, bits, env, wa, j);
        assert(wbit(a, j) == stream_bit(bits, ctx.pos, ctx.cval, wa, j));
        if gate_arity(op) > 1 {
            assert(wb[j] == tape.b@[x]);
            lemma_stream_value(ctx, tasks, bits, env, wb, j);
            assert(wbit(b, j) == stream_bit(bits, ctx.pos, ctx.cval, wb, j));
        }
        if gate_arity(op) > 2 {
            assert(wc[j] == tape.c@[x]);
            lemma_stream_value(ctx, tasks, bits, env, wc, j);
            assert(wbit(cc, j) == stream_bit(bits, ctx.pos, ctx.cval, wc, j));
        }
    }
}

/// The slots of a run's block are its unclaimed gates.
proof fn lemma_run_slot(tape: Compiled, f: Found, r: int, i: int)
    requires
        tape.wf(),
        all_chains_sound(tape, f),
        0 <= r < tape.runs@.len(),
        0 <= i < block_slots(tape, f, r).len(),
    ensures
        tape.runs@[r].start <= block_slots(tape, f, r)[i] < tape.runs@[r].end,
        tape.gate_start <= block_slots(tape, f, r)[i] < tape.n(),
        tape.ops@[block_slots(tape, f, r)[i] as int] == tape.runs@[r].op,
        !f.used[block_slots(tape, f, r)[i] as int],
{
    lemma_run_bounds(tape, r);
    crate::layout::lemma_unclaimed(f.used, tape.runs@[r].start as int, tape.runs@[r].end as int, i);
}

/// Every gate of the run's block can be evaluated now.
spec fn run_ready(ctx: Ctx, tasks: Seq<Task>, r: int) -> bool {
    forall|i: int|
        0 <= i < block_slots(ctx.tape, ctx.f, r).len() ==> gate_ready(
            ctx,
            tasks,
            #[trigger] block_slots(ctx.tape, ctx.f, r)[i] as int,
        )
}

spec fn gate_ready(ctx: Ctx, tasks: Seq<Task>, x: int) -> bool {
    &&& avail(ctx, tasks, ctx.tape.a@[x] as int)
    &&& avail(ctx, tasks, ctx.tape.b@[x] as int)
    &&& avail(ctx, tasks, ctx.tape.c@[x] as int)
}

/// What is available stays available.
proof fn lemma_avail_grows(ctx: Ctx, tasks: Seq<Task>, more: Seq<Task>, x: int)
    requires
        avail(ctx, tasks, x),
        tasks.len() <= more.len(),
        more.take(tasks.len() as int) == tasks,
    ensures
        avail(ctx, more, x),
{
    if ctx.cval[x] == NOT_CONST && x >= ctx.tape.gate_start {
        let w = ctx.pos[x] as int / 64;
        let j = choose|j: int| 0 <= j < tasks.len() && (#[trigger] tasks[j]).dst == w;
        assert(more.take(tasks.len() as int)[j] == tasks[j]);
        assert(more[j].dst == w);
    }
}

/// Emit the windows of one run.
#[verifier::rlimit(60)]
fn emit_run(
    ctx: Ghost<Ctx>,
    e: &mut Emit,
    tape: &Compiled,
    pos: &Vec<u32>,
    cval: &Vec<u8>,
    r: usize,
    slots: &Vec<u32>,
    word: u32,
)
    requires
        ctx_ok(ctx@),
        ctx@.tape == *tape,
        old(e).ok(ctx@),
        pos@ == ctx@.pos,
        cval@ == ctx@.cval,
        r < tape.runs@.len(),
        slots@ == block_slots(*tape, ctx@.f, r as int),
        word == ctx@.word[r as int],
        old(e).prog@[r as int] == 0,
        run_ready(ctx@, old(e).tasks@, r as int),
    ensures
        final(e).ok(ctx@),
        final(e).prog@ == old(e).prog@.update(r as int, chunks(ctx@, r as int)),
{
    let op = tape.runs[r].op;
    let ar: usize = arity(op);
    let len: usize = slots.len();
    let mut lo: usize = 0;
    let mut dst: u32 = word;
    let ghost mut c: int = 0;
    proof {
        lemma_block_range(*tape, ctx@.f, r as int);
        assert(e.prog@ =~= old(e).prog@.update(r as int, 0));
    }
    while lo < len
        invariant
            ctx_ok(ctx@),
            ctx@.tape == *tape,
            e.ok(ctx@),
            pos@ == ctx@.pos,
            cval@ == ctx@.cval,
            r < tape.runs@.len(),
            r < ctx@.word.len(),
            old(e).prog@.len() == ctx@.word.len(),
            op == tape.runs@[r as int].op,
            ar == gate_arity(op),
            len == slots@.len(),
            len <= tape.n() + 64,
            slots@ == block_slots(*tape, ctx@.f, r as int),
            run_ready(ctx@, old(e).tasks@, r as int),
            old(e).tasks@.len() <= e.tasks@.len(),
            e.tasks@.take(old(e).tasks@.len() as int) == old(e).tasks@,
            c >= 0,
            lo == (if 64 * c < len {
                64 * c
            } else {
                len as int
            }),
            lo < len ==> c < chunks(ctx@, r as int),
            lo == len ==> c == chunks(ctx@, r as int),
            c <= chunks(ctx@, r as int),
            dst == ctx@.word[r as int] + c,
            e.prog@ == old(e).prog@.update(r as int, c),
        decreases len - lo,
    {
        let hi: usize = if len - lo < 64 {
            len
        } else {
            lo + 64
        };
        proof {
            assert forall|i: int| lo <= i < hi implies (#[trigger] slots@[i]) < tape.n() by {
                lemma_run_slot(*tape, ctx@.f, r as int, i);
            }
        }
        let wa = window_of(&tape.a, slots, lo, hi);
        let wb = if ar > 1 {
            window_of(&tape.b, slots, lo, hi)
        } else {
            Vec::new()
        };
        let wc = if ar > 2 {
            window_of(&tape.c, slots, lo, hi)
        } else {
            Vec::new()
        };
        let ghost tasks0 = e.tasks@;
        proof {
            assert forall|i: int| lo <= i < hi implies gate_ready(ctx@, tasks0, #[trigger] slots@[i] as int) by {
                let x = slots@[i] as int;
                assert(gate_ready(ctx@, old(e).tasks@, slots@[i] as int));
                lemma_avail_grows(ctx@, old(e).tasks@, tasks0, tape.a@[x] as int);
                lemma_avail_grows(ctx@, old(e).tasks@, tasks0, tape.b@[x] as int);
                lemma_avail_grows(ctx@, old(e).tasks@, tasks0, tape.c@[x] as int);
            }
            assert(window_avail(ctx@, tasks0, wa@)) by {
                assert forall|j: int| 0 <= j < wa@.len() && #[trigger] wa@[j] != NIL implies avail(
                    ctx@,
                    tasks0,
                    wa@[j] as int,
                ) by {
                    assert(gate_ready(ctx@, tasks0, slots@[lo + j] as int));
                }
            }
            assert(window_avail(ctx@, tasks0, wb@)) by {
                assert forall|j: int| 0 <= j < wb@.len() && #[trigger] wb@[j] != NIL implies avail(
                    ctx@,
                    tasks0,
                    wb@[j] as int,
                ) by {
                    assert(gate_ready(ctx@, tasks0, slots@[lo + j] as int));
                }
            }
            assert(window_avail(ctx@, tasks0, wc@)) by {
                assert forall|j: int| 0 <= j < wc@.len() && #[trigger] wc@[j] != NIL implies avail(
                    ctx@,
                    tasks0,
                    wc@[j] as int,
                ) by {
                    assert(gate_ready(ctx@, tasks0, slots@[lo + j] as int));
                }
            }
            lemma_window_fits(ctx@, tasks0, wa@);
            lemma_window_fits(ctx@, tasks0, wb@);
            lemma_window_fits(ctx@, tasks0, wc@);
            assert forall|env: Env, bits: Seq<u64>, w: u64|
                bits.len() == ctx@.words && #[trigger] held(
                    ctx@.tape,
                    ctx@.pos,
                    tasks0,
                    tasks0.len() as int,
                    bits,
                    env,
                ) && #[trigger] means(ctx@, bits, TaskOp::Gate(op), wa@, wb@, wc@, w) implies word_right(
                ctx@.tape,
                ctx@.pos,
                env,
                dst as int,
                w,
            ) by {
                lemma_run_word(ctx@, tasks0, r as int, c, wa@, wb@, wc@, env, bits, w);
            }
        }
        proof {
            assert(e.prog@[r as int] == c);
            assert(wa@ =~= block_window(ctx@.tape, ctx@.f, r as int, c, 0));
            assert(wb@ =~= block_window(ctx@.tape, ctx@.f, r as int, c, 1));
            assert(wc@ =~= block_window(ctx@.tape, ctx@.f, r as int, c, 2));
        }
        push_task(ctx, e, pos, cval, TaskOp::Gate(op), dst, &wa, &wb, &wc, Ghost(r as int));
        proof {
            assert(e.tasks@.take(old(e).tasks@.len() as int) =~= old(e).tasks@) by {
                assert forall|j: int| 0 <= j < old(e).tasks@.len() implies e.tasks@[j] == old(e).tasks@[j] by {
                    assert(tasks0.take(old(e).tasks@.len() as int)[j] == old(e).tasks@[j]);
                    assert(e.tasks@.drop_last()[j] == tasks0[j]);
                }
            }
            c = c + 1;
            assert(e.prog@ =~= old(e).prog@.update(r as int, c));
        }
        lo = hi;
        dst = dst + 1;
    }
}

/// The first operand of each link.
fn p_window(chain: &Chain) -> (window: Vec<u32>)
    ensures
        window@ == Seq::new(chain.links@.len(), |i: int| chain.links@[i].p),
{
    let mut window: Vec<u32> = Vec::new();
    for i in 0..chain.links.len()
        invariant
            window@ == Seq::new(i as nat, |j: int| chain.links@[j].p),
    {
        window.push(chain.links[i].p);
        assert(window@ =~= Seq::new((i + 1) as nat, |j: int| chain.links@[j].p));
    }
    window
}

/// The second operand of each link.
fn q_window(chain: &Chain) -> (window: Vec<u32>)
    ensures
        window@ == Seq::new(chain.links@.len(), |i: int| chain.links@[i].q),
{
    let mut window: Vec<u32> = Vec::new();
    for i in 0..chain.links.len()
        invariant
            window@ == Seq::new(i as nat, |j: int| chain.links@[j].q),
    {
        window.push(chain.links[i].q);
        assert(window@ =~= Seq::new((i + 1) as nat, |j: int| chain.links@[j].q));
    }
    window
}

/// The words of a chain come out right: `P ^ Q`, `P & Q` and `P + Q + cin`.
proof fn lemma_chain_word(
    ctx: Ctx,
    tasks: Seq<Task>,
    c: int,
    kind: int,
    op: TaskOp,
    wc: Seq<u32>,
    env: Env,
    bits: Seq<u64>,
    w: u64,
)
    requires
        ctx_ok(ctx),
        0 <= c < ctx.f.chains.len(),
        0 <= kind < 3,
        held(ctx.tape, ctx.pos, tasks, tasks.len() as int, bits, env),
        ({
            let links = ctx.f.chains[c].links;
            let wp = Seq::new(links.len(), |i: int| links[i].p);
            let wq = Seq::new(links.len(), |i: int| links[i].q);
            &&& window_avail(ctx, tasks, wp)
            &&& window_avail(ctx, tasks, wq)
            &&& window_avail(ctx, tasks, wc)
            &&& means(ctx, bits, op, wp, wq, wc, w)
            &&& kind == 0 ==> op == TaskOp::Add && wc == seq![ctx.f.chains[c].cin]
            &&& kind == 1 ==> op == TaskOp::Gate(Op::Xor)
            &&& kind == 2 ==> op == TaskOp::Gate(Op::And)
        }),
        chunks(ctx, ctx.tape.runs@.len() + 3 * c + kind) == 1,
    ensures
        word_right(ctx.tape, ctx.pos, env, ctx.word[ctx.tape.runs@.len() + 3 * c + kind] as int, w),
{
    let tape = ctx.tape;
    let k = tape.runs@.len() + 3 * c + kind;
    assert((k - tape.runs@.len()) / 3 == c && (k - tape.runs@.len()) % 3 == kind);
    let ch = ctx.f.chains[c];
    let links = ch.links;
    assert(chain_sound(tape, ctx.f.chains[c]));
    let wp = Seq::new(links.len(), |i: int| links[i].p);
    let wq = Seq::new(links.len(), |i: int| links[i].q);
    let slots = block_slots(tape, ctx.f, k);
    let (a, b, cc) = choose|a: u64, b: u64, cc: u64|
        #![trigger combine(op, a, b, cc)]
        w == combine(op, a, b, cc) && spelled(ctx, bits, wp, a) && (reads_stream(op, 1) ==> spelled(
            ctx,
            bits,
            wq,
            b,
        )) && (reads_stream(op, 2) ==> spelled(ctx, bits, wc, cc));
    let p = p_bits(tape, links, env);
    let q = q_bits(tape, links, env);
    assert forall|i: int| 0 <= i < 64 implies #[trigger] wbit(a, i) == (i < p.len() && p[i]) by {
        assert(wbit(a, i) == stream_bit(bits, ctx.pos, ctx.cval, wp, i));
        if i < links.len() {
            assert(link_sound(tape, links[i]));
            assert(wp[i] != NIL);
            lemma_stream_value(ctx, tasks, bits, env, wp, i);
        }
    }
    assert forall|i: int| 0 <= i < 64 implies #[trigger] wbit(b, i) == (i < q.len() && q[i]) by {
        assert(wbit(b, i) == stream_bit(bits, ctx.pos, ctx.cval, wq, i));
        if i < links.len() {
            lemma_stream_value(ctx, tasks, bits, env, wq, i);
        }
    }
    let n = links.len() as int;
    if kind == 0 {
        let cin = tape.value(env, links[0].cin as int);
        assert forall|i: int| 0 <= i < 64 implies #[trigger] wbit(cc, i) == (i == 0 && cin) by {
            assert(wbit(cc, i) == stream_bit(bits, ctx.pos, ctx.cval, wc, i));
            if i == 0 {
                assert(link_sound(tape, links[0]));
                assert(wc[0] == links[0].cin);
                lemma_stream_value(ctx, tasks, bits, env, wc, 0);
            }
        }
        chain_is_an_adder(tape, links, env, n);
        lemma_add_settles_chain(
            p,
            q,
            cin,
            sum_bits(tape, links, env, n),
            carry_into(tape, links, env, n),
            a,
            b,
            cc,
        );
    }
    assert forall|x: int|
        tape.gate_start <= x < tape.n() && #[trigger] ctx.pos[x] != NIL && ctx.pos[x] as int / 64 == ctx.word[k] implies wbit(
        w,
        ctx.pos[x] as int % 64,
    ) == tape.value(env, x) by {
        lemma_word_content(ctx, k, 0, x);
        let j = ctx.pos[x] as int % 64;
        assert(slots[j] == x);
        if j < n {
            link_is_a_full_adder(tape, links, env, j);
            assert(link_sound(tape, links[j]));
        }
        if kind == 0 {
            assert(slots == sum_slots(ch));
            if j < n {
                assert(sum_bits(tape, links, env, n)[j] == ((p[j] != q[j]) != carry_into(tape, links, env, j)));
            }
        } else if kind == 1 {
            assert(slots == pxq_slots(ch));
            lemma_combine_bits(Op::Xor, a, b, cc, j);
            assert(wbit(a, j) == p[j] && wbit(b, j) == q[j]);
        } else {
            assert(slots == g_slots(ch));
            lemma_combine_bits(Op::And, a, b, cc, j);
            assert(wbit(a, j) == p[j] && wbit(b, j) == q[j]);
        }
    }
}

/// The chain's operands are all available.
spec fn chain_ready(ctx: Ctx, tasks: Seq<Task>, ch: ChainView) -> bool {
    &&& avail(ctx, tasks, ch.cin as int)
    &&& forall|i: int|
        0 <= i < ch.links.len() ==> avail(ctx, tasks, (#[trigger] ch.links[i]).p as int) && (ch.links[i].q != NIL
            ==> avail(ctx, tasks, ch.links[i].q as int))
}

proof fn lemma_chain_windows(ctx: Ctx, tasks: Seq<Task>, c: int)
    requires
        ctx_ok(ctx),
        0 <= c < ctx.f.chains.len(),
        chain_ready(ctx, tasks, ctx.f.chains[c]),
    ensures
        ({
            let links = ctx.f.chains[c].links;
            &&& window_avail(ctx, tasks, Seq::new(links.len(), |i: int| links[i].p))
            &&& window_avail(ctx, tasks, Seq::new(links.len(), |i: int| links[i].q))
            &&& window_avail(ctx, tasks, seq![ctx.f.chains[c].cin])
            &&& window_avail(ctx, tasks, Seq::empty())
        }),
{
    let ch = ctx.f.chains[c];
    let links = ch.links;
    assert(chain_sound(ctx.tape, ctx.f.chains[c]));
    let wp = Seq::new(links.len(), |i: int| links[i].p);
    let wq = Seq::new(links.len(), |i: int| links[i].q);
    assert forall|i: int| 0 <= i < wp.len() && #[trigger] wp[i] != NIL implies avail(
        ctx,
        tasks,
        wp[i] as int,
    ) by {
        assert(avail(ctx, tasks, links[i].p as int));
    }
    assert forall|i: int| 0 <= i < wq.len() && #[trigger] wq[i] != NIL implies avail(
        ctx,
        tasks,
        wq[i] as int,
    ) by {
        assert(avail(ctx, tasks, links[i].p as int));
    }
}

/// Where the chain's three blocks start, and how long they are.
proof fn lemma_chain_chunks(ctx: Ctx, c: int)
    requires
        ctx_ok(ctx),
        0 <= c < ctx.f.chains.len(),
    ensures
        chunks(ctx, ctx.tape.runs@.len() + 3 * c) == 1,
        chunks(ctx, ctx.tape.runs@.len() + 3 * c + 1) == (if ctx.f.chains[c].ext_pxq {
            1int
        } else {
            0
        }),
        chunks(ctx, ctx.tape.runs@.len() + 3 * c + 2) == (if ctx.f.chains[c].ext_g {
            1int
        } else {
            0
        }),
        ctx.tape.runs@.len() + 3 * c + 2 < ctx.word.len(),
{
    let k = ctx.tape.runs@.len() + 3 * c;
    let runs = ctx.tape.runs@.len();
    assert((k - runs) / 3 == c && (k - runs) % 3 == 0);
    assert((k + 1 - runs) / 3 == c && (k + 1 - runs) % 3 == 1);
    assert((k + 2 - runs) / 3 == c && (k + 2 - runs) % 3 == 2);
    assert(chain_sound(ctx.tape, ctx.f.chains[c]));
}

/// All words of chain `c` are written.
pub open spec fn chain_done(ctx: Ctx, prog: Seq<int>, c: int) -> bool {
    let k = ctx.tape.runs@.len() + 3 * c;
    prog[k] == chunks(ctx, k) && prog[k + 1] == chunks(ctx, k + 1) && prog[k + 2] == chunks(ctx, k + 2)
}

/// No word of chain `c` is written.
pub open spec fn chain_untouched(ctx: Ctx, prog: Seq<int>, c: int) -> bool {
    let k = ctx.tape.runs@.len() + 3 * c;
    prog[k] == 0 && prog[k + 1] == 0 && prog[k + 2] == 0
}

/// Only the blocks of chain `c` differ.
pub open spec fn prog_but_chain(ctx: Ctx, before: Seq<int>, after: Seq<int>, c: int) -> bool {
    let k = ctx.tape.runs@.len() + 3 * c;
    &&& before.len() == after.len()
    &&& forall|j: int| 0 <= j < before.len() && !(k <= j < k + 3) ==> #[trigger] after[j] == before[j]
}

/// Emit the words of one chain.
#[verifier::rlimit(80)]
fn emit_chain(
    ctx: Ghost<Ctx>,
    e: &mut Emit,
    pos: &Vec<u32>,
    cval: &Vec<u8>,
    chain: &Chain,
    c: usize,
    first_block: usize,
    word: &Vec<u32>,
)
    requires
        ctx_ok(ctx@),
        old(e).ok(ctx@),
        pos@ == ctx@.pos,
        cval@ == ctx@.cval,
        word@ == ctx@.word,
        c < ctx@.f.chains.len(),
        chain.value() == ctx@.f.chains[c as int],
        first_block == ctx@.tape.runs@.len() + 3 * c,
        chain_ready(ctx@, old(e).tasks@, ctx@.f.chains[c as int]),
        chain_untouched(ctx@, old(e).prog@, c as int),
    ensures
        final(e).ok(ctx@),
        chain_done(ctx@, final(e).prog@, c as int),
        prog_but_chain(ctx@, old(e).prog@, final(e).prog@, c as int),
{
    let p = p_window(chain);
    let q = q_window(chain);
    let none: Vec<u32> = Vec::new();
    let cin: Vec<u32> = vec![chain.cin];
    let ghost k = first_block as int;
    let ghost cc = c as int;
    proof {
        lemma_chain_chunks(ctx@, cc);
        lemma_chain_windows(ctx@, e.tasks@, cc);
        assert(none@ =~= Seq::empty());
        assert(cin@ =~= seq![ctx@.f.chains[cc].cin]);
        assert(p@ =~= Seq::new(
            ctx@.f.chains[cc].links.len(),
            |i: int| ctx@.f.chains[cc].links[i].p,
        ));
        assert(q@ =~= Seq::new(
            ctx@.f.chains[cc].links.len(),
            |i: int| ctx@.f.chains[cc].links[i].q,
        ));
        lemma_window_fits(ctx@, e.tasks@, p@);
        lemma_window_fits(ctx@, e.tasks@, q@);
        lemma_window_fits(ctx@, e.tasks@, none@);
        lemma_window_fits(ctx@, e.tasks@, cin@);
    }
    proof {
        lemma_chain_block(ctx@, cc, p@, q@, cin@);
    }
    let limit: usize = word.len();
    if chain.ext_pxq {
        let ghost tasks0 = e.tasks@;
        proof {
            assert forall|env: Env, bits: Seq<u64>, w: u64|
                bits.len() == ctx@.words && #[trigger] held(
                    ctx@.tape,
                    ctx@.pos,
                    tasks0,
                    tasks0.len() as int,
                    bits,
                    env,
                ) && #[trigger] means(ctx@, bits, TaskOp::Gate(Op::Xor), p@, q@, none@, w) implies word_right(
                ctx@.tape,
                ctx@.pos,
                env,
                ctx@.word[k + 1] as int,
                w,
            ) by {
                lemma_chain_word(ctx@, tasks0, cc, 1, TaskOp::Gate(Op::Xor), none@, env, bits, w);
            }
        }
        let dst: u32 = word[first_block + 1];
        assert(block_window(ctx@.tape, ctx@.f, k + 1, 0, 0) == p@);
        push_task(ctx, e, pos, cval, TaskOp::Gate(Op::Xor), dst, &p, &q, &none, Ghost(k + 1));
        proof {
            lemma_chain_still_ready(ctx@, tasks0, e.tasks@, cc);
            lemma_chain_windows(ctx@, e.tasks@, cc);
        }
    }
    if chain.ext_g {
        let ghost tasks0 = e.tasks@;
        proof {
            assert forall|env: Env, bits: Seq<u64>, w: u64|
                bits.len() == ctx@.words && #[trigger] held(
                    ctx@.tape,
                    ctx@.pos,
                    tasks0,
                    tasks0.len() as int,
                    bits,
                    env,
                ) && #[trigger] means(ctx@, bits, TaskOp::Gate(Op::And), p@, q@, none@, w) implies word_right(
                ctx@.tape,
                ctx@.pos,
                env,
                ctx@.word[k + 2] as int,
                w,
            ) by {
                lemma_chain_word(ctx@, tasks0, cc, 2, TaskOp::Gate(Op::And), none@, env, bits, w);
            }
        }
        let dst: u32 = word[first_block + 2];
        assert(block_window(ctx@.tape, ctx@.f, k + 2, 0, 0) == p@);
        push_task(ctx, e, pos, cval, TaskOp::Gate(Op::And), dst, &p, &q, &none, Ghost(k + 2));
        proof {
            lemma_chain_still_ready(ctx@, tasks0, e.tasks@, cc);
            lemma_chain_windows(ctx@, e.tasks@, cc);
        }
    }
    let ghost tasks0 = e.tasks@;
    proof {
        assert forall|env: Env, bits: Seq<u64>, w: u64|
            bits.len() == ctx@.words && #[trigger] held(
                ctx@.tape,
                ctx@.pos,
                tasks0,
                tasks0.len() as int,
                bits,
                env,
            ) && #[trigger] means(ctx@, bits, TaskOp::Add, p@, q@, cin@, w) implies word_right(
            ctx@.tape,
            ctx@.pos,
            env,
            ctx@.word[k] as int,
            w,
        ) by {
            lemma_chain_word(ctx@, tasks0, cc, 0, TaskOp::Add, cin@, env, bits, w);
        }
    }
    let dst: u32 = word[first_block];
    push_task(ctx, e, pos, cval, TaskOp::Add, dst, &p, &q, &cin, Ghost(k));
}

/// The windows of a chain's three words.
proof fn lemma_chain_block(ctx: Ctx, c: int, p: Seq<u32>, q: Seq<u32>, cin: Seq<u32>)
    requires
        0 <= c < ctx.f.chains.len(),
        p == Seq::new(ctx.f.chains[c].links.len(), |i: int| ctx.f.chains[c].links[i].p),
        q == Seq::new(ctx.f.chains[c].links.len(), |i: int| ctx.f.chains[c].links[i].q),
        cin == seq![ctx.f.chains[c].cin],
    ensures
        ({
            let k = ctx.tape.runs@.len() + 3 * c;
            &&& block_op(ctx.tape, k) == TaskOp::Add
            &&& block_op(ctx.tape, k + 1) == TaskOp::Gate(Op::Xor)
            &&& block_op(ctx.tape, k + 2) == TaskOp::Gate(Op::And)
            &&& forall|d: int|
                0 <= d < 3 ==> #[trigger] block_window(ctx.tape, ctx.f, k + d, 0, 0) == p
                    && block_window(ctx.tape, ctx.f, k + d, 0, 1) == q
            &&& block_window(ctx.tape, ctx.f, k, 0, 0) == p
            &&& block_window(ctx.tape, ctx.f, k, 0, 1) == q
            &&& block_window(ctx.tape, ctx.f, k, 0, 2) == cin
            &&& block_window(ctx.tape, ctx.f, k + 1, 0, 2) == Seq::<u32>::empty()
            &&& block_window(ctx.tape, ctx.f, k + 2, 0, 2) == Seq::<u32>::empty()
        }),
{
    let runs = ctx.tape.runs@.len() as int;
    let k = runs + 3 * c;
    assert((k - runs) / 3 == c && (k + 1 - runs) / 3 == c && (k + 2 - runs) / 3 == c);
    assert((k - runs) % 3 == 0 && (k + 1 - runs) % 3 == 1 && (k + 2 - runs) % 3 == 2);
    assert forall|d: int| 0 <= d < 3 implies #[trigger] block_window(ctx.tape, ctx.f, k + d, 0, 0) == p
        && block_window(ctx.tape, ctx.f, k + d, 0, 1) == q by {
        assert((k + d - runs) / 3 == c);
        assert(block_window(ctx.tape, ctx.f, k + d, 0, 0) =~= p);
        assert(block_window(ctx.tape, ctx.f, k + d, 0, 1) =~= q);
    }
    assert(block_window(ctx.tape, ctx.f, k + 0, 0, 0) == p);
}

proof fn lemma_chain_still_ready(ctx: Ctx, tasks: Seq<Task>, more: Seq<Task>, c: int)
    requires
        ctx_ok(ctx),
        0 <= c < ctx.f.chains.len(),
        chain_ready(ctx, tasks, ctx.f.chains[c]),
        more.drop_last() == tasks,
        more.len() == tasks.len() + 1,
    ensures
        chain_ready(ctx, more, ctx.f.chains[c]),
{
    let ch = ctx.f.chains[c];
    assert(more.take(tasks.len() as int) =~= tasks);
    lemma_avail_grows(ctx, tasks, more, ch.cin as int);
    assert forall|i: int| 0 <= i < ch.links.len() implies avail(ctx, more, (#[trigger] ch.links[i]).p as int) && (
    ch.links[i].q != NIL ==> avail(ctx, more, ch.links[i].q as int)) by {
        assert(avail(ctx, tasks, ch.links[i].p as int));
        lemma_avail_grows(ctx, tasks, more, ch.links[i].p as int);
        if ch.links[i].q != NIL {
            lemma_avail_grows(ctx, tasks, more, ch.links[i].q as int);
        }
    }
}

/// Every chain once, by ascending boundary.
pub open spec fn order_ok(chains: Seq<ChainView>, order: Seq<usize>) -> bool {
    &&& order.len() == chains.len()
    &&& forall|i: int| 0 <= i < order.len() ==> (#[trigger] order[i]) < chains.len()
    &&& forall|i: int, j: int| 0 <= i < j < order.len() ==> #[trigger] order[i] != #[trigger] order[j]
    &&& forall|i: int, j: int|
        0 <= i < j < order.len() ==> chains[(#[trigger] order[i]) as int].ready
            <= chains[(#[trigger] order[j]) as int].ready
    &&& forall|c: int| 0 <= c < chains.len() ==> listed(order, c)
}

pub open spec fn listed(order: Seq<usize>, c: int) -> bool {
    exists|i: int| 0 <= i < order.len() && #[trigger] order[i] == c
}

/// The chains by ascending boundary; chains with the same boundary keep
/// their order.
fn by_boundary(chains: &Vec<Chain>) -> (order: Vec<usize>)
    ensures
        order_ok(chain_values(chains@), order@),
{
    let ghost views = chain_values(chains@);
    let mut order: Vec<usize> = Vec::new();
    for c in 0..chains.len()
        invariant
            views == chain_values(chains@),
            order@.len() == c,
            forall|i: int| 0 <= i < c ==> (#[trigger] order@[i]) < c,
            forall|i: int, j: int| 0 <= i < j < c ==> #[trigger] order@[i] != #[trigger] order@[j],
            forall|i: int, j: int|
                0 <= i < j < c ==> views[(#[trigger] order@[i]) as int].ready <= views[(#[trigger] order@[j]) as int].ready,
            forall|d: int| 0 <= d < c ==> listed(order@, d),
    {
        let ready: u32 = chains[c].ready;
        let mut at: usize = order.len();
        let ghost all = order@;
        while at > 0 && ready < chains[order[at - 1]].ready
            invariant
                at <= all.len(),
                order@ == all,
                views == chain_values(chains@),
                c < chains@.len(),
                ready == views[c as int].ready,
                forall|i: int| 0 <= i < all.len() ==> (#[trigger] all[i]) < c,
                forall|i: int| at <= i < all.len() ==> ready < views[(#[trigger] all[i]) as int].ready,
            decreases at,
        {
            assert(all[at - 1] < c);
            at = at - 1;
        }
        order.insert(at, c);
        proof {
            let now = order@;
            assert(now =~= all.insert(at as int, c));
            assert forall|i: int| 0 <= i < c + 1 implies (#[trigger] now[i]) < c + 1 by {
                if i < at {
                    assert(now[i] == all[i]);
                } else if i > at {
                    assert(now[i] == all[i - 1]);
                }
            }
            assert forall|i: int, j: int| 0 <= i < j < c + 1 implies #[trigger] now[i] != #[trigger] now[j]
                && views[now[i] as int].ready <= views[now[j] as int].ready by {
                let oi = if i < at {
                    i
                } else {
                    i - 1
                };
                let oj = if j < at {
                    j
                } else {
                    j - 1
                };
                if i != at && j != at {
                    assert(now[i] == all[oi] && now[j] == all[oj]);
                    assert(all[oi] != all[oj]);
                } else if i == at {
                    assert(now[j] == all[oj]);
                    assert(all[oj] < c);
                } else {
                    assert(now[i] == all[oi]);
                    assert(all[oi] < c);
                    assert(views[all[at - 1] as int].ready <= ready);
                    if oi < at - 1 {
                        assert(views[all[oi] as int].ready <= views[all[at - 1] as int].ready);
                    }
                }
            }
            assert forall|d: int| 0 <= d < c + 1 implies listed(now, d) by {
                if d < c {
                    assert(listed(all, d));
                    let i = choose|i: int| 0 <= i < all.len() && #[trigger] all[i] == d;
                    if i < at {
                        assert(now[i] == d);
                    } else {
                        assert(now[i + 1] == d);
                    }
                } else {
                    assert(now[at as int] == d);
                }
            }
        }
    }
    order
}

/// All runs below index `upto` are written.
pub open spec fn runs_done(ctx: Ctx, prog: Seq<int>, upto: int) -> bool {
    forall|r: int| 0 <= r < upto ==> #[trigger] prog[r] == chunks(ctx, r)
}

/// All chains with a boundary below `level` are written.
pub open spec fn chains_done(ctx: Ctx, prog: Seq<int>, level: int) -> bool {
    forall|c: int|
        0 <= c < ctx.f.chains.len() && (#[trigger] ctx.f.chains[c]).ready < level ==> chain_done(ctx, prog, c)
}

/// The run a gate belongs to.
proof fn lemma_run_of(tape: Compiled, x: int, r: int) -> (q: int)
    requires
        tape.wf(),
        tape.gate_start <= x < tape.n(),
        0 <= r <= tape.runs@.len(),
        run_pos(tape.runs@, tape.n(), r) <= x,
    ensures
        r <= q < tape.runs@.len(),
        tape.runs@[q].start <= x < tape.runs@[q].end,
    decreases tape.runs@.len() - r,
{
    assert(r < tape.runs@.len());
    assert(run_ok(tape.runs@, tape.n(), r));
    if x < tape.runs@[r].end {
        r
    } else {
        lemma_run_of(tape, x, r + 1)
    }
}

/// A gate's run lies within its level's runs.
proof fn lemma_run_in_level(tape: Compiled, x: int) -> (q: int)
    requires
        tape.wf(),
        tape.gate_start <= x < tape.n(),
    ensures
        0 <= q < tape.runs@.len(),
        tape.runs@[q].start <= x < tape.runs@[q].end,
        tape.levels@[tape.slot_level@[x] as int].run_start <= q < tape.levels@[tape.slot_level@[x] as int].run_end,
{
    assert(tape.gate_ok(x));
    let l = tape.slot_level@[x] as int;
    assert(level_ok(tape.levels@, tape.runs@, tape.n(), l));
    let first = tape.levels@[l].run_start as int;
    let q = lemma_run_of(tape, x, first);
    let end = tape.levels@[l].run_end as int;
    if q >= end {
        lemma_run_positions(tape, end, q);
    }
    q
}

proof fn lemma_run_positions(tape: Compiled, r: int, q: int)
    requires
        tape.wf(),
        0 <= r <= q < tape.runs@.len(),
    ensures
        run_pos(tape.runs@, tape.n(), r) <= tape.runs@[q].start,
    decreases q - r,
{
    if r < q {
        assert(run_ok(tape.runs@, tape.n(), r));
        lemma_run_positions(tape, r + 1, q);
    }
}

/// What settles below `level`, and is read from outside its chain if it has
/// one, is available once all runs and chains below that level are written.
proof fn lemma_settled_avail(ctx: Ctx, e: Emit, level: int, x: int, reader: u32)
    requires
        ctx_ok(ctx),
        e.ok(ctx),
        0 <= x < ctx.tape.n(),
        0 <= level < ctx.tape.levels@.len(),
        ctx.tape.slot_level@[x] < level,
        runs_done(ctx, e.prog@, ctx.tape.levels@[level].run_start as int),
        chains_done(ctx, e.prog@, level),
        ctx.tape.reads(reader as int, x) || observed(ctx.tape, x),
        forall|c: int|
            0 <= c < ctx.f.chains.len() && in_links((#[trigger] ctx.f.chains[c]).links, x as u32)
                && !observed(ctx.tape, x) ==> !in_links(ctx.f.chains[c].links, reader),
    ensures
        avail(ctx, e.tasks@, x),
{
    let tape = ctx.tape;
    if x < tape.gate_start {
        assert(ctx.cval[x] == NOT_CONST ==> ctx.pos[x] != NIL);
    } else if !ctx.f.used[x] {
        let l = tape.slot_level@[x] as int;
        let r = lemma_run_in_level(tape, x);
        lemma_levels_runs_ascend(tape, l, level);
        lemma_run_bounds(tape, r);
        let i = lemma_unclaimed_has(
            ctx.f.used,
            tape.runs@[r].start as int,
            tape.runs@[r].end as int,
            x,
        );
        lemma_block_slot_made(ctx, e, r, i);
    } else {
        let c = choose|c: int|
            0 <= c < ctx.f.chains.len() && in_links((#[trigger] ctx.f.chains[c]).links, x as u32);
        let ch = ctx.f.chains[c];
        assert(chain_sound(tape, ctx.f.chains[c]));
        what_escapes_is_shown(tape, ch, x as u32, reader);
        let i = choose|i: int| 0 <= i < ch.links.len() && #[trigger] shown(ch.links, i, x as u32);
        lemma_shown_made(ctx, e, c, i, x, level);
    }
}

/// What a chain shows is available once the chain is written.
proof fn lemma_shown_made(ctx: Ctx, e: Emit, c: int, i: int, x: int, level: int)
    requires
        ctx_ok(ctx),
        e.ok(ctx),
        0 <= c < ctx.f.chains.len(),
        0 <= x < ctx.tape.n(),
        0 <= i < ctx.f.chains[c].links.len(),
        shown(ctx.f.chains[c].links, i, x as u32),
        ctx.tape.slot_level@[x] < level,
        chains_done(ctx, e.prog@, level),
    ensures
        avail(ctx, e.tasks@, x),
{
    let ch = ctx.f.chains[c];
    assert(chain_sound(ctx.tape, ctx.f.chains[c]));
    assert(ctx.tape.slot_level@[x] >= ready_level(ctx.tape, ch.links, ch.links.len() as int));
    lemma_ready_fits(ctx.tape, ch);
    assert(chain_done(ctx, e.prog@, c));
    let runs = ctx.tape.runs@.len();
    let k = runs + 3 * c;
    lemma_chain_chunks(ctx, c);
    assert((k - runs) / 3 == c && (k - runs) % 3 == 0);
    assert((k + 1 - runs) / 3 == c && (k + 1 - runs) % 3 == 1);
    assert((k + 2 - runs) / 3 == c && (k + 2 - runs) % 3 == 2);
    let l = ch.links[i];
    if x == l.sum {
        assert(sum_slots(ch)[i] == x);
        lemma_block_slot_made(ctx, e, k, i);
    } else if i == ch.links.len() - 1 && x == l.carry {
        assert(sum_slots(ch)[ch.links.len() as int] == x);
        lemma_block_slot_made(ctx, e, k, ch.links.len() as int);
    } else if l.ext_pxq && x == l.pxq {
        assert(ch.links[i].ext_pxq);
        assert(ch.ext_pxq);
        assert(pxq_slots(ch)[i] == x);
        lemma_block_slot_made(ctx, e, k + 1, i);
    } else {
        assert(ch.links[i].ext_g);
        assert(ch.ext_g);
        assert(g_slots(ch)[i] == x);
        lemma_block_slot_made(ctx, e, k + 2, i);
    }
}

/// A chain's boundary is a level number.
proof fn lemma_ready_fits(tape: Compiled, ch: ChainView)
    requires
        tape.wf(),
        chain_sound(tape, ch),
    ensures
        ch.ready == ready_level(tape, ch.links, ch.links.len() as int),
        1 <= ch.ready < tape.levels@.len(),
{
    let last = ch.links.len() - 1;
    assert(link_sound(tape, ch.links[last]));
    assert(shown(ch.links, last, ch.links[last].carry));
    assert(tape.gate_ok(ch.links[last].carry as int));
    assert(link_sound(tape, ch.links[0]));
    operands_settle_first(tape, ch.links, 0);
}

/// Runs of a lower level come before those of a higher one.
proof fn lemma_levels_runs_ascend(tape: Compiled, l: int, m: int)
    requires
        tape.wf(),
        0 <= l < m < tape.levels@.len(),
    ensures
        tape.levels@[l].run_end <= tape.levels@[m].run_start,
    decreases m - l,
{
    assert(level_joins(tape.levels@, m));
    assert(level_ok(tape.levels@, tape.runs@, tape.n(), m - 1));
    if l + 1 < m {
        lemma_levels_runs_ascend(tape, l, m - 1);
    }
}

/// A slot of a written block is available.
proof fn lemma_block_slot_made(ctx: Ctx, e: Emit, k: int, i: int)
    requires
        ctx_ok(ctx),
        e.ok(ctx),
        0 <= k < ctx.word.len(),
        e.prog@[k] == chunks(ctx, k),
        0 <= i < block_slots(ctx.tape, ctx.f, k).len(),
        block_slots(ctx.tape, ctx.f, k)[i] != NIL,
    ensures
        avail(ctx, e.tasks@, block_slots(ctx.tape, ctx.f, k)[i] as int),
{
    let slots = block_slots(ctx.tape, ctx.f, k);
    let x = slots[i] as int;
    lemma_block_range(ctx.tape, ctx.f, k);
    assert(block_placed(ctx.pos, slots, ctx.word[k] as int));
    assert(ctx.pos[slots[i] as int] == 64 * ctx.word[k] + i);
    assert(i / 64 < chunks(ctx, k));
    assert(word_made(ctx, e.tasks@, k, i / 64));
    assert(ctx.pos[x] as int / 64 == ctx.word[k] + i / 64);
    assert(ctx.pos[x] != NIL) by {
        assert(ctx.word[k] + chunks(ctx, k) <= ctx.words - 1);
    }
}

/// Every gate of a run at `level` can be evaluated.
proof fn lemma_run_ready(ctx: Ctx, e: Emit, level: int, r: int)
    requires
        ctx_ok(ctx),
        e.ok(ctx),
        0 <= level < ctx.tape.levels@.len(),
        ctx.tape.levels@[level].run_start <= r < ctx.tape.levels@[level].run_end,
        runs_done(ctx, e.prog@, ctx.tape.levels@[level].run_start as int),
        chains_done(ctx, e.prog@, level),
    ensures
        run_ready(ctx, e.tasks@, r),
{
    let tape = ctx.tape;
    assert(level_ok(tape.levels@, tape.runs@, tape.n(), level));
    let slots = block_slots(tape, ctx.f, r);
    assert forall|i: int| 0 <= i < slots.len() implies gate_ready(ctx, e.tasks@, #[trigger] slots[i] as int) by {
        let x = slots[i] as int;
        lemma_run_slot(tape, ctx.f, r, i);
        assert(tape.gate_ok(x));
        lemma_level_of_run(tape, level, r, x);
        lemma_reads_operands(tape, x);
        assert forall|c: int| 0 <= c < ctx.f.chains.len() implies !in_links(
            (#[trigger] ctx.f.chains[c]).links,
            x as u32,
        ) by {
            if in_links(ctx.f.chains[c].links, x as u32) {
                assert(ctx.f.used[x]);
            }
        }
        lemma_settled_avail(ctx, e, level, tape.a@[x] as int, x as u32);
        lemma_settled_avail(ctx, e, level, tape.b@[x] as int, x as u32);
        lemma_settled_avail(ctx, e, level, tape.c@[x] as int, x as u32);
    }
}

/// A gate reads each of its stored operands.
pub proof fn lemma_reads_operands(tape: Compiled, x: int)
    requires
        tape.wf(),
        tape.gate_start <= x < tape.n(),
    ensures
        tape.reads(x, tape.a@[x] as int),
        tape.reads(x, tape.b@[x] as int),
        tape.reads(x, tape.c@[x] as int),
{
    assert(tape.gate_ok(x));
    let ins = crate::compile::operands(
        tape.ops@[x],
        tape.a@[x] as int,
        tape.b@[x] as int,
        tape.c@[x] as int,
    );
    assert(ins[0] == tape.a@[x]);
    if gate_arity(tape.ops@[x]) >= 2 {
        assert(ins[1] == tape.b@[x]);
    }
    if gate_arity(tape.ops@[x]) >= 3 {
        assert(ins[2] == tape.c@[x]);
    }
}

/// The gates of a level's runs are at that level.
proof fn lemma_level_of_run(tape: Compiled, level: int, r: int, x: int)
    requires
        tape.wf(),
        0 <= level < tape.levels@.len(),
        tape.levels@[level].run_start <= r < tape.levels@[level].run_end,
        0 <= r < tape.runs@.len(),
        tape.runs@[r].start <= x < tape.runs@[r].end,
        tape.gate_start <= x < tape.n(),
    ensures
        tape.slot_level@[x] == level,
{
    assert(tape.gate_ok(x));
    let l = tape.slot_level@[x] as int;
    let q = lemma_run_in_level(tape, x);
    if q < r {
        crate::layout::lemma_runs_ascend(tape, q, r);
    } else if r < q {
        crate::layout::lemma_runs_ascend(tape, r, q);
    }
    if l < level {
        lemma_levels_runs_ascend(tape, l, level);
    } else if level < l {
        lemma_levels_runs_ascend(tape, level, l);
    }
}

/// The operands of a chain are available at its boundary.
proof fn lemma_chain_operands(ctx: Ctx, e: Emit, c: int)
    requires
        ctx_ok(ctx),
        e.ok(ctx),
        0 <= c < ctx.f.chains.len(),
        runs_done(
            ctx,
            e.prog@,
            ctx.tape.levels@[ctx.f.chains[c].ready as int].run_start as int,
        ),
        chains_done(ctx, e.prog@, ctx.f.chains[c].ready as int),
    ensures
        chain_ready(ctx, e.tasks@, ctx.f.chains[c]),
{
    let tape = ctx.tape;
    let ch = ctx.f.chains[c];
    let level = ch.ready as int;
    assert(chain_sound(tape, ctx.f.chains[c]));
    lemma_ready_fits(tape, ch);
    operands_settle_first(tape, ch.links, 0);
    assert(link_sound(tape, ch.links[0]));
    lemma_link_operand(ctx, e, c, 0, ch.cin as int, level);
    assert forall|i: int| 0 <= i < ch.links.len() implies avail(
        ctx,
        e.tasks@,
        (#[trigger] ch.links[i]).p as int,
    ) && (ch.links[i].q != NIL ==> avail(ctx, e.tasks@, ch.links[i].q as int)) by {
        operands_settle_first(tape, ch.links, i);
        assert(link_sound(tape, ch.links[i]));
        lemma_link_operand(ctx, e, c, i, ch.links[i].p as int, level);
        if ch.links[i].q != NIL {
            lemma_link_operand(ctx, e, c, i, ch.links[i].q as int, level);
        }
    }
}

proof fn lemma_link_operand(ctx: Ctx, e: Emit, c: int, i: int, x: int, level: int)
    requires
        ctx_ok(ctx),
        e.ok(ctx),
        0 <= c < ctx.f.chains.len(),
        0 <= i < ctx.f.chains[c].links.len(),
        level == ctx.f.chains[c].ready,
        0 <= level < ctx.tape.levels@.len(),
        0 <= x < ctx.tape.n(),
        ctx.tape.slot_level@[x] < level,
        runs_done(ctx, e.prog@, ctx.tape.levels@[level].run_start as int),
        chains_done(ctx, e.prog@, level),
        (i == 0 && x == ctx.f.chains[c].links[0].cin) || x == ctx.f.chains[c].links[i].p || x
            == ctx.f.chains[c].links[i].q,
    ensures
        avail(ctx, e.tasks@, x),
{
    let tape = ctx.tape;
    let ch = ctx.f.chains[c];
    assert(chain_sound(tape, ctx.f.chains[c]));
    let l = ch.links[i];
    assert(link_sound(tape, ch.links[i]));
    let reader: u32 = if x == l.p || x == l.q {
        if l.prop != NIL {
            l.g
        } else {
            l.carry
        }
    } else if l.prop != NIL {
        l.prop
    } else {
        l.carry
    };
    assert(in_link(l, reader));
    assert(in_links(ch.links, reader));
    assert(tape.gate_ok(reader as int));
    lemma_reads_operands(tape, reader as int);
    assert(tape.reads(reader as int, x));
    assert(!in_links(ch.links, x as u32)) by {
        assert(!in_links(ch.links, ch.links[i].p) && !in_links(ch.links, ch.links[i].q));
    }
    assert forall|d: int|
        0 <= d < ctx.f.chains.len() && in_links((#[trigger] ctx.f.chains[d]).links, x as u32) && !observed(
            tape,
            x,
        ) implies !in_links(ctx.f.chains[d].links, reader) by {
        if d < c {
            assert(in_links(ctx.f.chains[c].links, reader));
        } else if c < d {
            assert(in_links(ctx.f.chains[c].links, reader));
        }
    }
    lemma_settled_avail(ctx, e, level, x, reader);
}

/// Chains of the order from `next` on are untouched, those before it done.
spec fn order_progress(ctx: Ctx, prog: Seq<int>, order: Seq<usize>, next: int) -> bool {
    &&& forall|i: int| 0 <= i < next ==> chain_done(ctx, prog, (#[trigger] order[i]) as int)
    &&& forall|i: int|
        next <= i < order.len() ==> chain_untouched(ctx, prog, (#[trigger] order[i]) as int)
}

/// Runs from `upto` on are untouched, those before it done.
spec fn run_progress(ctx: Ctx, prog: Seq<int>, upto: int) -> bool {
    &&& runs_done(ctx, prog, upto)
    &&& forall|r: int| upto <= r < ctx.tape.runs@.len() ==> #[trigger] prog[r] == 0
}

/// Emit the chains whose boundary is `level`.
#[verifier::rlimit(60)]
fn emit_due_chains(
    ctx: Ghost<Ctx>,
    e: &mut Emit,
    pos: &Vec<u32>,
    cval: &Vec<u8>,
    chains: &Vec<Chain>,
    order: &Vec<usize>,
    next: usize,
    level: u32,
    run_count: usize,
    word: &Vec<u32>,
) -> (after: usize)
    requires
        ctx_ok(ctx@),
        old(e).ok(ctx@),
        pos@ == ctx@.pos,
        cval@ == ctx@.cval,
        word@ == ctx@.word,
        chain_values(chains@) == ctx@.f.chains,
        order_ok(ctx@.f.chains, order@),
        next <= order@.len(),
        run_count == ctx@.tape.runs@.len(),
        level < ctx@.tape.levels@.len(),
        run_progress(ctx@, old(e).prog@, ctx@.tape.levels@[level as int].run_start as int),
        order_progress(ctx@, old(e).prog@, order@, next as int),
        chains_done(ctx@, old(e).prog@, level as int),
    ensures
        final(e).ok(ctx@),
        next <= after <= order@.len(),
        run_progress(ctx@, final(e).prog@, ctx@.tape.levels@[level as int].run_start as int),
        order_progress(ctx@, final(e).prog@, order@, after as int),
        chains_done(ctx@, final(e).prog@, level + 1),
{
    let mut at: usize = next;
    let limit: usize = word.len();
    proof {
        assert(level_ok(ctx@.tape.levels@, ctx@.tape.runs@, ctx@.tape.n(), level as int));
    }
    while at < order.len() && chains[order[at]].ready <= level
        invariant
            ctx_ok(ctx@),
            e.ok(ctx@),
            pos@ == ctx@.pos,
            cval@ == ctx@.cval,
            word@ == ctx@.word,
            limit == word@.len(),
            chain_values(chains@) == ctx@.f.chains,
            order_ok(ctx@.f.chains, order@),
            chains@.len() == ctx@.f.chains.len(),
            next <= at <= order@.len(),
            forall|i: int| 0 <= i < order@.len() ==> (#[trigger] order@[i]) < chains@.len(),
            run_count == ctx@.tape.runs@.len(),
            level < ctx@.tape.levels@.len(),
            ctx@.tape.levels@[level as int].run_start <= ctx@.tape.runs@.len(),
            run_progress(ctx@, e.prog@, ctx@.tape.levels@[level as int].run_start as int),
            order_progress(ctx@, e.prog@, order@, at as int),
            chains_done(ctx@, e.prog@, level as int),
        decreases order@.len() - at,
    {
        let c: usize = order[at];
        let ghost cc = c as int;
        let ghost before = e.prog@;
        let chain = &chains[c];
        proof {
            assert(order@[at as int] < ctx@.f.chains.len());
            assert(ctx@.f.chains[cc] == chain.value());
            lemma_chain_chunks(ctx@, cc);
            assert(chain_untouched(ctx@, e.prog@, order@[at as int] as int));
            if ctx@.f.chains[cc].ready < level {
                assert(chain_done(ctx@, e.prog@, cc));
            }
            lemma_chain_operands(ctx@, *e, cc);
        }
        emit_chain(ctx, e, pos, cval, chain, c, run_count + 3 * c, word);
        proof {
            assert forall|i: int| 0 <= i < at + 1 implies chain_done(
                ctx@,
                e.prog@,
                (#[trigger] order@[i]) as int,
            ) by {
                if i < at {
                    assert(order@[i] != order@[at as int]);
                    lemma_other_chain(ctx@, before, e.prog@, cc, order@[i] as int);
                }
            }
            assert forall|i: int| at + 1 <= i < order@.len() implies chain_untouched(
                ctx@,
                e.prog@,
                (#[trigger] order@[i]) as int,
            ) by {
                assert(order@[at as int] != order@[i]);
                lemma_other_chain(ctx@, before, e.prog@, cc, order@[i] as int);
            }
            assert forall|d: int|
                0 <= d < ctx@.f.chains.len() && (#[trigger] ctx@.f.chains[d]).ready < level implies chain_done(
                ctx@,
                e.prog@,
                d,
            ) by {
                assert(chain_done(ctx@, before, d));
                assert(d != cc);
                lemma_other_chain(ctx@, before, e.prog@, cc, d);
            }
        }
        at = at + 1;
    }
    proof {
        assert forall|d: int|
            0 <= d < ctx@.f.chains.len() && (#[trigger] ctx@.f.chains[d]).ready < level + 1 implies chain_done(
            ctx@,
            e.prog@,
            d,
        ) by {
            assert(listed(order@, d));
            let i = choose|i: int| 0 <= i < order@.len() && #[trigger] order@[i] == d;
            if i >= at {
                assert(ctx@.f.chains[order@[at as int] as int] == chains@[order@[at as int] as int].value());
                if i > at {
                    assert(ctx@.f.chains[order@[at as int] as int].ready <= ctx@.f.chains[order@[i] as int].ready);
                }
            }
        }
    }
    at
}

proof fn lemma_other_chain(ctx: Ctx, before: Seq<int>, after: Seq<int>, c: int, d: int)
    requires
        ctx_ok(ctx),
        before.len() == ctx.word.len(),
        0 <= c < ctx.f.chains.len(),
        0 <= d < ctx.f.chains.len(),
        c != d,
        prog_but_chain(ctx, before, after, c),
    ensures
        chain_done(ctx, before, d) ==> chain_done(ctx, after, d),
        chain_untouched(ctx, before, d) ==> chain_untouched(ctx, after, d),
{
    let k = ctx.tape.runs@.len() + 3 * d;
    let b = ctx.tape.runs@.len() + 3 * c;
    assert(!(b <= k < b + 3) && !(b <= k + 1 < b + 3) && !(b <= k + 2 < b + 3));
    assert(after[k] == before[k]);
    assert(after[k + 1] == before[k + 1]);
    assert(after[k + 2] == before[k + 2]);
}

/// Whatever is observed is available once everything is written.
pub proof fn lemma_observed_avail(ctx: Ctx, e: Emit, x: int)
    requires
        ctx_ok(ctx),
        e.ok(ctx),
        0 <= x < ctx.tape.n(),
        runs_done(ctx, e.prog@, ctx.tape.runs@.len() as int),
        chains_done(ctx, e.prog@, ctx.tape.levels@.len() as int),
        observed(ctx.tape, x),
    ensures
        avail(ctx, e.tasks@, x),
{
    let tape = ctx.tape;
    if x < tape.gate_start {
        assert(ctx.cval[x] == NOT_CONST ==> ctx.pos[x] != NIL);
    } else if !ctx.f.used[x] {
        let r = lemma_run_in_level(tape, x);
        lemma_run_bounds(tape, r);
        let i = lemma_unclaimed_has(
            ctx.f.used,
            tape.runs@[r].start as int,
            tape.runs@[r].end as int,
            x,
        );
        lemma_block_slot_made(ctx, e, r, i);
    } else {
        let c = choose|c: int|
            0 <= c < ctx.f.chains.len() && in_links((#[trigger] ctx.f.chains[c]).links, x as u32);
        let ch = ctx.f.chains[c];
        assert(chain_sound(tape, ctx.f.chains[c]));
        what_escapes_is_shown(tape, ch, x as u32, NIL);
        let i = choose|i: int| 0 <= i < ch.links.len() && #[trigger] shown(ch.links, i, x as u32);
        assert(tape.gate_ok(x));
        lemma_shown_made(ctx, e, c, i, x, tape.levels@.len() as int);
    }
}

/// Gates at the same position are the same gate.
pub proof fn lemma_gates_apart(ctx: Ctx, x: int, y: int)
    requires
        ctx_ok(ctx),
        ctx.tape.gate_start <= x < ctx.tape.n(),
        ctx.tape.gate_start <= y < ctx.tape.n(),
        ctx.pos[x] != NIL,
        ctx.pos[x] == ctx.pos[y],
    ensures
        x == y,
        ctx.pos[x] as int / 64 >= ctx.first,
{
    let k = choose|k: int|
        0 <= k < ctx.word.len() && #[trigger] block_slots(ctx.tape, ctx.f, k).contains(x as u32);
    let slots = block_slots(ctx.tape, ctx.f, k);
    let i = choose|i: int| 0 <= i < slots.len() && slots[i] == x as u32;
    assert(block_placed(ctx.pos, slots, ctx.word[k] as int));
    assert(slots[i] != NIL);
    assert(ctx.pos[x] == 64 * ctx.word[k] + i);
    assert(ctx.pos[x] as int / 64 == ctx.word[k] + i / 64);
    lemma_word_content(ctx, k, i / 64, x);
    lemma_word_content(ctx, k, i / 64, y);
}

/// Emit every task of the plan.
#[verifier::rlimit(80)]
pub(crate) fn emit_all(
    ctx: Ghost<Ctx>,
    tape: &Compiled,
    chains: &Vec<Chain>,
    blocks: &Vec<Vec<u32>>,
    word: &Vec<u32>,
    pos: &Vec<u32>,
    cval: &Vec<u8>,
) -> (e: Emit)
    requires
        ctx_ok(ctx@),
        ctx@.tape == *tape,
        pos@ == ctx@.pos,
        cval@ == ctx@.cval,
        word@ == ctx@.word,
        chain_values(chains@) == ctx@.f.chains,
        blocks@.len() == word@.len(),
        forall|k: int| 0 <= k < blocks@.len() ==> (#[trigger] blocks@[k])@ == block_slots(*tape, ctx@.f, k),
    ensures
        e.ok(ctx@),
        runs_done(ctx@, e.prog@, tape.runs@.len() as int),
        chains_done(ctx@, e.prog@, tape.levels@.len() as int),
{
    let ghost zero = Seq::new(ctx@.word.len(), |k: int| 0int);
    let mut e = Emit { tasks: Vec::new(), segs: Vec::new(), prog: Ghost(zero) };
    let order = by_boundary(chains);
    let run_count: usize = tape.runs.len();
    let level_count: usize = tape.levels.len();
    let block_limit: usize = word.len();
    let mut next: usize = 0;
    proof {
        assert(level_ok(tape.levels@, tape.runs@, tape.n(), 0));
        assert forall|k: int| 0 <= k < ctx@.word.len() implies 0 <= chunks(ctx@, k) by {}
        assert forall|i: int| 0 <= i < order@.len() implies chain_untouched(
            ctx@,
            zero,
            (#[trigger] order@[i]) as int,
        ) by {
            lemma_chain_chunks(ctx@, order@[i] as int);
        }
        assert forall|c: int|
            0 <= c < ctx@.f.chains.len() && (#[trigger] ctx@.f.chains[c]).ready < 0 implies chain_done(
            ctx@,
            zero,
            c,
        ) by {}
    }
    for lvl in 0..level_count
        invariant
            ctx_ok(ctx@),
            ctx@.tape == *tape,
            e.ok(ctx@),
            pos@ == ctx@.pos,
            cval@ == ctx@.cval,
            word@ == ctx@.word,
            block_limit == word@.len(),
            chain_values(chains@) == ctx@.f.chains,
            blocks@.len() == word@.len(),
            forall|k: int|
                0 <= k < blocks@.len() ==> (#[trigger] blocks@[k])@ == block_slots(*tape, ctx@.f, k),
            order_ok(ctx@.f.chains, order@),
            next <= order@.len(),
            run_count == tape.runs@.len(),
            level_count == tape.levels@.len(),
            run_progress(
                ctx@,
                e.prog@,
                if lvl < level_count {
                    tape.levels@[lvl as int].run_start as int
                } else {
                    run_count as int
                },
            ),
            order_progress(ctx@, e.prog@, order@, next as int),
            chains_done(ctx@, e.prog@, lvl as int),
    {
        next = emit_due_chains(
            ctx,
            &mut e,
            pos,
            cval,
            chains,
            &order,
            next,
            lvl as u32,
            run_count,
            word,
        );
        let level = tape.levels[lvl];
        proof {
            assert(level_ok(tape.levels@, tape.runs@, tape.n(), lvl as int));
        }
        for r in level.run_start as usize..level.run_end as usize
            invariant
                ctx_ok(ctx@),
                ctx@.tape == *tape,
                e.ok(ctx@),
                pos@ == ctx@.pos,
                cval@ == ctx@.cval,
                word@ == ctx@.word,
                block_limit == word@.len(),
                blocks@.len() == word@.len(),
                run_count == tape.runs@.len(),
                forall|k: int|
                    0 <= k < blocks@.len() ==> (#[trigger] blocks@[k])@ == block_slots(*tape, ctx@.f, k),
                order_ok(ctx@.f.chains, order@),
                next <= order@.len(),
                0 <= lvl < tape.levels@.len(),
                level == tape.levels@[lvl as int],
                level.run_start <= level.run_end <= run_count,
                run_progress(ctx@, e.prog@, r as int),
                order_progress(ctx@, e.prog@, order@, next as int),
                chains_done(ctx@, e.prog@, lvl + 1),
        {
            let ghost before = e.prog@;
            proof {
                assert(runs_done(ctx@, e.prog@, level.run_start as int));
                assert(chains_done(ctx@, e.prog@, lvl as int));
                lemma_run_ready(ctx@, e, lvl as int, r as int);
                assert(blocks@[r as int]@ == block_slots(*tape, ctx@.f, r as int));
            }
            emit_run(ctx, &mut e, tape, pos, cval, r, &blocks[r], word[r]);
            proof {
                assert forall|d: int| 0 <= d < ctx@.f.chains.len() implies (chain_done(ctx@, before, d)
                    ==> #[trigger] chain_done(ctx@, e.prog@, d)) && (chain_untouched(ctx@, before, d)
                    ==> chain_untouched(ctx@, e.prog@, d)) by {
                    lemma_chain_chunks(ctx@, d);
                }
                assert forall|i: int| next <= i < order@.len() implies chain_untouched(
                    ctx@,
                    e.prog@,
                    (#[trigger] order@[i]) as int,
                ) by {
                    assert(chain_done(ctx@, e.prog@, order@[i] as int) || true);
                    lemma_chain_chunks(ctx@, order@[i] as int);
                }
                assert forall|i: int| 0 <= i < next implies chain_done(
                    ctx@,
                    e.prog@,
                    (#[trigger] order@[i]) as int,
                ) by {
                    lemma_chain_chunks(ctx@, order@[i] as int);
                }
                assert forall|c: int|
                    0 <= c < ctx@.f.chains.len() && (#[trigger] ctx@.f.chains[c]).ready < lvl + 1 implies chain_done(
                    ctx@,
                    e.prog@,
                    c,
                ) by {
                    assert(chain_done(ctx@, before, c));
                }
            }
        }
        proof {
            if lvl + 1 < level_count {
                assert(level_joins(tape.levels@, lvl + 1));
            }
        }
    }
    e
}

} // verus!
