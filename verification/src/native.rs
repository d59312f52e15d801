//! Straight-line code as Cranelift instructions.
//!
//! Every instruction of [`crate::jit`] and [`crate::pack_jit`] becomes one
//! call of Cranelift's instruction builder, with slot and word numbers turned
//! into byte offsets from a base pointer. A function has one block, whose
//! parameters are the function's: the pointers come first, in order.
use cranelift_codegen::ir::{types, Block, InstBuilder, MemFlags, Value};
use cranelift_frontend::FunctionBuilder;
use vstd::prelude::*;

use crate::jit::{code_ok, ins_ok, Ins};
use crate::pack_jit::{word_code_ok, word_ins_ok, WordIns};

verus! {

/// An SSA value of a Cranelift function.
#[verifier::external_type_specification]
#[verifier::external_body]
pub struct ExValue(cranelift_codegen::ir::Value);

/// Cranelift's function builder.
#[verifier::external_type_specification]
#[verifier::external_body]
pub struct ExFunctionBuilder<'a>(cranelift_frontend::FunctionBuilder<'a>);

/// A block of a Cranelift function.
#[verifier::external_type_specification]
#[verifier::external_body]
pub struct ExBlock(cranelift_codegen::ir::Block);

/// One call of the instruction builder.
pub enum NativeIns {
    LoadByte(Value, i32),
    LoadWord(Value, i32),
    Store(Value, Value, i32),
    Band(Value, Value),
    Bor(Value, Value),
    Bxor(Value, Value),
    Bnot(Value),
    BxorImm(Value, u64),
    BandImm(Value, u64),
    UshrImm(Value, u8),
    IshlImm(Value, u8),
    SshrImm(Value, u8),
    Select(Value, Value, Value),
    Bitselect(Value, Value, Value),
    Iconst(u64),
    Iadd(Value, Value),
    Return,
}

/// The builder stands in a block that still takes instructions.
pub uninterp spec fn block_open(fb: FunctionBuilder<'_>) -> bool;

/// The value belongs to the function under construction.
pub uninterp spec fn is_value(fb: FunctionBuilder<'_>, v: Value) -> bool;

/// What has been appended to a function under construction, in order: each
/// call of the instruction builder, with the value it returned.
pub uninterp spec fn program(fb: FunctionBuilder<'_>) -> Seq<(NativeIns, Option<Value>)>;

/// The block the builder stands in.
pub uninterp spec fn position(fb: FunctionBuilder<'_>) -> Option<Block>;

/// The parameters of a block.
pub uninterp spec fn params_of(fb: FunctionBuilder<'_>, block: Block) -> Seq<Value>;

/// The block a function starts in: the first of its layout.
pub uninterp spec fn entry_of(fb: FunctionBuilder<'_>) -> Option<Block>;

/// What every call of the instruction builder leaves alone: the builder stays
/// where it is, the blocks keep their parameters, and the function starts where
/// it did. The first instruction of all makes its block the one the function
/// starts in.
pub open spec fn appends(before: FunctionBuilder<'_>, after: FunctionBuilder<'_>) -> bool {
    &&& position(after) == position(before)
    &&& forall|b: Block| #[trigger] params_of(after, b) == params_of(before, b)
    &&& entry_of(after) == if entry_of(before) is None {
        position(before)
    } else {
        entry_of(before)
    }
}

/// `InstBuilder::load` of an `I8`: appends a byte load from `base + offset` to
/// the current block and returns its result, a new value.
#[verifier::external_body]
fn load_byte(fb: &mut FunctionBuilder<'_>, base: Value, offset: i32) -> (v: Value)
    requires
        block_open(*old(fb)),
        is_value(*old(fb), base),
    ensures
        appends(*old(fb), *final(fb)),
        program(*final(fb)) == program(*old(fb)).push((NativeIns::LoadByte(base, offset), Some(v))),
        block_open(*final(fb)),
        forall|x: Value| is_value(*old(fb), x) ==> #[trigger] is_value(*final(fb), x),
        is_value(*final(fb), v),
        !is_value(*old(fb), v),
{
    fb.ins().load(types::I8, MemFlags::trusted(), base, offset)
}

/// `InstBuilder::load` of an `I64`: appends a word load from `base + offset`
/// to the current block and returns its result, a new value.
#[verifier::external_body]
fn load_word(fb: &mut FunctionBuilder<'_>, base: Value, offset: i32) -> (v: Value)
    requires
        block_open(*old(fb)),
        is_value(*old(fb), base),
    ensures
        appends(*old(fb), *final(fb)),
        program(*final(fb)) == program(*old(fb)).push((NativeIns::LoadWord(base, offset), Some(v))),
        block_open(*final(fb)),
        forall|x: Value| is_value(*old(fb), x) ==> #[trigger] is_value(*final(fb), x),
        is_value(*final(fb), v),
        !is_value(*old(fb), v),
{
    fb.ins().load(types::I64, MemFlags::trusted(), base, offset)
}

/// `InstBuilder::store`: appends a store of `x` to `base + offset` to the
/// current block.
#[verifier::external_body]
fn store(fb: &mut FunctionBuilder<'_>, x: Value, base: Value, offset: i32)
    requires
        block_open(*old(fb)),
        is_value(*old(fb), x),
        is_value(*old(fb), base),
    ensures
        appends(*old(fb), *final(fb)),
        program(*final(fb)) == program(*old(fb)).push((NativeIns::Store(x, base, offset), None)),
        block_open(*final(fb)),
        forall|x: Value| is_value(*old(fb), x) ==> #[trigger] is_value(*final(fb), x),
{
    fb.ins().store(MemFlags::trusted(), x, base, offset);
}

/// `InstBuilder::band`: appends a bitwise and to the current block and returns
/// its result, a new value.
#[verifier::external_body]
fn band(fb: &mut FunctionBuilder<'_>, a: Value, b: Value) -> (v: Value)
    requires
        block_open(*old(fb)),
        is_value(*old(fb), a),
        is_value(*old(fb), b),
    ensures
        appends(*old(fb), *final(fb)),
        program(*final(fb)) == program(*old(fb)).push((NativeIns::Band(a, b), Some(v))),
        block_open(*final(fb)),
        forall|x: Value| is_value(*old(fb), x) ==> #[trigger] is_value(*final(fb), x),
        is_value(*final(fb), v),
        !is_value(*old(fb), v),
{
    fb.ins().band(a, b)
}

/// `InstBuilder::bor`: appends a bitwise or to the current block and returns
/// its result, a new value.
#[verifier::external_body]
fn bor(fb: &mut FunctionBuilder<'_>, a: Value, b: Value) -> (v: Value)
    requires
        block_open(*old(fb)),
        is_value(*old(fb), a),
        is_value(*old(fb), b),
    ensures
        appends(*old(fb), *final(fb)),
        program(*final(fb)) == program(*old(fb)).push((NativeIns::Bor(a, b), Some(v))),
        block_open(*final(fb)),
        forall|x: Value| is_value(*old(fb), x) ==> #[trigger] is_value(*final(fb), x),
        is_value(*final(fb), v),
        !is_value(*old(fb), v),
{
    fb.ins().bor(a, b)
}

/// `InstBuilder::bxor`: appends a bitwise exclusive or to the current block and
/// returns its result, a new value.
#[verifier::external_body]
fn bxor(fb: &mut FunctionBuilder<'_>, a: Value, b: Value) -> (v: Value)
    requires
        block_open(*old(fb)),
        is_value(*old(fb), a),
        is_value(*old(fb), b),
    ensures
        appends(*old(fb), *final(fb)),
        program(*final(fb)) == program(*old(fb)).push((NativeIns::Bxor(a, b), Some(v))),
        block_open(*final(fb)),
        forall|x: Value| is_value(*old(fb), x) ==> #[trigger] is_value(*final(fb), x),
        is_value(*final(fb), v),
        !is_value(*old(fb), v),
{
    fb.ins().bxor(a, b)
}

/// `InstBuilder::bnot`: appends a bitwise not to the current block and returns
/// its result, a new value.
#[verifier::external_body]
fn bnot(fb: &mut FunctionBuilder<'_>, a: Value) -> (v: Value)
    requires
        block_open(*old(fb)),
        is_value(*old(fb), a),
    ensures
        appends(*old(fb), *final(fb)),
        program(*final(fb)) == program(*old(fb)).push((NativeIns::Bnot(a), Some(v))),
        block_open(*final(fb)),
        forall|x: Value| is_value(*old(fb), x) ==> #[trigger] is_value(*final(fb), x),
        is_value(*final(fb), v),
        !is_value(*old(fb), v),
{
    fb.ins().bnot(a)
}

/// `InstBuilder::bxor_imm`: appends an exclusive or with a constant to the
/// current block and returns its result, a new value.
#[verifier::external_body]
fn bxor_imm(fb: &mut FunctionBuilder<'_>, a: Value, imm: u64) -> (v: Value)
    requires
        block_open(*old(fb)),
        is_value(*old(fb), a),
    ensures
        appends(*old(fb), *final(fb)),
        program(*final(fb)) == program(*old(fb)).push((NativeIns::BxorImm(a, imm), Some(v))),
        block_open(*final(fb)),
        forall|x: Value| is_value(*old(fb), x) ==> #[trigger] is_value(*final(fb), x),
        is_value(*final(fb), v),
        !is_value(*old(fb), v),
{
    fb.ins().bxor_imm(a, imm as i64)
}

/// `InstBuilder::band_imm`: appends an and with a constant to the current block
/// and returns its result, a new value.
#[verifier::external_body]
fn band_imm(fb: &mut FunctionBuilder<'_>, a: Value, imm: u64) -> (v: Value)
    requires
        block_open(*old(fb)),
        is_value(*old(fb), a),
    ensures
        appends(*old(fb), *final(fb)),
        program(*final(fb)) == program(*old(fb)).push((NativeIns::BandImm(a, imm), Some(v))),
        block_open(*final(fb)),
        forall|x: Value| is_value(*old(fb), x) ==> #[trigger] is_value(*final(fb), x),
        is_value(*final(fb), v),
        !is_value(*old(fb), v),
{
    fb.ins().band_imm(a, imm as i64)
}

/// `InstBuilder::ushr_imm`: appends a logical right shift by a constant to the
/// current block and returns its result, a new value.
#[verifier::external_body]
fn ushr_imm(fb: &mut FunctionBuilder<'_>, a: Value, k: u8) -> (v: Value)
    requires
        block_open(*old(fb)),
        is_value(*old(fb), a),
    ensures
        appends(*old(fb), *final(fb)),
        program(*final(fb)) == program(*old(fb)).push((NativeIns::UshrImm(a, k), Some(v))),
        block_open(*final(fb)),
        forall|x: Value| is_value(*old(fb), x) ==> #[trigger] is_value(*final(fb), x),
        is_value(*final(fb), v),
        !is_value(*old(fb), v),
{
    fb.ins().ushr_imm(a, i64::from(k))
}

/// `InstBuilder::ishl_imm`: appends a left shift by a constant to the current
/// block and returns its result, a new value.
#[verifier::external_body]
fn ishl_imm(fb: &mut FunctionBuilder<'_>, a: Value, k: u8) -> (v: Value)
    requires
        block_open(*old(fb)),
        is_value(*old(fb), a),
    ensures
        appends(*old(fb), *final(fb)),
        program(*final(fb)) == program(*old(fb)).push((NativeIns::IshlImm(a, k), Some(v))),
        block_open(*final(fb)),
        forall|x: Value| is_value(*old(fb), x) ==> #[trigger] is_value(*final(fb), x),
        is_value(*final(fb), v),
        !is_value(*old(fb), v),
{
    fb.ins().ishl_imm(a, i64::from(k))
}

/// `InstBuilder::sshr_imm`: appends an arithmetic right shift by a constant to
/// the current block and returns its result, a new value.
#[verifier::external_body]
fn sshr_imm(fb: &mut FunctionBuilder<'_>, a: Value, k: u8) -> (v: Value)
    requires
        block_open(*old(fb)),
        is_value(*old(fb), a),
    ensures
        appends(*old(fb), *final(fb)),
        program(*final(fb)) == program(*old(fb)).push((NativeIns::SshrImm(a, k), Some(v))),
        block_open(*final(fb)),
        forall|x: Value| is_value(*old(fb), x) ==> #[trigger] is_value(*final(fb), x),
        is_value(*final(fb), v),
        !is_value(*old(fb), v),
{
    fb.ins().sshr_imm(a, i64::from(k))
}

/// `InstBuilder::select`: appends a conditional select to the current block and
/// returns its result, a new value.
#[verifier::external_body]
fn select(fb: &mut FunctionBuilder<'_>, c: Value, x: Value, y: Value) -> (v: Value)
    requires
        block_open(*old(fb)),
        is_value(*old(fb), c),
        is_value(*old(fb), x),
        is_value(*old(fb), y),
    ensures
        appends(*old(fb), *final(fb)),
        program(*final(fb)) == program(*old(fb)).push((NativeIns::Select(c, x, y), Some(v))),
        block_open(*final(fb)),
        forall|x: Value| is_value(*old(fb), x) ==> #[trigger] is_value(*final(fb), x),
        is_value(*final(fb), v),
        !is_value(*old(fb), v),
{
    fb.ins().select(c, x, y)
}

/// `InstBuilder::bitselect`: appends a bitwise select to the current block and
/// returns its result, a new value.
#[verifier::external_body]
fn bitselect(fb: &mut FunctionBuilder<'_>, c: Value, x: Value, y: Value) -> (v: Value)
    requires
        block_open(*old(fb)),
        is_value(*old(fb), c),
        is_value(*old(fb), x),
        is_value(*old(fb), y),
    ensures
        appends(*old(fb), *final(fb)),
        program(*final(fb)) == program(*old(fb)).push((NativeIns::Bitselect(c, x, y), Some(v))),
        block_open(*final(fb)),
        forall|x: Value| is_value(*old(fb), x) ==> #[trigger] is_value(*final(fb), x),
        is_value(*final(fb), v),
        !is_value(*old(fb), v),
{
    fb.ins().bitselect(c, x, y)
}

/// `InstBuilder::iconst` of an `I64`: appends a constant to the current block
/// and returns its result, a new value.
#[verifier::external_body]
fn iconst(fb: &mut FunctionBuilder<'_>, imm: u64) -> (v: Value)
    requires
        block_open(*old(fb)),
    ensures
        appends(*old(fb), *final(fb)),
        program(*final(fb)) == program(*old(fb)).push((NativeIns::Iconst(imm), Some(v))),
        block_open(*final(fb)),
        forall|x: Value| is_value(*old(fb), x) ==> #[trigger] is_value(*final(fb), x),
        is_value(*final(fb), v),
        !is_value(*old(fb), v),
{
    fb.ins().iconst(types::I64, imm as i64)
}

/// `InstBuilder::iadd`: appends a wrapping addition to the current block and
/// returns its result, a new value.
#[verifier::external_body]
fn iadd(fb: &mut FunctionBuilder<'_>, a: Value, b: Value) -> (v: Value)
    requires
        block_open(*old(fb)),
        is_value(*old(fb), a),
        is_value(*old(fb), b),
    ensures
        appends(*old(fb), *final(fb)),
        program(*final(fb)) == program(*old(fb)).push((NativeIns::Iadd(a, b), Some(v))),
        block_open(*final(fb)),
        forall|x: Value| is_value(*old(fb), x) ==> #[trigger] is_value(*final(fb), x),
        is_value(*final(fb), v),
        !is_value(*old(fb), v),
{
    fb.ins().iadd(a, b)
}

/// `InstBuilder::return_`: appends a return without results to the current
/// block.
#[verifier::external_body]
fn ret(fb: &mut FunctionBuilder<'_>)
    requires
        block_open(*old(fb)),
    ensures
        appends(*old(fb), *final(fb)),
        program(*final(fb)) == program(*old(fb)).push((NativeIns::Return, None)),
{
    fb.ins().return_(&[]);
}

/// Byte offset of a slot: one byte per slot, or one word where 64 instances
/// are packed.
pub open spec fn slot_offset(slot: u32, swar: bool) -> i32 {
    if swar {
        (8 * slot) as i32
    } else {
        slot as i32
    }
}

/// The builder call that instruction `k` becomes; `vals` are the results so
/// far. One byte per slot holds a canonical 0/1, so inversion flips the low
/// bit and a mux is a select. With 64 packed instances every bit counts, so
/// inversion is a full not and a mux is a bitwise select.
pub open spec fn native_ins(
    ins: Ins,
    k: int,
    vals: Seq<Value>,
    base: Value,
    swar: bool,
) -> (NativeIns, Option<Value>) {
    match ins {
        Ins::Load(s) => (
            if swar {
                NativeIns::LoadWord(base, slot_offset(s, swar))
            } else {
                NativeIns::LoadByte(base, slot_offset(s, swar))
            },
            Some(vals[k]),
        ),
        Ins::And(a, b) => (NativeIns::Band(vals[a as int], vals[b as int]), Some(vals[k])),
        Ins::Or(a, b) => (NativeIns::Bor(vals[a as int], vals[b as int]), Some(vals[k])),
        Ins::Xor(a, b) => (NativeIns::Bxor(vals[a as int], vals[b as int]), Some(vals[k])),
        Ins::Invert(a) => (
            if swar {
                NativeIns::Bnot(vals[a as int])
            } else {
                NativeIns::BxorImm(vals[a as int], 1)
            },
            Some(vals[k]),
        ),
        Ins::Mux(a, b, c) => (
            if swar {
                NativeIns::Bitselect(vals[a as int], vals[b as int], vals[c as int])
            } else {
                NativeIns::Select(vals[a as int], vals[b as int], vals[c as int])
            },
            Some(vals[k]),
        ),
        Ins::Store(s, v) => (NativeIns::Store(vals[v as int], base, slot_offset(s, swar)), None),
    }
}

/// The builder calls that `code` becomes, and the return behind them.
pub open spec fn native_code(
    code: Seq<Ins>,
    vals: Seq<Value>,
    base: Value,
    swar: bool,
) -> Seq<(NativeIns, Option<Value>)> {
    Seq::new(code.len(), |k: int| native_ins(code[k], k, vals, base, swar)).push(
        (NativeIns::Return, None),
    )
}

/// A store has no result of its own: later operands mean what it stored.
pub open spec fn stores_forward(code: Seq<Ins>, vals: Seq<Value>) -> bool {
    forall|k: int|
        0 <= k < code.len() ==> (#[trigger] code[k] matches Ins::Store(_, v) ==> vals[k] == vals[v as int])
}

/// Every instruction but a store has a value of its own.
pub open spec fn values_apart(code: Seq<Ins>, vals: Seq<Value>) -> bool {
    forall|j: int, k: int|
        0 <= j < k < code.len() && !(#[trigger] code[k] is Store) ==> #[trigger] vals[j] != vals[k]
}

/// Append a settle function to an open block whose parameter is `base`, the
/// address of the value buffer. Returns the value behind each instruction.
fn emit_bytes(fb: &mut FunctionBuilder<'_>, base: Value, code: &Vec<Ins>, slots: usize, swar: bool) -> (vals:
    Vec<Value>)
    requires
        block_open(*old(fb)),
        is_value(*old(fb), base),
        code_ok(code@, slots as int),
        swar ==> 8 * slots <= i32::MAX,
        slots <= i32::MAX,
    ensures
        vals@.len() == code@.len(),
        stores_forward(code@, vals@),
        values_apart(code@, vals@),
        appends(*old(fb), *final(fb)),
        program(*final(fb)) == program(*old(fb)) + native_code(code@, vals@, base, swar),
{
    let mut vals: Vec<Value> = Vec::with_capacity(code.len());
    for k in 0..code.len()
        invariant
            block_open(*fb),
            *fb == *old(fb) || appends(*old(fb), *fb),
            is_value(*fb, base),
            forall|j: int| 0 <= j < vals@.len() ==> is_value(*fb, #[trigger] vals@[j]),
            code_ok(code@, slots as int),
            swar ==> 8 * slots <= i32::MAX,
            slots <= i32::MAX,
            vals@.len() == k,
            forall|j: int|
                0 <= j < k ==> (#[trigger] code@[j] matches Ins::Store(_, v) ==> vals@[j] == vals@[v as int]),
            forall|i: int, j: int|
                0 <= i < j < k && !(#[trigger] code@[j] is Store) ==> #[trigger] vals@[i] != vals@[j],
            program(*fb) == program(*old(fb)) + Seq::new(
                k as nat,
                |j: int| native_ins(code@[j], j, vals@, base, swar),
            ),
    {
        let ins = code[k];
        let ghost vals0 = vals@;
        assert(ins_ok(code@[k as int], k as int, slots as int));
        let v: Value = match ins {
            Ins::Load(s) => if swar {
                load_word(fb, base, (8 * s) as i32)
            } else {
                load_byte(fb, base, s as i32)
            },
            Ins::And(a, b) => band(fb, vals[a as usize], vals[b as usize]),
            Ins::Or(a, b) => bor(fb, vals[a as usize], vals[b as usize]),
            Ins::Xor(a, b) => bxor(fb, vals[a as usize], vals[b as usize]),
            Ins::Invert(a) => if swar {
                bnot(fb, vals[a as usize])
            } else {
                bxor_imm(fb, vals[a as usize], 1)
            },
            Ins::Mux(a, b, c) => if swar {
                bitselect(fb, vals[a as usize], vals[b as usize], vals[c as usize])
            } else {
                select(fb, vals[a as usize], vals[b as usize], vals[c as usize])
            },
            Ins::Store(s, v) => {
                let x = vals[v as usize];
                if swar {
                    store(fb, x, base, (8 * s) as i32);
                } else {
                    store(fb, x, base, s as i32);
                }
                x
            },
        };
        vals.push(v);
        proof {
            let before = Seq::new(k as nat, |j: int| native_ins(code@[j], j, vals0, base, swar));
            let after = Seq::new((k + 1) as nat, |j: int| native_ins(code@[j], j, vals@, base, swar));
            assert forall|j: int| 0 <= j < k implies before[j] == after[j] by {
                assert(ins_ok(code@[j], j, slots as int));
            }
            assert(after =~= before.push(native_ins(ins, k as int, vals@, base, swar)));
            assert(program(*fb) =~= program(*old(fb)) + after);
            assert forall|j: int| 0 <= j < k + 1 implies (#[trigger] code@[j] matches Ins::Store(_, v)
                ==> vals@[j] == vals@[v as int]) by {
                assert(ins_ok(code@[j], j, slots as int));
            }
        }
    }
    ret(fb);
    proof {
        assert(program(*fb) =~= program(*old(fb)) + native_code(code@, vals@, base, swar));
    }
    vals
}

/// The builder call that word instruction `k` becomes.
pub open spec fn native_word_ins(
    ins: WordIns,
    k: int,
    vals: Seq<Value>,
    base: Value,
    staging: Value,
) -> (NativeIns, Option<Value>) {
    match ins {
        WordIns::Const(c) => (NativeIns::Iconst(c), Some(vals[k])),
        WordIns::Load(w) => (NativeIns::LoadWord(base, slot_offset(w, true)), Some(vals[k])),
        WordIns::Shr(a, s) => (NativeIns::UshrImm(vals[a as int], s), Some(vals[k])),
        WordIns::Shl(a, s) => (NativeIns::IshlImm(vals[a as int], s), Some(vals[k])),
        WordIns::Spread(a) => (NativeIns::SshrImm(vals[a as int], 63), Some(vals[k])),
        WordIns::Mask(a, m) => (NativeIns::BandImm(vals[a as int], m), Some(vals[k])),
        WordIns::And(a, b) => (NativeIns::Band(vals[a as int], vals[b as int]), Some(vals[k])),
        WordIns::Or(a, b) => (NativeIns::Bor(vals[a as int], vals[b as int]), Some(vals[k])),
        WordIns::Xor(a, b) => (NativeIns::Bxor(vals[a as int], vals[b as int]), Some(vals[k])),
        WordIns::Not(a) => (NativeIns::Bnot(vals[a as int]), Some(vals[k])),
        WordIns::Select(a, b, c) => (
            NativeIns::Bitselect(vals[a as int], vals[b as int], vals[c as int]),
            Some(vals[k]),
        ),
        WordIns::Add(a, b) => (NativeIns::Iadd(vals[a as int], vals[b as int]), Some(vals[k])),
        WordIns::Store(w, v) => (NativeIns::Store(vals[v as int], base, slot_offset(w, true)), None),
        WordIns::Stage(s, v) => (NativeIns::Store(vals[v as int], staging, slot_offset(s, true)), None),
    }
}

/// The builder calls that word code becomes, and the return behind them.
pub open spec fn native_word_code(
    code: Seq<WordIns>,
    vals: Seq<Value>,
    base: Value,
    staging: Value,
) -> Seq<(NativeIns, Option<Value>)> {
    Seq::new(code.len(), |k: int| native_word_ins(code[k], k, vals, base, staging)).push(
        (NativeIns::Return, None),
    )
}

/// A store has no result of its own: later operands mean what it stored.
pub open spec fn word_stores_forward(code: Seq<WordIns>, vals: Seq<Value>) -> bool {
    forall|k: int|
        0 <= k < code.len() ==> match #[trigger] code[k] {
            WordIns::Store(_, v) | WordIns::Stage(_, v) => vals[k] == vals[v as int],
            _ => true,
        }
}

/// Every instruction but a store has a value of its own.
pub open spec fn word_values_apart(code: Seq<WordIns>, vals: Seq<Value>) -> bool {
    forall|j: int, k: int|
        0 <= j < k < code.len() && !(#[trigger] code[k] is Store) && !(code[k] is Stage)
            ==> #[trigger] vals[j] != vals[k]
}

/// Append a chunk of a packed plan to an open block whose parameters are
/// `base` and `staging`, the addresses of the arena and the staging words.
/// Returns the value behind each instruction.
fn emit_words(
    fb: &mut FunctionBuilder<'_>,
    base: Value,
    staging: Value,
    code: &Vec<WordIns>,
    words: usize,
    stages: usize,
) -> (vals: Vec<Value>)
    requires
        block_open(*old(fb)),
        is_value(*old(fb), base),
        is_value(*old(fb), staging),
        word_code_ok(code@, words as int, stages as int),
        8 * words <= i32::MAX,
        8 * stages <= i32::MAX,
    ensures
        vals@.len() == code@.len(),
        word_stores_forward(code@, vals@),
        word_values_apart(code@, vals@),
        appends(*old(fb), *final(fb)),
        program(*final(fb)) == program(*old(fb)) + native_word_code(code@, vals@, base, staging),
{
    let mut vals: Vec<Value> = Vec::with_capacity(code.len());
    for k in 0..code.len()
        invariant
            block_open(*fb),
            *fb == *old(fb) || appends(*old(fb), *fb),
            is_value(*fb, base),
            is_value(*fb, staging),
            forall|j: int| 0 <= j < vals@.len() ==> is_value(*fb, #[trigger] vals@[j]),
            word_code_ok(code@, words as int, stages as int),
            8 * words <= i32::MAX,
            8 * stages <= i32::MAX,
            vals@.len() == k,
            forall|j: int|
                0 <= j < k ==> match #[trigger] code@[j] {
                    WordIns::Store(_, v) | WordIns::Stage(_, v) => vals@[j] == vals@[v as int],
                    _ => true,
                },
            forall|i: int, j: int|
                0 <= i < j < k && !(#[trigger] code@[j] is Store) && !(code@[j] is Stage)
                    ==> #[trigger] vals@[i] != vals@[j],
            program(*fb) == program(*old(fb)) + Seq::new(
                k as nat,
                |j: int| native_word_ins(code@[j], j, vals@, base, staging),
            ),
    {
        let ins = code[k];
        let ghost vals0 = vals@;
        assert(word_ins_ok(code@[k as int], k as int, words as int, stages as int));
        let v: Value = match ins {
            WordIns::Const(c) => iconst(fb, c),
            WordIns::Load(w) => load_word(fb, base, (8 * w) as i32),
            WordIns::Shr(a, s) => ushr_imm(fb, vals[a as usize], s),
            WordIns::Shl(a, s) => ishl_imm(fb, vals[a as usize], s),
            WordIns::Spread(a) => sshr_imm(fb, vals[a as usize], 63),
            WordIns::Mask(a, m) => band_imm(fb, vals[a as usize], m),
            WordIns::And(a, b) => band(fb, vals[a as usize], vals[b as usize]),
            WordIns::Or(a, b) => bor(fb, vals[a as usize], vals[b as usize]),
            WordIns::Xor(a, b) => bxor(fb, vals[a as usize], vals[b as usize]),
            WordIns::Not(a) => bnot(fb, vals[a as usize]),
            WordIns::Select(a, b, c) => bitselect(fb, vals[a as usize], vals[b as usize], vals[c as usize]),
            WordIns::Add(a, b) => iadd(fb, vals[a as usize], vals[b as usize]),
            WordIns::Store(w, v) => {
                let x = vals[v as usize];
                store(fb, x, base, (8 * w) as i32);
                x
            },
            WordIns::Stage(s, v) => {
                let x = vals[v as usize];
                store(fb, x, staging, (8 * s) as i32);
                x
            },
        };
        vals.push(v);
        proof {
            let before = Seq::new(k as nat, |j: int| native_word_ins(code@[j], j, vals0, base, staging));
            let after = Seq::new((k + 1) as nat, |j: int| native_word_ins(code@[j], j, vals@, base, staging));
            assert forall|j: int| 0 <= j < k implies before[j] == after[j] by {
                assert(word_ins_ok(code@[j], j, words as int, stages as int));
            }
            assert(after =~= before.push(native_word_ins(ins, k as int, vals@, base, staging)));
            assert(program(*fb) =~= program(*old(fb)) + after);
            assert forall|j: int| 0 <= j < k + 1 implies match #[trigger] code@[j] {
                WordIns::Store(_, v) | WordIns::Stage(_, v) => vals@[j] == vals@[v as int],
                _ => true,
            } by {
                assert(word_ins_ok(code@[j], j, words as int, stages as int));
            }
        }
    }
    ret(fb);
    proof {
        assert(program(*fb) =~= program(*old(fb)) + native_word_code(code@, vals@, base, staging));
    }
    vals
}

/// The block is new: nothing was appended to it, nothing branches to it, and
/// it is not sealed.
pub uninterp spec fn is_new(fb: FunctionBuilder<'_>, block: Block) -> bool;

/// How many parameters a block can have; their numbers are 16 bits wide.
pub const MAX_PARAMS: usize = 0x1_0000;

/// How many parameters the function's signature has.
pub uninterp spec fn param_count(fb: FunctionBuilder<'_>) -> nat;

/// Values stay values, and the program stays as it is, and where it starts.
pub open spec fn keeps_program(before: FunctionBuilder<'_>, after: FunctionBuilder<'_>) -> bool {
    &&& program(after) == program(before)
    &&& param_count(after) == param_count(before)
    &&& entry_of(after) == entry_of(before)
    &&& forall|x: Value| is_value(before, x) ==> #[trigger] is_value(after, x)
}

/// `FunctionBuilder::current_block`: the block the builder stands in.
#[verifier::external_body]
fn current_block(fb: &FunctionBuilder<'_>) -> (block: Option<Block>)
    ensures
        block == position(*fb),
{
    fb.current_block()
}

/// `Layout::entry_block`: the block the function starts in.
#[verifier::external_body]
fn entry_block(fb: &FunctionBuilder<'_>) -> (block: Option<Block>)
    ensures
        block == entry_of(*fb),
{
    fb.func.layout.entry_block()
}

/// The length of `Signature::params` of the function under construction.
#[verifier::external_body]
fn signature_params(fb: &FunctionBuilder<'_>) -> (n: usize)
    ensures
        n == param_count(*fb),
{
    fb.func.signature.params.len()
}

/// `FunctionBuilder::create_block`: makes a block without parameters; the
/// builder stays where it is.
#[verifier::external_body]
fn create_block(fb: &mut FunctionBuilder<'_>) -> (block: Block)
    ensures
        keeps_program(*old(fb), *final(fb)),
        position(*final(fb)) == position(*old(fb)),
        is_new(*final(fb), block),
        params_of(*final(fb), block) == Seq::<Value>::empty(),
{
    fb.create_block()
}

/// `FunctionBuilder::append_block_params_for_function_params`: gives the block
/// a parameter for each of the function's, all of them new values. A
/// parameter's number has to fit 16 bits.
#[verifier::external_body]
fn append_params(fb: &mut FunctionBuilder<'_>, block: Block)
    requires
        param_count(*old(fb)) <= MAX_PARAMS,
        is_new(*old(fb), block),
        params_of(*old(fb), block) == Seq::<Value>::empty(),
    ensures
        keeps_program(*old(fb), *final(fb)),
        position(*final(fb)) == position(*old(fb)),
        is_new(*final(fb), block),
        params_of(*final(fb), block).len() == param_count(*old(fb)),
        params_of(*final(fb), block).no_duplicates(),
        forall|i: int|
            0 <= i < params_of(*final(fb), block).len() ==> is_value(
                *final(fb),
                #[trigger] params_of(*final(fb), block)[i],
            ),
{
    fb.append_block_params_for_function_params(block)
}

/// `FunctionBuilder::switch_to_block` from nowhere to a new block, which then
/// takes instructions.
#[verifier::external_body]
fn switch_to_block(fb: &mut FunctionBuilder<'_>, block: Block)
    requires
        position(*old(fb)) is None,
        is_new(*old(fb), block),
    ensures
        keeps_program(*old(fb), *final(fb)),
        position(*final(fb)) == Some(block),
        block_open(*final(fb)),
        is_new(*final(fb), block),
        params_of(*final(fb), block) == params_of(*old(fb), block),
{
    fb.switch_to_block(block)
}

/// `FunctionBuilder::seal_block` of the new block the builder stands in:
/// nothing will branch to it. It has no predecessors and uses no variables,
/// so nothing else changes.
#[verifier::external_body]
fn seal_block(fb: &mut FunctionBuilder<'_>, block: Block)
    requires
        is_new(*old(fb), block),
        position(*old(fb)) == Some(block),
        block_open(*old(fb)),
    ensures
        keeps_program(*old(fb), *final(fb)),
        position(*final(fb)) == position(*old(fb)),
        block_open(*final(fb)),
        params_of(*final(fb), block) == params_of(*old(fb), block),
{
    fb.seal_block(block)
}

/// `FunctionBuilder::block_params` of the block the builder stands in, which
/// is a block of the function under construction: its parameters.
#[verifier::external_body]
fn block_params<'a>(fb: &'a FunctionBuilder<'_>, block: Block) -> (params: &'a [Value])
    requires
        position(*fb) == Some(block),
    ensures
        params@ == params_of(*fb, block),
{
    fb.block_params(block)
}

/// The values are the first parameters of the block, in order.
pub open spec fn first_params(fb: FunctionBuilder<'_>, block: Option<Block>, pointers: Seq<Value>) -> bool {
    block matches Some(b) && pointers.len() <= params_of(fb, b).len() && pointers == params_of(fb, b).take(
        pointers.len() as int,
    )
}

/// The builder is unused: it stands nowhere, its function has no code yet, and
/// a block can have the function's parameters, `n` or more.
pub open spec fn takes(fb: FunctionBuilder<'_>, n: int) -> bool {
    &&& position(fb) is None
    &&& entry_of(fb) is None
    &&& n <= param_count(fb) <= MAX_PARAMS
}

/// Open the entry block of a function; returns its first `n` parameters.
fn open_entry(fb: &mut FunctionBuilder<'_>, n: usize) -> (pointers: Vec<Value>)
    requires
        takes(*old(fb), n as int),
    ensures
        keeps_program(*old(fb), *final(fb)),
        block_open(*final(fb)),
        pointers@.len() == n,
        first_params(*final(fb), position(*final(fb)), pointers@),
        pointers@.no_duplicates(),
        forall|i: int| 0 <= i < n ==> is_value(*final(fb), #[trigger] pointers@[i]),
{
    let block = create_block(fb);
    append_params(fb, block);
    switch_to_block(fb, block);
    seal_block(fb, block);
    let params = block_params(fb, block);
    let mut pointers: Vec<Value> = Vec::with_capacity(n);
    for i in 0..n
        invariant
            n <= params@.len(),
            params@ == params_of(*fb, block),
            params@.no_duplicates(),
            pointers@ == params@.take(i as int),
    {
        pointers.push(params[i]);
        assert(params@.take(i + 1) =~= params@.take(i as int).push(params@[i as int]));
    }
    pointers
}

/// The code of a settle function, which takes a pointer as its first
/// parameter: the pointer, and the value behind each instruction. `None` where
/// the builder is in use, its function has code already, or the function takes
/// no pointer or more parameters than a block can have.
pub fn build_settle(fb: &mut FunctionBuilder<'_>, code: &Vec<Ins>, slots: usize, swar: bool) -> (res: Option<
    (Value, Vec<Value>),
>)
    requires
        code_ok(code@, slots as int),
        swar ==> 8 * slots <= i32::MAX,
        slots <= i32::MAX,
    ensures
        res is Some <==> takes(*old(fb), 1),
        res is None ==> *final(fb) == *old(fb),
        res matches Some((base, vals)) ==> {
            &&& first_params(*final(fb), entry_of(*final(fb)), seq![base])
            &&& vals@.len() == code@.len()
            &&& stores_forward(code@, vals@)
            &&& values_apart(code@, vals@)
            &&& program(*final(fb)) == program(*old(fb)) + native_code(code@, vals@, base, swar)
        },
{
    let count: usize = signature_params(fb);
    if current_block(fb).is_some() || entry_block(fb).is_some() || count < 1 || count > MAX_PARAMS {
        return None;
    }
    let pointers = open_entry(fb, 1);
    let base = pointers[0];
    assert(pointers@ =~= seq![base]);
    let vals = emit_bytes(fb, base, code, slots, swar);
    Some((base, vals))
}

/// The code of a function for a chunk of a packed plan, which takes the arena
/// as its first parameter and the staging words as its second: the pointers,
/// and the value behind each instruction. `None` where the builder is in use,
/// its function has code already, or the function takes fewer pointers or more
/// parameters than a block can have.
pub fn build_words(fb: &mut FunctionBuilder<'_>, code: &Vec<WordIns>, words: usize, stages: usize) -> (res:
    Option<(Value, Value, Vec<Value>)>)
    requires
        word_code_ok(code@, words as int, stages as int),
        8 * words <= i32::MAX,
        8 * stages <= i32::MAX,
    ensures
        res is Some <==> takes(*old(fb), 2),
        res is None ==> *final(fb) == *old(fb),
        res matches Some((base, staging, vals)) ==> {
            &&& first_params(*final(fb), entry_of(*final(fb)), seq![base, staging])
            &&& base != staging
            &&& vals@.len() == code@.len()
            &&& word_stores_forward(code@, vals@)
            &&& word_values_apart(code@, vals@)
            &&& program(*final(fb)) == program(*old(fb)) + native_word_code(code@, vals@, base, staging)
        },
{
    let count: usize = signature_params(fb);
    if current_block(fb).is_some() || entry_block(fb).is_some() || count < 2 || count > MAX_PARAMS {
        return None;
    }
    let pointers = open_entry(fb, 2);
    let base = pointers[0];
    let staging = pointers[1];
    assert(pointers@ =~= seq![base, staging]);
    let vals = emit_words(fb, base, staging, code, words, stages);
    Some((base, staging, vals))
}

} // verus!
