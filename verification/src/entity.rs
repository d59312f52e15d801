//! Dense entity references and the collections they index.
//!
//! [`Signal`] and [`Reg`] are the keys of `cranelift_entity`'s primary maps
//! and the elements of its pooled lists. The functions here are the only
//! ones that touch those collections.
use cranelift_entity::packed_option::ReservedValue;
use cranelift_entity::{EntityList, EntityRef, ListPool, PrimaryMap};
use vstd::prelude::*;

use crate::netlist::{GateOp, Node};

verus! {

/// A wire of a circuit: the index of the instruction that drives it.
#[derive(Copy, Clone, Debug, PartialEq, Eq, Hash, PartialOrd, Ord)]
pub struct Signal(u32);

/// A register of a circuit.
#[derive(Copy, Clone, Debug, PartialEq, Eq, Hash, PartialOrd, Ord)]
pub struct Reg(u32);

impl Signal {
    pub closed spec fn id(self) -> int {
        self.0 as int
    }

    /// A signal is its index.
    pub broadcast proof fn lemma_id(self, other: Signal)
        ensures
            #![trigger self.id(), other.id()]
            self.id() == other.id() ==> self == other,
    {
    }

    /// Indices are 32-bit numbers.
    pub broadcast proof fn lemma_range(self)
        ensures
            0 <= #[trigger] self.id() <= u32::MAX,
    {
    }

    /// The signal with the given index.
    pub(crate) fn from_index(index: usize) -> (s: Signal)
        requires
            index <= u32::MAX,
        ensures
            s.id() == index,
    {
        Signal(index as u32)
    }

    /// The signal's index as a number.
    pub fn as_u32(self) -> (i: u32)
        ensures
            i == self.id(),
    {
        self.0
    }
}

impl Reg {
    pub closed spec fn id(self) -> int {
        self.0 as int
    }

    /// A register is its index.
    pub broadcast proof fn lemma_id(self, other: Reg)
        ensures
            #![trigger self.id(), other.id()]
            self.id() == other.id() ==> self == other,
    {
    }

    /// Indices are 32-bit numbers.
    pub broadcast proof fn lemma_range(self)
        ensures
            0 <= #[trigger] self.id() <= u32::MAX,
    {
    }

    /// The register's index as a number.
    pub fn as_u32(self) -> (i: u32)
        ensures
            i == self.id(),
    {
        self.0
    }

    /// The register with the given index.
    pub(crate) fn from_index(index: usize) -> (r: Reg)
        requires
            index <= u32::MAX,
        ensures
            r.id() == index,
    {
        Reg(index as u32)
    }
}

impl EntityRef for Signal {
    fn new(index: usize) -> (s: Self)
        ensures
            index <= u32::MAX ==> s.id() == index,
    {
        Signal(index as u32)
    }

    fn index(self) -> (i: usize)
        ensures
            i == self.id(),
    {
        self.0 as usize
    }
}

impl ReservedValue for Signal {
    fn reserved_value() -> (s: Self)
        ensures
            s.id() == u32::MAX,
    {
        Signal(u32::MAX)
    }

    fn is_reserved_value(&self) -> (b: bool)
        ensures
            b == (self.id() == u32::MAX),
    {
        self.0 == u32::MAX
    }
}

impl EntityRef for Reg {
    fn new(index: usize) -> (s: Self)
        ensures
            index <= u32::MAX ==> s.id() == index,
    {
        Reg(index as u32)
    }

    fn index(self) -> (i: usize)
        ensures
            i == self.id(),
    {
        self.0 as usize
    }
}

/// A list of signals inside a [`SignalPool`]: a `cranelift_entity::EntityList`.
#[verifier::external_body]
#[derive(Debug)]
pub struct SignalList {
    list: EntityList<Signal>,
}

/// The memory behind signal lists: a `cranelift_entity::ListPool`.
#[verifier::external_body]
#[derive(Debug)]
pub struct SignalPool {
    pool: ListPool<Signal>,
}

/// Instructions by signal: a `cranelift_entity::PrimaryMap`.
#[verifier::external_body]
#[derive(Debug)]
pub struct InstMap {
    map: PrimaryMap<Signal, Instruction>,
}

/// Registers by reference: a `cranelift_entity::PrimaryMap`.
#[verifier::external_body]
#[derive(Debug)]
pub struct RegMap {
    map: PrimaryMap<Reg, Register>,
}

/// What drives a signal.
#[derive(Debug)]
pub enum InstData {
    Const { value: bool },
    Input { index: u32 },
    Gate { op: GateOp, inputs: SignalList },
    RegisterOutput { reg: Reg },
}

#[derive(Debug)]
pub struct Instruction {
    pub data: InstData,
    pub debug_name_index: Option<u32>,
}

#[derive(Debug, Copy, Clone)]
pub struct Register {
    pub data_input: Signal,
    pub initial: bool,
    pub name_index: Option<u32>,
}

/// The instructions a map holds, in key order.
pub uninterp spec fn inst_seq(map: InstMap) -> Seq<Instruction>;

/// The registers a map holds, in key order.
pub uninterp spec fn reg_seq(map: RegMap) -> Seq<Register>;

/// The live lists of a pool, by handle.
pub uninterp spec fn pool_lists(pool: SignalPool) -> Map<SignalList, Seq<Signal>>;

/// The number of elements in the pool's backing vector.
pub uninterp spec fn pool_words(pool: SignalPool) -> nat;

/// Whether a handle is the empty list, which lives in no pool.
pub uninterp spec fn list_is_nil(list: SignalList) -> bool;

/// A handle that may be read and grown against `pool`.
pub open spec fn list_live(list: SignalList, pool: SignalPool) -> bool {
    list_is_nil(list) || pool_lists(pool).contains_key(list)
}

/// The elements of a live list.
pub open spec fn list_items(list: SignalList, pool: SignalPool) -> Seq<Signal> {
    if list_is_nil(list) {
        Seq::empty()
    } else {
        pool_lists(pool)[list]
    }
}

pub open spec fn ids(signals: Seq<Signal>) -> Seq<int> {
    Seq::new(signals.len(), |i: int| signals[i].id())
}

/// The node an instruction stands for.
pub open spec fn node_of(data: InstData, pool: SignalPool) -> Node {
    match data {
        InstData::Const { value } => Node::Const(value),
        InstData::Input { index } => Node::Input(index as int),
        InstData::Gate { op, inputs } => Node::Gate(op, ids(list_items(inputs, pool))),
        InstData::RegisterOutput { reg } => Node::RegOut(reg.id()),
    }
}

/// `PrimaryMap::new` for instructions: the map is empty.
#[verifier::external_body]
pub(crate) fn insts_new() -> (map: InstMap)
    ensures
        inst_seq(map) == Seq::<Instruction>::empty(),
{
    InstMap { map: PrimaryMap::new() }
}

/// `PrimaryMap::push` for instructions: appends the instruction and returns
/// its index. The index must be representable as a signal.
#[verifier::external_body]
pub(crate) fn insts_push(map: &mut InstMap, inst: Instruction) -> (s: Signal)
    requires
        inst_seq(*old(map)).len() < u32::MAX,
    ensures
        inst_seq(*final(map)) == inst_seq(*old(map)).push(inst),
        s.id() == inst_seq(*old(map)).len(),
{
    map.map.push(inst)
}

/// `PrimaryMap::len` for instructions.
#[verifier::external_body]
pub(crate) fn insts_len(map: &InstMap) -> (n: usize)
    ensures
        n == inst_seq(*map).len(),
{
    map.map.len()
}

/// Indexing a `PrimaryMap` of instructions; the key must be in the map.
#[verifier::external_body]
pub(crate) fn insts_get(map: &InstMap, s: Signal) -> (inst: &Instruction)
    requires
        s.id() < inst_seq(*map).len(),
    ensures
        *inst == inst_seq(*map)[s.id()],
{
    &map.map[s]
}

/// `PrimaryMap::new` for registers: the map is empty.
#[verifier::external_body]
pub(crate) fn regs_new() -> (map: RegMap)
    ensures
        reg_seq(map) == Seq::<Register>::empty(),
{
    RegMap { map: PrimaryMap::new() }
}

/// `PrimaryMap::push` for registers: appends the register and returns its
/// index. The index must be representable as a register reference.
#[verifier::external_body]
pub(crate) fn regs_push(map: &mut RegMap, reg: Register) -> (r: Reg)
    requires
        reg_seq(*old(map)).len() < u32::MAX,
    ensures
        reg_seq(*final(map)) == reg_seq(*old(map)).push(reg),
        r.id() == reg_seq(*old(map)).len(),
{
    map.map.push(reg)
}

/// `PrimaryMap::len` for registers.
#[verifier::external_body]
pub(crate) fn regs_len(map: &RegMap) -> (n: usize)
    ensures
        n == reg_seq(*map).len(),
{
    map.map.len()
}

/// Indexing a `PrimaryMap` of registers; the key must be in the map.
#[verifier::external_body]
pub(crate) fn regs_get(map: &RegMap, r: Reg) -> (reg: &Register)
    requires
        r.id() < reg_seq(*map).len(),
    ensures
        *reg == reg_seq(*map)[r.id()],
{
    &map.map[r]
}

/// Assigning through `PrimaryMap`'s mutable index: the register at `r` is
/// replaced and every other one stays.
#[verifier::external_body]
pub(crate) fn regs_set(map: &mut RegMap, r: Reg, reg: Register)
    requires
        r.id() < reg_seq(*old(map)).len(),
    ensures
        reg_seq(*final(map)) == reg_seq(*old(map)).update(r.id(), reg),
{
    map.map[r] = reg;
}

/// `ListPool::new`: no lists, no memory.
#[verifier::external_body]
pub(crate) fn pool_new() -> (pool: SignalPool)
    ensures
        pool_lists(pool).dom() == Set::<SignalList>::empty(),
        pool_words(pool) == 0,
{
    SignalPool { pool: ListPool::new() }
}

/// `EntityList::new`: the empty list.
#[verifier::external_body]
pub(crate) fn list_new() -> (list: SignalList)
    ensures
        list_is_nil(list),
{
    SignalList { list: EntityList::new() }
}

/// `EntityList::push` on a list of fewer than three elements. A list of up
/// to three elements occupies one four-word block, so the first push takes a
/// block (fresh, or off the pool's free list) and the later ones stay in it;
/// no other list is touched. Handles are 32-bit, so the pool must not outgrow
/// them.
#[verifier::external_body]
pub(crate) fn list_push(list: &mut SignalList, s: Signal, pool: &mut SignalPool)
    requires
        list_live(*old(list), *old(pool)),
        list_items(*old(list), *old(pool)).len() < 3,
        pool_words(*old(pool)) + 4 <= u32::MAX,
    ensures
        !list_is_nil(*final(list)),
        list_is_nil(*old(list)) ==> !pool_lists(*old(pool)).contains_key(*final(list)),
        !list_is_nil(*old(list)) ==> *final(list) == *old(list),
        pool_lists(*final(pool)) == pool_lists(*old(pool)).insert(
            *final(list),
            list_items(*old(list), *old(pool)).push(s),
        ),
        pool_words(*final(pool)) <= pool_words(*old(pool)) + (if list_is_nil(*old(list)) {
            4nat
        } else {
            0
        }),
{
    list.list.push(s, &mut pool.pool);
}

/// `EntityList::as_slice` on a live list.
#[verifier::external_body]
pub(crate) fn list_slice<'a>(list: &SignalList, pool: &'a SignalPool) -> (items: &'a [Signal])
    requires
        list_live(*list, *pool),
    ensures
        items@ == list_items(*list, *pool),
{
    list.list.as_slice(&pool.pool)
}

/// `EntityList::clone`: another handle to the same list.
#[verifier::external_body]
fn list_clone(list: &SignalList) -> (copy: SignalList)
    ensures
        copy == *list,
{
    SignalList { list: list.list.clone() }
}

/// `ListPool::clone`: a pool with the same lists under the same handles.
#[verifier::external_body]
fn pool_clone(pool: &SignalPool) -> (copy: SignalPool)
    ensures
        pool_lists(copy) == pool_lists(*pool),
        pool_words(copy) == pool_words(*pool),
{
    SignalPool { pool: pool.pool.clone() }
}

/// `PrimaryMap::clone` for instructions: a map with a clone of each.
#[verifier::external_body]
fn insts_clone(map: &InstMap) -> (copy: InstMap)
    ensures
        inst_seq(copy) == inst_seq(*map),
{
    InstMap { map: map.map.clone() }
}

/// `PrimaryMap::clone` for registers: a map with a copy of each.
#[verifier::external_body]
fn regs_clone(map: &RegMap) -> (copy: RegMap)
    ensures
        reg_seq(copy) == reg_seq(*map),
{
    RegMap { map: map.map.clone() }
}

impl Clone for SignalList {
    fn clone(&self) -> (copy: Self)
        ensures
            copy == *self,
    {
        list_clone(self)
    }
}

impl Clone for SignalPool {
    fn clone(&self) -> (copy: Self)
        ensures
            pool_lists(copy) == pool_lists(*self),
            pool_words(copy) == pool_words(*self),
    {
        pool_clone(self)
    }
}

impl Clone for InstMap {
    fn clone(&self) -> (copy: Self)
        ensures
            inst_seq(copy) == inst_seq(*self),
    {
        insts_clone(self)
    }
}

impl Clone for RegMap {
    fn clone(&self) -> (copy: Self)
        ensures
            reg_seq(copy) == reg_seq(*self),
    {
        regs_clone(self)
    }
}

impl Clone for InstData {
    fn clone(&self) -> (copy: Self)
        ensures
            copy == *self,
    {
        match self {
            InstData::Const { value } => InstData::Const { value: *value },
            InstData::Input { index } => InstData::Input { index: *index },
            InstData::Gate { op, inputs } => InstData::Gate { op: *op, inputs: inputs.clone() },
            InstData::RegisterOutput { reg } => InstData::RegisterOutput { reg: *reg },
        }
    }
}

impl Clone for Instruction {
    fn clone(&self) -> (copy: Self)
        ensures
            copy == *self,
    {
        Self { data: self.data.clone(), debug_name_index: self.debug_name_index }
    }
}

} // verus!
