//! From a circuit to a tape: levels, slot numbering and the successor table.
use vstd::prelude::*;

use crate::circuit::{MAX_SIGNALS, Circuit};
use crate::compile::{
    bit, class, is_lowering, level_joins, level_ok, levels_tile, lowered, node_level, op_place,
    operands, run_changes, run_ok, run_pos, runs_tile, same_machine, slot_before, slot_from, DEAD,
    Compiled, Level, Lowering, Op, Run,
};
use crate::entity::{
    ids, insts_get, insts_len, list_slice, node_of, regs_get, regs_len, InstData, Reg, Signal,
};
use crate::fold::{
    cell_node, cells_ok, fold, fold_ok, kept, lemma_gate_value, lemma_reads_lower, live_node,
    live_nodes, mark_live, max3, reads_stand_in, rep_at, rep_ok, stands_for, tapped, Cell,
};
use crate::netlist::{
    arity_ok, deps, gate_arity, gate_count, gate_places, lemma_gate_places, node_ordered, Env, Netlist,
    Node,
};

verus! {

broadcast use {Signal::lemma_range, Reg::lemma_range};

/// Read the nodes out of a circuit.
fn cells_of(circuit: &Circuit) -> (cells: Vec<Cell>)
    requires
        circuit.wf(),
    ensures
        cells_ok(circuit.net().nodes, cells@),
{
    let n: usize = insts_len(&circuit.insts);
    let ghost nodes = circuit.net().nodes;
    let mut cells: Vec<Cell> = Vec::with_capacity(n);
    for i in 0..n
        invariant
            circuit.wf(),
            nodes == circuit.net().nodes,
            n == nodes.len(),
            cells@.len() == i,
            forall|j: int| 0 <= j < i ==> cell_node(#[trigger] cells@[j]) == nodes[j],
            forall|j: int|
                0 <= j < i ==> ((#[trigger] cells@[j]) matches Cell::Gate(op, a, b, c) ==> a < j && b < j
                    && c < j && (gate_arity(op) < 2 ==> b == a) && (gate_arity(op) < 3 ==> c == a)),
    {
        let inst = insts_get(&circuit.insts, Signal::from_index(i));
        assert(node_of(inst.data, circuit.list_pool) == nodes[i as int]);
        assert(arity_ok(nodes[i as int]));
        assert(node_ordered(nodes, i as int));
        let cell = match &inst.data {
            InstData::Const { value } => Cell::Const(*value),
            InstData::Input { index } => Cell::Input(*index),
            InstData::RegisterOutput { reg } => Cell::Reg(reg.as_u32()),
            InstData::Gate { op, inputs } => {
                let items = list_slice(inputs, &circuit.list_pool);
                assert(deps(nodes[i as int]) == ids(items@));
                assert forall|k: int| 0 <= k < items@.len() implies (#[trigger] items@[k]).id() < i by {
                    assert(deps(nodes[i as int])[k] < i);
                }
                let a: u32 = items[0].as_u32();
                let b: u32 = if items.len() > 1 {
                    items[1].as_u32()
                } else {
                    a
                };
                let c: u32 = if items.len() > 2 {
                    items[2].as_u32()
                } else {
                    a
                };
                assert(ids(items@) =~= operands(*op, a as int, b as int, c as int));
                Cell::Gate(*op, a, b, c)
            },
        };
        cells.push(cell);
    }
    cells
}

/// The level of cell `i`: sources are at 0, a gate is one above its highest
/// operand, and a folded gate is where its stand-in is.
pub(crate) open spec fn level_at(cells: Seq<Cell>, rep: Seq<u32>, level: Seq<u32>, i: int) -> bool {
    &&& #[trigger] level[i] <= i
    &&& if rep[i] != i {
        level[i] == level[rep[i] as int]
    } else {
        match cells[i] {
            Cell::Gate(_, a, b, c) => level[i] == 1 + max3(
                level[rep[a as int] as int],
                level[rep[b as int] as int],
                level[rep[c as int] as int],
            ),
            _ => level[i] == 0,
        }
    }
}

/// Number the levels.
fn levels_for(net: Ghost<Netlist>, cells: &Vec<Cell>, rep: &Vec<u32>) -> (level: Vec<u32>)
    requires
        cells_ok(net@.nodes, cells@),
        cells@.len() <= MAX_SIGNALS,
        rep_ok(net@, rep@),
    ensures
        level@.len() == cells@.len(),
        forall|i: int| 0 <= i < level@.len() ==> level_at(cells@, rep@, level@, i),
{
    let n: usize = cells.len();
    let mut level: Vec<u32> = Vec::with_capacity(n);
    for i in 0..n
        invariant
            n == cells@.len(),
            n <= MAX_SIGNALS,
            cells_ok(net@.nodes, cells@),
            rep_ok(net@, rep@),
            level@.len() == i,
            forall|j: int| 0 <= j < i ==> level_at(cells@, rep@, level@, j),
    {
        let ghost level0 = level@;
        assert(rep_at(net@, rep@, i as int));
        let l: u32 = if rep[i] as usize != i {
            assert(level_at(cells@, rep@, level@, rep@[i as int] as int));
            level[rep[i] as usize]
        } else {
            match cells[i] {
                Cell::Gate(_, a, b, c) => {
                    assert(rep_at(net@, rep@, a as int));
                    assert(rep_at(net@, rep@, b as int));
                    assert(rep_at(net@, rep@, c as int));
                    assert(level_at(cells@, rep@, level@, rep@[a as int] as int));
                    assert(level_at(cells@, rep@, level@, rep@[b as int] as int));
                    assert(level_at(cells@, rep@, level@, rep@[c as int] as int));
                    let la: u32 = level[rep[a as usize] as usize];
                    let lb: u32 = level[rep[b as usize] as usize];
                    let lc: u32 = level[rep[c as usize] as usize];
                    let top: u32 = if la >= lb && la >= lc {
                        la
                    } else if lb >= lc {
                        lb
                    } else {
                        lc
                    };
                    top + 1
                },
                _ => 0,
            }
        };
        level.push(l);
        assert forall|j: int| 0 <= j < i + 1 implies level_at(cells@, rep@, level@, j) by {
            if j < i {
                assert(level_at(cells@, rep@, level0, j));
                assert(level@[j] == level0[j]);
            }
            assert(rep_at(net@, rep@, j));
            if let Cell::Gate(_, a, b, c) = cells@[j] {
                assert(rep_at(net@, rep@, a as int));
                assert(rep_at(net@, rep@, b as int));
                assert(rep_at(net@, rep@, c as int));
            }
        }
    }
    level
}

/// The columns of a tape under construction.
struct Columns {
    ops: Vec<Op>,
    a: Vec<u32>,
    b: Vec<u32>,
    c: Vec<u32>,
    slot_level: Vec<u32>,
    /// Slot of each node, or [`DEAD`] while it has none.
    slot_of: Vec<u32>,
    /// Node of each slot.
    origin: Ghost<Seq<int>>,
}

/// What slot numbering works from.
pub(crate) struct Source {
    pub net: Netlist,
    pub cells: Seq<Cell>,
    pub rep: Seq<u32>,
    pub level: Seq<u32>,
    pub live: Seq<bool>,
}

spec fn source_ok(src: Source) -> bool {
    &&& src.net.shaped()
    &&& src.net.taps_closed()
    &&& cells_ok(src.net.nodes, src.cells)
    &&& src.cells.len() <= MAX_SIGNALS
    &&& rep_ok(src.net, src.rep)
    &&& live_nodes(src.net, src.rep, src.live)
    &&& src.level.len() == src.cells.len()
    &&& forall|i: int| 0 <= i < src.level.len() ==> level_at(src.cells, src.rep, src.level, i)
}

impl Columns {
    spec fn len(&self) -> int {
        self.ops@.len() as int
    }

    spec fn has_slot(&self, i: int) -> bool {
        self.slot_of@[i] != DEAD
    }

    /// Slot `s` holds a node that stands for itself.
    spec fn slot_ok(&self, src: Source, s: int) -> bool {
        let i = self.origin@[s];
        &&& 0 <= i < src.cells.len()
        &&& self.slot_of@[i] == s
        &&& src.rep[i] == i
        &&& self.slot_level@[s] == src.level[i]
        &&& src.cells[i] matches Cell::Gate(op, a, b, c) ==> self.ops@[s] == op && self.a@[s] < s
            && self.b@[s] < s && self.c@[s] < s && self.a@[s] == self.slot_of@[src.rep[a as int] as int]
            && self.b@[s] == self.slot_of@[src.rep[b as int] as int] && self.c@[s]
            == self.slot_of@[src.rep[c as int] as int]
    }

    /// The columns are `before` with more slots.
    spec fn extends(&self, before: Columns) -> bool {
        &&& before.len() <= self.len()
        &&& forall|s: int| 0 <= s < before.len() ==> #[trigger] same_slot(before, *self, s)
        &&& self.slot_of@.len() == before.slot_of@.len()
        &&& forall|i: int|
            0 <= i < self.slot_of@.len() && before.slot_of@[i] != DEAD ==> #[trigger] self.slot_of@[i]
                == before.slot_of@[i]
    }

    spec fn ok(&self, src: Source) -> bool {
        &&& self.a@.len() == self.len()
        &&& self.b@.len() == self.len()
        &&& self.c@.len() == self.len()
        &&& self.slot_level@.len() == self.len()
        &&& self.origin@.len() == self.len()
        &&& self.slot_of@.len() == src.cells.len()
        &&& self.len() <= src.cells.len()
        &&& forall|s: int| 0 <= s < self.len() ==> #[trigger] self.slot_ok(src, s)
        &&& forall|i: int|
            0 <= i < src.cells.len() && #[trigger] self.slot_of@[i] != DEAD ==> self.slot_of@[i]
                < self.len() && self.origin@[self.slot_of@[i] as int] == i
        &&& forall|s: int, t: int|
            0 <= s < t < self.len() ==> slot_before(
                src.net,
                src.level,
                #[trigger] self.origin@[s],
                #[trigger] self.origin@[t],
            )
    }

    /// Give node `i` the next slot.
    fn push(&mut self, src: Ghost<Source>, i: u32, op: Op, a: u32, b: u32, c: u32, level: u32) -> (slot: u32)
        requires
            source_ok(src@),
            old(self).ok(src@),
            i < src@.cells.len(),
            src@.rep[i as int] == i,
            !old(self).has_slot(i as int),
            forall|x: int|
                0 <= x < src@.cells.len() && #[trigger] old(self).slot_of@[x] != DEAD ==> slot_before(
                    src@.net,
                    src@.level,
                    x,
                    i as int,
                ),
            level == src@.level[i as int],
            src@.cells[i as int] matches Cell::Gate(op0, a0, b0, c0) ==> op == op0 && a
                == old(self).slot_of@[src@.rep[a0 as int] as int] && b
                == old(self).slot_of@[src@.rep[b0 as int] as int] && c
                == old(self).slot_of@[src@.rep[c0 as int] as int] && a != DEAD && b != DEAD && c != DEAD,
        ensures
            final(self).ok(src@),
            slot == old(self).len(),
            final(self).len() == old(self).len() + 1,
            final(self).slot_of@ == old(self).slot_of@.update(i as int, slot),
            final(self).origin@ == old(self).origin@.push(i as int),
            final(self).ops@ == old(self).ops@.push(op),
            final(self).a@ == old(self).a@.push(a),
            final(self).b@ == old(self).b@.push(b),
            final(self).c@ == old(self).c@.push(c),
            final(self).slot_level@ == old(self).slot_level@.push(level),
    {
        proof {
            let o = self.origin@.push(i as int);
            assert forall|s: int, t: int| 0 <= s < o.len() && 0 <= t < o.len() && s != t implies o[s]
                != o[t] by {
                if s < self.len() {
                    assert(self.slot_ok(src@, s));
                }
                if t < self.len() {
                    assert(self.slot_ok(src@, t));
                }
            }
            assert forall|s: int| 0 <= s < o.len() implies 0 <= #[trigger] o[s] < src@.cells.len() by {
                if s < self.len() {
                    assert(self.slot_ok(src@, s));
                }
            }
            crate::kahn::lemma_bounded(o, src@.cells.len() as int);
        }
        let slot: u32 = self.ops.len() as u32;
        self.ops.push(op);
        self.a.push(a);
        self.b.push(b);
        self.c.push(c);
        self.slot_level.push(level);
        self.slot_of.set(i as usize, slot);
        self.origin = Ghost(self.origin@.push(i as int));
        proof {
            assert forall|s: int, t: int| 0 <= s < t < self.len() implies slot_before(
                src@.net,
                src@.level,
                #[trigger] self.origin@[s],
                #[trigger] self.origin@[t],
            ) by {
                assert(old(self).slot_ok(src@, s));
                let x = old(self).origin@[s];
                assert(old(self).slot_of@[x] != DEAD);
                if t < slot {
                    assert(slot_before(src@.net, src@.level, old(self).origin@[s], old(self).origin@[t]));
                }
            }
            assert forall|s: int| 0 <= s < self.len() implies #[trigger] self.slot_ok(src@, s) by {
                if s < slot {
                    assert(old(self).slot_ok(src@, s));
                    let j = old(self).origin@[s];
                    assert(self.origin@[s] == j);
                    assert(j != i);
                    if let Cell::Gate(op1, a1, b1, c1) = src@.cells[j] {
                        assert(rep_at(src@.net, src@.rep, a1 as int));
                        assert(rep_at(src@.net, src@.rep, b1 as int));
                        assert(rep_at(src@.net, src@.rep, c1 as int));
                    }
                } else if let Cell::Gate(op1, a1, b1, c1) = src@.cells[i as int] {
                    assert(rep_at(src@.net, src@.rep, a1 as int));
                    assert(rep_at(src@.net, src@.rep, b1 as int));
                    assert(rep_at(src@.net, src@.rep, c1 as int));
                }
            }
        }
        slot
    }
}

/// Tables of the source slots.
struct SourceTables {
    const_slots: Vec<(u32, u8)>,
    input_slots: Vec<u32>,
    reg_out_slots: Vec<u32>,
}

spec fn tables_ok(src: Source, cols: Columns, t: SourceTables) -> bool {
    &&& forall|j: int, k: int|
        0 <= j < k < t.const_slots@.len() ==> (#[trigger] t.const_slots@[j]).0 < (
        #[trigger] t.const_slots@[k]).0
    &&& forall|j: int|
        0 <= j < t.const_slots@.len() ==> (#[trigger] t.const_slots@[j]).0 < cols.len()
            && t.const_slots@[j].1 <= 1 && src.cells[cols.origin@[t.const_slots@[j].0 as int]]
            == Cell::Const(t.const_slots@[j].1 == 1)
    &&& forall|s: int|
        0 <= s < cols.len() && src.cells[#[trigger] cols.origin@[s]] is Const ==> exists|j: int|
            0 <= j < t.const_slots@.len() && (#[trigger] t.const_slots@[j]).0 == s
    &&& t.input_slots@.len() == src.net.inputs
    &&& forall|i: int|
        0 <= i < src.cells.len() && cols.has_slot(i) ==> ((#[trigger] src.cells[i]) matches Cell::Input(k)
            ==> t.input_slots@[k as int] == cols.slot_of@[i])
    &&& t.reg_out_slots@.len() == src.net.drives.len()
    &&& forall|i: int|
        0 <= i < src.cells.len() && cols.has_slot(i) ==> ((#[trigger] src.cells[i]) matches Cell::Reg(r)
            ==> t.reg_out_slots@[r as int] == cols.slot_of@[i])
    &&& forall|i: int|
        0 <= i < src.cells.len() && !cols.has_slot(i) ==> ((#[trigger] src.cells[i]) matches Cell::Reg(r)
            ==> t.reg_out_slots@[r as int] == DEAD)
}

/// Number the source slots.
fn emit_sources(src: Ghost<Source>, cells: &Vec<Cell>, live: &Vec<bool>, inputs: usize, registers: usize) -> (res: (
    Columns,
    SourceTables,
))
    requires
        source_ok(src@),
        src@.cells == cells@,
        src@.live == live@,
        inputs == src@.net.inputs,
        registers == src@.net.drives.len(),
    ensures
        res.0.ok(src@),
        tables_ok(src@, res.0, res.1),
        forall|i: int|
            0 <= i < cells@.len() ==> (res.0.has_slot(i) <==> !(#[trigger] cells@[i] is Gate) && has_place(
                src@,
                i,
            )),
{
    let n: usize = cells.len();
    let mut slot_of: Vec<u32> = Vec::with_capacity(n);
    for i in 0..n
        invariant
            slot_of@.len() == i,
            forall|j: int| 0 <= j < i ==> #[trigger] slot_of@[j] == DEAD,
    {
        slot_of.push(DEAD);
    }
    let mut input_slots: Vec<u32> = Vec::with_capacity(inputs);
    for i in 0..inputs
        invariant
            input_slots@.len() == i,
    {
        input_slots.push(0);
    }
    let mut reg_out_slots: Vec<u32> = Vec::with_capacity(registers);
    for i in 0..registers
        invariant
            reg_out_slots@.len() == i,
            forall|j: int| 0 <= j < i ==> #[trigger] reg_out_slots@[j] == DEAD,
    {
        reg_out_slots.push(DEAD);
    }
    let mut t = SourceTables { const_slots: Vec::new(), input_slots, reg_out_slots };
    let mut cols = Columns {
        ops: Vec::new(),
        a: Vec::new(),
        b: Vec::new(),
        c: Vec::new(),
        slot_level: Vec::new(),
        slot_of,
        origin: Ghost(Seq::empty()),
    };
    assert forall|i: int| 0 <= i < n implies ((#[trigger] src@.cells[i]) matches Cell::Reg(r)
        ==> t.reg_out_slots@[r as int] == DEAD) by {
        assert(cell_node(cells@[i]) == src@.net.nodes[i]);
    }
    for pass in 0..3usize
        invariant
            source_ok(src@),
            src@.cells == cells@,
            src@.live == live@,
            n == cells@.len(),
            cols.ok(src@),
            tables_ok(src@, cols, t),
            forall|i: int|
                0 <= i < n ==> (cols.has_slot(i) <==> has_place(src@, i) && class(
                    cell_node(#[trigger] cells@[i]),
                ) < pass),
    {
        for i in 0..n
            invariant
                pass < 3,
                source_ok(src@),
                src@.cells == cells@,
                src@.live == live@,
                n == cells@.len(),
                cols.ok(src@),
                tables_ok(src@, cols, t),
                forall|j: int|
                    0 <= j < n ==> (cols.has_slot(j) <==> has_place(src@, j) && (class(
                        cell_node(#[trigger] cells@[j]),
                    ) < pass || (class(cell_node(cells@[j])) == pass && j < i))),
        {
            let wanted: bool = match cells[i] {
                Cell::Const(_) => pass == 0,
                Cell::Input(_) => pass == 1,
                Cell::Reg(_) => pass == 2 && live[i],
                Cell::Gate(..) => false,
            };
            assert(cell_node(cells@[i as int]) == src@.net.nodes[i as int]);
            assert(rep_at(src@.net, src@.rep, i as int));
            if wanted {
                assert(class(cell_node(cells@[i as int])) == pass);
                assert(rep_at(src@.net, src@.rep, i as int));
                assert(level_at(src@.cells, src@.rep, src@.level, i as int));
                assert(cell_node(cells@[i as int]) == src@.net.nodes[i as int]);
                assert(!cols.has_slot(i as int));
                let ghost cols0 = cols;
                let ghost t0 = t;
                proof {
                    assert forall|x: int| 0 <= x < n && #[trigger] cols.slot_of@[x] != DEAD implies slot_before(
                        src@.net,
                        src@.level,
                        x,
                        i as int,
                    ) by {
                        assert(cols.has_slot(x));
                        let c = cells@[x];
                        assert(cell_node(cells@[x]) == src@.net.nodes[x]);
                        assert(rep_at(src@.net, src@.rep, x));
                        assert(level_at(src@.cells, src@.rep, src@.level, x));
                    }
                }
                let slot: u32 = cols.push(src, i as u32, Op::Buf, 0, 0, 0, 0);
                match cells[i] {
                    Cell::Const(v) => {
                        t.const_slots.push((slot, if v { 1 } else { 0 }));
                        assert(t.const_slots@[t0.const_slots@.len() as int].0 == slot);
                    },
                    Cell::Input(k) => {
                        t.input_slots.set(k as usize, slot);
                    },
                    Cell::Reg(r) => {
                        t.reg_out_slots.set(r as usize, slot);
                    },
                    _ => {},
                }
                proof {
                    assert forall|s: int| 0 <= s < cols.len() && src@.cells[#[trigger] cols.origin@[s]] is Const implies exists|
                        j: int,
                    |
                        0 <= j < t.const_slots@.len() && (#[trigger] t.const_slots@[j]).0 == s by {
                        if s < slot {
                            assert(cols0.origin@[s] == cols.origin@[s]);
                            let j = choose|j: int|
                                0 <= j < t0.const_slots@.len() && (#[trigger] t0.const_slots@[j]).0 == s;
                            assert(t.const_slots@[j] == t0.const_slots@[j]);
                        }
                    }
                    assert forall|j: int| 0 <= j < n && cols.has_slot(j) implies ((
                    #[trigger] src@.cells[j]) matches Cell::Input(k) ==> t.input_slots@[k as int]
                        == cols.slot_of@[j]) by {
                        assert(cell_node(cells@[j]) == src@.net.nodes[j]);
                        if j != i && cells@[j] is Input && cells@[i as int] is Input {
                            assert(src@.net.nodes[j] != src@.net.nodes[i as int]);
                        }
                    }
                    assert forall|j: int| 0 <= j < n && !cols.has_slot(j) implies ((
                    #[trigger] src@.cells[j]) matches Cell::Reg(k) ==> t.reg_out_slots@[k as int] == DEAD) by {
                        assert(cell_node(cells@[j]) == src@.net.nodes[j]);
                        assert(!cols0.has_slot(j));
                        if cells@[j] is Reg && cells@[i as int] is Reg {
                            assert(src@.net.nodes[j] != src@.net.nodes[i as int]);
                        }
                    }
                    assert forall|j: int| 0 <= j < n && cols.has_slot(j) implies ((
                    #[trigger] src@.cells[j]) matches Cell::Reg(k) ==> t.reg_out_slots@[k as int]
                        == cols.slot_of@[j]) by {
                        assert(cell_node(cells@[j]) == src@.net.nodes[j]);
                        if j != i && cells@[j] is Reg && cells@[i as int] is Reg {
                            assert(src@.net.nodes[j] != src@.net.nodes[i as int]);
                        }
                    }
                    assert forall|j: int| 0 <= j < t.const_slots@.len() implies (
                    #[trigger] t.const_slots@[j]).0 < cols.len() && t.const_slots@[j].1 <= 1
                        && src@.cells[cols.origin@[t.const_slots@[j].0 as int]] == Cell::Const(
                        t.const_slots@[j].1 == 1,
                    ) by {
                        if j < t0.const_slots@.len() {
                            assert(t.const_slots@[j] == t0.const_slots@[j]);
                        }
                    }
                }
            } else {
                assert(class(cell_node(cells@[i as int])) != pass || !has_place(src@, i as int));
            }
        }
    }
    (cols, t)
}

/// Node `i` gets a slot.
spec fn has_place(src: Source, i: int) -> bool {
    kept(src.net, src.rep, src.live, i)
}

/// Node `i` is a gate of level `l` that gets a slot.
spec fn in_level(src: Source, l: int, i: int) -> bool {
    &&& 0 <= i < src.cells.len()
    &&& src.cells[i] is Gate
    &&& has_place(src, i)
    &&& src.level[i] == l
}

/// The first `upto` nodes, sorted into levels in creation order.
spec fn buckets_ok(src: Source, buckets: Seq<Vec<u32>>, upto: int) -> bool {
    &&& forall|l: int, i: u32|
        0 <= l < buckets.len() ==> (#[trigger] buckets[l]@.contains(i) <==> in_level(src, l, i as int) && i
            < upto)
    &&& forall|l: int, j: int, k: int|
        #![trigger buckets[l]@[j], buckets[l]@[k]]
        0 <= l < buckets.len() && 0 <= j < k < buckets[l]@.len() ==> buckets[l]@[j] < buckets[l]@[k]
}

/// Sort the gates into levels.
fn by_level(src: Ghost<Source>, cells: &Vec<Cell>, rep: &Vec<u32>, level: &Vec<u32>, live: &Vec<bool>) -> (buckets:
    Vec<Vec<u32>>)
    requires
        source_ok(src@),
        src@.cells == cells@,
        src@.rep == rep@,
        src@.level == level@,
        src@.live == live@,
    ensures
        1 <= buckets@.len() <= cells@.len() + 1,
        buckets_ok(src@, buckets@, cells@.len() as int),
        forall|i: int|
            0 <= i < cells@.len() && has_place(src@, i) ==> #[trigger] level@[i] < buckets@.len(),
        buckets@.len() == 1 || exists|i: int|
            0 <= i < cells@.len() && has_place(src@, i) && #[trigger] level@[i] + 1 == buckets@.len(),
{
    let n: usize = cells.len();
    let mut top: u32 = 0;
    for i in 0..n
        invariant
            n == level@.len(),
            n == cells@.len(),
            source_ok(src@),
            src@.cells == cells@,
            src@.rep == rep@,
            src@.level == level@,
            src@.live == live@,
            forall|j: int| 0 <= j < i && has_place(src@, j) ==> #[trigger] level@[j] <= top,
            top == 0 || exists|j: int|
                0 <= j < n && has_place(src@, j) && #[trigger] level@[j] == top,
            top <= n,
    {
        assert(level_at(src@.cells, src@.rep, src@.level, i as int));
        assert(cell_node(cells@[i as int]) == src@.net.nodes[i as int]);
        assert(rep_at(src@.net, src@.rep, i as int));
        if rep[i] as usize == i && live[i] && level[i] > top {
            assert(has_place(src@, i as int));
            top = level[i];
        }
    }
    let mut buckets: Vec<Vec<u32>> = Vec::new();
    for l in 0..top as usize + 1
        invariant
            buckets@.len() == l,
            forall|x: int| 0 <= x < l ==> (#[trigger] buckets@[x])@ == Seq::<u32>::empty(),
    {
        buckets.push(Vec::new());
    }
    for i in 0..n
        invariant
            n == cells@.len(),
            source_ok(src@),
            src@.cells == cells@,
            src@.rep == rep@,
            src@.level == level@,
            src@.live == live@,
            buckets@.len() == top + 1,
            forall|j: int| 0 <= j < n && has_place(src@, j) ==> #[trigger] level@[j] <= top,
            buckets_ok(src@, buckets@, i as int),
    {
        assert(cell_node(cells@[i as int]) == src@.net.nodes[i as int]);
        if let Cell::Gate(..) = cells[i] {
            if rep[i] as usize == i && live[i] {
                assert(has_place(src@, i as int));
                let ghost before = buckets@;
                let at: usize = level[i] as usize;
                buckets[at].push(i as u32);
                proof {
                    let old_bucket = before[at as int]@;
                    assert(buckets@[at as int]@ == old_bucket.push(i as u32));
                    assert forall|l: int, x: u32| 0 <= l < buckets@.len() implies (
                    #[trigger] buckets@[l]@.contains(x) <==> in_level(src@, l, x as int) && x < i + 1) by {
                        assert(before[l]@.contains(x) <==> in_level(src@, l, x as int) && x < i);
                        if l == at {
                            if old_bucket.contains(x) {
                                let p = choose|p: int| 0 <= p < old_bucket.len() && old_bucket[p] == x;
                                assert(buckets@[l]@[p] == x);
                            }
                            if x == i {
                                assert(buckets@[l]@[old_bucket.len() as int] == x);
                            }
                        }
                    }
                    assert forall|l: int, j: int, k: int|
                        #![trigger buckets@[l]@[j], buckets@[l]@[k]]
                        0 <= l < buckets@.len() && 0 <= j < k < buckets@[l]@.len() implies buckets@[l]@[j]
                        < buckets@[l]@[k] by {
                        if l == at && k == old_bucket.len() {
                            assert(before[l]@.contains(before[l]@[j]));
                        } else {
                            assert(before[l]@[j] < before[l]@[k]);
                        }
                    }
                }
            }
        }
    }
    buckets
}

/// All gate kinds, in the order their runs take within a level.
fn nth_op(k: usize) -> (op: Op)
    requires
        k < 9,
    ensures
        op_place(op) == k,
{
    match k {
        0 => Op::And,
        1 => Op::Or,
        2 => Op::Xor,
        3 => Op::Not,
        4 => Op::Nand,
        5 => Op::Nor,
        6 => Op::Xnor,
        7 => Op::Buf,
        _ => Op::Mux,
    }
}

spec fn cell_op(cell: Cell) -> int {
    match cell {
        Cell::Gate(op, ..) => op_place(op),
        _ => -1,
    }
}

/// Slot `s` stands in level `l`, which starts at `start`, and reads slots of
/// lower levels only.
spec fn reads_below(cols: Columns, s: int, l: int, start: int) -> bool {
    &&& cols.slot_level@[s] == l
    &&& cols.a@[s] < start
    &&& cols.b@[s] < start
    &&& cols.c@[s] < start
    &&& cols.slot_level@[cols.a@[s] as int] < l
    &&& cols.slot_level@[cols.b@[s] as int] < l
    &&& cols.slot_level@[cols.c@[s] as int] < l
}

spec fn placed(cols: Columns, levels: Seq<Level>, s: int) -> bool {
    let l = cols.slot_level@[s] as int;
    &&& 1 <= l < levels.len()
    &&& levels[l].start <= s < levels[l].end
    &&& reads_below(cols, s, l, levels[l].start as int)
}

/// Node `i` has its slot once levels below `l`, and in level `l` kinds below
/// `o` and the first `j` nodes of kind `o`, are numbered.
spec fn numbered(src: Source, bucket: Seq<u32>, l: int, o: int, j: int, i: int) -> bool {
    if !(src.cells[i] is Gate) {
        has_place(src, i)
    } else {
        has_place(src, i) && (src.level[i] < l || (src.level[i] == l && (cell_op(src.cells[i]) < o || (cell_op(
            src.cells[i],
        ) == o && exists|p: int| 0 <= p < j && #[trigger] bucket[p] == i))))
    }
}

/// Exactly the numbered nodes have slots.
spec fn all_numbered(cols: Columns, src: Source, bucket: Seq<u32>, l: int, o: int, j: int) -> bool {
    forall|i: int|
        #![trigger cols.slot_of@[i]]
        0 <= i < src.cells.len() ==> (cols.slot_of@[i] != DEAD <==> numbered(src, bucket, l, o, j, i))
}

/// One more run at the end.
proof fn lemma_runs_push(runs: Seq<Run>, ops: Seq<Op>, from: int, at: int, run: Run)
    requires
        runs_tile(runs, ops, from, at),
        run.start == at,
        run.start < run.end,
        run.end == ops.len(),
        forall|s: int| run.start <= s < run.end ==> #[trigger] ops[s] == run.op,
    ensures
        runs_tile(runs.push(run), ops, from, run.end as int),
        forall|i: int| 0 <= i <= runs.len() ==> #[trigger] run_pos(runs.push(run), run.end as int, i) == run_pos(runs, at, i),
{
    let r2 = runs.push(run);
    assert forall|i: int| 0 <= i <= runs.len() implies #[trigger] run_pos(r2, run.end as int, i) == run_pos(runs, at, i) by {}
    assert(run_pos(r2, run.end as int, 0) == run_pos(runs, at, 0));
    assert forall|i: int| 0 <= i < r2.len() implies #[trigger] run_ok(r2, run.end as int, i) by {
        if i < runs.len() {
            assert(run_ok(runs, at, i));
            assert(r2[i] == runs[i]);
            assert(run_pos(r2, run.end as int, i + 1) == run_pos(runs, at, i + 1));
        }
    }
    assert forall|i: int, s: int|
        0 <= i < r2.len() && r2[i].start <= s < r2[i].end && 0 <= s < ops.len() implies #[trigger] ops[s]
        == (#[trigger] r2[i]).op by {
        if i < runs.len() {
            assert(r2[i] == runs[i]);
        }
    }
}

/// One more level at the end.
proof fn lemma_levels_push(
    levels: Seq<Level>,
    runs0: Seq<Run>,
    runs: Seq<Run>,
    from: int,
    at: int,
    n: int,
    level: Level,
)
    requires
        levels_tile(levels, runs0, from, at),
        runs0.len() <= runs.len() <= u32::MAX,
        at <= n,
        forall|i: int| 0 <= i <= runs0.len() ==> run_pos(runs, n, i) == #[trigger] run_pos(runs0, at, i),
        level.start == at,
        level.end == n,
        level.run_start == runs0.len(),
        level.run_end == runs.len(),
    ensures
        levels_tile(levels.push(level), runs, from, n),
{
    let l2 = levels.push(level);
    assert forall|l: int| 0 <= l < l2.len() implies #[trigger] level_ok(l2, runs, n, l) by {
        if l < levels.len() {
            assert(level_ok(levels, runs0, at, l));
            assert(l2[l] == levels[l]);
            assert(run_pos(runs0, at, levels[l].run_start as int) == levels[l].start);
            assert(run_pos(runs0, at, levels[l].run_end as int) == levels[l].end);
        } else {
            assert(run_pos(runs0, at, runs0.len() as int) == at);
        }
    }
    assert forall|l: int| 0 < l < l2.len() implies #[trigger] level_joins(l2, l) by {
        if l < levels.len() {
            assert(level_joins(levels, l));
            assert(l2[l] == levels[l]);
        }
        assert(l2[l - 1] == levels[l - 1]);
    }
    assert(l2[0] == levels[0]);
}

/// The nodes of one level, in creation order.
spec fn bucket_ok(src: Source, bucket: Seq<u32>, l: int) -> bool {
    &&& forall|i: u32| #[trigger] bucket.contains(i) <==> in_level(src, l, i as int)
    &&& forall|j: int, k: int| 0 <= j < k < bucket.len() ==> #[trigger] bucket[j] < #[trigger] bucket[k]
}

/// The next gate of kind `o` stands behind every slot so far.
proof fn lemma_next_slot(src: Source, cols: Columns, bucket: Seq<u32>, l: int, o: int, j: int)
    requires
        source_ok(src),
        bucket_ok(src, bucket, l),
        0 <= j < bucket.len(),
        cell_op(src.cells[bucket[j] as int]) == o,
        in_level(src, l, bucket[j] as int),
        all_numbered(cols, src, bucket, l, o, j),
    ensures
        forall|x: int|
            0 <= x < src.cells.len() && #[trigger] cols.slot_of@[x] != DEAD ==> slot_before(
                src.net,
                src.level,
                x,
                bucket[j] as int,
            ),
{
    let i = bucket[j] as int;
    assert(cell_node(src.cells[i]) == src.net.nodes[i]);
    assert forall|x: int| 0 <= x < src.cells.len() && #[trigger] cols.slot_of@[x] != DEAD implies slot_before(
        src.net,
        src.level,
        x,
        i,
    ) by {
        assert(numbered(src, bucket, l, o, j, x));
        assert(cell_node(src.cells[x]) == src.net.nodes[x]);
        if exists|p: int| 0 <= p < j && #[trigger] bucket[p] == x {
            let p = choose|p: int| 0 <= p < j && #[trigger] bucket[p] == x;
            assert(bucket[p] < bucket[j]);
        }
    }
}

/// One more node of the level is looked at.
proof fn lemma_one_numbered(
    src: Source,
    before: Columns,
    after: Columns,
    bucket: Seq<u32>,
    l: int,
    o: int,
    j: int,
)
    requires
        bucket_ok(src, bucket, l),
        0 <= j < bucket.len(),
        in_level(src, l, bucket[j] as int),
        all_numbered(before, src, bucket, l, o, j),
        before.slot_of@.len() == src.cells.len(),
        if cell_op(src.cells[bucket[j] as int]) == o {
            exists|s: u32|
                s != DEAD && #[trigger] before.slot_of@.update(bucket[j] as int, s) == after.slot_of@
        } else {
            after.slot_of@ == before.slot_of@
        },
    ensures
        all_numbered(after, src, bucket, l, o, j + 1),
{
    let i = bucket[j] as int;
    assert forall|x: int| #![trigger after.slot_of@[x]] 0 <= x < src.cells.len() implies (after.slot_of@[x]
        != DEAD <==> numbered(src, bucket, l, o, j + 1, x)) by {
        assert(before.slot_of@[x] != DEAD <==> numbered(src, bucket, l, o, j, x));
        if x == i {
            assert(bucket[j] == x);
        } else {
            if exists|p: int| 0 <= p < j + 1 && #[trigger] bucket[p] == x {
                let p = choose|p: int| 0 <= p < j + 1 && #[trigger] bucket[p] == x;
                assert(p < j && bucket[p] == x);
            }
            if exists|p: int| 0 <= p < j && #[trigger] bucket[p] == x {
                let p = choose|p: int| 0 <= p < j && #[trigger] bucket[p] == x;
                assert(p < j + 1 && bucket[p] == x);
            }
        }
    }
}

/// Number the gates of level `l`, kind by kind.
#[verifier::rlimit(100)]
fn emit_level(
    src: Ghost<Source>,
    cells: &Vec<Cell>,
    rep: &Vec<u32>,
    bucket: &Vec<u32>,
    l: u32,
    cols: &mut Columns,
    runs: &mut Vec<Run>,
    gs: Ghost<int>,
)
    requires
        source_ok(src@),
        src@.cells == cells@,
        src@.rep == rep@,
        1 <= l,
        bucket_ok(src@, bucket@, l as int),
        old(cols).ok(src@),
        0 <= gs@ <= old(cols).len(),
        old(runs)@.len() <= old(cols).len(),
        all_numbered(*old(cols), src@, bucket@, l as int, 0, 0),
        runs_tile(old(runs)@, old(cols).ops@, gs@, old(cols).len()),
    ensures
        final(cols).ok(src@),
        final(cols).extends(*old(cols)),
        forall|s: int|
            old(cols).len() <= s < final(cols).len() ==> src@.cells[#[trigger] final(cols).origin@[s]] is Gate,
        all_numbered(*final(cols), src@, bucket@, l as int, 9, 0),
        old(runs)@.len() <= final(runs)@.len() <= final(cols).len(),
        forall|i: int|
            0 <= i <= old(runs)@.len() ==> run_pos(final(runs)@, final(cols).len(), i) == #[trigger] run_pos(
                old(runs)@,
                old(cols).len(),
                i,
            ),
        runs_tile(final(runs)@, final(cols).ops@, gs@, final(cols).len()),
        final(runs)@.take(old(runs)@.len() as int) == old(runs)@,
        forall|k: int|
            old(runs)@.len() < k < final(runs)@.len() ==> (#[trigger] final(runs)@[k]).op
                != final(runs)@[k - 1].op,
        forall|s: int|
            old(cols).len() <= s < final(cols).len() ==> #[trigger] reads_below(
                *final(cols),
                s,
                l as int,
                old(cols).len(),
            ),
{
    let ghost gs = gs@;
    let n: usize = cells.len();
    let ghost c0 = *cols;
    let ghost runs0 = runs@;
    let start: u32 = cols.ops.len() as u32;
    let size: usize = bucket.len();
    assert(runs@.take(runs0.len() as int) =~= runs0);
    for o in 0..9usize
        invariant
            source_ok(src@),
            src@.cells == cells@,
            src@.rep == rep@,
            n == cells@.len(),
            start == c0.len(),
            gs <= start,
            1 <= l,
            bucket_ok(src@, bucket@, l as int),
            size == bucket@.len(),
            start <= cols.len(),
            cols.ok(src@),
            forall|s: int| start <= s < cols.len() ==> src@.cells[#[trigger] cols.origin@[s]] is Gate,
            all_numbered(*cols, src@, bucket@, l as int, o as int, 0),
            runs0.len() <= runs@.len(),
            forall|i: int|
                0 <= i <= runs0.len() ==> run_pos(runs@, cols.len(), i) == #[trigger] run_pos(
                    runs0,
                    start as int,
                    i,
                ),
            runs_tile(runs@, cols.ops@, gs, cols.len()),
            cols.extends(c0),
            forall|s: int|
                start <= s < cols.len() ==> #[trigger] reads_below(*cols, s, l as int, start as int),
            runs@.len() <= cols.len(),
            runs@.take(runs0.len() as int) == runs0,
            forall|k: int|
                runs0.len() <= k < runs@.len() ==> op_place((#[trigger] runs@[k]).op) < o,
            forall|k: int|
                runs0.len() < k < runs@.len() ==> (#[trigger] runs@[k]).op != runs@[k - 1].op,
    {
        let op: Op = nth_op(o);
        let run_at: u32 = cols.ops.len() as u32;
        for j in 0..size
            invariant
                source_ok(src@),
                src@.cells == cells@,
                src@.rep == rep@,
                n == cells@.len(),
            start == c0.len(),
                gs <= start,
                1 <= l,
            bucket_ok(src@, bucket@, l as int),
            size == bucket@.len(),
                op_place(op) == o,
                start <= run_at <= cols.len(),
                cols.ok(src@),
                forall|s: int| start <= s < cols.len() ==> src@.cells[#[trigger] cols.origin@[s]] is Gate,
                all_numbered(*cols, src@, bucket@, l as int, o as int, j as int),
                runs_tile(runs@, cols.ops@, gs, run_at as int),
                forall|s: int| run_at <= s < cols.len() ==> #[trigger] cols.ops@[s] == op,
            cols.extends(c0),
                forall|s: int|
                    start <= s < cols.len() ==> #[trigger] reads_below(*cols, s, l as int, start as int),
        {
            let i: u32 = bucket[j];
            let ghost ii = i as int;
            proof {
                assert(bucket@.contains(i));
                assert(in_level(src@, l as int, ii));
                assert(!numbered(src@, bucket@, l as int, o as int, j as int, ii) || cell_op(cells@[ii]) < o) by {
                    if exists|p: int| 0 <= p < j && #[trigger] bucket@[p] == i {
                        let p = choose|p: int| 0 <= p < j && #[trigger] bucket@[p] == i;
                        assert(bucket@[p] < bucket@[j as int]);
                    }
                }
            }
            if let Cell::Gate(op1, a, b, c) = cells[i as usize] {
                let ghost cols0 = *cols;
                if op1 == op {
                    proof {
                        assert(rep_at(src@.net, src@.rep, a as int));
                        assert(rep_at(src@.net, src@.rep, b as int));
                        assert(rep_at(src@.net, src@.rep, c as int));
                        assert(level_at(src@.cells, src@.rep, src@.level, ii));
                        lemma_operands_kept(src@, ii);
                        lemma_operand_placed(src@, *cols, gs, start as int, bucket@, l as int, o as int, j as int, a as int);
                        lemma_operand_placed(src@, *cols, gs, start as int, bucket@, l as int, o as int, j as int, b as int);
                        lemma_operand_placed(src@, *cols, gs, start as int, bucket@, l as int, o as int, j as int, c as int);
                    }
                    proof {
                        lemma_next_slot(src@, *cols, bucket@, l as int, o as int, j as int);
                    }
                    let sa: u32 = cols.slot_of[rep[a as usize] as usize];
                    let sb: u32 = cols.slot_of[rep[b as usize] as usize];
                    let sc: u32 = cols.slot_of[rep[c as usize] as usize];
                    cols.push(src, i, op, sa, sb, sc, l as u32);
                    proof {
                        assert(cols0.slot_of@.update(ii, cols.slot_of@[ii]) == cols.slot_of@);
                        assert(cols0.slot_of@[ii] == DEAD);
                        assert forall|s: int| 0 <= s < c0.len() implies #[trigger] same_slot(c0, *cols, s) by {
                            assert(same_slot(c0, cols0, s));
                        }
                        assert(cols.extends(c0));
                        assert forall|s: int| start <= s < cols.len() implies #[trigger] reads_below(
                            *cols,
                            s,
                            l as int,
                            start as int,
                        ) by {
                            if s < cols0.len() {
                                assert(reads_below(cols0, s, l as int, start as int));
                            }
                        }
                        assert(runs_tile(runs@, cols.ops@, gs, run_at as int)) by {
                            assert forall|q: int, s: int|
                                0 <= q < runs@.len() && runs@[q].start <= s < runs@[q].end && 0 <= s
                                    < cols.ops@.len() implies #[trigger] cols.ops@[s] == (
                            #[trigger] runs@[q]).op by {
                                lemma_run_end(runs@, cols0.ops@, gs, run_at as int, q);
                                assert(cols.ops@[s] == cols0.ops@[s]);
                            }
                        }
                    }
                }
                proof {
                    lemma_one_numbered(src@, cols0, *cols, bucket@, l as int, o as int, j as int);
                }
            }
        }
        let end: u32 = cols.ops.len() as u32;
        let ghost runs1 = runs@;
        if end > run_at {
            let run = Run { op, start: run_at, end };
            runs.push(run);
            proof {
                assert(runs@.take(runs0.len() as int) =~= runs1.take(runs0.len() as int));
                lemma_runs_push(runs1, cols.ops@, gs, run_at as int, run);
                assert forall|i: int| 0 <= i <= runs0.len() implies run_pos(runs@, cols.len(), i)
                    == #[trigger] run_pos(runs0, start as int, i) by {
                    assert(run_pos(runs@, cols.len(), i) == run_pos(runs1, run_at as int, i));
                }
            }
        }
        proof {
            assert forall|i: int| #![trigger cols.slot_of@[i]] 0 <= i < n implies (cols.slot_of@[i] != DEAD <==> numbered(src@, bucket@, l as int, o + 1, 0, i)) by {
                assert(cols.slot_of@[i] != DEAD <==> numbered(src@, bucket@, l as int, o as int, size as int, i));
                if in_level(src@, l as int, i) {
                    assert(bucket@.contains(i as u32));
                    let p = choose|p: int| 0 <= p < bucket@.len() && bucket@[p] == i as u32;
                    assert(bucket@[p] == i);
                }
            }
        }
    }
}

/// Slot `s` reads the same in both.
spec fn same_slot(before: Columns, after: Columns, s: int) -> bool {
    &&& after.slot_level@[s] == before.slot_level@[s]
    &&& after.a@[s] == before.a@[s]
    &&& after.b@[s] == before.b@[s]
    &&& after.c@[s] == before.c@[s]
    &&& after.ops@[s] == before.ops@[s]
    &&& after.origin@[s] == before.origin@[s]
}

/// Extending the columns keeps a slot's place.
proof fn lemma_still_placed(before: Columns, after: Columns, levels: Seq<Level>, s: int)
    requires
        after.extends(before),
        0 <= s < before.len(),
        placed(before, levels, s),
        forall|l: int| 0 <= l < levels.len() ==> #[trigger] levels[l].start <= before.len(),
    ensures
        placed(after, levels, s),
{
    assert(same_slot(before, after, s));
    let l = before.slot_level@[s] as int;
    assert(levels[l].start <= before.len());
    assert(same_slot(before, after, before.a@[s] as int));
    assert(same_slot(before, after, before.b@[s] as int));
    assert(same_slot(before, after, before.c@[s] as int));
}

/// Number all gate slots, level by level and kind by kind.
#[verifier::rlimit(100)]
fn emit_gates(
    src: Ghost<Source>,
    cells: &Vec<Cell>,
    rep: &Vec<u32>,
    buckets: &Vec<Vec<u32>>,
    cols: &mut Columns,
) -> (res: (Vec<Level>, Vec<Run>))
    requires
        source_ok(src@),
        src@.cells == cells@,
        src@.rep == rep@,
        1 <= buckets@.len() <= cells@.len() + 1,
        buckets_ok(src@, buckets@, cells@.len() as int),
        forall|i: int|
            0 <= i < cells@.len() && has_place(src@, i) ==> #[trigger] src@.level[i] < buckets@.len(),
        old(cols).ok(src@),
        forall|i: int|
            0 <= i < cells@.len() ==> (old(cols).has_slot(i) <==> !(#[trigger] cells@[i] is Gate)
                && has_place(src@, i)),
    ensures
        final(cols).ok(src@),
        final(cols).extends(*old(cols)),
        forall|i: int|
            0 <= i < cells@.len() ==> (#[trigger] final(cols).has_slot(i) <==> has_place(src@, i)),
        forall|s: int|
            old(cols).len() <= s < final(cols).len() ==> src@.cells[#[trigger] final(cols).origin@[s]] is Gate,
        forall|s: int|
            old(cols).len() <= s < final(cols).len() ==> #[trigger] placed(*final(cols), res.0@, s),
        levels_tile(res.0@, res.1@, old(cols).len(), final(cols).len()),
        res.0@.len() == buckets@.len(),
        runs_tile(res.1@, final(cols).ops@, old(cols).len(), final(cols).len()),
        forall|k: int|
            0 < k < res.1@.len() ==> #[trigger] run_changes(res.1@, final(cols).slot_level@, k),
{
    let n: usize = cells.len();
    let ghost c0 = *cols;
    let from: u32 = cols.ops.len() as u32;
    let ghost gs = from as int;
    let mut runs: Vec<Run> = Vec::new();
    let mut levels: Vec<Level> = Vec::new();
    levels.push(Level { start: from, end: from, run_start: 0, run_end: 0 });
    proof {
        assert forall|i: int| #![trigger cols.slot_of@[i]] 0 <= i < n implies (cols.slot_of@[i] != DEAD <==> numbered(src@, Seq::empty(), 1, 0, 0, i)) by {
            assert(level_at(src@.cells, src@.rep, src@.level, i));
            assert(cells@[i] is Gate || !(cells@[i] is Gate));
        }
    }
    for l in 1..buckets.len()
        invariant
            source_ok(src@),
            src@.cells == cells@,
            src@.rep == rep@,
            n == cells@.len(),
            c0 == *old(cols),
            gs == c0.len(),
            gs <= cols.len(),
            buckets@.len() <= cells@.len() + 1,
            buckets_ok(src@, buckets@, n as int),
            cols.ok(src@),
            cols.extends(c0),
            forall|s: int| gs <= s < cols.len() ==> src@.cells[#[trigger] cols.origin@[s]] is Gate,
            all_numbered(*cols, src@, Seq::empty(), l as int, 0, 0),
            levels@.len() == l,
            levels_tile(levels@, runs@, gs, cols.len()),
            runs_tile(runs@, cols.ops@, gs, cols.len()),
            forall|s: int| gs <= s < cols.len() ==> #[trigger] placed(*cols, levels@, s),
            runs@.len() <= cols.len(),
            forall|k: int| 0 < k < runs@.len() ==> #[trigger] run_changes(runs@, cols.slot_level@, k),
    {
        let start: u32 = cols.ops.len() as u32;
        let run_start: u32 = runs.len() as u32;
        let ghost runs0 = runs@;
        let ghost bucket = buckets@[l as int]@;
        let ghost cols1 = *cols;
        proof {
            assert forall|i: int| #![trigger cols.slot_of@[i]] 0 <= i < n implies (cols.slot_of@[i] != DEAD <==> numbered(src@, bucket, l as int, 0, 0, i)) by {
                assert(numbered(src@, Seq::empty(), l as int, 0, 0, i) == numbered(src@, bucket, l as int, 0, 0, i));
            }
        }
        emit_level(src, cells, rep, &buckets[l], l as u32, cols, &mut runs, Ghost(gs));
        proof {
            assert forall|x: int| 0 <= x < levels@.len() implies #[trigger] levels@[x].start <= start by {
                lemma_level_end(levels@, runs0, gs, start as int, x);
                assert(level_ok(levels@, runs0, start as int, x));
            }
            assert forall|s: int| 0 <= s < c0.len() implies #[trigger] same_slot(c0, *cols, s) by {
                assert(same_slot(c0, cols1, s));
                assert(same_slot(cols1, *cols, s));
            }
            assert forall|i: int| 0 <= i < n && c0.slot_of@[i] != DEAD implies #[trigger] cols.slot_of@[i]
                == c0.slot_of@[i] by {
                assert(cols1.slot_of@[i] == c0.slot_of@[i]);
            }
            assert forall|s: int| gs <= s < cols.len() implies src@.cells[#[trigger] cols.origin@[s]] is Gate by {
                if s < start {
                    assert(same_slot(cols1, *cols, s));
                    assert(src@.cells[cols1.origin@[s]] is Gate);
                }
            }
            assert forall|s: int| gs <= s < start implies #[trigger] placed(*cols, levels@, s) by {
                assert(placed(cols1, levels@, s));
                lemma_still_placed(cols1, *cols, levels@, s);
            }
        }
        proof {
            lemma_runs_change(cols1, *cols, levels@, runs0, runs@, gs, l as int);
        }
        let end: u32 = cols.ops.len() as u32;
        let run_end: u32 = runs.len() as u32;
        let level = Level { start, end, run_start, run_end };
        let ghost levels0 = levels@;
        levels.push(level);
        proof {
            lemma_levels_push(levels0, runs0, runs@, gs, start as int, end as int, level);
            assert forall|s: int| gs <= s < cols.len() implies #[trigger] placed(*cols, levels@, s) by {
                if s < start {
                    assert(placed(*cols, levels0, s));
                    assert(levels@[cols.slot_level@[s] as int] == levels0[cols.slot_level@[s] as int]);
                } else {
                    assert(reads_below(*cols, s, l as int, start as int));
                    assert(levels@[l as int] == level);
                }
            }
            assert forall|i: int| #![trigger cols.slot_of@[i]] 0 <= i < n implies (cols.slot_of@[i] != DEAD <==> numbered(src@, Seq::empty(), l + 1, 0, 0, i)) by {
                assert(cols.slot_of@[i] != DEAD <==> numbered(src@, bucket, l as int, 9, 0, i));
                if src@.cells[i] is Gate {
                    assert(0 <= cell_op(src@.cells[i]) < 9);
                }
            }
        }
    }
    proof {
        assert forall|i: int| 0 <= i < n implies (#[trigger] cols.has_slot(i) <==> has_place(src@, i)) by {
            assert(cols.slot_of@[i] != DEAD <==> numbered(src@, Seq::empty(), buckets@.len() as int, 0, 0, i));
            assert(rep_at(src@.net, src@.rep, i));
            assert(has_place(src@, i) ==> src@.level[i] < buckets@.len());
            assert(cell_node(src@.cells[i]) == src@.net.nodes[i]);
        }
    }
    (levels, runs)
}

/// The runs of one more level keep differing from their predecessors.
#[verifier::rlimit(30)]
proof fn lemma_runs_change(
    before: Columns,
    after: Columns,
    levels: Seq<Level>,
    runs0: Seq<Run>,
    runs: Seq<Run>,
    gs: int,
    l: int,
)
    requires
        after.extends(before),
        0 <= gs <= before.len(),
        levels.len() == l,
        runs_tile(runs0, before.ops@, gs, before.len()),
        runs_tile(runs, after.ops@, gs, after.len()),
        runs.take(runs0.len() as int) == runs0,
        runs0.len() <= runs.len(),
        forall|i: int|
            0 <= i <= runs0.len() ==> run_pos(runs, after.len(), i) == #[trigger] run_pos(
                runs0,
                before.len(),
                i,
            ),
        forall|k: int| runs0.len() < k < runs.len() ==> (#[trigger] runs[k]).op != runs[k - 1].op,
        forall|s: int| gs <= s < before.len() ==> #[trigger] placed(before, levels, s),
        forall|s: int|
            before.len() <= s < after.len() ==> #[trigger] reads_below(after, s, l, before.len()),
        forall|k: int| 0 < k < runs0.len() ==> #[trigger] run_changes(runs0, before.slot_level@, k),
    ensures
        forall|k: int| 0 < k < runs.len() ==> #[trigger] run_changes(runs, after.slot_level@, k),
{
    assert forall|k: int| 0 < k < runs.len() implies #[trigger] run_changes(runs, after.slot_level@, k) by {
        lemma_run_spot(runs, after.ops@, gs, after.len(), k - 1);
        lemma_run_spot(runs, after.ops@, gs, after.len(), k);
        if k <= runs0.len() {
            assert(runs.take(runs0.len() as int)[k - 1] == runs0[k - 1]);
            lemma_run_spot(runs0, before.ops@, gs, before.len(), k - 1);
            assert(same_slot(before, after, runs0[k - 1].start as int));
        }
        if k < runs0.len() {
            assert(runs.take(runs0.len() as int)[k] == runs0[k]);
            lemma_run_spot(runs0, before.ops@, gs, before.len(), k);
            assert(same_slot(before, after, runs0[k].start as int));
            assert(run_changes(runs0, before.slot_level@, k));
        } else if k == runs0.len() {
            assert(run_pos(runs, after.len(), k) == run_pos(runs0, before.len(), k));
            assert(placed(before, levels, runs0[k - 1].start as int));
            assert(reads_below(after, before.len(), l, before.len()));
        } else {
            assert(runs[k].op != runs[k - 1].op);
        }
    }
}

/// Where a run starts.
proof fn lemma_run_spot(runs: Seq<Run>, ops: Seq<Op>, from: int, n: int, q: int)
    requires
        runs_tile(runs, ops, from, n),
        0 <= q < runs.len(),
    ensures
        from <= runs[q].start < n,
    decreases q,
{
    lemma_run_end(runs, ops, from, n, q);
    assert(run_ok(runs, n, q));
    if q > 0 {
        lemma_run_spot(runs, ops, from, n, q - 1);
        assert(run_ok(runs, n, q - 1));
    }
}

proof fn lemma_run_end(runs: Seq<Run>, ops: Seq<Op>, from: int, n: int, q: int)
    requires
        runs_tile(runs, ops, from, n),
        0 <= q < runs.len(),
    ensures
        runs[q].end <= n,
    decreases runs.len() - q,
{
    assert(run_ok(runs, n, q));
    if q + 1 < runs.len() {
        assert(run_ok(runs, n, q + 1));
        lemma_run_end(runs, ops, from, n, q + 1);
    }
}

proof fn lemma_level_end(levels: Seq<Level>, runs: Seq<Run>, from: int, n: int, l: int)
    requires
        levels_tile(levels, runs, from, n),
        0 <= l < levels.len(),
    ensures
        levels[l].end <= n,
    decreases levels.len() - l,
{
    if l + 1 < levels.len() {
        lemma_level_end(levels, runs, from, n, l + 1);
        assert(level_joins(levels, l + 1));
        assert(level_ok(levels, runs, n, l + 1));
    }
}

/// The operands of a gate that gets a slot get slots.
proof fn lemma_operands_kept(src: Source, i: int)
    requires
        source_ok(src),
        0 <= i < src.cells.len(),
        has_place(src, i),
    ensures
        src.cells[i] matches Cell::Gate(_, a, b, c) ==> has_place(src, src.rep[a as int] as int)
            && has_place(src, src.rep[b as int] as int) && has_place(src, src.rep[c as int] as int),
{
    assert(cell_node(src.cells[i]) == src.net.nodes[i]);
    if let Cell::Gate(_, a, b, c) = src.cells[i] {
        let (x, y, z) = (
            src.rep[a as int] as int,
            src.rep[b as int] as int,
            src.rep[c as int] as int,
        );
        assert(rep_at(src.net, src.rep, a as int) && rep_at(src.net, src.rep, b as int) && rep_at(
            src.net,
            src.rep,
            c as int,
        ));
        lemma_reads_lower(src.net, src.cells, src.rep, i, x);
        lemma_reads_lower(src.net, src.cells, src.rep, i, y);
        lemma_reads_lower(src.net, src.cells, src.rep, i, z);
        assert(src.live[i] && reads_stand_in(src.net, src.rep, i, x));
        assert(src.live[i] && reads_stand_in(src.net, src.rep, i, y));
        assert(src.live[i] && reads_stand_in(src.net, src.rep, i, z));
        assert(live_node(src.net, src.rep, src.live, x));
        assert(live_node(src.net, src.rep, src.live, y));
        assert(live_node(src.net, src.rep, src.live, z));
    }
}

/// What is observed gets a slot.
proof fn lemma_taps_kept(src: Source, i: int)
    requires
        source_ok(src),
        fold_ok(src.net, src.rep),
        0 <= i < src.cells.len(),
        tapped(src.net, i),
    ensures
        has_place(src, i),
{
    assert(stands_for(src.net, src.rep, i));
    assert(live_node(src.net, src.rep, src.live, i));
}

/// A lower operand already has a slot, below the current level.
proof fn lemma_operand_placed(
    src: Source,
    cols: Columns,
    gs: int,
    start: int,
    bucket: Seq<u32>,
    l: int,
    o: int,
    j: int,
    x: int,
)
    requires
        source_ok(src),
        cols.ok(src),
        0 <= x < src.cells.len(),
        has_place(src, src.rep[x] as int),
        src.level[src.rep[x] as int] < l,
        0 <= gs <= start <= cols.len(),
        all_numbered(cols, src, bucket, l, o, j),
        forall|s: int| start <= s < cols.len() ==> #[trigger] reads_below(cols, s, l, start),
    ensures
        cols.has_slot(src.rep[x] as int),
        cols.slot_of@[src.rep[x] as int] < start,
        cols.slot_level@[cols.slot_of@[src.rep[x] as int] as int] == src.level[src.rep[x] as int],
{
    assert(rep_at(src.net, src.rep, x));
    let y = src.rep[x] as int;
    assert(numbered(src, bucket, l, o, j, y));
    let s = cols.slot_of@[y] as int;
    assert(cols.slot_ok(src, s));
    if s >= start {
        assert(reads_below(cols, s, l, start));
    }
}

/// Gate `s` of the columns reads slot `x`.
spec fn reads(ops: Seq<Op>, a: Seq<u32>, b: Seq<u32>, c: Seq<u32>, from: int, s: int, x: int) -> bool {
    from <= s < ops.len() && operands(ops[s], a[s] as int, b[s] as int, c[s] as int).contains(x)
}

/// The first `upto` gates are listed under what they read.
spec fn readers_ok(
    ops: Seq<Op>,
    a: Seq<u32>,
    b: Seq<u32>,
    c: Seq<u32>,
    from: int,
    lists: Seq<Vec<u32>>,
    upto: int,
) -> bool {
    forall|x: int, s: u32|
        0 <= x < lists.len() ==> (#[trigger] lists[x]@.contains(s) <==> s < upto && reads(
            ops,
            a,
            b,
            c,
            from,
            s as int,
            x,
        ))
}

/// The total length of the first `k` lists.
spec fn total(lists: Seq<Vec<u32>>, k: int) -> nat
    decreases k,
{
    if k <= 0 {
        0
    } else {
        total(lists, k - 1) + lists[k - 1]@.len()
    }
}

proof fn lemma_total_update(before: Seq<Vec<u32>>, after: Seq<Vec<u32>>, x: int, k: int)
    requires
        before.len() == after.len(),
        0 <= x < before.len(),
        0 <= k <= before.len(),
        forall|y: int| 0 <= y < before.len() && y != x ==> #[trigger] after[y] == before[y],
        after[x]@.len() == before[x]@.len() + 1,
    ensures
        total(after, k) == total(before, k) + if x < k {
            1nat
        } else {
            0nat
        },
    decreases k,
{
    if k > 0 {
        lemma_total_update(before, after, x, k - 1);
    }
}

proof fn lemma_total_mono(lists: Seq<Vec<u32>>, j: int, k: int)
    requires
        0 <= j <= k,
    ensures
        total(lists, j) <= total(lists, k),
    decreases k,
{
    if j < k {
        lemma_total_mono(lists, j, k - 1);
    }
}

/// List gate `s` under slot `x`.
fn list_reader(lists: &mut Vec<Vec<u32>>, x: u32, s: u32)
    requires
        x < old(lists)@.len(),
    ensures
        final(lists)@.len() == old(lists)@.len(),
        forall|y: int|
            0 <= y < old(lists)@.len() && y != x ==> #[trigger] final(lists)@[y] == old(lists)@[y],
        final(lists)@[x as int]@ == old(lists)@[x as int]@.push(s),
        total(final(lists)@, final(lists)@.len() as int) == total(old(lists)@, old(lists)@.len() as int) + 1,
        forall|y: int, t: u32|
            0 <= y < old(lists)@.len() ==> (#[trigger] final(lists)@[y]@.contains(t) <==> old(lists)@[y]@.contains(
                t,
            ) || (y == x && t == s)),
{
    let ghost before = lists@;
    lists[x as usize].push(s);
    proof {
        lemma_total_update(before, lists@, x as int, before.len() as int);
        assert forall|y: int, t: u32| 0 <= y < before.len() implies (#[trigger] lists@[y]@.contains(t) <==> before[y]@.contains(
            t,
        ) || (y == x && t == s)) by {
            if y == x {
                let old_list = before[y]@;
                if old_list.contains(t) {
                    let p = choose|p: int| 0 <= p < old_list.len() && old_list[p] == t;
                    assert(lists@[y]@[p] == t);
                }
                if t == s {
                    assert(lists@[y]@[old_list.len() as int] == t);
                }
            }
        }
    }
}

/// For every slot, the gates that read it.
fn readers(ops: &Vec<Op>, a: &Vec<u32>, b: &Vec<u32>, c: &Vec<u32>, from: usize) -> (lists: Vec<Vec<u32>>)
    requires
        a@.len() == ops@.len(),
        b@.len() == ops@.len(),
        c@.len() == ops@.len(),
        ops@.len() <= MAX_SIGNALS,
        from <= ops@.len(),
        forall|s: int| from <= s < ops@.len() ==> #[trigger] a@[s] < s && b@[s] < s && c@[s] < s,
        forall|s: int|
            from <= s < ops@.len() ==> (gate_arity(#[trigger] ops@[s]) < 2 ==> b@[s] == a@[s]) && (gate_arity(
                ops@[s],
            ) < 3 ==> c@[s] == a@[s]),
    ensures
        lists@.len() == ops@.len(),
        readers_ok(ops@, a@, b@, c@, from as int, lists@, ops@.len() as int),
        total(lists@, lists@.len() as int) <= 3 * (ops@.len() - from),
{
    let n: usize = ops.len();
    let mut lists: Vec<Vec<u32>> = Vec::with_capacity(n);
    for i in 0..n
        invariant
            lists@.len() == i,
            forall|x: int| 0 <= x < i ==> (#[trigger] lists@[x])@ == Seq::<u32>::empty(),
            total(lists@, i as int) == 0,
    {
        let ghost before = lists@;
        lists.push(Vec::new());
        proof {
            lemma_total_agree(before, lists@, i as int);
        }
    }
    for s in from..n
        invariant
            n == ops@.len(),
            a@.len() == n,
            b@.len() == n,
            c@.len() == n,
            n <= MAX_SIGNALS,
            from <= n,
            forall|s: int| from <= s < n ==> #[trigger] a@[s] < s && b@[s] < s && c@[s] < s,
            forall|s: int|
                from <= s < n ==> (gate_arity(#[trigger] ops@[s]) < 2 ==> b@[s] == a@[s]) && (gate_arity(
                    ops@[s],
                ) < 3 ==> c@[s] == a@[s]),
            lists@.len() == n,
            readers_ok(ops@, a@, b@, c@, from as int, lists@, s as int),
            total(lists@, n as int) <= 3 * (s - from),
    {
        let ghost before = lists@;
        let (sa, sb, sc) = (a[s], b[s], c[s]);
        list_reader(&mut lists, sa, s as u32);
        if sb != sa {
            list_reader(&mut lists, sb, s as u32);
        }
        if sc != sa && sc != sb {
            list_reader(&mut lists, sc, s as u32);
        }
        proof {
            let ins = operands(ops@[s as int], sa as int, sb as int, sc as int);
            assert forall|x: int| ins.contains(x) <==> x == sa || x == sb || x == sc by {
                assert(ins[0] == sa);
                if gate_arity(ops@[s as int]) == 2 {
                    assert(ins[1] == sb);
                }
                if gate_arity(ops@[s as int]) == 3 {
                    assert(ins[1] == sb && ins[2] == sc);
                }
            }
            assert forall|x: int, t: u32| 0 <= x < lists@.len() implies (#[trigger] lists@[x]@.contains(t) <==> t
                < s + 1 && reads(ops@, a@, b@, c@, from as int, t as int, x)) by {
                assert(before[x]@.contains(t) <==> t < s && reads(ops@, a@, b@, c@, from as int, t as int, x));
            }
        }
    }
    lists
}

proof fn lemma_total_agree(before: Seq<Vec<u32>>, after: Seq<Vec<u32>>, k: int)
    requires
        0 <= k <= before.len() <= after.len(),
        forall|x: int| 0 <= x < k ==> #[trigger] after[x] == before[x],
    ensures
        total(before, k) == total(after, k),
    decreases k,
{
    if k > 0 {
        lemma_total_agree(before, after, k - 1);
    }
}

/// The `x`-th list stands at its offset.
spec fn span_ok(lists: Seq<Vec<u32>>, flat: Seq<u32>, x: int) -> bool {
    &&& total(lists, x + 1) <= flat.len()
    &&& flat.subrange(total(lists, x) as int, total(lists, x + 1) as int) == lists[x]@
}

/// Lists laid end to end, with the offset of each.
fn flatten(lists: &Vec<Vec<u32>>) -> (res: (Vec<u32>, Vec<u32>))
    requires
        total(lists@, lists@.len() as int) <= u32::MAX,
    ensures
        res.0@.len() == lists@.len() + 1,
        forall|x: int| 0 <= x <= lists@.len() ==> #[trigger] res.0@[x] == total(lists@, x),
        res.1@.len() == total(lists@, lists@.len() as int),
        forall|x: int| 0 <= x < lists@.len() ==> #[trigger] span_ok(lists@, res.1@, x),
{
    let n: usize = lists.len();
    let mut offsets: Vec<u32> = Vec::new();
    let mut flat: Vec<u32> = Vec::new();
    offsets.push(0);
    for x in 0..n
        invariant
            n == lists@.len(),
            total(lists@, n as int) <= u32::MAX,
            offsets@.len() == x + 1,
            forall|y: int| 0 <= y <= x ==> #[trigger] offsets@[y] == total(lists@, y),
            flat@.len() == total(lists@, x as int),
            forall|y: int| 0 <= y < x ==> #[trigger] span_ok(lists@, flat@, y),
    {
        let ghost flat0 = flat@;
        proof {
            lemma_total_mono(lists@, x + 1, n as int);
        }
        let len: usize = lists[x].len();
        for k in 0..len
            invariant
                x < n == lists@.len(),
                len == lists@[x as int]@.len(),
                flat@ == flat0 + lists@[x as int]@.take(k as int),
        {
            flat.push(lists[x][k]);
            assert(flat@ =~= flat0 + lists@[x as int]@.take(k + 1));
        }
        proof {
            assert(lists@[x as int]@.take(len as int) =~= lists@[x as int]@);
            assert(flat@.len() == total(lists@, x + 1));
            assert forall|y: int| 0 <= y < x + 1 implies #[trigger] span_ok(lists@, flat@, y) by {
                if y < x {
                    assert(span_ok(lists@, flat0, y));
                    lemma_total_mono(lists@, y, y + 1);
                }
                assert(flat@.subrange(total(lists@, y) as int, total(lists@, y + 1) as int)
                    =~= lists@[y]@);
            }
        }
        offsets.push(flat.len() as u32);
    }
    (offsets, flat)
}

/// There are no more gate slots than gates.
proof fn lemma_gate_slots_few(src: Source, cols: Columns, gs: int)
    requires
        source_ok(src),
        cols.ok(src),
        0 <= gs <= cols.len(),
        forall|s: int| gs <= s < cols.len() ==> src.cells[#[trigger] cols.origin@[s]] is Gate,
    ensures
        cols.len() - gs <= gate_count(src.net.nodes),
{
    let n = src.net.nodes.len() as int;
    let slots = vstd::set_lib::set_int_range(gs, cols.len());
    let f = |s: int| cols.origin@[s];
    let held = slots.map(f);
    let gates = gate_places(src.net.nodes, n);
    vstd::set_lib::lemma_int_range(gs, cols.len());
    lemma_gate_places(src.net.nodes, n);
    assert(vstd::relations::injective_on(f, slots)) by {
        assert forall|s: int, t: int| slots.contains(s) && slots.contains(t) && #[trigger] f(s) == #[trigger] f(t) implies s
            == t by {
            assert(cols.slot_ok(src, s));
            assert(cols.slot_ok(src, t));
        }
    }
    assert forall|i: int| held.contains(i) implies gates.contains(i) by {
        let s = choose|s: int| slots.contains(s) && f(s) == i;
        assert(cols.slot_ok(src, s));
        assert(src.cells[cols.origin@[s]] is Gate);
        assert(cell_node(src.cells[i]) == src.net.nodes[i]);
    }
    vstd::set_lib::lemma_map_size(slots, held, f);
    vstd::set_lib::lemma_len_subset(held, gates);
}

/// The tape holds exactly these columns, the first `gs` slots being sources.
spec fn holds(tape: Compiled, src: Source, cols: Columns, gs: int) -> bool {
    &&& tape.ops@ == cols.ops@
    &&& tape.a@ == cols.a@
    &&& tape.b@ == cols.b@
    &&& tape.c@ == cols.c@
    &&& tape.slot_level@ == cols.slot_level@
    &&& tape.gate_start == gs
    &&& 0 <= gs <= cols.len()
    &&& tape.sources@ == Seq::new(gs as nat, |s: int| src.net.nodes[cols.origin@[s]])
    &&& forall|s: int| 0 <= s < gs ==> !(src.cells[#[trigger] cols.origin@[s]] is Gate)
    &&& forall|s: int| gs <= s < cols.len() ==> src.cells[#[trigger] cols.origin@[s]] is Gate
}

/// A slot always has the value of its node.
proof fn lemma_slot_value(tape: Compiled, src: Source, cols: Columns, gs: int, env: Env, s: int)
    requires
        source_ok(src),
        cols.ok(src),
        holds(tape, src, cols, gs),
        forall|i: int|
            0 <= i < src.cells.len() ==> (#[trigger] cols.has_slot(i) <==> has_place(src, i)),
        0 <= s < cols.len(),
    ensures
        tape.value(env, s) == src.net.value(env, cols.origin@[s]),
    decreases s,
{
    assert(cols.slot_ok(src, s));
    let i = cols.origin@[s];
    assert(cell_node(src.cells[i]) == src.net.nodes[i]);
    let nodes = tape.net().nodes;
    if s < gs {
        assert(nodes[s] == src.net.nodes[i]);
    } else {
        assert(src.cells[cols.origin@[s]] is Gate);
        if let Cell::Gate(op, a, b, c) = src.cells[i] {
            let (sa, sb, sc) = (tape.a@[s] as int, tape.b@[s] as int, tape.c@[s] as int);
            lemma_operand_value(tape, src, cols, gs, env, s, a as int, sa);
            lemma_operand_value(tape, src, cols, gs, env, s, b as int, sb);
            lemma_operand_value(tape, src, cols, gs, env, s, c as int, sc);
            lemma_gate_value(src.net.nodes, src.cells, env, i);
            assert(nodes[s] == Node::Gate(op, operands(op, sa, sb, sc)));
        }
    }
}

proof fn lemma_operand_value(
    tape: Compiled,
    src: Source,
    cols: Columns,
    gs: int,
    env: Env,
    s: int,
    x: int,
    sx: int,
)
    requires
        source_ok(src),
        cols.ok(src),
        holds(tape, src, cols, gs),
        forall|i: int|
            0 <= i < src.cells.len() ==> (#[trigger] cols.has_slot(i) <==> has_place(src, i)),
        0 <= s < cols.len(),
        0 <= sx < s,
        0 <= x < src.cells.len(),
        sx == cols.slot_of@[src.rep[x] as int],
    ensures
        tape.value(env, sx) == src.net.value(env, x),
    decreases s, 0int,
{
    assert(rep_at(src.net, src.rep, x));
    let y = src.rep[x] as int;
    assert(src.rep[y] == y);
    assert(cols.slot_of@[y] != DEAD);
    lemma_slot_value(tape, src, cols, gs, env, sx);
    assert(cols.origin@[sx] == y);
    assert(src.net.value(env, x) == src.net.value(env, y));
}

proof fn lemma_gates_ok(tape: Compiled, src: Source, cols: Columns, gs: int)
    requires
        source_ok(src),
        cols.ok(src),
        holds(tape, src, cols, gs),
        forall|s: int| gs <= s < cols.len() ==> #[trigger] placed(cols, tape.levels@, s),
        levels_tile(tape.levels@, tape.runs@, gs, cols.len()),
        tape.levels@.len() <= MAX_SIGNALS + 1,
        runs_tile(tape.runs@, cols.ops@, gs, cols.len()),
    ensures
        tape.columns_ok(),
        tape.gates_ok(),
        forall|s: int| gs <= s < cols.len() ==> #[trigger] tape.a@[s] < s && tape.b@[s] < s && tape.c@[s] < s,
        forall|s: int|
            gs <= s < cols.len() ==> (gate_arity(#[trigger] tape.ops@[s]) < 2 ==> tape.b@[s] == tape.a@[s])
                && (gate_arity(tape.ops@[s]) < 3 ==> tape.c@[s] == tape.a@[s]),
{
    assert forall|s: int| 0 <= s < gs implies #[trigger] tape.slot_level@[s] == 0 by {
        assert(cols.slot_ok(src, s));
        let i = cols.origin@[s];
        assert(level_at(src.cells, src.rep, src.level, i));
    }
    assert forall|s: int| gs <= s < cols.len() implies #[trigger] tape.gate_ok(s) by {
        assert(placed(cols, tape.levels@, s));
        assert(cols.slot_ok(src, s));
        let i = cols.origin@[s];
        assert(src.cells[cols.origin@[s]] is Gate);
    }
    assert forall|s: int| gs <= s < cols.len() implies #[trigger] tape.a@[s] < s && tape.b@[s] < s && tape.c@[s]
        < s by {
        assert(tape.gate_ok(s));
    }
    assert forall|s: int| gs <= s < cols.len() implies (gate_arity(#[trigger] tape.ops@[s]) < 2 ==> tape.b@[s]
        == tape.a@[s]) && (gate_arity(tape.ops@[s]) < 3 ==> tape.c@[s] == tape.a@[s]) by {
        assert(tape.gate_ok(s));
    }
}

proof fn lemma_sources_ok(tape: Compiled, src: Source, c0: Columns, cols: Columns, t: SourceTables)
    requires
        source_ok(src),
        c0.ok(src),
        cols.ok(src),
        cols.extends(c0),
        holds(tape, src, cols, c0.len()),
        tables_ok(src, c0, t),
        forall|i: int|
            0 <= i < src.cells.len() ==> (c0.has_slot(i) <==> !(#[trigger] src.cells[i] is Gate) && has_place(
                src,
                i,
            )),
        tape.const_slots@ == t.const_slots@,
        tape.input_slots@ == t.input_slots@,
        tape.reg_out_slots@ == t.reg_out_slots@,
    ensures
        tape.sources_ok(),
{
    let gs = c0.len();
    assert forall|s: int| 0 <= s < gs implies cell_node(src.cells[#[trigger] c0.origin@[s]])
        == tape.sources@[s] && c0.origin@[s] == cols.origin@[s] && 0 <= c0.origin@[s] < src.cells.len() && c0.slot_of@[c0.origin@[s]]
        == s by {
        assert(c0.slot_ok(src, s));
        assert(same_slot(c0, cols, s));
    }
    assert forall|s: int| 0 <= s < tape.sources@.len() implies !((#[trigger] tape.sources@[s]) is Gate) by {
        assert(c0.origin@[s] == cols.origin@[s]);
    }
    assert forall|j: int| 0 <= j < tape.const_slots@.len() implies (#[trigger] tape.const_slots@[j]).0
        < tape.gate_start && tape.const_slots@[j].1 <= 1 && tape.sources@[tape.const_slots@[j].0 as int]
        == Node::Const(tape.const_slots@[j].1 == 1) by {
        let x = c0.origin@[t.const_slots@[j].0 as int];
    }
    assert forall|s: int| 0 <= s < tape.sources@.len() && (#[trigger] tape.sources@[s]) is Const implies exists|
        j: int,
    |
        0 <= j < tape.const_slots@.len() && (#[trigger] tape.const_slots@[j]).0 == s by {
        assert(src.cells[c0.origin@[s]] is Const);
    }
    assert forall|k: int| 0 <= k < tape.input_slots@.len() implies (#[trigger] tape.input_slots@[k])
        < tape.gate_start && tape.sources@[tape.input_slots@[k] as int] == Node::Input(k) by {
        assert(src.net.has_input(k));
        let i = choose|i: int|
            0 <= i < src.net.nodes.len() && #[trigger] src.net.nodes[i] == Node::Input(k);
        assert(cell_node(src.cells[i]) == src.net.nodes[i]);
        assert(rep_at(src.net, src.rep, i));
        assert(c0.has_slot(i)) by {
            assert(!(src.cells[i] is Gate));
        }
        assert(c0.origin@[c0.slot_of@[i] as int] == i);
    }
    assert forall|s: int| 0 <= s < tape.sources@.len() implies ((#[trigger] tape.sources@[s]) matches Node::Input(
        k,
    ) ==> 0 <= k < tape.input_slots@.len() && tape.input_slots@[k] == s) by {
        let i = c0.origin@[s];
        assert(cell_node(src.cells[i]) == src.net.nodes[i]);
    }
    assert forall|r: int| 0 <= r < tape.reg_out_slots@.len() && (#[trigger] tape.reg_out_slots@[r]) != DEAD implies tape.reg_out_slots@[r]
        < tape.gate_start && tape.sources@[tape.reg_out_slots@[r] as int] == Node::RegOut(r) by {
        assert(src.net.has_reg(r));
        let i = choose|i: int|
            0 <= i < src.net.nodes.len() && #[trigger] src.net.nodes[i] == Node::RegOut(r);
        assert(cell_node(src.cells[i]) == src.net.nodes[i]);
        assert(src.cells[i] is Reg);
        assert(c0.has_slot(i));
        assert(c0.origin@[c0.slot_of@[i] as int] == i);
    }
    assert forall|s: int| 0 <= s < tape.sources@.len() implies ((#[trigger] tape.sources@[s]) matches Node::RegOut(
        r,
    ) ==> 0 <= r < tape.reg_out_slots@.len() && tape.reg_out_slots@[r] == s) by {
        let i = c0.origin@[s];
        assert(cell_node(src.cells[i]) == src.net.nodes[i]);
    }
}

/// The taps of the tape are the slots of the circuit's taps.
spec fn taps_follow(tape: Compiled, src: Source, cols: Columns) -> bool {
    &&& tape.reg_in_slots@.len() == src.net.drives.len()
    &&& forall|r: int|
        0 <= r < src.net.drives.len() ==> #[trigger] tape.reg_in_slots@[r]
            == cols.slot_of@[src.rep[src.net.drives[r]] as int]
    &&& tape.output_slots@.len() == src.net.outs.len()
    &&& forall|k: int|
        0 <= k < src.net.outs.len() ==> #[trigger] tape.output_slots@[k] == cols.slot_of@[src.net.outs[k]]
    &&& tape.reg_initial@.len() == src.net.inits.len()
    &&& forall|r: int|
        0 <= r < src.net.inits.len() ==> #[trigger] tape.reg_initial@[r] == bit(src.net.inits[r])
    &&& tape.reg_out_slots@.len() == src.net.drives.len()
    &&& tape.input_slots@.len() == src.net.inputs
}

proof fn lemma_same_machine(tape: Compiled, src: Source, cols: Columns, gs: int)
    requires
        source_ok(src),
        cols.ok(src),
        holds(tape, src, cols, gs),
        forall|i: int|
            0 <= i < src.cells.len() ==> (#[trigger] cols.has_slot(i) <==> has_place(src, i)),
        taps_follow(tape, src, cols),
        fold_ok(src.net, src.rep),
        src.net.drives.len() <= MAX_SIGNALS,
    ensures
        tape.taps_ok(),
        same_machine(tape.net(), src.net),
{
    let m1 = tape.net();
    let m2 = src.net;
    assert forall|r: int| 0 <= r < m2.drives.len() implies #[trigger] tape.reg_in_slots@[r] < tape.n()
        && forall|env: Env| #[trigger] tape.value(env, tape.reg_in_slots@[r] as int) == m2.value(env, m2.drives[r]) by {
        let x = m2.drives[r];
        assert(rep_at(src.net, src.rep, x));
        let y = src.rep[x] as int;
        assert(src.rep[y] == y);
        assert(tapped(src.net, x)) by {
            assert(src.net.drives.contains(x));
        }
        lemma_taps_kept(src, x);
        let s = cols.slot_of@[y] as int;
        assert(cols.has_slot(y));
        assert forall|env: Env| #[trigger] tape.value(env, s) == m2.value(env, x) by {
            lemma_slot_value(tape, src, cols, gs, env, s);
            assert(m2.value(env, x) == m2.value(env, y));
        }
    }
    assert forall|k: int| 0 <= k < m2.outs.len() implies #[trigger] tape.output_slots@[k] < tape.n() && {
        let x1 = m1.nodes[m1.outs[k]];
        let x2 = m2.nodes[m2.outs[k]];
        x1 == x2 || (x1 is Gate && x2 is Gate)
    } && forall|env: Env| #[trigger] tape.value(env, tape.output_slots@[k] as int) == m2.value(env, m2.outs[k]) by {
        let x = m2.outs[k];
        assert(src.rep[x] == x);
        assert(tapped(src.net, x)) by {
            assert(src.net.outs.contains(x));
        }
        lemma_taps_kept(src, x);
        let s = cols.slot_of@[x] as int;
        assert(cols.has_slot(x));
        assert(cell_node(src.cells[x]) == m2.nodes[x]);
        assert(cols.origin@[s] == x);
        assert forall|env: Env| #[trigger] tape.value(env, s) == m2.value(env, x) by {
            lemma_slot_value(tape, src, cols, gs, env, s);
        }
    }
    assert forall|env: Env| #[trigger] m1.outputs(env) == m2.outputs(env) by {
        assert forall|k: int| 0 <= k < m2.outs.len() implies m1.outputs(env)[k] == m2.outputs(env)[k] by {
            assert(tape.value(env, tape.output_slots@[k] as int) == m2.value(env, m2.outs[k]));
        }
        assert(m1.outputs(env) =~= m2.outputs(env));
    }
    assert forall|env: Env| #[trigger] m1.next_state(env) == m2.next_state(env) by {
        assert forall|r: int| 0 <= r < m2.drives.len() implies m1.next_state(env)[r] == m2.next_state(env)[r] by {
            assert(tape.value(env, tape.reg_in_slots@[r] as int) == m2.value(env, m2.drives[r]));
        }
        assert(m1.next_state(env) =~= m2.next_state(env));
    }
    assert(m1.inits =~= m2.inits);
    assert forall|k: int| 0 <= k < m1.outs.len() implies {
        let x1 = m1.nodes[#[trigger] m1.outs[k]];
        let x2 = m2.nodes[m2.outs[k]];
        x1 == x2 || (x1 is Gate && x2 is Gate)
    } by {
        assert(tape.output_slots@[k] < tape.n());
    }
}

proof fn lemma_succ_ok(tape: Compiled, lists: Seq<Vec<u32>>)
    requires
        tape.columns_ok(),
        lists.len() == tape.n(),
        readers_ok(tape.ops@, tape.a@, tape.b@, tape.c@, tape.gate_start as int, lists, tape.n()),
        tape.succ_offsets@.len() == lists.len() + 1,
        forall|x: int| 0 <= x <= lists.len() ==> #[trigger] tape.succ_offsets@[x] == total(lists, x),
        tape.succ@.len() == total(lists, lists.len() as int),
        forall|x: int| 0 <= x < lists.len() ==> #[trigger] span_ok(lists, tape.succ@, x),
    ensures
        tape.succ_ok(),
{
    assert forall|x: int| 0 <= x < tape.n() implies (#[trigger] tape.succ_offsets@[x])
        <= tape.succ_offsets@[x + 1] <= tape.succ@.len() by {
        lemma_total_mono(lists, x, x + 1);
        lemma_total_mono(lists, x + 1, lists.len() as int);
    }
    assert forall|x: int, s: u32| 0 <= x < tape.n() implies (#[trigger] tape.succ_of(x).contains(s)
        <==> tape.reads(s as int, x)) by {
        assert(span_ok(lists, tape.succ@, x));
        assert(tape.succ_offsets@[x + 1] == total(lists, x + 1));
        assert(tape.succ_of(x) == lists[x]@);
        assert(lists[x]@.contains(s) <==> s < tape.n() && reads(
            tape.ops@,
            tape.a@,
            tape.b@,
            tape.c@,
            tape.gate_start as int,
            s as int,
            x,
        ));
    }
}

/// The tape is the netlist's.
proof fn lemma_lowered(tape: Compiled, src: Source, c0: Columns, cols: Columns, t: SourceTables)
    requires
        source_ok(src),
        fold_ok(src.net, src.rep),
        cols.ok(src),
        c0.ok(src),
        cols.extends(c0),
        holds(tape, src, cols, c0.len()),
        tables_ok(src, c0, t),
        taps_follow(tape, src, cols),
        tape.const_slots@ == t.const_slots@,
        tape.reg_out_slots@ == t.reg_out_slots@,
        tape.reg_initial@.len() == src.net.inits.len(),
        forall|i: int|
            0 <= i < src.cells.len() ==> (c0.has_slot(i) <==> !(#[trigger] src.cells[i] is Gate) && has_place(
                src,
                i,
            )),
        forall|i: int|
            0 <= i < src.cells.len() ==> (#[trigger] cols.has_slot(i) <==> has_place(src, i)),
        forall|i: int|
            0 <= i < src.cells.len() && has_place(src, i) ==> #[trigger] src.level[i] < tape.levels@.len(),
        tape.levels@.len() == 1 || exists|i: int|
            0 <= i < src.cells.len() && has_place(src, i) && #[trigger] src.level[i] + 1
                == tape.levels@.len(),
        forall|k: int|
            0 < k < tape.runs@.len() ==> #[trigger] run_changes(tape.runs@, tape.slot_level@, k),
    ensures
        lowered(src.net, tape),
{
    let net = src.net;
    let l = Lowering { rep: src.rep, level: src.level, live: src.live, origin: cols.origin@ };
    assert forall|i: int| 0 <= i < net.nodes.len() implies #[trigger] node_level(
        net,
        l.rep,
        l.level,
        i,
    ) by {
        assert(cell_node(src.cells[i]) == net.nodes[i]);
        assert(level_at(src.cells, src.rep, src.level, i));
        assert(rep_at(net, src.rep, i));
        if let Cell::Gate(op, a, b, c) = src.cells[i] {
            if src.rep[i] == i {
                let ins = operands(op, a as int, b as int, c as int);
                let (x, y, z) = (
                    src.level[src.rep[a as int] as int],
                    src.level[src.rep[b as int] as int],
                    src.level[src.rep[c as int] as int],
                );
                assert(ins[0] == a);
                assert(ins.len() > 1 ==> ins[1] == b);
                assert(ins.len() > 2 ==> ins[2] == c);
                assert(max3(x, y, z) == x || max3(x, y, z) == y || max3(x, y, z) == z);
                if max3(x, y, z) == x {
                    assert(src.level[src.rep[ins[0]] as int] + 1 == src.level[i]);
                } else if max3(x, y, z) == y {
                    assert(src.level[src.rep[ins[1]] as int] + 1 == src.level[i]);
                } else {
                    assert(src.level[src.rep[ins[2]] as int] + 1 == src.level[i]);
                }
            }
        }
    }
    assert forall|s: int| 0 <= s < tape.n() implies #[trigger] slot_from(net, l, tape, s) by {
        assert(cols.slot_ok(src, s));
        let i = cols.origin@[s];
        assert(cell_node(src.cells[i]) == net.nodes[i]);
        assert(cols.has_slot(i));
        if let Cell::Gate(op, a, b, c) = src.cells[i] {
            assert(rep_at(net, src.rep, a as int) && rep_at(net, src.rep, b as int) && rep_at(
                net,
                src.rep,
                c as int,
            ));
            assert(s >= tape.gate_start);
            let (sa, sb, sc) = (cols.a@[s] as int, cols.b@[s] as int, cols.c@[s] as int);
            assert(cols.slot_ok(src, sa) && cols.slot_ok(src, sb) && cols.slot_ok(src, sc));
            assert(cols.slot_of@[src.rep[a as int] as int] != DEAD);
            assert(cols.slot_of@[src.rep[b as int] as int] != DEAD);
            assert(cols.slot_of@[src.rep[c as int] as int] != DEAD);
        } else {
            assert(s < tape.gate_start) by {
                assert(!(src.cells[cols.origin@[s]] is Gate));
            }
        }
    }
    assert forall|i: int| 0 <= i < net.nodes.len() && #[trigger] kept(net, l.rep, l.live, i) implies l.origin.contains(
        i,
    ) by {
        assert(cols.has_slot(i));
        assert(cols.origin@[cols.slot_of@[i] as int] == i);
    }
    assert forall|k: int| 0 <= k < net.outs.len() implies l.origin[#[trigger] tape.output_slots@[k] as int]
        == net.outs[k] by {
        let x = net.outs[k];
        assert(0 <= x < net.nodes.len());
        assert(tapped(net, x)) by {
            assert(net.outs.contains(x));
        }
        lemma_taps_kept(src, x);
        assert(cols.has_slot(x));
    }
    assert forall|r: int| 0 <= r < net.drives.len() implies l.origin[#[trigger] tape.reg_in_slots@[r] as int]
        == net.drives[r] by {
        let x = net.drives[r];
        assert(0 <= x < net.nodes.len());
        assert(tapped(net, x)) by {
            assert(net.drives.contains(x));
        }
        lemma_taps_kept(src, x);
        assert(cols.has_slot(x));
    }
    assert(tape.reg_initial@ =~= Seq::new(net.inits.len(), |r: int| bit(net.inits[r])));
    assert(l.origin.len() == tape.n());
    if tape.levels@.len() != 1 {
        let i = choose|i: int|
            0 <= i < src.cells.len() && has_place(src, i) && #[trigger] src.level[i] + 1
                == tape.levels@.len();
        assert(kept(net, l.rep, l.live, i) && l.level[i] + 1 == tape.levels@.len());
    }
    assert(is_lowering(net, l, tape));
}

/// The slots of a list of signals' nodes.
fn taps(circuit: &Circuit) -> (res: (Vec<u32>, Vec<u32>, Vec<u8>))
    requires
        circuit.wf(),
    ensures
        res.0@.len() == circuit.net().outs.len(),
        forall|k: int| 0 <= k < res.0@.len() ==> #[trigger] res.0@[k] == circuit.net().outs[k],
        res.1@.len() == circuit.net().drives.len(),
        forall|r: int| 0 <= r < res.1@.len() ==> #[trigger] res.1@[r] == circuit.net().drives[r],
        res.2@.len() == circuit.net().inits.len(),
        forall|r: int| 0 <= r < res.2@.len() ==> #[trigger] res.2@[r] == bit(circuit.net().inits[r]),
{
    let ghost net = circuit.net();
    let mut outs: Vec<u32> = Vec::new();
    for k in 0..circuit.output_signals.len()
        invariant
            net == circuit.net(),
            outs@.len() == k,
            forall|j: int| 0 <= j < k ==> #[trigger] outs@[j] == net.outs[j],
    {
        outs.push(circuit.output_signals[k].as_u32());
    }
    let mut drives: Vec<u32> = Vec::new();
    let mut inits: Vec<u8> = Vec::new();
    let count: usize = regs_len(&circuit.regs);
    for r in 0..count
        invariant
            net == circuit.net(),
            circuit.wf(),
            count == net.drives.len(),
            count == net.inits.len(),
            drives@.len() == r,
            forall|j: int| 0 <= j < r ==> #[trigger] drives@[j] == net.drives[j],
            inits@.len() == r,
            forall|j: int| 0 <= j < r ==> #[trigger] inits@[j] == bit(net.inits[j]),
    {
        let reg = regs_get(&circuit.regs, Reg::from_index(r));
        drives.push(reg.data_input.as_u32());
        inits.push(if reg.initial { 1 } else { 0 });
    }
    (outs, drives, inits)
}

/// Lower a circuit to its tape.
pub(crate) fn lower(circuit: &Circuit) -> (tape: Compiled)
    requires
        circuit.wf(),
    ensures
        tape.wf(),
        tape.n() <= circuit.net().nodes.len(),
        same_machine(tape.net(), circuit.net()),
        lowered(circuit.net(), tape),
{
    let ghost net = circuit.net();
    let cells = cells_of(circuit);
    let (outs, drives, reg_initial) = taps(circuit);
    let rep = fold(Ghost(net), &cells, &outs, &drives);
    let level = levels_for(Ghost(net), &cells, &rep);
    let live = mark_live(Ghost(net), &cells, &rep, &outs, &drives);
    let ghost src = Source { net, cells: cells@, rep: rep@, level: level@, live: live@ };
    let (mut cols, t) = emit_sources(
        Ghost(src),
        &cells,
        &live,
        circuit.input_count as usize,
        circuit.register_count as usize,
    );
    let gate_start: u32 = cols.ops.len() as u32;
    let ghost c0 = cols;
    let buckets = by_level(Ghost(src), &cells, &rep, &level, &live);
    let (levels, runs) = emit_gates(Ghost(src), &cells, &rep, &buckets, &mut cols);
    let ghost sources = Seq::new(gate_start as nat, |s: int| net.nodes[cols.origin@[s]]);

    let mut reg_in_slots: Vec<u32> = Vec::new();
    for r in 0..drives.len()
        invariant
            src == (Source { net, cells: cells@, rep: rep@, level: level@, live: live@ }),
            source_ok(src),
            cols.ok(src),
            drives@.len() == net.drives.len(),
            forall|j: int| 0 <= j < drives@.len() ==> #[trigger] drives@[j] == net.drives[j],
            reg_in_slots@.len() == r,
            forall|j: int|
                0 <= j < r ==> #[trigger] reg_in_slots@[j] == cols.slot_of@[rep@[net.drives[j]] as int],
    {
        assert(0 <= net.drives[r as int] < net.nodes.len());
        assert(rep_at(net, rep@, drives@[r as int] as int));
        reg_in_slots.push(cols.slot_of[rep[drives[r] as usize] as usize]);
    }
    let mut output_slots: Vec<u32> = Vec::new();
    for k in 0..outs.len()
        invariant
            src == (Source { net, cells: cells@, rep: rep@, level: level@, live: live@ }),
            source_ok(src),
            cols.ok(src),
            outs@.len() == net.outs.len(),
            forall|j: int| 0 <= j < outs@.len() ==> #[trigger] outs@[j] == net.outs[j],
            output_slots@.len() == k,
            forall|j: int| 0 <= j < k ==> #[trigger] output_slots@[j] == cols.slot_of@[net.outs[j]],
    {
        assert(0 <= net.outs[k as int] < net.nodes.len());
        output_slots.push(cols.slot_of[outs[k] as usize]);
    }
    let mut tape = Compiled {
        ops: cols.ops,
        a: cols.a,
        b: cols.b,
        c: cols.c,
        gate_start,
        slot_level: cols.slot_level,
        levels,
        runs,
        succ_offsets: Vec::new(),
        succ: Vec::new(),
        const_slots: t.const_slots,
        input_slots: t.input_slots,
        reg_out_slots: t.reg_out_slots,
        reg_in_slots,
        reg_initial,
        output_slots,
        sources: Ghost(sources),
    };
    proof {
        let gs = gate_start as int;
        assert forall|s: int| 0 <= s < gs implies !(src.cells[#[trigger] cols.origin@[s]] is Gate) by {
            assert(same_slot(c0, cols, s));
            assert(c0.slot_ok(src, s));
        }
        assert(holds(tape, src, cols, gs));
        lemma_gates_ok(tape, src, cols, gs);
        lemma_sources_ok(tape, src, c0, cols, t);
        lemma_same_machine(tape, src, cols, gs);
    }
    let ghost before = tape;
    proof {
        lemma_gate_slots_few(src, cols, gate_start as int);
    }
    let lists = readers(&tape.ops, &tape.a, &tape.b, &tape.c, gate_start as usize);
    let (succ_offsets, succ) = flatten(&lists);
    tape.succ_offsets = succ_offsets;
    tape.succ = succ;
    proof {
        lemma_succ_ok(tape, lists@);
        assert(tape.net() =~= before.net());
        assert forall|s: int| tape.gate_start <= s < tape.n() implies #[trigger] tape.gate_ok(s) by {
            assert(before.gate_ok(s));
        }
        assert(tape.levels@ == levels@ && tape.runs@ == runs@);
        lemma_lowered(tape, src, c0, cols, t);
    }
    tape
}

} // verus!
