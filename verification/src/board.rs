//! A matrix of cells that compiles to a circuit.
//!
//! Every cell reads its west and its north neighbour. Sources feed the
//! circuit's inputs, binary gates combine both neighbours, wires, inverters,
//! lamps and flip-flops take the west neighbour, or the north one where there
//! is none in the west. A missing neighbour reads low.
use vstd::prelude::*;

use crate::netlist::{Env, GateOp};

verus! {

pub const DEFAULT_BOARD_WIDTH: usize = 16;

pub const DEFAULT_BOARD_HEIGHT: usize = 10;

#[derive(Debug, Clone, Copy, PartialEq, Eq, Hash, Structural)]
pub enum CellKind {
    Empty,
    Input,
    Clock,
    Wire,
    Not,
    And,
    Or,
    Xor,
    Nand,
    Register,
    Led,
}

/// The kinds a user can place, in the order they are offered.
pub open spec fn palette_kinds() -> Seq<CellKind> {
    seq![
        CellKind::Empty,
        CellKind::Input,
        CellKind::Clock,
        CellKind::Wire,
        CellKind::Not,
        CellKind::And,
        CellKind::Or,
        CellKind::Xor,
        CellKind::Nand,
        CellKind::Register,
        CellKind::Led,
    ]
}

/// The short text on a cell.
pub open spec fn label_of(kind: CellKind) -> Seq<char> {
    match kind {
        CellKind::Empty => ""@,
        CellKind::Input => "IN"@,
        CellKind::Clock => "CLK"@,
        CellKind::Wire => "WIRE"@,
        CellKind::Not => "NOT"@,
        CellKind::And => "AND"@,
        CellKind::Or => "OR"@,
        CellKind::Xor => "XOR"@,
        CellKind::Nand => "NAND"@,
        CellKind::Register => "DFF"@,
        CellKind::Led => "LED"@,
    }
}

/// The name of a kind.
pub open spec fn name_of(kind: CellKind) -> Seq<char> {
    match kind {
        CellKind::Empty => "Erase"@,
        CellKind::Input => "Input source"@,
        CellKind::Clock => "Clock source"@,
        CellKind::Wire => "Wire"@,
        CellKind::Not => "Inverter"@,
        CellKind::And => "AND gate"@,
        CellKind::Or => "OR gate"@,
        CellKind::Xor => "XOR gate"@,
        CellKind::Nand => "NAND gate"@,
        CellKind::Register => "D flip-flop"@,
        CellKind::Led => "Output LED"@,
    }
}

/// Inputs and clocks.
pub open spec fn source_kind(kind: CellKind) -> bool {
    kind == CellKind::Input || kind == CellKind::Clock
}

/// The function of a cell that combines both neighbours.
pub open spec fn gate_of(kind: CellKind) -> Option<GateOp> {
    match kind {
        CellKind::And => Some(GateOp::And),
        CellKind::Or => Some(GateOp::Or),
        CellKind::Xor => Some(GateOp::Xor),
        CellKind::Nand => Some(GateOp::Nand),
        _ => None,
    }
}

impl CellKind {
    pub fn palette() -> (kinds: &'static [CellKind])
        ensures
            kinds@ == palette_kinds(),
    {
        let kinds: &'static [CellKind; 11] = &[
            CellKind::Empty,
            CellKind::Input,
            CellKind::Clock,
            CellKind::Wire,
            CellKind::Not,
            CellKind::And,
            CellKind::Or,
            CellKind::Xor,
            CellKind::Nand,
            CellKind::Register,
            CellKind::Led,
        ];
        assert(kinds@ =~= palette_kinds());
        kinds
    }

    pub fn label(self) -> (text: &'static str)
        ensures
            text@ == label_of(self),
    {
        match self {
            CellKind::Empty => "",
            CellKind::Input => "IN",
            CellKind::Clock => "CLK",
            CellKind::Wire => "WIRE",
            CellKind::Not => "NOT",
            CellKind::And => "AND",
            CellKind::Or => "OR",
            CellKind::Xor => "XOR",
            CellKind::Nand => "NAND",
            CellKind::Register => "DFF",
            CellKind::Led => "LED",
        }
    }

    pub fn name(self) -> (text: &'static str)
        ensures
            text@ == name_of(self),
    {
        match self {
            CellKind::Empty => "Erase",
            CellKind::Input => "Input source",
            CellKind::Clock => "Clock source",
            CellKind::Wire => "Wire",
            CellKind::Not => "Inverter",
            CellKind::And => "AND gate",
            CellKind::Or => "OR gate",
            CellKind::Xor => "XOR gate",
            CellKind::Nand => "NAND gate",
            CellKind::Register => "D flip-flop",
            CellKind::Led => "Output LED",
        }
    }

    pub fn is_source(self) -> (yes: bool)
        ensures
            yes == source_kind(self),
    {
        match self {
            CellKind::Input | CellKind::Clock => true,
            _ => false,
        }
    }

    /// The function of a cell that combines both neighbours.
    pub(crate) fn gate_op(self) -> (op: Option<GateOp>)
        ensures
            op == gate_of(self),
    {
        match self {
            CellKind::And => Some(GateOp::And),
            CellKind::Or => Some(GateOp::Or),
            CellKind::Xor => Some(GateOp::Xor),
            CellKind::Nand => Some(GateOp::Nand),
            _ => None,
        }
    }
}

#[derive(Debug, Clone, Copy, PartialEq, Eq, Hash, Structural)]
pub struct CellPos {
    pub x: usize,
    pub y: usize,
}

impl CellPos {
    pub fn new(x: usize, y: usize) -> (p: Self)
        ensures
            p.x == x,
            p.y == y,
    {
        Self { x, y }
    }
}

#[derive(Debug, Clone, Copy, PartialEq, Eq, Structural)]
pub struct Cell {
    pub kind: CellKind,
    pub input_value: bool,
}

/// An empty cell.
pub open spec fn blank() -> Cell {
    Cell { kind: CellKind::Empty, input_value: false }
}

impl Default for Cell {
    fn default() -> (c: Self)
        ensures
            c == blank(),
    {
        Self { kind: CellKind::Empty, input_value: false }
    }
}

/// A board as a value.
#[verifier::ext_equal]
pub struct Grid {
    pub width: int,
    pub height: int,
    /// Row by row.
    pub cells: Seq<Cell>,
}

impl Grid {
    pub open spec fn ok(self) -> bool {
        &&& self.width > 0
        &&& self.height > 0
        &&& self.cells.len() == self.width * self.height
    }

    pub open spec fn inside(self, x: int, y: int) -> bool {
        0 <= x < self.width && 0 <= y < self.height
    }

    pub open spec fn at(self, x: int, y: int) -> int {
        y * self.width + x
    }

    /// The board with one cell of another kind. Sources keep their value.
    pub open spec fn with_kind(self, x: int, y: int, kind: CellKind) -> Grid {
        let k = self.at(x, y);
        Grid {
            cells: self.cells.update(
                k,
                Cell { kind, input_value: source_kind(kind) && self.cells[k].input_value },
            ),
            ..self
        }
    }

    /// The board with one source at another value; other cells ignore it.
    pub open spec fn with_value(self, x: int, y: int, value: bool) -> Grid {
        let k = self.at(x, y);
        if source_kind(self.cells[k].kind) {
            Grid { cells: self.cells.update(k, Cell { input_value: value, ..self.cells[k] }), ..self }
        } else {
            self
        }
    }
}

/// How many of the first `k` cells are of a kind.
pub open spec fn kinds_before(cells: Seq<Cell>, k: int, kind: CellKind) -> nat
    decreases k,
{
    if k <= 0 {
        0
    } else {
        kinds_before(cells, k - 1, kind) + if cells[k - 1].kind == kind {
            1nat
        } else {
            0nat
        }
    }
}

/// How many of the first `k` cells are sources.
pub open spec fn sources_before(cells: Seq<Cell>, k: int) -> nat
    decreases k,
{
    if k <= 0 {
        0
    } else {
        sources_before(cells, k - 1) + if source_kind(cells[k - 1].kind) {
            1nat
        } else {
            0nat
        }
    }
}

/// How many of the first `k` cells hold anything.
pub open spec fn filled_before(cells: Seq<Cell>, k: int) -> nat
    decreases k,
{
    if k <= 0 {
        0
    } else {
        filled_before(cells, k - 1) + if cells[k - 1].kind != CellKind::Empty {
            1nat
        } else {
            0nat
        }
    }
}

/// How many of the first `k` cells become gates.
pub open spec fn gates_before(cells: Seq<Cell>, k: int) -> nat
    decreases k,
{
    if k <= 0 {
        0
    } else {
        gates_before(cells, k - 1) + if is_logic(cells[k - 1].kind) {
            1nat
        } else {
            0nat
        }
    }
}

/// Kinds that become gates.
pub open spec fn is_logic(kind: CellKind) -> bool {
    kind != CellKind::Empty && !source_kind(kind) && kind != CellKind::Register
}

/// The cell in the west, if it holds anything.
pub open spec fn west_of(g: Grid, k: int) -> Option<int> {
    if k % g.width > 0 && g.cells[k - 1].kind != CellKind::Empty {
        Some(k - 1)
    } else {
        None
    }
}

/// The cell in the north, if it holds anything.
pub open spec fn north_of(g: Grid, k: int) -> Option<int> {
    if k >= g.width && g.cells[k - g.width].kind != CellKind::Empty {
        Some(k - g.width)
    } else {
        None
    }
}

/// The west neighbour, or the north one where there is none.
pub open spec fn first_of(g: Grid, k: int) -> Option<int> {
    match west_of(g, k) {
        Some(j) => Some(j),
        None => north_of(g, k),
    }
}

/// What cell `k` carries. Inputs and registers are numbered row by row.
pub open spec fn carried(g: Grid, env: Env, k: int) -> bool
    decreases k,
{
    if k < 0 || k >= g.cells.len() || g.width <= 0 {
        false
    } else {
        let west = match west_of(g, k) {
            Some(j) => 0 <= j < k && carried(g, env, j),
            None => false,
        };
        let north = match north_of(g, k) {
            Some(j) => 0 <= j < k && carried(g, env, j),
            None => false,
        };
        let first = match first_of(g, k) {
            Some(j) => 0 <= j < k && carried(g, env, j),
            None => false,
        };
        match g.cells[k].kind {
            CellKind::Empty => false,
            CellKind::Input | CellKind::Clock => {
                let i = sources_before(g.cells, k) as int;
                i < env.inputs.len() && env.inputs[i]
            },
            CellKind::Wire | CellKind::Led => first,
            CellKind::Not => !first,
            CellKind::And => west && north,
            CellKind::Or => west || north,
            CellKind::Xor => west != north,
            CellKind::Nand => !(west && north),
            CellKind::Register => {
                let r = kinds_before(g.cells, k, CellKind::Register) as int;
                r < env.state.len() && env.state[r]
            },
        }
    }
}

/// What the first neighbour of cell `k` carries; low where there is none.
pub open spec fn fed(g: Grid, env: Env, k: int) -> bool {
    match first_of(g, k) {
        Some(j) => carried(g, env, j),
        None => false,
    }
}

/// The kinds of the cells of the demo board.
pub open spec fn demo_kind(x: int, y: int) -> CellKind {
    if (x == 0 && y == 1) || (x == 0 && y == 2) || (x == 5 && y == 1) || (x == 0 && y == 5) || (x == 5 && y == 5) || (x == 5 && y == 6) {
        CellKind::Input
    } else if (x == 5 && y == 2) {
        CellKind::Clock
    } else if (x == 1 && y == 1) || (x == 2 && y == 1) || (x == 3 && y == 1) || (x == 1 && y == 2) || (x == 6 && y == 1) || (x == 7 && y == 1) || (x == 6 && y == 2) || (x == 6 && y == 5) || (x == 7 && y == 5) || (x == 6 && y == 6) {
        CellKind::Wire
    } else if (x == 1 && y == 5) {
        CellKind::Not
    } else if (x == 2 && y == 2) {
        CellKind::And
    } else if (x == 7 && y == 6) {
        CellKind::Or
    } else if (x == 7 && y == 2) {
        CellKind::Xor
    } else if (x == 8 && y == 2) {
        CellKind::Register
    } else if (x == 3 && y == 2) || (x == 9 && y == 2) || (x == 2 && y == 5) || (x == 8 && y == 6) {
        CellKind::Led
    } else {
        CellKind::Empty
    }
}

/// The sources of the demo board that start high.
pub open spec fn demo_value(x: int, y: int) -> bool {
    (x == 0 && y == 1) || (x == 0 && y == 2) || (x == 5 && y == 1) || (x == 5 && y == 6)
}

/// The board a new user sees.
pub open spec fn demo_grid() -> Grid {
    Grid {
        width: 16,
        height: 10,
        cells: Seq::new(
            160,
            |k: int| Cell { kind: demo_kind(k % 16, k / 16), input_value: demo_value(k % 16, k / 16) },
        ),
    }
}

/// Only sources carry a value of their own.
pub open spec fn only_sources_hold_values(g: Grid) -> bool {
    forall|k: int|
        0 <= k < g.cells.len() && !source_kind((#[trigger] g.cells[k]).kind) ==> !g.cells[k].input_value
}

#[derive(Debug)]
pub struct Board {
    width: usize,
    height: usize,
    cells: Vec<Cell>,
}

impl Clone for Board {
    fn clone(&self) -> (copy: Self)
        ensures
            copy.grid() == self.grid(),
            self.inv() ==> copy.inv(),
    {
        let mut cells: Vec<Cell> = Vec::with_capacity(self.cells.len());
        for i in 0..self.cells.len()
            invariant
                cells@ == self.cells@.take(i as int),
        {
            cells.push(self.cells[i]);
            assert(cells@ =~= self.cells@.take(i + 1));
        }
        assert(cells@ =~= self.cells@);
        Self { width: self.width, height: self.height, cells }
    }
}

impl Board {
    pub closed spec fn grid(&self) -> Grid {
        Grid { width: self.width as int, height: self.height as int, cells: self.cells@ }
    }

    /// What every board satisfies.
    pub closed spec fn inv(&self) -> bool {
        self.grid().ok() && only_sources_hold_values(self.grid())
    }

    /// The part of the invariant that callers can rely on.
    pub proof fn lemma_inv(&self)
        requires
            self.inv(),
        ensures
            self.grid().ok(),
            self.grid().cells.len() <= usize::MAX,
            only_sources_hold_values(self.grid()),
    {
        vstd::std_specs::vec::axiom_spec_len(&self.cells);
    }

    pub fn new(width: usize, height: usize) -> (b: Self)
        requires
            width > 0,
            height > 0,
            width * height <= usize::MAX,
        ensures
            b.inv(),
            b.grid() == (Grid {
                width: width as int,
                height: height as int,
                cells: Seq::new((width * height) as nat, |k: int| blank()),
            }),
    {
        let count: usize = width * height;
        let mut cells: Vec<Cell> = Vec::with_capacity(count);
        for i in 0..count
            invariant
                cells@ == Seq::new(i as nat, |k: int| blank()),
        {
            cells.push(Cell { kind: CellKind::Empty, input_value: false });
            assert(cells@ =~= Seq::new((i + 1) as nat, |k: int| blank()));
        }
        Self { width, height, cells }
    }

    #[verifier::rlimit(60)]
    pub fn demo() -> (b: Self)
        ensures
            b.inv(),
            b.grid() == demo_grid(),
    {
        let mut board = Self::new(DEFAULT_BOARD_WIDTH, DEFAULT_BOARD_HEIGHT);

        board.set_kind(0, 1, CellKind::Input);
        board.set_kind(1, 1, CellKind::Wire);
        board.set_kind(2, 1, CellKind::Wire);
        board.set_kind(3, 1, CellKind::Wire);
        board.set_input_value(0, 1, true);

        board.set_kind(0, 2, CellKind::Input);
        board.set_kind(1, 2, CellKind::Wire);
        board.set_kind(2, 2, CellKind::And);
        board.set_kind(3, 2, CellKind::Led);
        board.set_input_value(0, 2, true);

        board.set_kind(5, 1, CellKind::Input);
        board.set_kind(6, 1, CellKind::Wire);
        board.set_kind(7, 1, CellKind::Wire);
        board.set_input_value(5, 1, true);

        board.set_kind(5, 2, CellKind::Clock);
        board.set_kind(6, 2, CellKind::Wire);
        board.set_kind(7, 2, CellKind::Xor);
        board.set_kind(8, 2, CellKind::Register);
        board.set_kind(9, 2, CellKind::Led);

        board.set_kind(0, 5, CellKind::Input);
        board.set_kind(1, 5, CellKind::Not);
        board.set_kind(2, 5, CellKind::Led);

        board.set_kind(5, 5, CellKind::Input);
        board.set_kind(6, 5, CellKind::Wire);
        board.set_kind(7, 5, CellKind::Wire);
        board.set_kind(5, 6, CellKind::Input);
        board.set_kind(6, 6, CellKind::Wire);
        board.set_kind(7, 6, CellKind::Or);
        board.set_kind(8, 6, CellKind::Led);
        board.set_input_value(5, 6, true);

        assert(board.grid().cells =~= demo_grid().cells);
        board
    }

    pub fn width(&self) -> (w: usize)
        ensures
            w == self.grid().width,
    {
        self.width
    }

    pub fn height(&self) -> (h: usize)
        ensures
            h == self.grid().height,
    {
        self.height
    }

    pub fn cells(&self) -> (cells: &[Cell])
        ensures
            cells@ == self.grid().cells,
    {
        self.cells.as_slice()
    }

    pub fn cell(&self, x: usize, y: usize) -> (cell: Option<&Cell>)
        requires
            self.inv(),
        ensures
            cell is Some <==> self.grid().inside(x as int, y as int),
            cell matches Some(c) ==> *c == self.grid().cells[self.grid().at(x as int, y as int)],
    {
        match self.index(x, y) {
            Some(i) => Some(&self.cells[i]),
            None => None,
        }
    }

    /// Place a kind on a cell. A source that replaces a source keeps its
    /// value.
    pub fn set_kind(&mut self, x: usize, y: usize, kind: CellKind)
        requires
            old(self).inv(),
            old(self).grid().inside(x as int, y as int),
        ensures
            final(self).inv(),
            final(self).grid() == old(self).grid().with_kind(x as int, y as int, kind),
    {
        let idx: usize = self.checked_index(x, y);
        let previous_value: bool = self.cells[idx].input_value;
        let input_value: bool = if kind.is_source() {
            previous_value
        } else {
            false
        };
        self.cells.set(idx, Cell { kind, input_value });
        assert(self.grid() =~= old(self).grid().with_kind(x as int, y as int, kind));
    }

    /// Set the value of a source; other cells ignore it.
    pub fn set_input_value(&mut self, x: usize, y: usize, value: bool)
        requires
            old(self).inv(),
            old(self).grid().inside(x as int, y as int),
        ensures
            final(self).inv(),
            final(self).grid() == old(self).grid().with_value(x as int, y as int, value),
    {
        let idx: usize = self.checked_index(x, y);
        let cell = self.cells[idx];
        if cell.kind.is_source() {
            self.cells.set(idx, Cell { input_value: value, ..cell });
        }
        assert(self.grid() =~= old(self).grid().with_value(x as int, y as int, value));
    }

    pub fn clear(&mut self)
        requires
            old(self).inv(),
        ensures
            final(self).inv(),
            final(self).grid() == (Grid {
                cells: Seq::new(old(self).grid().cells.len(), |k: int| blank()),
                ..old(self).grid()
            }),
    {
        let count: usize = self.cells.len();
        for i in 0..count
            invariant
                count == self.cells@.len(),
                count == old(self).cells@.len(),
                self.width == old(self).width,
                self.height == old(self).height,
                forall|k: int| 0 <= k < i ==> #[trigger] self.cells@[k] == blank(),
        {
            self.cells.set(i, Cell { kind: CellKind::Empty, input_value: false });
        }
        assert(self.cells@ =~= Seq::new(count as nat, |k: int| blank()));
    }

    pub fn count_kind(&self, kind: CellKind) -> (n: usize)
        ensures
            n == kinds_before(self.grid().cells, self.grid().cells.len() as int, kind),
    {
        let mut n: usize = 0;
        for i in 0..self.cells.len()
            invariant
                n <= i,
                n == kinds_before(self.cells@, i as int, kind),
        {
            if self.cells[i].kind == kind {
                n = n + 1;
            }
        }
        n
    }

    pub(crate) fn index(&self, x: usize, y: usize) -> (i: Option<usize>)
        requires
            self.inv(),
        ensures
            i is Some <==> self.grid().inside(x as int, y as int),
            i matches Some(k) ==> k == self.grid().at(x as int, y as int) && k < self.grid().cells.len(),
    {
        if x < self.width && y < self.height {
            let ghost w = self.width as int;
            let ghost h = self.height as int;
            let count: usize = self.cells.len();
            proof {
                assert(y * w + x < w * h) by (nonlinear_arith)
                    requires
                        0 <= x < w,
                        0 <= y < h,
                ;
                assert(y * w <= y * w + x && 0 <= y * w) by (nonlinear_arith)
                    requires
                        0 <= x,
                        0 <= y,
                        0 <= w,
                ;
            }
            Some(y * self.width + x)
        } else {
            None
        }
    }

    fn checked_index(&self, x: usize, y: usize) -> (i: usize)
        requires
            self.inv(),
            self.grid().inside(x as int, y as int),
        ensures
            i == self.grid().at(x as int, y as int),
            i < self.cells@.len(),
    {
        match self.index(x, y) {
            Some(i) => i,
            None => 0,
        }
    }
}

/// Cells are counted one by one.
pub proof fn cells_are_counted(cells: Seq<Cell>, k: int, kind: CellKind)
    requires
        0 <= k < cells.len(),
    ensures
        kinds_before(cells, 0, kind) == 0,
        cells[k].kind == kind ==> kinds_before(cells, k + 1, kind) == kinds_before(cells, k, kind) + 1,
        cells[k].kind != kind ==> kinds_before(cells, k + 1, kind) == kinds_before(cells, k, kind),
        filled_before(cells, 0) == 0,
        cells[k].kind != CellKind::Empty ==> filled_before(cells, k + 1) == filled_before(cells, k) + 1,
        cells[k].kind == CellKind::Empty ==> filled_before(cells, k + 1) == filled_before(cells, k),
        sources_before(cells, k) == kinds_before(cells, k, CellKind::Input) + kinds_before(
            cells,
            k,
            CellKind::Clock,
        ),
        filled_before(cells, k) + kinds_before(cells, k, CellKind::Empty) == k,
        gates_before(cells, k) == filled_before(cells, k) - sources_before(cells, k) - kinds_before(
            cells,
            k,
            CellKind::Register,
        ),
{
    lemma_sums(cells, k);
}

pub proof fn lemma_sums(cells: Seq<Cell>, k: int)
    requires
        0 <= k <= cells.len(),
    ensures
        sources_before(cells, k) == kinds_before(cells, k, CellKind::Input) + kinds_before(
            cells,
            k,
            CellKind::Clock,
        ),
        filled_before(cells, k) + kinds_before(cells, k, CellKind::Empty) == k,
        gates_before(cells, k) == filled_before(cells, k) - sources_before(cells, k) - kinds_before(
            cells,
            k,
            CellKind::Register,
        ),
    decreases k,
{
    if k > 0 {
        lemma_sums(cells, k - 1);
    }
}

/// Placing a kind changes one cell, the one in column `x` of row `y`. A source
/// that replaces a source keeps its value; what is no source has none.
pub proof fn placing_changes_one_cell(g: Grid, x: int, y: int, kind: CellKind, k: int)
    requires
        g.ok(),
        0 <= x < g.width,
        0 <= y < g.height,
        0 <= k < g.cells.len(),
    ensures
        g.inside(x, y),
        g.at(x, y) == x + g.width * y,
        g.with_kind(x, y, kind).width == g.width,
        g.with_kind(x, y, kind).height == g.height,
        g.with_kind(x, y, kind).cells.len() == g.cells.len(),
        k != x + g.width * y ==> g.with_kind(x, y, kind).cells[k] == g.cells[k],
        k == x + g.width * y ==> {
            &&& g.with_kind(x, y, kind).cells[k].kind == kind
            &&& (kind == CellKind::Input || kind == CellKind::Clock) ==> g.with_kind(x, y, kind).cells[k].input_value
                == g.cells[k].input_value
            &&& kind != CellKind::Input && kind != CellKind::Clock ==> !g.with_kind(x, y, kind).cells[k].input_value
        },
{
    assert(y * g.width == g.width * y) by (nonlinear_arith);
    assert(0 <= x + g.width * y < g.width * g.height) by (nonlinear_arith)
        requires
            0 <= x < g.width,
            0 <= y < g.height,
    ;
}

/// Setting a value changes the value of one cell, the one in column `x` of row
/// `y`, and only if it is a source.
pub proof fn values_change_one_source(g: Grid, x: int, y: int, value: bool, k: int)
    requires
        g.ok(),
        0 <= x < g.width,
        0 <= y < g.height,
        0 <= k < g.cells.len(),
    ensures
        g.with_value(x, y, value).width == g.width,
        g.with_value(x, y, value).height == g.height,
        g.with_value(x, y, value).cells.len() == g.cells.len(),
        g.with_value(x, y, value).cells[k].kind == g.cells[k].kind,
        k == x + g.width * y && (g.cells[k].kind == CellKind::Input || g.cells[k].kind == CellKind::Clock)
            ==> g.with_value(x, y, value).cells[k].input_value == value,
        k != x + g.width * y || (g.cells[k].kind != CellKind::Input && g.cells[k].kind != CellKind::Clock)
            ==> g.with_value(x, y, value).cells[k] == g.cells[k],
{
    assert(y * g.width == g.width * y) by (nonlinear_arith);
    assert(0 <= x + g.width * y < g.width * g.height) by (nonlinear_arith)
        requires
            0 <= x < g.width,
            0 <= y < g.height,
    ;
}

/// Boards are rectangles; positions outside have no cell.
pub proof fn boards_are_rectangles(g: Grid, x: int, y: int)
    ensures
        g.ok() <==> g.width > 0 && g.height > 0 && g.cells.len() == g.width * g.height,
        g.inside(x, y) <==> 0 <= x && x < g.width && 0 <= y && y < g.height,
        blank().kind == CellKind::Empty,
        !blank().input_value,
{
}

/// Inputs and clocks are the sources.
pub proof fn inputs_and_clocks_are_sources(kind: CellKind)
    ensures
        source_kind(kind) <==> kind == CellKind::Input || kind == CellKind::Clock,
{
}

/// What the cells of the demo board are: every row from west to east.
pub proof fn the_demo_board(x: int, y: int)
    requires
        0 <= x < 16,
        0 <= y < 10,
    ensures
        demo_grid().width == 16,
        demo_grid().height == 10,
        demo_grid().cells.len() == 160,
        ({
            let kind = demo_grid().cells[16 * y + x].kind;
            let high = demo_grid().cells[16 * y + x].input_value;
            &&& y == 1 ==> {
                &&& (kind == CellKind::Input <==> x == 0 || x == 5)
                &&& (kind == CellKind::Wire <==> 1 <= x <= 3 || 6 <= x <= 7)
                &&& (kind == CellKind::Empty <==> x == 4 || x >= 8)
                &&& (high <==> x == 0 || x == 5)
            }
            &&& y == 2 ==> {
                &&& (kind == CellKind::Input <==> x == 0)
                &&& (kind == CellKind::Wire <==> x == 1 || x == 6)
                &&& (kind == CellKind::And <==> x == 2)
                &&& (kind == CellKind::Led <==> x == 3 || x == 9)
                &&& (kind == CellKind::Clock <==> x == 5)
                &&& (kind == CellKind::Xor <==> x == 7)
                &&& (kind == CellKind::Register <==> x == 8)
                &&& (kind == CellKind::Empty <==> x == 4 || x >= 10)
                &&& (high <==> x == 0)
            }
            &&& y == 5 ==> {
                &&& (kind == CellKind::Input <==> x == 0 || x == 5)
                &&& (kind == CellKind::Not <==> x == 1)
                &&& (kind == CellKind::Led <==> x == 2)
                &&& (kind == CellKind::Wire <==> x == 6 || x == 7)
                &&& (kind == CellKind::Empty <==> x == 3 || x == 4 || x >= 8)
                &&& !high
            }
            &&& y == 6 ==> {
                &&& (kind == CellKind::Input <==> x == 5)
                &&& (kind == CellKind::Wire <==> x == 6)
                &&& (kind == CellKind::Or <==> x == 7)
                &&& (kind == CellKind::Led <==> x == 8)
                &&& (kind == CellKind::Empty <==> x <= 4 || x >= 9)
                &&& (high <==> x == 5)
            }
            &&& y != 1 && y != 2 && y != 5 && y != 6 ==> kind == CellKind::Empty && !high
        }),
{
    assert((16 * y + x) % 16 == x);
    assert((16 * y + x) / 16 == y);
}

/// What kinds are called, short and long.
pub proof fn kinds_have_names(kind: CellKind)
    ensures
        kind == CellKind::Empty ==> label_of(kind) == ""@ && name_of(kind) == "Erase"@,
        kind == CellKind::Input ==> label_of(kind) == "IN"@ && name_of(kind) == "Input source"@,
        kind == CellKind::Clock ==> label_of(kind) == "CLK"@ && name_of(kind) == "Clock source"@,
        kind == CellKind::Wire ==> label_of(kind) == "WIRE"@ && name_of(kind) == "Wire"@,
        kind == CellKind::Not ==> label_of(kind) == "NOT"@ && name_of(kind) == "Inverter"@,
        kind == CellKind::And ==> label_of(kind) == "AND"@ && name_of(kind) == "AND gate"@,
        kind == CellKind::Or ==> label_of(kind) == "OR"@ && name_of(kind) == "OR gate"@,
        kind == CellKind::Xor ==> label_of(kind) == "XOR"@ && name_of(kind) == "XOR gate"@,
        kind == CellKind::Nand ==> label_of(kind) == "NAND"@ && name_of(kind) == "NAND gate"@,
        kind == CellKind::Register ==> label_of(kind) == "DFF"@ && name_of(kind) == "D flip-flop"@,
        kind == CellKind::Led ==> label_of(kind) == "LED"@ && name_of(kind) == "Output LED"@,
{
}

/// Every kind is offered, in this order.
pub proof fn the_palette_offers_every_kind(kind: CellKind)
    ensures
        palette_kinds().contains(kind),
        palette_kinds().no_duplicates(),
        palette_kinds()[0] == CellKind::Empty,
        palette_kinds()[1] == CellKind::Input,
        palette_kinds()[2] == CellKind::Clock,
        palette_kinds()[3] == CellKind::Wire,
        palette_kinds()[4] == CellKind::Not,
        palette_kinds()[5] == CellKind::And,
        palette_kinds()[6] == CellKind::Or,
        palette_kinds()[7] == CellKind::Xor,
        palette_kinds()[8] == CellKind::Nand,
        palette_kinds()[9] == CellKind::Register,
        palette_kinds()[10] == CellKind::Led,
        palette_kinds().len() == 11,
{
    let p = palette_kinds();
    let i = match kind {
        CellKind::Empty => 0int,
        CellKind::Input => 1,
        CellKind::Clock => 2,
        CellKind::Wire => 3,
        CellKind::Not => 4,
        CellKind::And => 5,
        CellKind::Or => 6,
        CellKind::Xor => 7,
        CellKind::Nand => 8,
        CellKind::Register => 9,
        CellKind::Led => 10,
    };
    assert(p[i] == kind);
}

/// What a cell carries while the inputs and flip-flops hold `env`. A cell reads
/// its west neighbour, in the same row, and its north one, a row above; an
/// empty or missing neighbour reads low. Wires, lamps and inverters read the
/// west neighbour, or the north one where the west has none; binary gates read
/// both.
pub proof fn cells_carry_by_kind(g: Grid, env: Env, k: int)
    requires
        g.ok(),
        0 <= k < g.cells.len(),
    ensures
        ({
            let west = k % g.width != 0 && g.cells[k - 1].kind != CellKind::Empty;
            let north = k >= g.width && g.cells[k - g.width].kind != CellKind::Empty;
            let w = west && carried(g, env, k - 1);
            let n = north && carried(g, env, k - g.width);
            let first = if west {
                w
            } else {
                n
            };
            let v = carried(g, env, k);
            let i = sources_before(g.cells, k) as int;
            let r = kinds_before(g.cells, k, CellKind::Register) as int;
            &&& fed(g, env, k) == first
            &&& g.cells[k].kind == CellKind::Empty ==> !v
            &&& (g.cells[k].kind == CellKind::Input || g.cells[k].kind == CellKind::Clock) && i < env.inputs.len()
                ==> v == env.inputs[i]
            &&& g.cells[k].kind == CellKind::Register && r < env.state.len() ==> v == env.state[r]
            &&& g.cells[k].kind == CellKind::Wire ==> v == first
            &&& g.cells[k].kind == CellKind::Led ==> v == first
            &&& g.cells[k].kind == CellKind::Not ==> v == !first
            &&& g.cells[k].kind == CellKind::And ==> (v <==> w && n)
            &&& g.cells[k].kind == CellKind::Or ==> (v <==> w || n)
            &&& g.cells[k].kind == CellKind::Xor ==> (v <==> w != n)
            &&& g.cells[k].kind == CellKind::Nand ==> (!v <==> w && n)
        }),
{
    assert(0 <= k % g.width <= k) by (nonlinear_arith)
        requires
            0 <= k,
            g.width > 0,
    ;
}

} // verus!
