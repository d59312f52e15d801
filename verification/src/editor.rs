//! A board that runs while it is edited.
use vstd::prelude::*;

use crate::board::{
    blank, carried, demo_grid, fed, filled_before, gates_before, kinds_before, north_of,
    only_sources_hold_values, source_kind, sources_before, west_of, Board, Cell, CellKind, CellPos, Grid,
};
use crate::circuit::{Circuit, MAX_GATES};
use crate::compile::same_machine;
use crate::engine::{Engine, Machine};
use crate::hybrid::HybridEngine;
use crate::netlist::{gate_nodes, Env, Netlist};
use crate::wiring::{
    binding_of, bindings_of, input_names_of, is_circuit_of, lemma_bindings, lemma_counts,
    output_names_of, outputs_of, place, register_names_of, shows, stats_of, taps, texts, BoardCircuit,
    BoardError, CircuitStats, InputBinding,
};

verus! {

/// What the sources of a board hold, row by row.
pub open spec fn inputs_of(g: Grid) -> Seq<bool> {
    let bindings = bindings_of(g, g.cells.len() as int);
    Seq::new(bindings.len(), |i: int| bindings[i].value)
}

/// What the flip-flops among the first `k` cells take, row by row.
pub open spec fn latched(g: Grid, env: Env, k: int) -> Seq<bool>
    decreases k,
{
    if k <= 0 {
        seq![]
    } else if g.cells[k - 1].kind == CellKind::Register {
        latched(g, env, k - 1).push(fed(g, env, k - 1))
    } else {
        latched(g, env, k - 1)
    }
}

/// The board with the clocks numbered below `i` at their other value.
pub open spec fn clocks_flipped(g: Grid, i: int) -> Grid {
    Grid {
        cells: Seq::new(
            g.cells.len(),
            |k: int|
                if g.cells[k].kind == CellKind::Clock && sources_before(g.cells, k) < i {
                    Cell { input_value: !g.cells[k].input_value, ..g.cells[k] }
                } else {
                    g.cells[k]
                },
        ),
        ..g
    }
}

/// A running board as its user sees it.
#[verifier::ext_equal]
pub struct Scene {
    pub grid: Grid,
    /// What the flip-flops hold, row by row.
    pub state: Seq<bool>,
    /// What the cells show, row by row.
    pub shown: Seq<bool>,
    pub ticks: nat,
}

impl Scene {
    /// Power-on: sources show their value, everything else is low.
    pub open spec fn fresh(g: Grid) -> Scene {
        let n = g.cells.len() as int;
        Scene {
            grid: g,
            state: Seq::new(kinds_before(g.cells, n, CellKind::Register), |r: int| false),
            shown: Seq::new(
                n as nat,
                |k: int| source_kind(g.cells[k].kind) && g.cells[k].input_value,
            ),
            ticks: 0,
        }
    }

    /// A source holds and shows another value; the rest waits for the clock.
    pub open spec fn with_source(self, x: int, y: int, value: bool) -> Scene {
        Scene {
            grid: self.grid.with_value(x, y, value),
            shown: self.shown.update(self.grid.at(x, y), value),
            ..self
        }
    }

    /// One step: clocks flip, every cell shows what it carries, flip-flops
    /// take what feeds them.
    pub open spec fn stepped(self) -> Scene {
        let n = self.grid.cells.len() as int;
        let g = clocks_flipped(self.grid, n);
        let env = Env { inputs: inputs_of(g), state: self.state };
        Scene {
            grid: g,
            state: latched(g, env, n),
            shown: Seq::new(n as nat, |k: int| carried(g, env, k)),
            ticks: self.ticks + 1,
        }
    }

    pub open spec fn ran(self, n: nat) -> Scene
        decreases n,
    {
        if n == 0 {
            self
        } else {
            self.ran((n - 1) as nat).stepped()
        }
    }
}

/// Two boards whose cells have the same kinds.
pub open spec fn same_kinds(g: Grid, h: Grid) -> bool {
    &&& g.width == h.width
    &&& g.height == h.height
    &&& g.cells.len() == h.cells.len()
    &&& forall|k: int| 0 <= k < g.cells.len() ==> g.cells[k].kind == (#[trigger] h.cells[k]).kind
}

proof fn lemma_kinds_counts(g: Grid, h: Grid, k: int)
    requires
        same_kinds(g, h),
        0 <= k <= g.cells.len(),
    ensures
        sources_before(g.cells, k) == sources_before(h.cells, k),
        filled_before(g.cells, k) == filled_before(h.cells, k),
        gates_before(g.cells, k) == gates_before(h.cells, k),
        forall|kind: CellKind| #[trigger]
            kinds_before(g.cells, k, kind) == kinds_before(h.cells, k, kind),
        input_names_of(g, k) == input_names_of(h, k),
        register_names_of(g, k) == register_names_of(h, k),
        output_names_of(g, k) == output_names_of(h, k),
    decreases k,
{
    if k > 0 {
        lemma_kinds_counts(g, h, k - 1);
        assert(g.cells[k - 1].kind == h.cells[k - 1].kind);
        assert forall|kind: CellKind| #[trigger]
            kinds_before(g.cells, k, kind) == kinds_before(h.cells, k, kind) by {
            assert(kinds_before(g.cells, k - 1, kind) == kinds_before(h.cells, k - 1, kind));
        }
    } else {
        assert forall|kind: CellKind| #[trigger]
            kinds_before(g.cells, k, kind) == kinds_before(h.cells, k, kind) by {}
    }
}

proof fn lemma_kinds_carried(g: Grid, h: Grid, env: Env, k: int)
    requires
        same_kinds(g, h),
        g.width > 0,
        0 <= k < g.cells.len(),
    ensures
        carried(g, env, k) == carried(h, env, k),
        fed(g, env, k) == fed(h, env, k),
        west_of(g, k) == west_of(h, k),
        north_of(g, k) == north_of(h, k),
    decreases k,
{
    lemma_kinds_counts(g, h, k);
    assert(kinds_before(g.cells, k, CellKind::Register) == kinds_before(
        h.cells,
        k,
        CellKind::Register,
    ));
    assert(k % g.width <= k) by (nonlinear_arith)
        requires
            0 <= k,
            g.width > 0,
    ;
    assert(g.cells[k].kind == h.cells[k].kind);
    if k % g.width > 0 {
        assert(g.cells[k - 1].kind == h.cells[k - 1].kind);
        lemma_kinds_carried(g, h, env, k - 1);
    }
    if k >= g.width {
        assert(g.cells[k - g.width].kind == h.cells[k - g.width].kind);
        lemma_kinds_carried(g, h, env, k - g.width);
    }
}

/// A board's circuit depends on the kinds of its cells only.
proof fn lemma_kinds_shows(net: Netlist, g: Grid, h: Grid)
    requires
        same_kinds(g, h),
        g.width > 0,
        shows(net, g),
    ensures
        shows(net, h),
{
    let n = g.cells.len() as int;
    lemma_kinds_counts(g, h, n);
    assert(kinds_before(g.cells, n, CellKind::Register) == kinds_before(
        h.cells,
        n,
        CellKind::Register,
    ));
    assert forall|k: int| 0 <= k < n && h.cells[k].kind != CellKind::Empty implies #[trigger] taps(
        net,
        h,
        k,
    ) by {
        assert(g.cells[k].kind == h.cells[k].kind);
        lemma_kinds_counts(g, h, k);
        assert(kinds_before(g.cells, k, CellKind::Register) == kinds_before(
            h.cells,
            k,
            CellKind::Register,
        ));
        assert(taps(net, g, k));
    }
    assert forall|env: Env, k: int|
        0 <= k < n && h.cells[k].kind != CellKind::Empty implies net.outputs(env)[place(h, k)]
        == #[trigger] carried(h, env, k) by {
        assert(g.cells[k].kind == h.cells[k].kind);
        lemma_kinds_counts(g, h, k);
        lemma_kinds_carried(g, h, env, k);
        assert(net.outputs(env)[place(g, k)] == carried(g, env, k));
    }
    assert forall|env: Env, k: int|
        0 <= k < n && h.cells[k].kind == CellKind::Register implies net.next_state(
        env,
    )[kinds_before(h.cells, k, CellKind::Register) as int] == #[trigger] fed(h, env, k) by {
        assert(g.cells[k].kind == h.cells[k].kind);
        lemma_kinds_counts(g, h, k);
        assert(kinds_before(g.cells, k, CellKind::Register) == kinds_before(
            h.cells,
            k,
            CellKind::Register,
        ));
        lemma_kinds_carried(g, h, env, k);
        assert(net.next_state(env)[kinds_before(g.cells, k, CellKind::Register) as int] == fed(
            g,
            env,
            k,
        ));
    }
}

/// What no user can tell apart shows the same board.
proof fn lemma_same_shows(m: Netlist, net: Netlist, g: Grid)
    requires
        same_machine(m, net),
        shows(net, g),
        g.width > 0,
    ensures
        shows(m, g),
{
    let n = g.cells.len() as int;
    assert forall|k: int| 0 <= k < n && g.cells[k].kind != CellKind::Empty implies #[trigger] taps(
        m,
        g,
        k,
    ) by {
        assert(taps(net, g, k));
        let x = m.outs[place(g, k)];
    }
    let x = m.outs[0];
    assert forall|env: Env, k: int|
        0 <= k < n && g.cells[k].kind != CellKind::Empty implies m.outputs(env)[place(g, k)]
        == #[trigger] carried(g, env, k) by {
        assert(m.outputs(env) == net.outputs(env));
    }
    assert forall|env: Env, k: int|
        0 <= k < n && g.cells[k].kind == CellKind::Register implies m.next_state(
        env,
    )[kinds_before(g.cells, k, CellKind::Register) as int] == #[trigger] fed(g, env, k) by {
        assert(m.next_state(env) == net.next_state(env));
    }
}

/// The next state lists what the flip-flops take.
proof fn lemma_latched(net: Netlist, g: Grid, env: Env, k: int)
    requires
        shows(net, g),
        0 <= k <= g.cells.len(),
    ensures
        latched(g, env, k).len() == kinds_before(g.cells, k, CellKind::Register),
        forall|r: int|
            0 <= r < latched(g, env, k).len() ==> #[trigger] latched(g, env, k)[r] == net.next_state(
                env,
            )[r],
    decreases k,
{
    if k > 0 {
        lemma_latched(net, g, env, k - 1);
        if g.cells[k - 1].kind == CellKind::Register {
            let f = fed(g, env, k - 1);
        }
    }
}

/// Source `k` of the board is binding number `sources_before(k)`.
proof fn lemma_binding(g: Grid, n: int, k: int)
    requires
        0 <= k < n,
        source_kind(g.cells[k].kind),
    ensures
        sources_before(g.cells, k) < bindings_of(g, n).len(),
        bindings_of(g, n)[sources_before(g.cells, k) as int] == binding_of(g, k),
    decreases n,
{
    lemma_bindings(g, k);
    lemma_bindings(g, n - 1);
    if k < n - 1 {
        lemma_binding(g, n - 1, k);
    }
}

/// Every binding is a source of the board.
proof fn lemma_bound(g: Grid, n: int, i: int) -> (k: int)
    requires
        0 <= n,
        0 <= i < bindings_of(g, n).len(),
    ensures
        0 <= k < n,
        source_kind(g.cells[k].kind),
        sources_before(g.cells, k) == i,
        bindings_of(g, n)[i] == binding_of(g, k),
    decreases n,
{
    lemma_bindings(g, n);
    lemma_bindings(g, n - 1);
    if i < bindings_of(g, n - 1).len() {
        lemma_bound(g, n - 1, i)
    } else {
        n - 1
    }
}

/// Cells and coordinates.
pub proof fn lemma_coordinates(g: Grid, k: int)
    requires
        g.ok(),
        0 <= k < g.cells.len(),
    ensures
        g.inside(k % g.width, k / g.width),
        g.at(k % g.width, k / g.width) == k,
{
    let w = g.width;
    let h = g.height;
    vstd::arithmetic::div_mod::lemma_fundamental_div_mod(k, w);
    assert(w * (k / w) == (k / w) * w) by (nonlinear_arith);
    assert(k / w < h) by (nonlinear_arith)
        requires
            0 <= k < w * h,
            w > 0,
            k == w * (k / w) + k % w,
            0 <= k % w,
    ;
}

proof fn lemma_at(g: Grid, x: int, y: int)
    requires
        g.ok(),
        g.inside(x, y),
    ensures
        0 <= g.at(x, y) < g.cells.len(),
        g.at(x, y) % g.width == x,
        g.at(x, y) / g.width == y,
{
    let w = g.width;
    let h = g.height;
    assert(0 <= y * w + x < w * h) by (nonlinear_arith)
        requires
            0 <= x < w,
            0 <= y < h,
    ;
    vstd::arithmetic::div_mod::lemma_fundamental_div_mod_converse(g.at(x, y), w, y, x);
}

/// A changed source changes its own binding only.
proof fn lemma_rebind(g: Grid, h: Grid, k: int, value: bool, n: int)
    requires
        0 <= k < g.cells.len(),
        0 <= n <= g.cells.len(),
        source_kind(g.cells[k].kind),
        h == (Grid { cells: g.cells.update(k, Cell { input_value: value, ..g.cells[k] }), ..g }),
    ensures
        n <= k ==> bindings_of(h, n) == bindings_of(g, n),
        n > k ==> sources_before(g.cells, k) < bindings_of(g, n).len() && bindings_of(h, n)
            == bindings_of(g, n).update(
            sources_before(g.cells, k) as int,
            InputBinding { value, ..binding_of(g, k) },
        ),
    decreases n,
{
    if n > 0 {
        lemma_rebind(g, h, k, value, n - 1);
        assert(same_kinds(g, h));
        lemma_kinds_counts(g, h, n - 1);
        lemma_bindings(g, n - 1);
        if n > k {
            lemma_binding(g, n, k);
            assert(bindings_of(h, n) =~= bindings_of(g, n).update(
                sources_before(g.cells, k) as int,
                InputBinding { value, ..binding_of(g, k) },
            ));
        }
    }
}

/// Earlier sources have smaller numbers.
proof fn lemma_sources_grow(cells: Seq<Cell>, j: int, k: int)
    requires
        0 <= j < k,
        source_kind(cells[j].kind),
    ensures
        sources_before(cells, j) < sources_before(cells, k),
    decreases k,
{
    if j + 1 < k {
        lemma_sources_grow(cells, j, k - 1);
    }
}

/// What a board's engine holds between calls.
pub open spec fn in_tune(m: Machine, g: Grid) -> bool {
    &&& shows(m.net, g)
    &&& m.inputs == inputs_of(g)
    &&& m.state.len() == m.net.drives.len()
    &&& m.outs.len() == m.net.outs.len()
    &&& forall|k: int| 0 <= k < g.cells.len() ==> #[trigger] source_shown(m, g, k)
}

/// A source shows its value.
pub open spec fn source_shown(m: Machine, g: Grid, k: int) -> bool {
    source_kind(g.cells[k].kind) ==> place(g, k) < m.outs.len() && m.outs[place(g, k)]
        == g.cells[k].input_value
}

/// Setting an input shows on its source and nowhere else.
proof fn lemma_set_source(m: Machine, g: Grid, h: Grid, k: int, value: bool)
    requires
        in_tune(m, g),
        g.width > 0,
        0 <= k < g.cells.len(),
        source_kind(g.cells[k].kind),
        h == (Grid { cells: g.cells.update(k, Cell { input_value: value, ..g.cells[k] }), ..g }),
    ensures
        sources_before(g.cells, k) < m.net.inputs,
        in_tune(m.with_input(sources_before(g.cells, k) as int, value), h),
        forall|j: int|
            #![trigger place(h, j)]
            0 <= j < g.cells.len() && g.cells[j].kind != CellKind::Empty ==> place(h, j) == place(
                g,
                j,
            ) && m.with_input(sources_before(g.cells, k) as int, value).outs[place(h, j)] == if j
                == k {
                value
            } else {
                m.outs[place(g, j)]
            },
{
    let n = g.cells.len() as int;
    let i = sources_before(g.cells, k) as int;
    let m2 = m.with_input(i, value);
    assert(same_kinds(g, h));
    lemma_kinds_shows(m.net, g, h);
    lemma_rebind(g, h, k, value, n);
    lemma_bindings(g, n);
    assert(m2.inputs =~= inputs_of(h));
    assert forall|j: int| #![trigger place(h, j)]
        0 <= j < g.cells.len() && g.cells[j].kind != CellKind::Empty implies place(h, j) == place(g, j)
        && m2.outs[place(h, j)] == if j == k {
        value
    } else {
        m.outs[place(g, j)]
    } by {
        lemma_kinds_counts(g, h, j);
        assert(taps(m.net, g, j));
        if j < k && source_kind(g.cells[j].kind) {
            lemma_sources_grow(g.cells, j, k);
        }
        if k < j {
            lemma_sources_grow(g.cells, k, j);
        }
    }
    assert forall|j: int| 0 <= j < h.cells.len() implies #[trigger] source_shown(m2, h, j) by {
        assert(source_shown(m, g, j));
        lemma_kinds_counts(g, h, j);
        let p = place(h, j);
    }
}

/// The coordinates of a binding fit its fields.
proof fn lemma_pos(g: Grid, k: int)
    requires
        g.ok(),
        g.cells.len() <= usize::MAX,
        0 <= k < g.cells.len(),
    ensures
        binding_of(g, k).pos.x as int == k % g.width,
        binding_of(g, k).pos.y as int == k / g.width,
        binding_of(g, k).input_index as int == sources_before(g.cells, k),
{
    lemma_counts(g, k);
    assert(0 <= k % g.width <= k && 0 <= k / g.width <= k) by (nonlinear_arith)
        requires
            0 <= k,
            g.width > 0,
    ;
}

/// One more clock flips.
proof fn lemma_next_flip(g: Grid, k: int)
    requires
        0 <= k < g.cells.len(),
        source_kind(g.cells[k].kind),
    ensures
        ({
            let i = sources_before(g.cells, k) as int;
            let h = clocks_flipped(g, i);
            let next = clocks_flipped(g, i + 1);
            if g.cells[k].kind == CellKind::Clock {
                next == (Grid {
                    cells: h.cells.update(
                        k,
                        Cell { input_value: !h.cells[k].input_value, ..h.cells[k] },
                    ),
                    ..h
                })
            } else {
                next == h
            }
        }),
{
    let i = sources_before(g.cells, k) as int;
    let h = clocks_flipped(g, i);
    let next = clocks_flipped(g, i + 1);
    assert forall|j: int| 0 <= j < g.cells.len() && j != k implies #[trigger] next.cells[j]
        == h.cells[j] by {
        if source_kind(g.cells[j].kind) {
            if j < k {
                lemma_sources_grow(g.cells, j, k);
            } else {
                lemma_sources_grow(g.cells, k, j);
            }
        }
    }
    if g.cells[k].kind == CellKind::Clock {
        assert(next.cells =~= h.cells.update(
            k,
            Cell { input_value: !h.cells[k].input_value, ..h.cells[k] },
        ));
    } else {
        assert(next.cells =~= h.cells);
    }
}

/// There is a source at these coordinates.
pub open spec fn source_at(g: Grid, x: int, y: int) -> bool {
    g.inside(x, y) && source_kind(g.cells[g.at(x, y)].kind)
}

/// A board, its circuit, and an engine that runs it.
pub struct EditorRuntime {
    board: Board,
    compiled: BoardCircuit,
    engine: HybridEngine,
    tick_count: u64,
}

impl EditorRuntime {
    /// What the user sees.
    pub closed spec fn scene(&self) -> Scene {
        let g = self.board.grid();
        Scene {
            grid: g,
            state: self.engine.machine().state,
            shown: Seq::new(
                g.cells.len(),
                |k: int|
                    g.cells[k].kind != CellKind::Empty && self.engine.machine().outs[place(g, k)],
            ),
            ticks: self.tick_count as nat,
        }
    }

    /// What every runtime satisfies.
    pub closed spec fn inv(&self) -> bool {
        &&& self.board.inv()
        &&& self.board.grid().cells.len() < MAX_GATES
        &&& is_circuit_of(self.compiled, self.board.grid())
        &&& self.engine.inv()
        &&& !self.engine.is_wide()
        &&& in_tune(self.engine.machine(), self.board.grid())
    }

    /// The part of the invariant that callers can rely on.
    pub proof fn lemma_inv(&self)
        requires
            self.inv(),
        ensures
            self.scene().grid.ok(),
            only_sources_hold_values(self.scene().grid),
            self.scene().grid.cells.len() < MAX_GATES,
            self.scene().shown.len() == self.scene().grid.cells.len(),
            self.scene().state.len() == kinds_before(
                self.scene().grid.cells,
                self.scene().grid.cells.len() as int,
                CellKind::Register,
            ),
            self.scene().ticks <= u64::MAX,
            forall|k: int|
                0 <= k < self.scene().grid.cells.len() && source_kind(
                    self.scene().grid.cells[k].kind,
                ) ==> #[trigger] self.scene().shown[k] == self.scene().grid.cells[k].input_value,
    {
        self.board.lemma_inv();
        let g = self.scene().grid;
        assert forall|k: int|
            0 <= k < g.cells.len() && source_kind(g.cells[k].kind) implies #[trigger] self.scene().shown[k]
            == g.cells[k].input_value by {
            assert(source_shown(self.engine.machine(), g, k));
        }
    }

    pub fn new(board: Board) -> (res: Result<Self, BoardError>)
        requires
            board.inv(),
            board.grid().cells.len() < MAX_GATES,
        ensures
            res matches Ok(e) && e.inv() && e.scene() == Scene::fresh(board.grid()),
    {
        proof {
            lemma_counts(board.grid(), board.grid().cells.len() as int);
        }
        let compiled = match board.compile() {
            Ok(compiled) => compiled,
            Err(err) => {
                return Err(err);
            },
        };
        let mut engine = HybridEngine::new(&compiled.circuit);
        proof {
            board.lemma_inv();
        }
        apply_inputs(&mut engine, &compiled, Ghost(board.grid()));
        let runtime = Self { board, compiled, engine, tick_count: 0 };
        assert(runtime.scene() =~= Scene::fresh(board.grid()));
        Ok(runtime)
    }

    pub fn board(&self) -> (board: &Board)
        ensures
            board.grid() == self.scene().grid,
            self.inv() ==> board.inv(),
    {
        &self.board
    }

    pub fn circuit(&self) -> (circuit: &Circuit)
        requires
            self.inv(),
        ensures
            circuit.wf(),
            shows(circuit.net(), self.scene().grid),
            circuit.net().nodes.len() == 1 + filled_before(
                self.scene().grid.cells,
                self.scene().grid.cells.len() as int,
            ),
            gate_nodes(circuit.net().nodes, circuit.net().nodes.len() as int) == gates_before(
                self.scene().grid.cells,
                self.scene().grid.cells.len() as int,
            ),
            texts(circuit.input_names@) == input_names_of(
                self.scene().grid,
                self.scene().grid.cells.len() as int,
            ),
            texts(circuit.debug_names@) == register_names_of(
                self.scene().grid,
                self.scene().grid.cells.len() as int,
            ),
            texts(circuit.output_names@) == output_names_of(
                self.scene().grid,
                self.scene().grid.cells.len() as int,
            ),
    {
        &self.compiled.circuit
    }

    pub fn circuit_stats(&self) -> (stats: CircuitStats)
        requires
            self.inv(),
        ensures
            stats == stats_of(self.scene().grid),
    {
        self.compiled.stats
    }

    pub fn engine_name(&self) -> (name: &'static str)
        requires
            self.inv(),
        ensures
            name@ == "hybrid"@,
    {
        self.engine.name()
    }

    pub fn tick_count(&self) -> (n: u64)
        ensures
            n == self.scene().ticks,
    {
        self.tick_count
    }

    /// What a cell shows; nothing is shown outside the board.
    pub fn cell_value(&self, x: usize, y: usize) -> (value: bool)
        requires
            self.inv(),
        ensures
            value == (self.scene().grid.inside(x as int, y as int)
                && self.scene().shown[self.scene().grid.at(x as int, y as int)]),
    {
        let ghost g = self.board.grid();
        let width: usize = self.board.width();
        proof {
            self.board.lemma_inv();
            if g.inside(x as int, y as int) {
                lemma_at(g, x as int, y as int);
            }
        }
        match self.board.index(x, y) {
            Some(k) => match self.compiled.cell_outputs[k] {
                Some(output) => {
                    proof {
                        lemma_counts(g, k as int);
                        assert(taps(self.engine.machine().net, g, k as int));
                    }
                    self.engine.output(output)
                },
                None => false,
            },
            None => false,
        }
    }

    /// Place a kind on a cell and start over.
    pub fn set_kind(&mut self, x: usize, y: usize, kind: CellKind) -> (res: Result<(), BoardError>)
        requires
            old(self).inv(),
            old(self).scene().grid.inside(x as int, y as int),
        ensures
            res is Ok,
            final(self).inv(),
            final(self).scene() == Scene::fresh(
                old(self).scene().grid.with_kind(x as int, y as int, kind),
            ),
    {
        let ghost g = self.board.grid();
        proof {
            self.board.lemma_inv();
            lemma_at(g, x as int, y as int);
        }
        self.board.set_kind(x, y, kind);
        self.rebuild()
    }

    /// Set a source. The only error is a cell that is no source.
    pub fn set_input_value(&mut self, x: usize, y: usize, value: bool) -> (res: Result<(), BoardError>)
        requires
            old(self).inv(),
        ensures
            final(self).inv(),
            res is Ok <==> source_at(old(self).scene().grid, x as int, y as int),
            res is Ok ==> final(self).scene() == old(self).scene().with_source(
                x as int,
                y as int,
                value,
            ),
            res matches Err(e) ==> e == BoardError::NoInputAt(CellPos { x, y })
                && final(self).scene() == old(self).scene(),
    {
        let ghost g = self.board.grid();
        let ghost n = g.cells.len() as int;
        let count: usize = self.compiled.input_bindings.len();
        proof {
            self.board.lemma_inv();
        }
        let mut i: usize = 0;
        while i < count
            invariant
                *self == *old(self),
                self.inv(),
                g == self.board.grid(),
                g.ok(),
                n == g.cells.len(),
                count == bindings_of(g, n).len(),
                i <= count,
                forall|j: int|
                    0 <= j < i ==> (#[trigger] bindings_of(g, n)[j]).pos != (CellPos { x, y }),
            decreases count - i,
        {
            let binding = self.compiled.input_bindings[i];
            if binding.pos.x == x && binding.pos.y == y {
                proof {
                    let k = lemma_bound(g, n, i as int);
                    lemma_pos(g, k);
                    lemma_coordinates(g, k);
                }
                self.set_binding(i, value);
                return Ok(());
            }
            i = i + 1;
        }
        proof {
            if source_at(g, x as int, y as int) {
                lemma_at(g, x as int, y as int);
                let k = g.at(x as int, y as int);
                lemma_binding(g, n, k);
                lemma_pos(g, k);
                assert(bindings_of(g, n)[sources_before(g.cells, k) as int].pos != (CellPos { x, y }));
            }
        }
        Err(BoardError::NoInputAt(CellPos::new(x, y)))
    }

    /// Set the source of binding `i`.
    fn set_binding(&mut self, i: usize, value: bool)
        requires
            old(self).inv(),
            i < bindings_of(old(self).scene().grid, old(self).scene().grid.cells.len() as int).len(),
        ensures
            final(self).inv(),
            ({
                let g = old(self).scene().grid;
                let pos = bindings_of(g, g.cells.len() as int)[i as int].pos;
                final(self).scene() == old(self).scene().with_source(pos.x as int, pos.y as int, value)
            }),
    {
        let ghost g = self.board.grid();
        let ghost n = g.cells.len() as int;
        proof {
            self.board.lemma_inv();
        }
        let ghost k = lemma_bound(g, n, i as int);
        proof {
            lemma_pos(g, k);
            lemma_coordinates(g, k);
            lemma_counts(g, k);
        }
        let binding = self.compiled.input_bindings[i];
        let ghost before = self.engine.machine();
        self.compiled.input_bindings.set(i, InputBinding { value, ..binding });
        self.board.set_input_value(binding.pos.x, binding.pos.y, value);
        let ghost h = self.board.grid();
        proof {
            assert(h == (Grid { cells: g.cells.update(k, Cell { input_value: value, ..g.cells[k] }), ..g }));
            lemma_set_source(before, g, h, k, value);
            lemma_rebind(g, h, k, value, n);
            assert(same_kinds(g, h));
            lemma_kinds_shows(self.compiled.circuit.net(), g, h);
            lemma_kinds_counts(g, h, n);
            assert(kinds_before(g.cells, n, CellKind::Register) == kinds_before(
                h.cells,
                n,
                CellKind::Register,
            ));
            assert(outputs_of(h, n) =~= outputs_of(g, n)) by {
                assert forall|j: int| 0 <= j < n implies #[trigger] outputs_of(h, n)[j] == outputs_of(
                    g,
                    n,
                )[j] by {
                    lemma_kinds_counts(g, h, j);
                }
            }
        }
        self.engine.set_input(binding.input_index, value);
        proof {
            assert forall|j: int| 0 <= j < n implies #[trigger] self.scene().shown[j]
                == old(self).scene().shown.update(k, value)[j] by {
                let p = place(h, j);
            }
            assert(self.scene() =~= old(self).scene().with_source(k % g.width, k / g.width, value));
        }
    }

    /// Flip a source. The only error is a cell that is no source.
    pub fn toggle_input(&mut self, x: usize, y: usize) -> (res: Result<(), BoardError>)
        requires
            old(self).inv(),
        ensures
            final(self).inv(),
            res is Ok <==> source_at(old(self).scene().grid, x as int, y as int),
            res is Ok ==> final(self).scene() == old(self).scene().with_source(
                x as int,
                y as int,
                !old(self).scene().grid.cells[old(self).scene().grid.at(
                    x as int,
                    y as int,
                )].input_value,
            ),
            res matches Err(e) ==> e == BoardError::NoInputAt(CellPos { x, y })
                && final(self).scene() == old(self).scene(),
    {
        let value: bool = match self.cell_input_value(x, y) {
            Some(value) => value,
            None => false,
        };
        self.set_input_value(x, y, !value)
    }

    /// The value of a source.
    pub fn cell_input_value(&self, x: usize, y: usize) -> (value: Option<bool>)
        requires
            self.inv(),
        ensures
            value is Some <==> source_at(self.scene().grid, x as int, y as int),
            value matches Some(v) ==> v == self.scene().grid.cells[self.scene().grid.at(
                x as int,
                y as int,
            )].input_value,
    {
        match self.board.cell(x, y) {
            Some(cell) => if cell.kind.is_source() {
                Some(cell.input_value)
            } else {
                None
            },
            None => None,
        }
    }

    /// Empty the board and start over.
    pub fn clear(&mut self) -> (res: Result<(), BoardError>)
        requires
            old(self).inv(),
        ensures
            res is Ok,
            final(self).inv(),
            final(self).scene() == Scene::fresh(
                (Grid {
                    cells: Seq::new(old(self).scene().grid.cells.len(), |k: int| blank()),
                    ..old(self).scene().grid
                }),
            ),
    {
        self.board.clear();
        self.rebuild()
    }

    /// Replace the board with the demo.
    pub fn load_demo(&mut self) -> (res: Result<(), BoardError>)
        requires
            old(self).inv(),
        ensures
            res is Ok,
            final(self).inv(),
            final(self).scene() == Scene::fresh(demo_grid()),
    {
        self.board = Board::demo();
        self.rebuild()
    }

    /// Start over with the board as it is.
    pub fn reset(&mut self) -> (res: Result<(), BoardError>)
        requires
            old(self).inv(),
        ensures
            res is Ok,
            final(self).inv(),
            final(self).scene() == Scene::fresh(old(self).scene().grid),
    {
        self.rebuild()
    }

    /// Flip the clocks, then advance one clock cycle.
    pub fn step(&mut self)
        requires
            old(self).inv(),
            old(self).scene().ticks < u64::MAX,
        ensures
            final(self).inv(),
            final(self).scene() == old(self).scene().stepped(),
    {
        self.advance_clocks();
        let ghost g = self.board.grid();
        let ghost n = g.cells.len() as int;
        let ghost m = self.engine.machine();
        self.engine.tick();
        self.tick_count = self.tick_count + 1;
        proof {
            self.board.lemma_inv();
            let env = m.env();
            lemma_latched(m.net, g, env, n);
            assert(m.net.next_state(env) =~= latched(g, env, n));
            assert forall|k: int| 0 <= k < n implies #[trigger] source_shown(
                self.engine.machine(),
                g,
                k,
            ) by {
                if source_kind(g.cells[k].kind) {
                    lemma_binding(g, n, k);
                    assert(taps(m.net, g, k));
                    let c = carried(g, env, k);
                }
            }
            assert forall|k: int| 0 <= k < n implies #[trigger] self.scene().shown[k] == carried(
                g,
                env,
                k,
            ) by {
                if g.cells[k].kind != CellKind::Empty {
                    assert(taps(m.net, g, k));
                }
            }
            assert(self.scene() =~= old(self).scene().stepped());
        }
    }

    pub fn run(&mut self, ticks: u64)
        requires
            old(self).inv(),
            old(self).scene().ticks + ticks <= u64::MAX,
        ensures
            final(self).inv(),
            final(self).scene() == old(self).scene().ran(ticks as nat),
    {
        for i in 0..ticks
            invariant
                self.inv(),
                self.scene() == old(self).scene().ran(i as nat),
                self.scene().ticks == old(self).scene().ticks + i,
                old(self).scene().ticks + ticks <= u64::MAX,
        {
            self.step();
        }
    }

    /// Compile the board anew and power its circuit on.
    fn rebuild(&mut self) -> (res: Result<(), BoardError>)
        requires
            old(self).board.inv(),
            old(self).board.grid().cells.len() < MAX_GATES,
        ensures
            res is Ok,
            final(self).inv(),
            final(self).scene() == Scene::fresh(old(self).board.grid()),
    {
        proof {
            lemma_counts(self.board.grid(), self.board.grid().cells.len() as int);
        }
        let compiled = match self.board.compile() {
            Ok(compiled) => compiled,
            Err(err) => {
                return Err(err);
            },
        };
        proof {
            self.board.lemma_inv();
        }
        let mut engine = HybridEngine::new(&compiled.circuit);
        apply_inputs(&mut engine, &compiled, Ghost(self.board.grid()));
        self.compiled = compiled;
        self.engine = engine;
        self.tick_count = 0;
        assert(self.scene() =~= Scene::fresh(self.board.grid()));
        Ok(())
    }

    /// Flip every clock.
    fn advance_clocks(&mut self)
        requires
            old(self).inv(),
        ensures
            final(self).inv(),
            final(self).scene().grid == clocks_flipped(
                old(self).scene().grid,
                old(self).scene().grid.cells.len() as int,
            ),
            final(self).scene().state == old(self).scene().state,
            final(self).tick_count == old(self).tick_count,
    {
        let ghost g = self.board.grid();
        let ghost n = g.cells.len() as int;
        let count: usize = self.compiled.input_bindings.len();
        proof {
            self.board.lemma_inv();
            lemma_bindings(g, n);
            assert(clocks_flipped(g, 0) =~= g);
        }
        for i in 0..count
            invariant
                self.inv(),
                g.ok(),
                n == g.cells.len(),
                n <= usize::MAX,
                count == sources_before(g.cells, n),
                self.board.grid() == clocks_flipped(g, i as int),
                self.scene().state == old(self).scene().state,
                self.tick_count == old(self).tick_count,
        {
            let ghost h = self.board.grid();
            proof {
                assert(same_kinds(g, h));
                lemma_kinds_counts(g, h, n);
                lemma_bindings(h, n);
            }
            let ghost k = lemma_bound(h, n, i as int);
            proof {
                self.board.lemma_inv();
                lemma_kinds_counts(g, h, k);
                lemma_pos(h, k);
                lemma_coordinates(h, k);
                lemma_next_flip(g, k);
            }
            let binding = self.compiled.input_bindings[i];
            if binding.clock {
                self.set_binding(i, !binding.value);
            }
            assert(self.board.grid() =~= clocks_flipped(g, i + 1));
        }
        proof {
            assert forall|k: int| 0 <= k < n implies #[trigger] clocks_flipped(g, count as int).cells[k]
                == clocks_flipped(g, n).cells[k] by {
                lemma_counts(g, k);
                if source_kind(g.cells[k].kind) {
                    lemma_sources_grow(g.cells, k, n);
                }
            }
            assert(clocks_flipped(g, count as int) =~= clocks_flipped(g, n));
        }
    }
}

/// The board with the sources from number `i` on held low.
spec fn muted(g: Grid, i: int) -> Grid {
    Grid {
        cells: Seq::new(
            g.cells.len(),
            |k: int|
                if source_kind(g.cells[k].kind) && sources_before(g.cells, k) >= i {
                    Cell { input_value: false, ..g.cells[k] }
                } else {
                    g.cells[k]
                },
        ),
        ..g
    }
}

/// An engine powers on in tune with a board whose sources are low.
proof fn lemma_power_on(net: Netlist, g: Grid)
    requires
        g.ok(),
        shows(net, g),
    ensures
        in_tune(Machine::power_on(net), muted(g, 0)),
        forall|k: int|
            #![trigger place(muted(g, 0), k)]
            0 <= k < g.cells.len() && g.cells[k].kind != CellKind::Empty ==> !Machine::power_on(
                net,
            ).outs[place(muted(g, 0), k)],
{
    let h = muted(g, 0);
    let n = g.cells.len() as int;
    let m = Machine::power_on(net);
    assert(same_kinds(g, h));
    lemma_kinds_shows(net, g, h);
    lemma_bindings(h, n);
    assert forall|i: int| 0 <= i < m.inputs.len() implies m.inputs[i] == inputs_of(h)[i] by {
        let k = lemma_bound(h, n, i);
    }
    assert(m.inputs =~= inputs_of(h));
    assert forall|k: int| #![trigger place(h, k)]
        0 <= k < n && g.cells[k].kind != CellKind::Empty implies !m.outs[place(h, k)] && place(h, k)
        < m.outs.len() by {
        assert(taps(net, h, k));
    }
    assert forall|k: int| 0 <= k < n implies #[trigger] source_shown(m, h, k) by {
        let p = place(h, k);
    }
}

/// Hand the sources' values to an engine that was just powered on.
fn apply_inputs(engine: &mut HybridEngine, compiled: &BoardCircuit, g: Ghost<Grid>)
    requires
        old(engine).inv(),
        g@.ok(),
        g@.cells.len() <= usize::MAX,
        is_circuit_of(*compiled, g@),
        same_machine(old(engine).machine().net, compiled.circuit.net()),
        old(engine).machine() == Machine::power_on(old(engine).machine().net),
    ensures
        final(engine).inv(),
        final(engine).is_wide() == old(engine).is_wide(),
        in_tune(final(engine).machine(), g@),
        final(engine).machine().state == old(engine).machine().net.inits,
        forall|k: int|
            #![trigger place(g@, k)]
            0 <= k < g@.cells.len() && g@.cells[k].kind != CellKind::Empty
                ==> final(engine).machine().outs[place(g@, k)] == (source_kind(g@.cells[k].kind)
                && g@.cells[k].input_value),
{
    let ghost n = g@.cells.len() as int;
    proof {
        lemma_same_shows(engine.machine().net, compiled.circuit.net(), g@);
        lemma_power_on(engine.machine().net, g@);
        lemma_bindings(g@, n);
        lemma_counts(g@, n);
        assert forall|k: int|
            0 <= k < n && muted(g@, 0).cells[k].kind
                != CellKind::Empty implies #[trigger] filled_shown(
            engine.machine(),
            muted(g@, 0),
            k,
        ) by {
            let p = place(muted(g@, 0), k);
        }
    }
    let count: usize = compiled.input_bindings.len();
    for i in 0..count
        invariant
            engine.is_wide() == old(engine).is_wide(),
            n == g@.cells.len(),
            g@.ok(),
            count == sources_before(g@.cells, n),
            compiled.input_bindings@ == bindings_of(g@, n),
            count == compiled.input_bindings@.len(),
            n <= usize::MAX,
            engine.inv(),
            in_tune(engine.machine(), muted(g@, i as int)),
            engine.machine().state == old(engine).machine().net.inits,
            only_sources(engine.machine(), muted(g@, i as int)),
    {
        let binding = compiled.input_bindings[i];
        let ghost before = engine.machine();
        let ghost from = muted(g@, i as int);
        let ghost to = muted(g@, i + 1);
        let ghost k = lemma_bound(g@, n, i as int);
        proof {
            lemma_counts(g@, k);
            assert(same_kinds(g@, from));
            assert(same_kinds(g@, to));
            lemma_kinds_counts(g@, from, k);
            assert(to.cells =~= from.cells.update(
                k,
                Cell { input_value: binding.value, ..from.cells[k] },
            )) by {
                assert forall|j: int| 0 <= j < n implies #[trigger] to.cells[j] == from.cells.update(
                    k,
                    Cell { input_value: binding.value, ..from.cells[k] },
                )[j] by {
                    if source_kind(g@.cells[j].kind) {
                        if j < k {
                            lemma_sources_grow(g@.cells, j, k);
                        } else if k < j {
                            lemma_sources_grow(g@.cells, k, j);
                        }
                    }
                }
            }
            lemma_set_source(before, from, to, k, binding.value);
        }
        engine.set_input(binding.input_index, binding.value);
        proof {
            assert forall|j: int|
                0 <= j < n && to.cells[j].kind != CellKind::Empty implies #[trigger] filled_shown(
                engine.machine(),
                to,
                j,
            ) by {
                assert(filled_shown(before, from, j));
                assert(same_kinds(g@, to));
                let p = place(to, j);
            }
        }
    }
    proof {
        assert(muted(g@, count as int).cells =~= g@.cells) by {
            assert forall|j: int| 0 <= j < n implies #[trigger] muted(g@, count as int).cells[j]
                == g@.cells[j] by {
                if source_kind(g@.cells[j].kind) {
                    lemma_sources_grow(g@.cells, j, n);
                }
            }
        }
        assert(muted(g@, count as int) == g@);
        assert forall|k: int| #![trigger place(g@, k)]
            0 <= k < n && g@.cells[k].kind != CellKind::Empty implies engine.machine().outs[place(
            g@,
            k,
        )] == (source_kind(g@.cells[k].kind) && g@.cells[k].input_value) by {
            assert(filled_shown(engine.machine(), g@, k));
        }
    }
}

/// Before the first tick only sources that are high show.
spec fn only_sources(m: Machine, g: Grid) -> bool {
    forall|k: int|
        0 <= k < g.cells.len() && g.cells[k].kind != CellKind::Empty ==> #[trigger] filled_shown(
            m,
            g,
            k,
        )
}

spec fn filled_shown(m: Machine, g: Grid, k: int) -> bool {
    m.outs[place(g, k)] == (source_kind(g.cells[k].kind) && g.cells[k].input_value)
}

/// Running `a` then `b` steps is running `a + b`.
pub proof fn stepping_adds_up(s: Scene, a: nat, b: nat)
    ensures
        s.ran(a).ran(b) == s.ran(a + b),
        s.ran(a).ticks == s.ticks + a,
    decreases a + b,
{
    if b > 0 {
        stepping_adds_up(s, a, (b - 1) as nat);
        assert((a + b - 1) as nat == a + (b - 1) as nat);
    } else if a > 0 {
        stepping_adds_up(s, (a - 1) as nat, 0);
    }
}

/// Setting a source and setting it back changes nothing.
pub proof fn toggling_twice_restores(s: Scene, x: int, y: int, value: bool)
    requires
        s.grid.ok(),
        s.shown.len() == s.grid.cells.len(),
        source_at(s.grid, x, y),
        s.shown[s.grid.at(x, y)] == s.grid.cells[s.grid.at(x, y)].input_value,
    ensures
        s.with_source(x, y, value).with_source(
            x,
            y,
            s.grid.cells[s.grid.at(x, y)].input_value,
        ) == s,
{
    lemma_at(s.grid, x, y);
    let k = s.grid.at(x, y);
    let back = s.with_source(x, y, value).with_source(x, y, s.grid.cells[k].input_value);
    assert(back.grid.cells =~= s.grid.cells);
    assert(back.shown =~= s.shown);
}

/// Setting a source moves no flip-flop, shows on no other cell and counts
/// no tick.
pub proof fn sources_wait_for_the_step(s: Scene, x: int, y: int, value: bool, k: int)
    requires
        s.grid.ok(),
        s.shown.len() == s.grid.cells.len(),
        source_at(s.grid, x, y),
        0 <= k < s.grid.cells.len(),
        k != s.grid.at(x, y),
    ensures
        s.with_source(x, y, value).state == s.state,
        s.with_source(x, y, value).shown[k] == s.shown[k],
        s.with_source(x, y, value).ticks == s.ticks,
{
    lemma_at(s.grid, x, y);
}

/// A flip-flop shows in every step what fed it in the step before.
pub proof fn flip_flops_show_the_step_before(s: Scene, k: int)
    requires
        s.grid.ok(),
        0 <= k < s.grid.cells.len(),
        s.grid.cells[k].kind == CellKind::Register,
    ensures
        ({
            let g = s.stepped().grid;
            let env = Env { inputs: inputs_of(g), state: s.state };
            s.stepped().stepped().shown[k] == fed(g, env, k)
        }),
{
    let n = s.grid.cells.len() as int;
    let g = s.stepped().grid;
    let h = s.stepped().stepped().grid;
    let env = Env { inputs: inputs_of(g), state: s.state };
    assert(same_kinds(s.grid, g));
    assert(same_kinds(g, h));
    lemma_kinds_counts(g, h, k);
    assert(kinds_before(g.cells, k, CellKind::Register) == kinds_before(
        h.cells,
        k,
        CellKind::Register,
    ));
    lemma_latched_at(g, env, n, k);
}

/// Flip-flop `k` takes what feeds it.
proof fn lemma_latched_at(g: Grid, env: Env, n: int, k: int)
    requires
        0 <= k < n,
        g.cells[k].kind == CellKind::Register,
    ensures
        latched(g, env, n).len() == kinds_before(g.cells, n, CellKind::Register),
        kinds_before(g.cells, k, CellKind::Register) < latched(g, env, n).len(),
        latched(g, env, n)[kinds_before(g.cells, k, CellKind::Register) as int] == fed(g, env, k),
    decreases n,
{
    lemma_latched_len(g, env, n - 1);
    if k < n - 1 {
        lemma_latched_at(g, env, n - 1, k);
    }
}

proof fn lemma_latched_len(g: Grid, env: Env, n: int)
    requires
        0 <= n,
    ensures
        latched(g, env, n).len() == kinds_before(g.cells, n, CellKind::Register),
    decreases n,
{
    if n > 0 {
        lemma_latched_len(g, env, n - 1);
    }
}

/// A step, cell by cell. Clocks flip and no other cell changes. Sources show their
/// value. Wires, lamps and inverters show what their west neighbour shows, or
/// the north one where the west has none, inverters the opposite; binary gates
/// combine both neighbours; missing neighbours read low. A flip-flop shows what
/// it held, and takes what its west neighbour shows, or the north one where the
/// west has none, or low where there is neither.
pub proof fn a_step(s: Scene, k: int)
    requires
        s.grid.ok(),
        s.state.len() == kinds_before(s.grid.cells, s.grid.cells.len() as int, CellKind::Register),
        0 <= k < s.grid.cells.len(),
    ensures
        s.stepped().ticks == s.ticks + 1,
        s.stepped().grid.width == s.grid.width,
        s.stepped().grid.height == s.grid.height,
        s.stepped().grid.cells.len() == s.grid.cells.len(),
        s.stepped().shown.len() == s.grid.cells.len(),
        s.stepped().state.len() == s.state.len(),
        s.stepped().grid.cells[k].kind == s.grid.cells[k].kind,
        s.grid.cells[k].kind == CellKind::Clock ==> s.stepped().grid.cells[k].input_value
            == !s.grid.cells[k].input_value,
        s.grid.cells[k].kind != CellKind::Clock ==> s.stepped().grid.cells[k].input_value
            == s.grid.cells[k].input_value,
        ({
            let g = s.grid;
            let t = s.stepped();
            let west = k % g.width != 0 && g.cells[k - 1].kind != CellKind::Empty;
            let north = k >= g.width && g.cells[k - g.width].kind != CellKind::Empty;
            let w = west && t.shown[k - 1];
            let n = north && t.shown[k - g.width];
            let first = if west {
                w
            } else {
                n
            };
            let v = t.shown[k];
            let r = kinds_before(g.cells, k, CellKind::Register) as int;
            &&& g.cells[k].kind == CellKind::Empty ==> !v
            &&& g.cells[k].kind == CellKind::Input || g.cells[k].kind == CellKind::Clock ==> v
                == t.grid.cells[k].input_value
            &&& g.cells[k].kind == CellKind::Wire ==> v == first
            &&& g.cells[k].kind == CellKind::Led ==> v == first
            &&& g.cells[k].kind == CellKind::Not ==> v == !first
            &&& g.cells[k].kind == CellKind::And ==> (v <==> w && n)
            &&& g.cells[k].kind == CellKind::Or ==> (v <==> w || n)
            &&& g.cells[k].kind == CellKind::Xor ==> (v <==> w != n)
            &&& g.cells[k].kind == CellKind::Nand ==> (!v <==> w && n)
            &&& g.cells[k].kind == CellKind::Register ==> 0 <= r < s.state.len() && v == s.state[r] && t.state[r]
                == first
        }),
{
    let n = s.grid.cells.len() as int;
    let g = clocks_flipped(s.grid, n);
    let env = Env { inputs: inputs_of(g), state: s.state };
    let t = s.stepped();
    assert forall|j: int| 0 <= j < n implies (#[trigger] g.cells[j]).kind == s.grid.cells[j].kind && (
    s.grid.cells[j].kind == CellKind::Clock ==> g.cells[j].input_value == !s.grid.cells[j].input_value) by {
        lemma_counts(s.grid, j);
    }
    assert(same_kinds(s.grid, g));
    lemma_kinds_counts(s.grid, g, n);
    lemma_kinds_counts(s.grid, g, k);
    assert(kinds_before(s.grid.cells, k, CellKind::Register) == kinds_before(g.cells, k, CellKind::Register));
    assert(kinds_before(s.grid.cells, n, CellKind::Register) == kinds_before(g.cells, n, CellKind::Register));
    crate::board::cells_carry_by_kind(g, env, k);
    assert(0 <= k % g.width <= k) by (nonlinear_arith)
        requires
            0 <= k,
            g.width > 0,
    ;
    lemma_latched_len(g, env, n);
    if g.cells[k].kind == CellKind::Register {
        lemma_latched_at(g, env, n, k);
    }
    if source_kind(g.cells[k].kind) {
        lemma_binding(g, n, k);
    }
}

/// A flip-flop shows in every step what its west neighbour showed in the step
/// before, or the north one where the west has none, or low where there is
/// neither.
pub proof fn flip_flops_take_west_else_north(s: Scene, k: int)
    requires
        s.grid.ok(),
        s.state.len() == kinds_before(s.grid.cells, s.grid.cells.len() as int, CellKind::Register),
        0 <= k < s.grid.cells.len(),
        s.grid.cells[k].kind == CellKind::Register,
    ensures
        ({
            let g = s.grid;
            let t = s.stepped();
            let west = k % g.width != 0 && g.cells[k - 1].kind != CellKind::Empty;
            let north = k >= g.width && g.cells[k - g.width].kind != CellKind::Empty;
            &&& west ==> t.stepped().shown[k] == t.shown[k - 1]
            &&& !west && north ==> t.stepped().shown[k] == t.shown[k - g.width]
            &&& !west && !north ==> !t.stepped().shown[k]
        }),
{
    let n = s.grid.cells.len() as int;
    let t = s.stepped();
    a_step(s, k);
    assert(same_kinds(s.grid, t.grid)) by {
        assert forall|j: int| 0 <= j < n implies s.grid.cells[j].kind == (#[trigger] t.grid.cells[j]).kind by {
            a_step(s, j);
        }
    }
    lemma_kinds_counts(s.grid, t.grid, k);
    lemma_kinds_counts(s.grid, t.grid, n);
    assert(kinds_before(s.grid.cells, k, CellKind::Register) == kinds_before(
        t.grid.cells,
        k,
        CellKind::Register,
    ));
    assert(kinds_before(s.grid.cells, n, CellKind::Register) == kinds_before(
        t.grid.cells,
        n,
        CellKind::Register,
    ));
    a_step(t, k);
}

/// A board starts at tick 0 with its cells as they are: sources show their
/// value, everything else and every flip-flop is low.
pub proof fn a_fresh_start(g: Grid, k: int)
    requires
        g.ok(),
        0 <= k < g.cells.len(),
    ensures
        Scene::fresh(g).grid == g,
        Scene::fresh(g).ticks == 0,
        Scene::fresh(g).shown.len() == g.cells.len(),
        Scene::fresh(g).shown[k] <==> (g.cells[k].kind == CellKind::Input || g.cells[k].kind == CellKind::Clock)
            && g.cells[k].input_value,
        Scene::fresh(g).state.len() == kinds_before(g.cells, g.cells.len() as int, CellKind::Register),
        forall|r: int| 0 <= r < Scene::fresh(g).state.len() ==> !#[trigger] Scene::fresh(g).state[r],
{
}

/// Setting a source changes its own cell and what that cell shows, and nothing
/// else.
pub proof fn setting_a_source(s: Scene, x: int, y: int, value: bool, k: int)
    requires
        s.grid.ok(),
        s.shown.len() == s.grid.cells.len(),
        0 <= x < s.grid.width,
        0 <= y < s.grid.height,
        ({
            let kind = s.grid.cells[x + s.grid.width * y].kind;
            kind == CellKind::Input || kind == CellKind::Clock
        }),
        0 <= k < s.grid.cells.len(),
    ensures
        s.with_source(x, y, value).ticks == s.ticks,
        s.with_source(x, y, value).state == s.state,
        s.with_source(x, y, value).grid.width == s.grid.width,
        s.with_source(x, y, value).grid.height == s.grid.height,
        s.with_source(x, y, value).grid.cells.len() == s.grid.cells.len(),
        s.with_source(x, y, value).shown.len() == s.shown.len(),
        s.with_source(x, y, value).grid.cells[k].kind == s.grid.cells[k].kind,
        k == x + s.grid.width * y ==> s.with_source(x, y, value).grid.cells[k].input_value == value
            && s.with_source(x, y, value).shown[k] == value,
        k != x + s.grid.width * y ==> s.with_source(x, y, value).grid.cells[k] == s.grid.cells[k]
            && s.with_source(x, y, value).shown[k] == s.shown[k],
{
    lemma_at(s.grid, x, y);
    crate::board::placing_changes_one_cell(s.grid, x, y, CellKind::Input, k);
    crate::board::values_change_one_source(s.grid, x, y, value, k);
}

/// Sources are inputs and clocks on the board.
pub proof fn where_sources_are(g: Grid, x: int, y: int)
    requires
        g.ok(),
    ensures
        source_at(g, x, y) <==> 0 <= x < g.width && 0 <= y < g.height && (g.cells[x + g.width * y].kind
            == CellKind::Input || g.cells[x + g.width * y].kind == CellKind::Clock),
{
    assert(y * g.width == g.width * y) by (nonlinear_arith);
}

/// Running is stepping that often.
pub proof fn running_is_stepping(s: Scene, n: nat)
    ensures
        s.ran(0) == s,
        s.ran(n + 1) == s.ran(n).stepped(),
{
}

/// The lamps of the demo board, whatever its sources hold: after a step the first
/// shows the conjunction of its two inputs, the second what the flip-flop held,
/// the third the opposite of its input, the fourth the disjunction of its two
/// inputs; and the flip-flop takes whether clock and input differ.
pub proof fn the_demo_lamps(s: Scene)
    requires
        s.grid.width == 16,
        s.grid.height == 10,
        s.grid.cells.len() == 160,
        forall|k: int|
            0 <= k < 160 ==> (#[trigger] s.grid.cells[k]).kind == crate::board::demo_grid().cells[k].kind,
        s.state.len() == kinds_before(s.grid.cells, 160, CellKind::Register),
    ensures
        ({
            let t = s.stepped();
            let held = |x: int, y: int| t.grid.cells[16 * y + x].input_value;
            let lamp = |x: int, y: int| t.shown[16 * y + x];
            &&& lamp(3, 2) == (held(0, 1) && held(0, 2))
            &&& lamp(2, 5) == !held(0, 5)
            &&& lamp(8, 6) == (held(5, 5) || held(5, 6))
            &&& lamp(9, 2) == lamp(8, 2)
            &&& t.stepped().shown[40] == (held(5, 2) != held(5, 1))
        }),
{
    let t = s.stepped();
    crate::board::the_demo_board(0, 1);
    crate::board::the_demo_board(1, 1);
    crate::board::the_demo_board(2, 1);
    crate::board::the_demo_board(0, 2);
    crate::board::the_demo_board(1, 2);
    crate::board::the_demo_board(2, 2);
    crate::board::the_demo_board(3, 2);
    crate::board::the_demo_board(5, 1);
    crate::board::the_demo_board(6, 1);
    crate::board::the_demo_board(7, 1);
    crate::board::the_demo_board(5, 2);
    crate::board::the_demo_board(6, 2);
    crate::board::the_demo_board(7, 2);
    crate::board::the_demo_board(8, 2);
    crate::board::the_demo_board(9, 2);
    crate::board::the_demo_board(0, 5);
    crate::board::the_demo_board(1, 5);
    crate::board::the_demo_board(2, 5);
    crate::board::the_demo_board(5, 5);
    crate::board::the_demo_board(6, 5);
    crate::board::the_demo_board(7, 5);
    crate::board::the_demo_board(5, 6);
    crate::board::the_demo_board(6, 6);
    crate::board::the_demo_board(7, 6);
    crate::board::the_demo_board(8, 6);
    a_step(s, 16);
    a_step(s, 17);
    a_step(s, 18);
    a_step(s, 32);
    a_step(s, 33);
    a_step(s, 34);
    a_step(s, 35);
    a_step(s, 21);
    a_step(s, 22);
    a_step(s, 23);
    a_step(s, 37);
    a_step(s, 38);
    a_step(s, 39);
    a_step(s, 41);
    a_step(s, 80);
    a_step(s, 81);
    a_step(s, 82);
    a_step(s, 85);
    a_step(s, 86);
    a_step(s, 87);
    a_step(s, 101);
    a_step(s, 102);
    a_step(s, 103);
    a_step(s, 104);
    flip_flops_take_west_else_north(s, 40);
}

} // verus!
