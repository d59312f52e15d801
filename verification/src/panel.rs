//! The editor's panels: what the buttons do and what the labels say.
use vstd::prelude::*;
use vstd::string::StringExecFns;

use crate::board::{
    blank, demo_grid, label_of, name_of, source_kind, CellKind, CellPos, Grid,
};
use crate::editor::{source_at, EditorRuntime, Scene};
use crate::names::{decimal, push_decimal};
use crate::wiring::{stats_of, BoardError};

verus! {

/// The most ticks one update may run.
pub const MAX_TICKS_PER_UPDATE: u64 = 256;

/// Ticks of a nominal ViPeR clock cycle.
pub const VIPER_CLOCK_TICKS_PER_CPU_CYCLE: u64 = 7;

#[derive(Debug, Clone, Copy, PartialEq, Eq, Structural)]
pub enum ControlKind {
    Step,
    RunPause,
    Slower,
    Faster,
    Reset,
    ToggleInput,
    Demo,
    Clear,
}

#[derive(Debug, Clone, Copy, PartialEq, Eq, Structural)]
pub enum MetricKind {
    Status,
    Circuit,
    Selected,
    Sources,
    Leds,
    Vcb,
    Error,
}

/// What the user has chosen.
#[derive(Debug)]
pub struct Panel {
    pub selected_tool: CellKind,
    pub selected_cell: Option<CellPos>,
    pub running: bool,
    pub ticks_per_update: u64,
    pub last_error: Option<String>,
}

/// A panel as a value.
#[verifier::ext_equal]
pub struct PanelView {
    pub tool: CellKind,
    pub cell: Option<CellPos>,
    pub running: bool,
    pub budget: int,
    pub error: Option<Seq<char>>,
}

/// The text of an error, if there was one.
pub open spec fn error_text(res: Result<(), BoardError>) -> Option<Seq<char>> {
    match res {
        Ok(_) => None,
        Err(e) => Some(e.text()),
    }
}

/// What the user sees of panel and board.
#[verifier::ext_equal]
pub struct Desk {
    pub panel: PanelView,
    pub scene: Scene,
}

impl Desk {
    /// The source at `pos` flips; any other cell is an error.
    pub open spec fn toggled(self, pos: CellPos) -> Desk {
        let (x, y) = (pos.x as int, pos.y as int);
        let g = self.scene.grid;
        if source_at(g, x, y) {
            Desk {
                panel: PanelView { error: None, ..self.panel },
                scene: self.scene.with_source(x, y, !g.cells[g.at(x, y)].input_value),
            }
        } else {
            Desk {
                panel: PanelView { error: Some(BoardError::NoInputAt(pos).text()), ..self.panel },
                ..self
            }
        }
    }

    /// A cell is clicked: it becomes selected. A source of the chosen kind
    /// flips, any other cell becomes what was chosen.
    pub open spec fn cell_pressed(self, pos: CellPos) -> Desk {
        let (x, y) = (pos.x as int, pos.y as int);
        let g = self.scene.grid;
        let tool = self.panel.tool;
        let picked = Desk { panel: PanelView { cell: Some(pos), ..self.panel }, ..self };
        if g.cells[g.at(x, y)].kind == tool && source_kind(tool) {
            picked.toggled(pos)
        } else {
            Desk {
                panel: PanelView { error: None, ..picked.panel },
                scene: Scene::fresh(g.with_kind(x, y, tool)),
            }
        }
    }

    /// A control is pressed.
    pub open spec fn control_pressed(self, kind: ControlKind) -> Desk {
        let p = self.panel;
        let g = self.scene.grid;
        match kind {
            ControlKind::Step => Desk { scene: self.scene.stepped(), ..self },
            ControlKind::RunPause => Desk { panel: PanelView { running: !p.running, ..p }, ..self },
            ControlKind::Slower => Desk {
                panel: PanelView {
                    budget: if p.budget / 2 < 1 {
                        1
                    } else {
                        p.budget / 2
                    },
                    ..p
                },
                ..self
            },
            ControlKind::Faster => Desk {
                panel: PanelView {
                    budget: if p.budget * 2 > MAX_TICKS_PER_UPDATE {
                        MAX_TICKS_PER_UPDATE as int
                    } else {
                        p.budget * 2
                    },
                    ..p
                },
                ..self
            },
            ControlKind::Reset => Desk {
                panel: PanelView { error: None, ..p },
                scene: Scene::fresh(g),
            },
            ControlKind::ToggleInput => match p.cell {
                Some(pos) => self.toggled(pos),
                None => Desk {
                    panel: PanelView { error: Some("no selected source"@), ..p },
                    ..self
                },
            },
            ControlKind::Demo => Desk {
                panel: PanelView { cell: None, error: None, ..p },
                scene: Scene::fresh(demo_grid()),
            },
            ControlKind::Clear => Desk {
                panel: PanelView { cell: None, error: None, ..p },
                scene: Scene::fresh(
                    (Grid { cells: Seq::new(g.cells.len(), |k: int| blank()), ..g }),
                ),
            },
        }
    }

    /// One update: a running board runs as many ticks as it may.
    pub open spec fn updated(self) -> Desk {
        if self.panel.running {
            Desk { scene: self.scene.ran(self.panel.budget as nat), ..self }
        } else {
            self
        }
    }
}

impl Panel {
    pub open spec fn value(&self) -> PanelView {
        PanelView {
            tool: self.selected_tool,
            cell: self.selected_cell,
            running: self.running,
            budget: self.ticks_per_update as int,
            error: match self.last_error {
                Some(text) => Some(text@),
                None => None,
            },
        }
    }

    /// Wires are chosen, no cell is.
    pub fn new(running: bool) -> (p: Self)
        ensures
            p.value() == (PanelView {
                tool: CellKind::Wire,
                cell: None,
                running,
                budget: 1,
                error: None,
            }),
    {
        Self {
            selected_tool: CellKind::Wire,
            selected_cell: None,
            running,
            ticks_per_update: 1,
            last_error: None,
        }
    }

    /// Choose what to place.
    pub fn press_palette(&mut self, kind: CellKind)
        ensures
            final(self).value() == (PanelView { tool: kind, ..old(self).value() }),
    {
        self.selected_tool = kind;
    }

    /// Click a cell.
    pub fn press_cell(&mut self, runtime: &mut EditorRuntime, pos: CellPos)
        requires
            old(runtime).inv(),
            old(runtime).scene().grid.inside(pos.x as int, pos.y as int),
        ensures
            final(runtime).inv(),
            (Desk { panel: final(self).value(), scene: final(runtime).scene() }) == (Desk {
                panel: old(self).value(),
                scene: old(runtime).scene(),
            }).cell_pressed(pos),
    {
        self.selected_cell = Some(pos);
        let tool = self.selected_tool;
        proof {
            runtime.lemma_inv();
        }
        let current = match runtime.board().cell(pos.x, pos.y) {
            Some(cell) => cell.kind,
            None => CellKind::Empty,
        };
        let result = if current == tool && current.is_source() {
            runtime.toggle_input(pos.x, pos.y)
        } else {
            runtime.set_kind(pos.x, pos.y, tool)
        };
        self.remember_result(result);
    }

    /// Press a control.
    pub fn press_control(&mut self, runtime: &mut EditorRuntime, kind: ControlKind)
        requires
            old(runtime).inv(),
            kind == ControlKind::Step ==> old(runtime).scene().ticks < u64::MAX,
            kind == ControlKind::Faster ==> old(self).ticks_per_update * 2 <= u64::MAX,
        ensures
            final(runtime).inv(),
            (Desk { panel: final(self).value(), scene: final(runtime).scene() }) == (Desk {
                panel: old(self).value(),
                scene: old(runtime).scene(),
            }).control_pressed(kind),
    {
        match kind {
            ControlKind::Step => {
                runtime.step();
            },
            ControlKind::RunPause => {
                self.running = !self.running;
            },
            ControlKind::Slower => {
                let half: u64 = self.ticks_per_update / 2;
                self.ticks_per_update = if half < 1 {
                    1
                } else {
                    half
                };
            },
            ControlKind::Faster => {
                let twice: u64 = self.ticks_per_update * 2;
                self.ticks_per_update = if twice > MAX_TICKS_PER_UPDATE {
                    MAX_TICKS_PER_UPDATE
                } else {
                    twice
                };
            },
            ControlKind::Reset => {
                let result = runtime.reset();
                self.remember_result(result);
            },
            ControlKind::ToggleInput => match self.selected_cell {
                None => {
                    self.last_error = Some(String::from_str("no selected source"));
                },
                Some(pos) => {
                    let result = runtime.toggle_input(pos.x, pos.y);
                    self.remember_result(result);
                },
            },
            ControlKind::Demo => {
                self.selected_cell = None;
                let result = runtime.load_demo();
                self.remember_result(result);
            },
            ControlKind::Clear => {
                self.selected_cell = None;
                let result = runtime.clear();
                self.remember_result(result);
            },
        }
    }

    /// Run the board for one update.
    pub fn update(&self, runtime: &mut EditorRuntime)
        requires
            old(runtime).inv(),
            self.running ==> old(runtime).scene().ticks + self.ticks_per_update <= u64::MAX,
        ensures
            final(runtime).inv(),
            (Desk { panel: self.value(), scene: final(runtime).scene() }) == (Desk {
                panel: self.value(),
                scene: old(runtime).scene(),
            }).updated(),
    {
        if self.running {
            runtime.run(self.ticks_per_update);
        }
    }

    /// Keep the error, or forget the one before.
    fn remember_result(&mut self, result: Result<(), BoardError>)
        ensures
            final(self).value() == (PanelView { error: error_text(result), ..old(self).value() }),
    {
        self.last_error = match result {
            Ok(_) => None,
            Err(err) => Some(err.message()),
        };
    }
}

/// Ticks since the last sample; a board that started over counts none.
pub fn ticks_since(now: u64, before: u64) -> (delta: u64)
    ensures
        delta == if now > before {
            now - before
        } else {
            0
        },
{
    if now > before {
        now - before
    } else {
        0
    }
}

/// `1` or `0`.
pub open spec fn level_text(v: bool) -> Seq<char> {
    if v {
        "1"@
    } else {
        "0"@
    }
}

fn level(v: bool) -> (text: &'static str)
    ensures
        text@ == level_text(v),
{
    if v {
        "1"
    } else {
        "0"
    }
}

/// The two lines on a cell.
pub open spec fn cell_lines(kind: CellKind, active: bool) -> Seq<char> {
    if kind == CellKind::Empty {
        ""@
    } else {
        label_of(kind) + "\n"@ + level_text(active)
    }
}

pub fn cell_text(kind: CellKind, active: bool) -> (text: String)
    ensures
        text@ == cell_lines(kind, active),
{
    if kind == CellKind::Empty {
        String::from_str("")
    } else {
        let mut text = String::from_str(kind.label());
        text.append("\n");
        text.append(level(active));
        text
    }
}

/// What a control button says.
pub open spec fn control_word(kind: ControlKind, running: bool) -> Seq<char> {
    match kind {
        ControlKind::RunPause => if running {
            "Pause"@
        } else {
            "Run"@
        },
        ControlKind::Step => "Step"@,
        ControlKind::Slower => "-"@,
        ControlKind::Faster => "+"@,
        ControlKind::Reset => "Reset"@,
        ControlKind::ToggleInput => "Toggle"@,
        ControlKind::Demo => "Demo"@,
        ControlKind::Clear => "Clear"@,
    }
}

pub fn control_label(kind: ControlKind, state: &Panel) -> (text: String)
    ensures
        text@ == control_word(kind, state.running),
{
    match kind {
        ControlKind::RunPause => if state.running {
            String::from_str("Pause")
        } else {
            String::from_str("Run")
        },
        ControlKind::Step => String::from_str("Step"),
        ControlKind::Slower => String::from_str("-"),
        ControlKind::Faster => String::from_str("+"),
        ControlKind::Reset => String::from_str("Reset"),
        ControlKind::ToggleInput => String::from_str("Toggle"),
        ControlKind::Demo => String::from_str("Demo"),
        ControlKind::Clear => String::from_str("Clear"),
    }
}

/// Rows, one per line.
pub open spec fn lines(rows: Seq<Seq<char>>) -> Seq<char>
    decreases rows.len(),
{
    if rows.len() == 0 {
        ""@
    } else if rows.len() == 1 {
        rows[0]
    } else {
        lines(rows.drop_last()) + "\n"@ + rows.last()
    }
}

/// `KIND x,y=value`.
pub open spec fn row(kind: CellKind, x: int, y: int, value: bool) -> Seq<char> {
    label_of(kind) + " "@ + decimal(x as nat) + ","@ + decimal(y as nat) + "="@ + level_text(value)
}

/// The sources among the first `k` cells and their values.
pub open spec fn source_rows(g: Grid, k: int) -> Seq<Seq<char>>
    decreases k,
{
    if k <= 0 {
        seq![]
    } else if source_kind(g.cells[k - 1].kind) {
        source_rows(g, k - 1).push(
            row(
                g.cells[k - 1].kind,
                (k - 1) % g.width,
                (k - 1) / g.width,
                g.cells[k - 1].input_value,
            ),
        )
    } else {
        source_rows(g, k - 1)
    }
}

/// The lamps among the first `k` cells and what they show.
pub open spec fn led_rows(s: Scene, k: int) -> Seq<Seq<char>>
    decreases k,
{
    if k <= 0 {
        seq![]
    } else if s.grid.cells[k - 1].kind == CellKind::Led {
        led_rows(s, k - 1).push(
            row(CellKind::Led, (k - 1) % s.grid.width, (k - 1) / s.grid.width, s.shown[k - 1]),
        )
    } else {
        led_rows(s, k - 1)
    }
}

/// A heading over rows, or a word for none.
pub open spec fn listing(head: Seq<char>, none: Seq<char>, rows: Seq<Seq<char>>) -> Seq<char> {
    if rows.len() == 0 {
        none
    } else {
        head + lines(rows)
    }
}

/// Append a row to a listing that has `count` rows.
fn push_row(text: &mut String, count: usize, kind: CellKind, x: usize, y: usize, value: bool)
    ensures
        count == 0 ==> final(text)@ == old(text)@ + row(kind, x as int, y as int, value),
        count > 0 ==> final(text)@ == old(text)@ + ("\n"@ + row(kind, x as int, y as int, value)),
{
    if count > 0 {
        text.append("\n");
    }
    let ghost start = text@;
    text.append(kind.label());
    text.append(" ");
    push_decimal(text, x as u64);
    text.append(",");
    push_decimal(text, y as u64);
    text.append("=");
    text.append(level(value));
    proof {
        assert(text@ =~= start + row(kind, x as int, y as int, value));
        if count > 0 {
            assert(text@ =~= old(text)@ + ("\n"@ + row(kind, x as int, y as int, value)));
        }
    }
}

/// One more row.
proof fn lemma_lines_push(rows: Seq<Seq<char>>, next: Seq<char>)
    ensures
        rows.len() == 0 ==> lines(rows.push(next)) == next,
        rows.len() > 0 ==> lines(rows.push(next)) == lines(rows) + "\n"@ + next,
{
    assert(rows.push(next).drop_last() =~= rows);
}

pub fn source_text(runtime: &EditorRuntime) -> (text: String)
    requires
        runtime.inv(),
    ensures
        text@ == listing(
            "sources:\n"@,
            "sources: none"@,
            source_rows(runtime.scene().grid, runtime.scene().grid.cells.len() as int),
        ),
{
    let ghost g = runtime.scene().grid;
    let board = runtime.board();
    let cells = board.cells();
    let width: usize = board.width();
    let count: usize = cells.len();
    let mut text = String::from_str("sources:\n");
    let mut rows: usize = 0;
    proof {
        runtime.lemma_inv();
        reveal_strlit("");
        assert(text@ =~= "sources:\n"@ + lines(source_rows(g, 0)));
    }
    for k in 0..count
        invariant
            g.ok(),
            cells@ == g.cells,
            count == cells@.len(),
            width == g.width,
            rows <= k,
            rows == source_rows(g, k as int).len(),
            text@ == "sources:\n"@ + lines(source_rows(g, k as int)),
    {
        let cell = cells[k];
        if cell.kind.is_source() {
            push_row(&mut text, rows, cell.kind, k % width, k / width, cell.input_value);
            rows = rows + 1;
            proof {
                let next = row(cell.kind, k as int % g.width, k as int / g.width, cell.input_value);
                lemma_lines_push(source_rows(g, k as int), next);
                reveal_strlit("");
                assert(text@ =~= "sources:\n"@ + lines(source_rows(g, k + 1)));
            }
        }
    }
    if rows == 0 {
        String::from_str("sources: none")
    } else {
        text
    }
}

pub fn led_text(runtime: &EditorRuntime) -> (text: String)
    requires
        runtime.inv(),
    ensures
        text@ == listing(
            "LEDs:\n"@,
            "LEDs: none"@,
            led_rows(runtime.scene(), runtime.scene().grid.cells.len() as int),
        ),
{
    let ghost s = runtime.scene();
    let ghost g = s.grid;
    let board = runtime.board();
    let cells = board.cells();
    let width: usize = board.width();
    let count: usize = cells.len();
    let mut text = String::from_str("LEDs:\n");
    let mut rows: usize = 0;
    proof {
        runtime.lemma_inv();
        reveal_strlit("");
        assert(text@ =~= "LEDs:\n"@ + lines(led_rows(s, 0)));
    }
    for k in 0..count
        invariant
            runtime.inv(),
            s == runtime.scene(),
            g == s.grid,
            g.ok(),
            cells@ == g.cells,
            count == cells@.len(),
            width == g.width,
            rows <= k,
            rows == led_rows(s, k as int).len(),
            text@ == "LEDs:\n"@ + lines(led_rows(s, k as int)),
    {
        let cell = cells[k];
        if cell.kind == CellKind::Led {
            let x: usize = k % width;
            let y: usize = k / width;
            proof {
                crate::editor::lemma_coordinates(g, k as int);
            }
            let value: bool = runtime.cell_value(x, y);
            push_row(&mut text, rows, CellKind::Led, x, y, value);
            rows = rows + 1;
            proof {
                let next = row(CellKind::Led, x as int, y as int, value);
                lemma_lines_push(led_rows(s, k as int), next);
                reveal_strlit("");
                assert(text@ =~= "LEDs:\n"@ + lines(led_rows(s, k + 1)));
            }
        }
    }
    if rows == 0 {
        String::from_str("LEDs: none")
    } else {
        text
    }
}

/// What the panel says of the selected cell.
pub open spec fn selected_lines(cell: Option<CellPos>, s: Scene) -> Seq<char> {
    match cell {
        None => "cell: none"@,
        Some(pos) => {
            let (x, y) = (pos.x as int, pos.y as int);
            let k = s.grid.at(x, y);
            if !s.grid.inside(x, y) {
                "cell: out of range"@
            } else {
                let head = "cell: "@ + decimal(pos.x as nat) + ","@ + decimal(pos.y as nat)
                    + "\nkind: "@ + name_of(s.grid.cells[k].kind);
                let source = if source_kind(s.grid.cells[k].kind) {
                    head + "\nsource: "@ + level_text(s.grid.cells[k].input_value)
                } else {
                    head
                };
                source + "\nvalue: "@ + level_text(s.shown[k])
            }
        },
    }
}

pub fn selected_text(state: &Panel, runtime: &EditorRuntime) -> (text: String)
    requires
        runtime.inv(),
    ensures
        text@ == selected_lines(state.selected_cell, runtime.scene()),
{
    let pos = match state.selected_cell {
        Some(pos) => pos,
        None => {
            return String::from_str("cell: none");
        },
    };
    let cell = match runtime.board().cell(pos.x, pos.y) {
        Some(cell) => cell,
        None => {
            return String::from_str("cell: out of range");
        },
    };
    let mut text = String::from_str("cell: ");
    push_decimal(&mut text, pos.x as u64);
    text.append(",");
    push_decimal(&mut text, pos.y as u64);
    text.append("\nkind: ");
    text.append(cell.kind.name());
    if let Some(input) = runtime.cell_input_value(pos.x, pos.y) {
        text.append("\nsource: ");
        text.append(level(input));
    }
    text.append("\nvalue: ");
    text.append(level(runtime.cell_value(pos.x, pos.y)));
    text
}

/// What a label of the panel says; `speed` is the measured speed.
pub open spec fn metric_lines(kind: MetricKind, d: Desk, speed: Seq<char>) -> Seq<char> {
    let stats = stats_of(d.scene.grid);
    let n = d.scene.grid.cells.len() as int;
    match kind {
        MetricKind::Status => (if d.panel.running {
            "running"@
        } else {
            "paused"@
        }) + "\nselected: "@ + name_of(d.panel.tool) + "\nbudget: "@ + decimal(d.panel.budget as nat)
            + " tick/update"@,
        MetricKind::Circuit => "engine: "@ + "hybrid"@ + "\nticks: "@ + decimal(d.scene.ticks)
            + "\nspeed: "@ + speed + " tick/s\ngates: "@ + decimal(stats.gates as nat) + "  regs: "@
            + decimal(stats.registers as nat) + "\nsignals: "@ + decimal(stats.signals as nat),
        MetricKind::Selected => selected_lines(d.panel.cell, d.scene),
        MetricKind::Sources => listing("sources:\n"@, "sources: none"@, source_rows(d.scene.grid, n)),
        MetricKind::Leds => listing("LEDs:\n"@, "LEDs: none"@, led_rows(d.scene, n)),
        MetricKind::Vcb => "ViPeR nominal clock: "@ + decimal(7) + " VCB ticks/cycle\nnormalized VCB ticks: "@
            + decimal(d.scene.ticks * 7),
        MetricKind::Error => match d.panel.error {
            Some(text) => text,
            None => ""@,
        },
    }
}

pub fn metric_text(kind: MetricKind, state: &Panel, speed: &str, runtime: &EditorRuntime) -> (text: String)
    requires
        runtime.inv(),
        kind == MetricKind::Vcb ==> runtime.scene().ticks * VIPER_CLOCK_TICKS_PER_CPU_CYCLE
            <= u64::MAX,
    ensures
        text@ == metric_lines(kind, (Desk { panel: state.value(), scene: runtime.scene() }), speed@),
{
    match kind {
        MetricKind::Status => {
            let mut text = if state.running {
                String::from_str("running")
            } else {
                String::from_str("paused")
            };
            text.append("\nselected: ");
            text.append(state.selected_tool.name());
            text.append("\nbudget: ");
            push_decimal(&mut text, state.ticks_per_update);
            text.append(" tick/update");
            text
        },
        MetricKind::Circuit => {
            let stats = runtime.circuit_stats();
            let mut text = String::from_str("engine: ");
            text.append(runtime.engine_name());
            text.append("\nticks: ");
            push_decimal(&mut text, runtime.tick_count());
            text.append("\nspeed: ");
            text.append(speed);
            text.append(" tick/s\ngates: ");
            push_decimal(&mut text, stats.gates as u64);
            text.append("  regs: ");
            push_decimal(&mut text, stats.registers as u64);
            text.append("\nsignals: ");
            push_decimal(&mut text, stats.signals as u64);
            text
        },
        MetricKind::Selected => selected_text(state, runtime),
        MetricKind::Sources => source_text(runtime),
        MetricKind::Leds => led_text(runtime),
        MetricKind::Vcb => {
            let mut text = String::from_str("ViPeR nominal clock: ");
            push_decimal(&mut text, VIPER_CLOCK_TICKS_PER_CPU_CYCLE);
            text.append(" VCB ticks/cycle\nnormalized VCB ticks: ");
            push_decimal(&mut text, runtime.tick_count() * VIPER_CLOCK_TICKS_PER_CPU_CYCLE);
            text
        },
        MetricKind::Error => match &state.last_error {
            Some(text) => String::from_str(text.as_str()),
            None => String::from_str(""),
        },
    }
}

/// Between 1 and [`MAX_TICKS_PER_UPDATE`] ticks run per update, whatever is
/// pressed.
pub proof fn budget_stays_in_bounds(d: Desk, kind: ControlKind, pos: CellPos)
    requires
        1 <= d.panel.budget <= MAX_TICKS_PER_UPDATE,
    ensures
        1 <= d.control_pressed(kind).panel.budget <= MAX_TICKS_PER_UPDATE,
        d.cell_pressed(pos).panel.budget == d.panel.budget,
        d.updated().panel == d.panel,
{
}

/// Only stepping and running count ticks; every edit of the board starts
/// over.
pub proof fn controls_count_ticks(d: Desk, kind: ControlKind)
    ensures
        d.control_pressed(kind).scene.ticks == match kind {
            ControlKind::Step => d.scene.ticks + 1,
            ControlKind::Reset | ControlKind::Demo | ControlKind::Clear => 0,
            _ => d.scene.ticks,
        },
{
}

/// Only `Demo` and `Clear` replace the board, and only `Step` and `ToggleInput`
/// change values on it: every other control keeps every cell as it is. `Reset`
/// keeps the board, too, and starts it over.
pub proof fn controls_keep_the_board(d: Desk, kind: ControlKind)
    ensures
        kind != ControlKind::Step && kind != ControlKind::ToggleInput && kind != ControlKind::Demo && kind
            != ControlKind::Clear ==> d.control_pressed(kind).scene.grid == d.scene.grid,
        kind == ControlKind::RunPause || kind == ControlKind::Slower || kind == ControlKind::Faster
            ==> d.control_pressed(kind).scene == d.scene,
        kind == ControlKind::Reset ==> d.control_pressed(kind).scene.ticks == 0 && d.control_pressed(kind).scene
            == Scene::fresh(d.scene.grid),
        kind == ControlKind::Step ==> d.control_pressed(kind).scene == d.scene.stepped(),
        kind == ControlKind::Demo ==> d.control_pressed(kind).scene == Scene::fresh(demo_grid()),
{
}

/// `Clear` empties every cell of the board and keeps its size.
pub proof fn clearing_empties_the_board(d: Desk, k: int)
    requires
        0 <= k < d.scene.grid.cells.len(),
    ensures
        ({
            let g = d.control_pressed(ControlKind::Clear).scene.grid;
            &&& g.width == d.scene.grid.width
            &&& g.height == d.scene.grid.height
            &&& g.cells.len() == d.scene.grid.cells.len()
            &&& g.cells[k].kind == CellKind::Empty
            &&& !g.cells[k].input_value
        }),
        d.control_pressed(ControlKind::Clear).scene == Scene::fresh(
            d.control_pressed(ControlKind::Clear).scene.grid,
        ),
{
}

/// What the controls do to the panel: the run button flips between running and
/// paused, the speed doubles and halves between 1 and 256 ticks per update,
/// replacing the board drops the selected cell, and the chosen tool stays.
pub proof fn controls_work_the_panel(d: Desk, kind: ControlKind)
    ensures
        ({
            let p = d.panel;
            let q = d.control_pressed(kind).panel;
            &&& q.tool == p.tool
            &&& q.running == (if kind == ControlKind::RunPause {
                !p.running
            } else {
                p.running
            })
            &&& kind == ControlKind::Slower && p.budget >= 2 ==> q.budget == p.budget / 2
            &&& kind == ControlKind::Slower && p.budget < 2 ==> q.budget == 1
            &&& kind == ControlKind::Faster && p.budget <= 128 ==> q.budget == p.budget + p.budget
            &&& kind == ControlKind::Faster && p.budget > 128 ==> q.budget == 256
            &&& kind != ControlKind::Slower && kind != ControlKind::Faster ==> q.budget == p.budget
            &&& kind == ControlKind::Demo || kind == ControlKind::Clear ==> q.cell is None
            &&& kind != ControlKind::Demo && kind != ControlKind::Clear ==> q.cell == p.cell
            &&& kind == ControlKind::Reset || kind == ControlKind::Demo || kind == ControlKind::Clear
                ==> q.error is None
            &&& kind == ControlKind::Step || kind == ControlKind::RunPause || kind == ControlKind::Slower || kind
                == ControlKind::Faster ==> q.error == p.error
        }),
{
}

/// The toggle button flips the selected source, and says what is wrong where no
/// cell is selected or the selected one is no source.
pub proof fn toggling_flips_the_selected_source(d: Desk)
    requires
        d.scene.grid.ok(),
    ensures
        ({
            let after = d.control_pressed(ControlKind::ToggleInput);
            let g = d.scene.grid;
            match d.panel.cell {
                None => after.scene == d.scene && after.panel.error == Some("no selected source"@),
                Some(pos) => {
                    let k = pos.x + g.width * pos.y;
                    if pos.x < g.width && pos.y < g.height && (g.cells[k].kind == CellKind::Input || g.cells[k].kind
                        == CellKind::Clock) {
                        &&& after.scene == d.scene.with_source(
                            pos.x as int,
                            pos.y as int,
                            !g.cells[k].input_value,
                        )
                        &&& after.panel.error is None
                    } else {
                        &&& after.scene == d.scene
                        &&& after.panel.error == Some(
                            "cell "@ + decimal(pos.x as nat) + ","@ + decimal(pos.y as nat)
                                + " is not an input source"@,
                        )
                    }
                },
            }
        }),
{
    if let Some(pos) = d.panel.cell {
        crate::editor::where_sources_are(d.scene.grid, pos.x as int, pos.y as int);
        assert(pos.y * d.scene.grid.width == d.scene.grid.width * pos.y) by (nonlinear_arith);
    }
}

/// A click selects its cell. Where the cell is a source of the chosen kind it
/// flips, otherwise it becomes what was chosen and the board starts over.
pub proof fn clicks_place_or_flip(d: Desk, pos: CellPos)
    requires
        d.scene.grid.ok(),
        pos.x < d.scene.grid.width,
        pos.y < d.scene.grid.height,
    ensures
        ({
            let after = d.cell_pressed(pos);
            let g = d.scene.grid;
            let k = pos.x + g.width * pos.y;
            &&& after.panel.cell == Some(pos)
            &&& after.panel.tool == d.panel.tool
            &&& after.panel.running == d.panel.running
            &&& after.panel.budget == d.panel.budget
            &&& after.panel.error is None
            &&& g.cells[k].kind == d.panel.tool && (d.panel.tool == CellKind::Input || d.panel.tool
                == CellKind::Clock) ==> after.scene == d.scene.with_source(
                pos.x as int,
                pos.y as int,
                !g.cells[k].input_value,
            )
            &&& g.cells[k].kind != d.panel.tool || (d.panel.tool != CellKind::Input && d.panel.tool
                != CellKind::Clock) ==> after.scene == Scene::fresh(
                g.with_kind(pos.x as int, pos.y as int, d.panel.tool),
            )
        }),
{
    crate::editor::where_sources_are(d.scene.grid, pos.x as int, pos.y as int);
    assert(pos.y * d.scene.grid.width == d.scene.grid.width * pos.y) by (nonlinear_arith);
}

/// A paused board stays as it is; a running one runs its budget of ticks.
pub proof fn updates_run_the_budget(d: Desk)
    ensures
        !d.panel.running ==> d.updated() == d,
        d.panel.running ==> d.updated().scene == d.scene.ran(d.panel.budget as nat) && d.updated().panel == d.panel,
{
}

/// What the buttons say.
pub proof fn buttons_say_what_they_do(running: bool)
    ensures
        control_word(ControlKind::Step, running) == "Step"@,
        running ==> control_word(ControlKind::RunPause, running) == "Pause"@,
        !running ==> control_word(ControlKind::RunPause, running) == "Run"@,
        control_word(ControlKind::Slower, running) == "-"@,
        control_word(ControlKind::Faster, running) == "+"@,
        control_word(ControlKind::Reset, running) == "Reset"@,
        control_word(ControlKind::ToggleInput, running) == "Toggle"@,
        control_word(ControlKind::Demo, running) == "Demo"@,
        control_word(ControlKind::Clear, running) == "Clear"@,
{
}

/// What a cell says: nothing where it is empty, else its label over `1` or `0`.
pub proof fn cells_say_what_they_show(kind: CellKind)
    ensures
        cell_lines(CellKind::Empty, true) == ""@,
        cell_lines(CellKind::Empty, false) == ""@,
        kind != CellKind::Empty ==> cell_lines(kind, true) == label_of(kind) + "\n"@ + "1"@,
        kind != CellKind::Empty ==> cell_lines(kind, false) == label_of(kind) + "\n"@ + "0"@,
        level_text(true) == "1"@,
        level_text(false) == "0"@,
{
}

/// Listings: the sources with their values, the lamps with what they show, row
/// by row, one per line.
pub proof fn listings_go_row_by_row(s: Scene, k: int, rows: Seq<Seq<char>>, next: Seq<char>)
    requires
        0 <= k < s.grid.cells.len(),
    ensures
        ({
            let g = s.grid;
            let (x, y) = ((k % g.width) as nat, (k / g.width) as nat);
            &&& source_rows(g, 0).len() == 0
            &&& led_rows(s, 0).len() == 0
            &&& g.cells[k].kind == CellKind::Input || g.cells[k].kind == CellKind::Clock ==> source_rows(g, k + 1)
                == source_rows(g, k).push(
                label_of(g.cells[k].kind) + " "@ + decimal(x) + ","@ + decimal(y) + "="@ + (
                if g.cells[k].input_value {
                    "1"@
                } else {
                    "0"@
                }),
            )
            &&& g.cells[k].kind != CellKind::Input && g.cells[k].kind != CellKind::Clock ==> source_rows(g, k + 1)
                == source_rows(g, k)
            &&& g.cells[k].kind == CellKind::Led ==> led_rows(s, k + 1) == led_rows(s, k).push(
                "LED"@ + " "@ + decimal(x) + ","@ + decimal(y) + "="@ + (if s.shown[k] {
                    "1"@
                } else {
                    "0"@
                }),
            )
            &&& g.cells[k].kind != CellKind::Led ==> led_rows(s, k + 1) == led_rows(s, k)
        }),
        lines(Seq::<Seq<char>>::empty()) == ""@,
        rows.len() == 0 ==> lines(rows.push(next)) == next,
        rows.len() > 0 ==> lines(rows.push(next)) == lines(rows) + "\n"@ + next,
        forall|head: Seq<char>, none: Seq<char>|
            rows.len() == 0 ==> #[trigger] listing(head, none, rows) == none,
        forall|head: Seq<char>, none: Seq<char>|
            rows.len() > 0 ==> #[trigger] listing(head, none, rows) == head + lines(rows),
{
    lemma_lines_push(rows, next);
}

/// What the labels say.
pub proof fn labels_say_what_holds(d: Desk, speed: Seq<char>)
    ensures
        d.panel.running ==> metric_lines(MetricKind::Status, d, speed) == "running"@ + "\nselected: "@ + name_of(
            d.panel.tool,
        ) + "\nbudget: "@ + decimal(d.panel.budget as nat) + " tick/update"@,
        !d.panel.running ==> metric_lines(MetricKind::Status, d, speed) == "paused"@ + "\nselected: "@ + name_of(
            d.panel.tool,
        ) + "\nbudget: "@ + decimal(d.panel.budget as nat) + " tick/update"@,
        metric_lines(MetricKind::Circuit, d, speed) == "engine: "@ + "hybrid"@ + "\nticks: "@ + decimal(d.scene.ticks)
            + "\nspeed: "@ + speed + " tick/s\ngates: "@ + decimal(stats_of(d.scene.grid).gates as nat)
            + "  regs: "@ + decimal(stats_of(d.scene.grid).registers as nat) + "\nsignals: "@ + decimal(
            stats_of(d.scene.grid).signals as nat,
        ),
        metric_lines(MetricKind::Selected, d, speed) == selected_lines(d.panel.cell, d.scene),
        metric_lines(MetricKind::Sources, d, speed) == listing(
            "sources:\n"@,
            "sources: none"@,
            source_rows(d.scene.grid, d.scene.grid.cells.len() as int),
        ),
        metric_lines(MetricKind::Leds, d, speed) == listing(
            "LEDs:\n"@,
            "LEDs: none"@,
            led_rows(d.scene, d.scene.grid.cells.len() as int),
        ),
        metric_lines(MetricKind::Vcb, d, speed) == "ViPeR nominal clock: "@ + decimal(7)
            + " VCB ticks/cycle\nnormalized VCB ticks: "@ + decimal(d.scene.ticks * 7),
        d.panel.error matches Some(text) ==> metric_lines(MetricKind::Error, d, speed) == text,
        d.panel.error is None ==> metric_lines(MetricKind::Error, d, speed) == ""@,
{
}

/// What the panel says of the selected cell: where it is, its kind, the value it
/// holds if it is a source, and what it shows.
pub proof fn the_selected_cell_is_described(cell: Option<CellPos>, s: Scene)
    requires
        s.grid.ok(),
    ensures
        match cell {
            None => selected_lines(cell, s) == "cell: none"@,
            Some(pos) => {
                let k = pos.x + s.grid.width * pos.y;
                let text = selected_lines(cell, s);
                if pos.x >= s.grid.width || pos.y >= s.grid.height {
                    text == "cell: out of range"@
                } else {
                    let head = "cell: "@ + decimal(pos.x as nat) + ","@ + decimal(pos.y as nat) + "\nkind: "@
                        + name_of(s.grid.cells[k].kind);
                    let shown = if s.shown[k] {
                        "1"@
                    } else {
                        "0"@
                    };
                    let held = if s.grid.cells[k].input_value {
                        "1"@
                    } else {
                        "0"@
                    };
                    if s.grid.cells[k].kind == CellKind::Input || s.grid.cells[k].kind == CellKind::Clock {
                        text == head + "\nsource: "@ + held + "\nvalue: "@ + shown
                    } else {
                        text == head + "\nvalue: "@ + shown
                    }
                }
            },
        },
{
    if let Some(pos) = cell {
        assert(pos.y * s.grid.width == s.grid.width * pos.y) by (nonlinear_arith);
    }
}

/// The panel shows what its fields hold.
pub proof fn the_panel_shows_its_fields(p: Panel)
    ensures
        p.value().tool == p.selected_tool,
        p.value().cell == p.selected_cell,
        p.value().running == p.running,
        p.value().budget == p.ticks_per_update,
        p.last_error matches Some(text) ==> p.value().error == Some(text@),
        p.last_error is None ==> p.value().error is None,
{
}

} // verus!
