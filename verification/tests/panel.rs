//! Buttons and labels of the editor.

use ryzr::board::{Board, CellKind, CellPos};
use ryzr::editor::EditorRuntime;
use ryzr::panel::{
    cell_text, control_label, led_text, metric_text, selected_text, source_text, ticks_since,
    ControlKind, MetricKind, Panel, MAX_TICKS_PER_UPDATE,
};

fn desk() -> (Panel, EditorRuntime) {
    (Panel::new(false), EditorRuntime::new(Board::demo()).ok().unwrap())
}

#[test]
fn a_new_panel_places_wires() {
    let (panel, runtime) = desk();
    assert_eq!(panel.selected_tool, CellKind::Wire);
    assert_eq!(panel.selected_cell, None);
    assert_eq!(
        metric_text(MetricKind::Status, &panel, "", &runtime),
        "paused\nselected: Wire\nbudget: 1 tick/update"
    );
    assert_eq!(metric_text(MetricKind::Error, &panel, "", &runtime), "");
    assert_eq!(selected_text(&panel, &runtime), "cell: none");
}

#[test]
fn clicking_places_or_toggles() {
    let (mut panel, mut runtime) = desk();
    panel.press_cell(&mut runtime, CellPos::new(15, 9));
    assert_eq!(runtime.board().cell(15, 9).unwrap().kind, CellKind::Wire);
    panel.press_palette(CellKind::Input);
    panel.press_cell(&mut runtime, CellPos::new(15, 9));
    assert_eq!(runtime.cell_input_value(15, 9), Some(false));
    panel.press_cell(&mut runtime, CellPos::new(15, 9));
    assert_eq!(runtime.cell_input_value(15, 9), Some(true));
    assert_eq!(panel.selected_cell, Some(CellPos::new(15, 9)));
    assert_eq!(
        selected_text(&panel, &runtime),
        "cell: 15,9\nkind: Input source\nsource: 1\nvalue: 1"
    );
    assert_eq!(panel.last_error, None);
    // An equal kind that is no source is placed again.
    panel.press_palette(CellKind::And);
    runtime.step();
    panel.press_cell(&mut runtime, CellPos::new(2, 2));
    assert_eq!(runtime.tick_count(), 0);
    assert_eq!(selected_text(&panel, &runtime), "cell: 2,2\nkind: AND gate\nvalue: 0");
}

#[test]
fn controls_drive_the_board() {
    let (mut panel, mut runtime) = desk();
    panel.press_control(&mut runtime, ControlKind::Step);
    assert_eq!(runtime.tick_count(), 1);
    panel.press_control(&mut runtime, ControlKind::ToggleInput);
    assert_eq!(panel.last_error.as_deref(), Some("no selected source"));
    panel.selected_cell = Some(CellPos::new(1, 1));
    panel.press_control(&mut runtime, ControlKind::ToggleInput);
    assert_eq!(panel.last_error.as_deref(), Some("cell 1,1 is not an input source"));
    assert_eq!(
        metric_text(MetricKind::Error, &panel, "", &runtime),
        "cell 1,1 is not an input source"
    );
    panel.selected_cell = Some(CellPos::new(0, 1));
    panel.press_control(&mut runtime, ControlKind::ToggleInput);
    assert_eq!(panel.last_error, None);
    assert_eq!(runtime.cell_input_value(0, 1), Some(false));
    panel.press_control(&mut runtime, ControlKind::Reset);
    assert_eq!(runtime.tick_count(), 0);
    panel.press_control(&mut runtime, ControlKind::Clear);
    assert_eq!(runtime.board().count_kind(CellKind::Empty), 160);
    assert_eq!(panel.selected_cell, None);
    panel.press_control(&mut runtime, ControlKind::Demo);
    assert_eq!(runtime.board().count_kind(CellKind::Led), 4);
}

#[test]
fn the_tick_budget_stays_in_bounds() {
    let (mut panel, mut runtime) = desk();
    panel.press_control(&mut runtime, ControlKind::Slower);
    assert_eq!(panel.ticks_per_update, 1);
    for _ in 0..10 {
        panel.press_control(&mut runtime, ControlKind::Faster);
    }
    assert_eq!(panel.ticks_per_update, MAX_TICKS_PER_UPDATE);
    panel.press_control(&mut runtime, ControlKind::Slower);
    assert_eq!(panel.ticks_per_update, 128);
    panel.update(&mut runtime);
    assert_eq!(runtime.tick_count(), 0);
    panel.press_control(&mut runtime, ControlKind::RunPause);
    panel.update(&mut runtime);
    assert_eq!(runtime.tick_count(), 128);
    assert_eq!(control_label(ControlKind::RunPause, &panel), "Pause");
    assert_eq!(control_label(ControlKind::Faster, &panel), "+");
}

#[test]
fn labels_say_what_the_board_shows() {
    let (panel, mut runtime) = desk();
    runtime.step();
    assert_eq!(
        source_text(&runtime),
        "sources:\nIN 0,1=1\nIN 5,1=1\nIN 0,2=1\nCLK 5,2=1\nIN 0,5=0\nIN 5,5=0\nIN 5,6=1"
    );
    assert_eq!(led_text(&runtime), "LEDs:\nLED 3,2=1\nLED 9,2=0\nLED 2,5=1\nLED 8,6=1");
    assert_eq!(
        metric_text(MetricKind::Circuit, &panel, "     12", &runtime),
        "engine: hybrid\nticks: 1\nspeed:      12 tick/s\ngates: 18  regs: 1\nsignals: 27"
    );
    assert_eq!(
        metric_text(MetricKind::Vcb, &panel, "", &runtime),
        "ViPeR nominal clock: 7 VCB ticks/cycle\nnormalized VCB ticks: 7"
    );
    runtime.clear().unwrap();
    assert_eq!(source_text(&runtime), "sources: none");
    assert_eq!(led_text(&runtime), "LEDs: none");
    assert_eq!(cell_text(CellKind::Empty, true), "");
    assert_eq!(cell_text(CellKind::Led, true), "LED\n1");
    assert_eq!(ticks_since(7, 3), 4);
    assert_eq!(ticks_since(3, 7), 0);
}
