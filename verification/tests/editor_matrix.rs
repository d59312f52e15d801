//! Boards: cells read their neighbours, registers wait for a step.

use ryzr::board::{Board, Cell, CellKind, CellPos, DEFAULT_BOARD_HEIGHT, DEFAULT_BOARD_WIDTH};
use ryzr::editor::EditorRuntime;
use ryzr::wiring::{BoardError, CircuitStats, InputBinding};

#[test]
fn matrix_gate_reads_west_and_north_neighbors() {
    let mut board = Board::new(4, 3);
    board.set_kind(0, 0, CellKind::Input);
    board.set_kind(1, 0, CellKind::Wire);
    board.set_kind(2, 0, CellKind::Wire);
    board.set_kind(0, 1, CellKind::Input);
    board.set_kind(1, 1, CellKind::Wire);
    board.set_kind(2, 1, CellKind::And);
    board.set_kind(3, 1, CellKind::Led);

    board.set_input_value(0, 0, true);
    board.set_input_value(0, 1, true);

    let mut runtime = EditorRuntime::new(board).ok().expect("matrix circuit builds");
    runtime.step();
    assert!(runtime.cell_value(3, 1));

    runtime.set_input_value(0, 1, false).expect("input exists");
    runtime.step();
    assert!(!runtime.cell_value(3, 1));
}

#[test]
fn register_cell_advances_only_on_explicit_steps() {
    let mut board = Board::new(4, 1);
    board.set_kind(0, 0, CellKind::Input);
    board.set_kind(1, 0, CellKind::Register);
    board.set_kind(2, 0, CellKind::Led);
    board.set_input_value(0, 0, true);

    let mut runtime = EditorRuntime::new(board).ok().expect("matrix circuit builds");
    assert!(!runtime.cell_value(2, 0));

    runtime.step();
    assert!(!runtime.cell_value(2, 0));

    runtime.step();
    assert!(runtime.cell_value(2, 0));
}

#[test]
fn demo_board_contains_editable_vcb_like_components() {
    let board = Board::demo();
    assert!(board.count_kind(CellKind::Input) >= 2);
    assert!(board.count_kind(CellKind::And) >= 1);
    assert!(board.count_kind(CellKind::Register) >= 1);
    assert!(board.count_kind(CellKind::Led) >= 2);

    let runtime = EditorRuntime::new(board).ok().expect("demo circuit builds");
    assert!(runtime.circuit_stats().gates > 0);
    assert!(runtime.circuit_stats().registers > 0);
    assert_eq!(runtime.tick_count(), 0);
}

#[test]
fn demo_board_has_exact_counts() {
    let board = Board::demo();
    assert_eq!(board.width(), DEFAULT_BOARD_WIDTH);
    assert_eq!(board.height(), DEFAULT_BOARD_HEIGHT);
    assert_eq!(board.cells().len(), 160);
    assert_eq!(board.count_kind(CellKind::Input), 6);
    assert_eq!(board.count_kind(CellKind::Clock), 1);
    assert_eq!(board.count_kind(CellKind::Led), 4);
    assert_eq!(
        board.cell(7, 2),
        Some(&Cell { kind: CellKind::Xor, input_value: false })
    );
    assert_eq!(
        board.cell(0, 1),
        Some(&Cell { kind: CellKind::Input, input_value: true })
    );
    assert_eq!(board.cell(16, 0), None);
    assert_eq!(board.cell(0, 10), None);
    let runtime = EditorRuntime::new(board).ok().unwrap();
    assert_eq!(
        runtime.circuit_stats(),
        CircuitStats { signals: 27, gates: 18, registers: 1, inputs: 7, outputs: 26 }
    );
}

#[test]
fn palette_labels_and_names() {
    let palette = CellKind::palette();
    assert_eq!(palette.len(), 11);
    assert_eq!(palette[0], CellKind::Empty);
    assert_eq!(palette[10], CellKind::Led);
    let labels: Vec<&str> = palette.iter().map(|k| k.label()).collect();
    assert_eq!(
        labels,
        vec!["", "IN", "CLK", "WIRE", "NOT", "AND", "OR", "XOR", "NAND", "DFF", "LED"]
    );
    assert_eq!(CellKind::Empty.name(), "Erase");
    assert_eq!(CellKind::Register.name(), "D flip-flop");
    assert!(CellKind::Clock.is_source());
    assert!(!CellKind::Wire.is_source());
}

#[test]
fn every_gate_kind_combines_its_neighbours() {
    for (kind, table) in [
        (CellKind::And, [false, false, false, true]),
        (CellKind::Or, [false, true, true, true]),
        (CellKind::Xor, [false, true, true, false]),
        (CellKind::Nand, [true, true, true, false]),
        // The west neighbour is the first one.
        (CellKind::Wire, [false, false, true, true]),
        (CellKind::Led, [false, false, true, true]),
        (CellKind::Not, [true, true, false, false]),
    ] {
        let mut board = Board::new(2, 2);
        board.set_kind(1, 0, CellKind::Input);
        board.set_kind(0, 1, CellKind::Input);
        board.set_kind(1, 1, kind);
        let mut runtime = EditorRuntime::new(board).ok().unwrap();
        for (i, want) in table.iter().enumerate() {
            runtime.set_input_value(0, 1, i & 2 != 0).unwrap();
            runtime.set_input_value(1, 0, i & 1 != 0).unwrap();
            runtime.step();
            assert_eq!(runtime.cell_value(1, 1), *want, "{kind:?} on {i}");
        }
    }
}

#[test]
fn missing_neighbours_read_low() {
    let mut board = Board::new(2, 2);
    board.set_kind(0, 0, CellKind::Not);
    board.set_kind(1, 0, CellKind::Input);
    board.set_kind(1, 1, CellKind::Wire);
    board.set_input_value(1, 0, true);
    let mut runtime = EditorRuntime::new(board).ok().unwrap();
    // Nothing but sources shows before the first step.
    assert!(!runtime.cell_value(0, 0));
    assert!(runtime.cell_value(1, 0));
    assert!(!runtime.cell_value(1, 1));
    runtime.step();
    assert!(runtime.cell_value(0, 0));
    // No west neighbour: the wire follows the north one.
    assert!(runtime.cell_value(1, 1));
    // Empty and outside cells show nothing.
    assert!(!runtime.cell_value(0, 1));
    assert!(!runtime.cell_value(9, 9));
}

#[test]
fn clocks_flip_on_every_step() {
    let mut board = Board::new(3, 1);
    board.set_kind(0, 0, CellKind::Clock);
    board.set_kind(1, 0, CellKind::Register);
    board.set_kind(2, 0, CellKind::Led);
    let mut runtime = EditorRuntime::new(board).ok().unwrap();
    let mut seen = Vec::new();
    for _ in 0..4 {
        runtime.step();
        seen.push((runtime.cell_value(0, 0), runtime.cell_value(1, 0)));
    }
    assert_eq!(seen, vec![(true, false), (false, true), (true, false), (false, true)]);
    assert_eq!(runtime.tick_count(), 4);
    assert_eq!(runtime.cell_input_value(0, 0), Some(false));

    let mut other = EditorRuntime::new({
        let mut board = Board::new(3, 1);
        board.set_kind(0, 0, CellKind::Clock);
        board.set_kind(1, 0, CellKind::Register);
        board.set_kind(2, 0, CellKind::Led);
        board
    })
    .ok()
    .unwrap();
    other.run(4);
    assert_eq!(other.tick_count(), 4);
    assert_eq!(other.cell_value(0, 0), runtime.cell_value(0, 0));
    assert_eq!(other.cell_value(1, 0), runtime.cell_value(1, 0));
}

#[test]
fn only_sources_can_be_set() {
    let mut runtime = EditorRuntime::new(Board::demo()).ok().unwrap();
    let err = runtime.set_input_value(1, 1, true).unwrap_err();
    assert_eq!(err, BoardError::NoInputAt(CellPos::new(1, 1)));
    assert_eq!(err.message(), "cell 1,1 is not an input source");
    assert_eq!(
        runtime.toggle_input(40, 7).unwrap_err().message(),
        "cell 40,7 is not an input source"
    );
    assert_eq!(BoardError::Circuit(String::from("broken")).message(), "broken");
    assert_eq!(runtime.cell_input_value(1, 1), None);
    assert_eq!(runtime.cell_input_value(0, 1), Some(true));
    runtime.toggle_input(0, 1).unwrap();
    assert_eq!(runtime.cell_input_value(0, 1), Some(false));
    assert!(!runtime.cell_value(0, 1));
    runtime.toggle_input(0, 1).unwrap();
    assert!(runtime.cell_value(0, 1));
}

#[test]
fn edits_start_over() {
    let mut runtime = EditorRuntime::new(Board::demo()).ok().unwrap();
    runtime.run(3);
    assert_eq!(runtime.tick_count(), 3);
    runtime.set_kind(15, 9, CellKind::Input).unwrap();
    assert_eq!(runtime.tick_count(), 0);
    assert_eq!(runtime.circuit_stats().inputs, 8);
    runtime.run(2);
    runtime.reset().unwrap();
    assert_eq!(runtime.tick_count(), 0);
    runtime.clear().unwrap();
    assert_eq!(runtime.board().count_kind(CellKind::Empty), 160);
    assert_eq!(runtime.circuit_stats().signals, 1);
    runtime.load_demo().unwrap();
    assert_eq!(runtime.board().count_kind(CellKind::Input), 6);
    assert_eq!(runtime.engine_name(), "hybrid");
    assert_eq!(runtime.circuit().output_names[0], "__ground");
}

#[test]
fn a_source_that_replaces_a_source_keeps_its_value() {
    let mut board = Board::new(1, 1);
    board.set_kind(0, 0, CellKind::Input);
    board.set_input_value(0, 0, true);
    board.set_kind(0, 0, CellKind::Clock);
    assert!(board.cell(0, 0).unwrap().input_value);
    board.set_kind(0, 0, CellKind::Wire);
    assert!(!board.cell(0, 0).unwrap().input_value);
    board.set_input_value(0, 0, true);
    assert!(!board.cell(0, 0).unwrap().input_value);
    board.clear();
    assert_eq!(board.cell(0, 0), Some(&Cell::default()));
}

#[test]
fn compiled_boards_name_their_taps() {
    let mut board = Board::new(12, 2);
    board.set_kind(11, 0, CellKind::Input);
    board.set_kind(0, 1, CellKind::Clock);
    board.set_kind(1, 1, CellKind::Register);
    let compiled = board.compile().ok().unwrap();
    assert_eq!(compiled.circuit.input_names, vec!["IN_11_0", "CLK_0_1"]);
    assert_eq!(compiled.circuit.debug_names, vec!["dff_1_1"]);
    assert_eq!(
        compiled.circuit.output_names,
        vec!["__ground", "cell_11_0_IN", "cell_0_1_CLK", "cell_1_1_DFF"]
    );
    assert_eq!(compiled.cell_outputs[11], Some(1));
    assert_eq!(compiled.cell_outputs[13], Some(3));
    assert_eq!(compiled.cell_outputs[0], None);
    assert_eq!(
        compiled.input_bindings[1],
        InputBinding { pos: CellPos::new(0, 1), input_index: 1, value: false, clock: true }
    );
}
