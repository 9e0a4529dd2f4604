//! Tests of the move-selection pipeline entry points.

use minesweeper::strategy::pass;
use minesweeper::{CellConfig, CellData, MineField, Position};

#[test]
fn find_next_move_prefers_immediate_rule() {
    let game = MineField::from([[CellConfig::Open, CellConfig::Mine, CellConfig::Open]]);
    // the immediate rule already resolves this board
    assert_eq!(
        minesweeper::find_next_move(&game),
        Some((Position::from(1, 0), true))
    );
}

#[test]
fn find_next_move_falls_back_to_solver() {
    // the immediate rule fails here (two closed neighbours, one mine),
    // but the cluster solver forces the safe corner
    let game = MineField::from([
        [CellConfig::Mine, CellConfig::Closed, CellConfig::Closed],
        [CellConfig::Open, CellConfig::Open, CellConfig::Mine],
        [CellConfig::Open, CellConfig::Open, CellConfig::Closed],
    ]);
    assert_eq!(
        minesweeper::find_next_move(&game),
        Some((Position::from(2, 0), false))
    );
}

#[test]
fn find_next_move_none_without_closed_cells() {
    let game = MineField::from([[CellConfig::Open, CellConfig::Flagged]]);
    assert_eq!(minesweeper::find_next_move(&game), None);
}

#[test]
fn pass_uses_the_immediate_rule() {
    let game = MineField::from([[CellConfig::Open, CellConfig::Mine, CellConfig::Open]]);
    assert_eq!(pass(&game), Some((Position::from(1, 0), true)));
}

#[test]
fn pass_falls_back_to_a_random_open() {
    // no immediate deduction is possible: the pass must open some closed
    // cell
    let game = MineField::from([
        [CellConfig::Mine, CellConfig::Closed, CellConfig::Closed],
        [CellConfig::Open, CellConfig::Open, CellConfig::Mine],
        [CellConfig::Open, CellConfig::Open, CellConfig::Closed],
    ]);
    match pass(&game) {
        Some((pos, false)) if matches!(game.cell_data(pos), CellData::Closed) => {}
        other => panic!("expected a random open, got {:?}", other),
    }
}
