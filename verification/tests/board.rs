//! Tests of the board simulation itself.

use minesweeper::cell::GameState;
use minesweeper::{CellConfig, CellData, MineField, Position};

#[test]
fn literal_board_reports_cells() {
    let game = MineField::from([
        [CellConfig::Open, CellConfig::Mine, CellConfig::Closed],
        [CellConfig::Open, CellConfig::Flagged, CellConfig::Closed],
    ]);
    assert_eq!(game.width(), 3);
    assert_eq!(game.height(), 2);
    // (0, 0) neighbours (1, 0) and (1, 1), both mined
    assert_eq!(game.cell_data(Position::from(0, 0)), CellData::Open(2));
    assert_eq!(game.cell_data(Position::from(1, 0)), CellData::Closed);
    assert_eq!(game.cell_data(Position::from(2, 0)), CellData::Closed);
    assert_eq!(game.cell_data(Position::from(1, 1)), CellData::Flagged);
    assert_eq!(game.cell_data(Position::from(0, 1)), CellData::Open(2));
}

#[test]
fn shown_count_is_exact() {
    let game = MineField::from([
        [CellConfig::Mine, CellConfig::Open, CellConfig::Mine],
        [CellConfig::Mine, CellConfig::Open, CellConfig::Open],
    ]);
    assert_eq!(game.cell_data(Position::from(1, 0)), CellData::Open(3));
    assert_eq!(game.cell_data(Position::from(1, 1)), CellData::Open(3));
    assert_eq!(game.cell_data(Position::from(2, 1)), CellData::Open(1));
}

#[test]
fn flagging_toggles() {
    let mut game = MineField::from([[CellConfig::Closed, CellConfig::Open]]);
    assert_eq!(game.cell_data(Position::from(0, 0)), CellData::Closed);
    assert_eq!(game.play(Position::from(0, 0), true), GameState::Ongoing);
    assert_eq!(game.cell_data(Position::from(0, 0)), CellData::Flagged);
    assert_eq!(game.play(Position::from(0, 0), true), GameState::Ongoing);
    assert_eq!(game.cell_data(Position::from(0, 0)), CellData::Closed);
}

#[test]
fn opening_cascades_through_zero_region() {
    // no mines at all: one click opens everything
    let mut game = MineField::from([
        [CellConfig::Closed, CellConfig::Closed],
        [CellConfig::Closed, CellConfig::Closed],
    ]);
    assert_eq!(game.play(Position::from(0, 0), false), GameState::Ongoing);
    for y in 0..2 {
        for x in 0..2 {
            assert_eq!(game.cell_data(Position::from(x, y)), CellData::Open(0));
        }
    }
}

#[test]
fn opening_next_to_mine_stays_local() {
    let mut game = MineField::from([
        [CellConfig::Mine, CellConfig::Closed],
        [CellConfig::Closed, CellConfig::Closed],
    ]);
    assert_eq!(game.play(Position::from(1, 1), false), GameState::Ongoing);
    assert_eq!(game.cell_data(Position::from(1, 1)), CellData::Open(1));
    assert_eq!(game.cell_data(Position::from(1, 0)), CellData::Closed);
    assert_eq!(game.cell_data(Position::from(0, 1)), CellData::Closed);
}

#[test]
fn second_open_on_mine_loses() {
    let mut game = MineField::from([
        [CellConfig::Mine, CellConfig::Mine],
        [CellConfig::Closed, CellConfig::Closed],
    ]);
    // the first open is safe and ends the protected phase
    assert_eq!(game.play(Position::from(1, 1), false), GameState::Ongoing);
    // opening a mined cell now loses
    assert_eq!(game.play(Position::from(0, 0), false), GameState::Lost);
}

#[test]
fn new_board_starts_closed() {
    let game = MineField::new(4, 3, 5);
    assert_eq!(game.width(), 4);
    assert_eq!(game.height(), 3);
    for y in 0..3 {
        for x in 0..4 {
            assert_eq!(game.cell_data(Position::from(x, y)), CellData::Closed);
        }
    }
}

#[test]
fn pipeline_runs_a_whole_game() {
    let mut game = MineField::new(5, 5, 3);
    let mut steps = 0;
    while let Some((pos, flag)) = minesweeper::find_next_move(&game) {
        match game.play(pos, flag) {
            GameState::Ongoing => {}
            _ => break,
        }
        steps += 1;
        if steps > 200 {
            panic!("the game should end");
        }
    }
}
