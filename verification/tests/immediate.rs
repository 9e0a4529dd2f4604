use minesweeper::immediate::find_immediate_move;
use minesweeper::{CellConfig, MineField, Position};

#[test]
fn test_immediate_move_1bo() {
    let game = MineField::from([[CellConfig::Open, CellConfig::Mine, CellConfig::Open]]);

    let next_move = find_immediate_move(&game);

    assert_eq!(next_move, Some((Position::from(1, 0), true)));
}

#[test]
fn test_immediate_move_use_flags() {
    let game = MineField::from([
        [CellConfig::Open, CellConfig::Mine, CellConfig::Closed],
        [CellConfig::Open, CellConfig::Flagged, CellConfig::Closed],
    ]);

    let next_move = find_immediate_move(&game);

    assert_eq!(next_move, Some((Position::from(1, 0), true)));
}
