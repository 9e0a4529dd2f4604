use minesweeper::random::choose_random_move;
use minesweeper::{CellConfig, CellData, MineField};

#[test]
fn test_random_move_with_closed_cells() {
    let game = MineField::from([
        [CellConfig::Mine, CellConfig::Closed, CellConfig::Closed],
        [CellConfig::Open, CellConfig::Open, CellConfig::Mine],
        [CellConfig::Closed, CellConfig::Open, CellConfig::Closed],
    ]);

    let next_move = choose_random_move(&game);

    match next_move {
        None => panic!("Random move should find a move when there are closed cells"),
        Some((pos, false)) if matches!(game.cell_data(pos), CellData::Closed) => {}
        _ => panic!("Invalid move"),
    }
}

#[test]
fn test_random_move_without_closed_cells() {
    let game = MineField::from([
        [CellConfig::Flagged, CellConfig::Flagged, CellConfig::Open],
        [CellConfig::Open, CellConfig::Open, CellConfig::Flagged],
        [CellConfig::Open, CellConfig::Open, CellConfig::Open],
    ]);

    let next_move = choose_random_move(&game);

    assert_eq!(next_move, None)
}
