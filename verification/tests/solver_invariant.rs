use minesweeper::forced::find_invariant_move;
use minesweeper::{CellConfig, MineField, Position};

#[test]
fn invariant_solve_121() {
    let game = MineField::from([
        [CellConfig::Open, CellConfig::Open, CellConfig::Open],
        [CellConfig::Mine, CellConfig::Closed, CellConfig::Mine],
    ]);

    let next_move = find_invariant_move(&game);

    match next_move {
        None => panic!("Invariant solver should find a move for 121"),
        Some((pos, true)) if pos == Position::from(0, 1) => {}
        Some((pos, true)) if pos == Position::from(2, 1) => {}
        _ => panic!("Invalid move"),
    }
}

#[test]
fn invariant_solve_111() {
    let game = MineField::from([
        [CellConfig::Open, CellConfig::Open, CellConfig::Open],
        [CellConfig::Closed, CellConfig::Mine, CellConfig::Closed],
    ]);

    let next_move = find_invariant_move(&game);

    match next_move {
        None => panic!("Invariant solver should find a move for 111"),
        Some((pos, false)) if pos == Position::from(0, 1) => {}
        Some((pos, true)) if pos == Position::from(1, 1) => {}
        Some((pos, false)) if pos == Position::from(2, 1) => {}
        _ => panic!("Invalid move"),
    }
}

#[test]
fn invariant_solve_121_angle() {
    let game = MineField::from([
        [CellConfig::Mine, CellConfig::Closed, CellConfig::Closed],
        [CellConfig::Open, CellConfig::Open, CellConfig::Mine],
        [CellConfig::Open, CellConfig::Open, CellConfig::Closed],
    ]);

    let next_move = find_invariant_move(&game);

    match next_move {
        None => panic!("Invariant solver should find a move for 121 angled"),
        Some((pos, false)) if pos == Position::from(2, 0) => {}
        _ => panic!("Invalid move"),
    }
}

#[test]
fn tests_solve_121() {
    let game = MineField::from([
        [CellConfig::Open, CellConfig::Open, CellConfig::Open],
        [CellConfig::Mine, CellConfig::Closed, CellConfig::Mine],
    ]);

    let next_move = find_invariant_move(&game);

    match next_move {
        None => panic!("Invariant solver should find a move for 121"),
        Some((pos, true)) if pos == Position::from(0, 1) => {}
        Some((pos, false)) if pos == Position::from(1, 1) => {}
        Some((pos, true)) if pos == Position::from(2, 1) => {}
        _ => panic!("Invalid move"),
    }
}

#[test]
fn tests_solve_111() {
    let game = MineField::from([
        [CellConfig::Open, CellConfig::Open, CellConfig::Open],
        [CellConfig::Closed, CellConfig::Mine, CellConfig::Closed],
    ]);

    let next_move = find_invariant_move(&game);

    match next_move {
        None => panic!("Invariant solver should find a move for 111"),
        Some((pos, false)) if pos == Position::from(0, 1) => {}
        Some((pos, true)) if pos == Position::from(1, 1) => {}
        Some((pos, false)) if pos == Position::from(2, 1) => {}
        _ => panic!("Invalid move"),
    }
}

#[test]
fn tests_solve_121_angle() {
    let game = MineField::from([
        [CellConfig::Mine, CellConfig::Closed, CellConfig::Closed],
        [CellConfig::Open, CellConfig::Open, CellConfig::Mine],
        [CellConfig::Open, CellConfig::Open, CellConfig::Closed],
    ]);

    let next_move = find_invariant_move(&game);

    match next_move {
        None => panic!("Invariant solver should find a move for 121 angled"),
        Some((pos, false)) if pos == Position::from(2, 0) => {}
        _ => panic!("Invalid move"),
    }
}
