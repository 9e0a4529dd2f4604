//! Tests exercising the solver's stated guarantees on concrete boards.

use minesweeper::cluster::Cluster;
use minesweeper::forced::{find_invariant_move, generate_suitable_cluster_solutions};
use minesweeper::shadow::ShadowMinefield;
use minesweeper::{CellConfig, MineField, Position};

/// Soundness and completeness on a concrete cluster: the 1-2-1 row has
/// exactly one consistent assignment, mines at both ends and none in the
/// middle.
#[test]
fn enumeration_is_exact_on_121() {
    let game = MineField::from([
        [CellConfig::Open, CellConfig::Open, CellConfig::Open],
        [CellConfig::Mine, CellConfig::Closed, CellConfig::Mine],
    ]);
    let mut shadow = ShadowMinefield::new(&game);
    let cluster = Cluster::from(&shadow, Position::from(0, 0));
    let mut cells = cluster.closed_positions;
    assert_eq!(cells.len(), 3);
    let solutions = generate_suitable_cluster_solutions(
        &mut shadow,
        &cluster.open_positions,
        &mut cells,
    );
    assert_eq!(solutions.len(), 1);
    let sol = &solutions[0];
    for (i, cell) in cells.iter().enumerate() {
        let expect_mine = cell.pos == Position::from(0, 1) || cell.pos == Position::from(2, 1);
        assert_eq!(sol[i], expect_mine);
    }
}

/// A cluster whose counts pin every cell has exactly one solution: all
/// three closed cells of this board must hold mines.
#[test]
fn enumeration_unique_full_assignment() {
    let game = MineField::from([
        [CellConfig::Mine, CellConfig::Open, CellConfig::Mine],
        [CellConfig::Mine, CellConfig::Open, CellConfig::Open],
    ]);
    let mut shadow = ShadowMinefield::new(&game);
    let cluster = Cluster::from(&shadow, Position::from(1, 0));
    let mut cells = cluster.closed_positions;
    assert_eq!(cells.len(), 3);
    let solutions = generate_suitable_cluster_solutions(
        &mut shadow,
        &cluster.open_positions,
        &mut cells,
    );
    assert_eq!(solutions.len(), 1);
    assert!(solutions[0].iter().all(|b| *b));
}

/// Completeness with several solutions: one mine among three closed
/// neighbours of a single revealed cell gives exactly three assignments.
#[test]
fn enumeration_lists_every_assignment() {
    let game = MineField::from([
        [CellConfig::Open, CellConfig::Mine],
        [CellConfig::Closed, CellConfig::Closed],
    ]);
    let mut shadow = ShadowMinefield::new(&game);
    let cluster = Cluster::from(&shadow, Position::from(0, 0));
    let mut cells = cluster.closed_positions;
    assert_eq!(cells.len(), 3);
    let solutions = generate_suitable_cluster_solutions(
        &mut shadow,
        &cluster.open_positions,
        &mut cells,
    );
    assert_eq!(solutions.len(), 3);
    for sol in &solutions {
        assert_eq!(sol.iter().filter(|b| **b).count(), 1);
    }
    for (i, a) in solutions.iter().enumerate() {
        for b in solutions.iter().skip(i + 1) {
            assert_ne!(a, b);
        }
    }
}

/// A real flag already accounts for one mine: the solver works with the
/// reduced counter and forces the remaining cell.
#[test]
fn flags_reduce_outstanding_mines() {
    let game = MineField::from([[CellConfig::Flagged, CellConfig::Open, CellConfig::Mine]]);
    assert_eq!(
        minesweeper::forced::find_invariant_move(&game),
        Some((Position::from(2, 0), true))
    );
}

/// Decision correctness on a concrete board: the forced flag lands on a
/// cell that really hides a mine.
#[test]
fn decision_matches_real_mines_on_121() {
    let game = MineField::from([
        [CellConfig::Open, CellConfig::Open, CellConfig::Open],
        [CellConfig::Mine, CellConfig::Closed, CellConfig::Mine],
    ]);
    let next_move = find_invariant_move(&game);
    match next_move {
        Some((pos, flag)) => {
            let really_mine = pos == Position::from(0, 1) || pos == Position::from(2, 1);
            assert_eq!(flag, really_mine);
        }
        None => panic!("a forced move exists"),
    }
}

/// Determinism: the same board state yields the same decision on every
/// call.
#[test]
fn repeated_calls_agree() {
    let game = MineField::from([
        [CellConfig::Mine, CellConfig::Closed, CellConfig::Closed],
        [CellConfig::Open, CellConfig::Open, CellConfig::Mine],
        [CellConfig::Open, CellConfig::Open, CellConfig::Closed],
    ]);
    let first = find_invariant_move(&game);
    let second = find_invariant_move(&game);
    let third = find_invariant_move(&game);
    assert_eq!(first, second);
    assert_eq!(second, third);
}

/// A board with only closed and flagged cells offers no information and
/// must yield no move.
#[test]
fn no_information_board_yields_none() {
    let game = MineField::from([
        [CellConfig::Closed, CellConfig::Flagged],
        [CellConfig::Closed, CellConfig::Closed],
    ]);
    assert_eq!(find_invariant_move(&game), None);
}

/// A fully satisfied revealed cell (count zero) is skipped and forces
/// nothing.
#[test]
fn satisfied_zero_cell_is_skipped() {
    let game = MineField::from([[CellConfig::Open, CellConfig::Closed]]);
    // (0, 0) shows zero mines: the solver must pass over it and report
    // nothing for this board
    assert_eq!(find_invariant_move(&game), None);
}

/// The single-row scenario: one mine between two revealed ones is a
/// forced flag.
#[test]
fn single_row_forced_flag() {
    let game = MineField::from([[CellConfig::Open, CellConfig::Mine, CellConfig::Open]]);
    assert_eq!(find_invariant_move(&game), Some((Position::from(1, 0), true)));
}
