//! Cell-level data: the board's own cell representation, the read-only
//! projection handed to the solver, literal board configuration, and the
//! game outcome.

use vstd::prelude::*;

verus! {

/// Visibility of a board cell.
#[derive(Clone, Copy, PartialEq, Eq, Structural, Debug)]
pub enum CellState {
    Closed,
    Open,
    Flagged,
}

/// One board cell: whether it hides a mine, and its visibility.
#[derive(Clone, Copy, PartialEq, Eq, Structural, Debug)]
pub(crate) struct Cell {
    pub(crate) has_mine: bool,
    pub(crate) state: CellState,
}

/// The read-only projection of a cell that the solver sees: closed, flagged,
/// or open with its count of neighbouring mines.
#[derive(Clone, Copy, PartialEq, Eq, Structural, Debug)]
pub enum CellData {
    Closed,
    Open(usize),
    Flagged,
}

impl CellData {
    pub open spec fn spec_mines_count(self) -> Option<usize> {
        match self {
            CellData::Open(mines) => Some(mines),
            _ => None,
        }
    }

    /// The shown mine count of an open cell.
    pub fn get_mines_count(&self) -> (r: Option<usize>)
        ensures
            r == self.spec_mines_count(),
    {
        if let CellData::Open(mines) = self {
            Some(*mines)
        } else {
            None
        }
    }
}

/// How a literal test board describes one cell.
#[derive(Clone, Copy, PartialEq, Eq, Structural, Debug)]
pub enum CellConfig {
    /// No mine, not yet opened.
    Closed,
    /// No mine, already opened.
    Open,
    /// A mine, not yet opened.
    Mine,
    /// A mine, already flagged.
    Flagged,
}

impl CellConfig {
    /// Whether the configuration entry stands for a mine.
    pub open spec fn spec_mine(self) -> bool {
        match self {
            CellConfig::Closed => false,
            CellConfig::Open => false,
            CellConfig::Mine => true,
            CellConfig::Flagged => true,
        }
    }

    /// The visibility the configuration entry stands for.
    pub open spec fn spec_state(self) -> CellState {
        match self {
            CellConfig::Closed => CellState::Closed,
            CellConfig::Open => CellState::Open,
            CellConfig::Mine => CellState::Closed,
            CellConfig::Flagged => CellState::Flagged,
        }
    }
}

/// The outcome of one played move.
#[derive(Clone, Copy, PartialEq, Eq, Structural, Debug)]
pub enum GameState {
    Ongoing,
    Won,
    Lost,
}

} // verus!
