//! A verified Minesweeper-playing agent.
//!
//! The crate is organised around a board simulation (`minefield`) and a
//! move-selection pipeline (`solver`): a single-rule immediate deduction
//! (`immediate`), an exact constraint-satisfaction solver over clusters of
//! closed cells (`shadow`, `cluster`, `forced`), and a uniform random
//! fallback (`random`).

pub mod cell;
pub mod cluster;
pub mod counting;
pub mod forced;
pub mod immediate;
pub mod minefield;
pub mod position;
pub mod random;
pub mod shadow;
pub mod solver;
pub mod strategy;

pub use cell::CellConfig;
pub use cell::CellData;
pub use cell::GameState;
pub use minefield::MineField;
pub use position::Position;
pub use solver::find_next_move;
