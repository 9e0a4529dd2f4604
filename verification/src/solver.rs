//! The move-selection pipeline: the cheap immediate rule first, then the
//! exact constraint solver, and a uniform random open as last resort.

use vstd::prelude::*;

use crate::cell::CellState;
use crate::minefield::MineField;
use crate::position::Position;

verus! {

/// The next move of the agent: the first stage that finds one wins.
///
/// Any move is on a closed cell; a flagging move is correct in every mine
/// placement consistent with the board.  `None` comes exactly when no
/// closed cell is left to play.
pub fn find_next_move(game: &MineField) -> (r: Option<(Position, bool)>)
    requires
        game@.wf(),
        game@.flags_bounded(),
    ensures
        r matches Some((p, b)) ==> p.valid(game@.width, game@.height) && game@.state_at(p)
            == CellState::Closed && (b == true ==> (forall|w: Seq<bool>|
            game@.consistent_world(w) ==> w[p.idx(game@.width)] == true)),
        (r is None) == (forall|p: Position|
            p.valid(game@.width, game@.height) ==> #[trigger] game@.state_at(p)
                != CellState::Closed),
        (exists|p: Position| crate::immediate::immediate_applies(game@, p)) ==> r is Some,
        (exists|start: Position, p: Position, b: bool|
            start.valid(game@.width, game@.height) && game@.state_at(start) == CellState::Open
                && game@.shown_count(start) > 0 && #[trigger] crate::forced::cluster_forces(
                crate::shadow::shadow_of(game@),
                start,
                p,
                b,
            )) ==> (r matches Some((p, b)) && (forall|w: Seq<bool>|
            game@.consistent_world(w) ==> w[p.idx(game@.width)] == b)),
{
    let immediate = crate::immediate::find_immediate_move(game);
    match immediate {
        Some(next_move) => {
            proof {
                if forall|p: Position|
                    p.valid(game@.width, game@.height) ==> #[trigger] game@.state_at(p)
                        != CellState::Closed {
                    assert(game@.state_at(next_move.0) != CellState::Closed);
                }
            }
            Some(next_move)
        },
        None => {
            let forced = crate::forced::find_invariant_move(game);
            match forced {
                Some(next_move) => {
                    proof {
                        if forall|p: Position|
                            p.valid(game@.width, game@.height) ==> #[trigger] game@.state_at(p)
                                != CellState::Closed {
                            assert(game@.state_at(next_move.0) != CellState::Closed);
                        }
                    }
                    Some(next_move)
                },
                None => crate::random::choose_random_move(game),
            }
        },
    }
}

} // verus!
