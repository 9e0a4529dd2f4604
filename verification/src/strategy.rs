//! A reduced strategy: the immediate rule backed by the random fallback,
//! without the exact solver in between.

use vstd::prelude::*;

use crate::cell::CellState;
use crate::minefield::MineField;
use crate::position::Position;

verus! {

/// One pass of the reduced strategy.
///
/// Any move is on a closed cell; a flagging move is correct in every mine
/// placement consistent with the board.  `None` comes exactly when no
/// closed cell is left to play.
pub fn pass(game: &MineField) -> (r: Option<(Position, bool)>)
    requires
        game@.wf(),
    ensures
        r matches Some((p, b)) ==> p.valid(game@.width, game@.height) && game@.state_at(p)
            == CellState::Closed && (b == true ==> (forall|w: Seq<bool>|
            game@.consistent_world(w) ==> w[p.idx(game@.width)] == true)),
        (r is None) == (forall|p: Position|
            p.valid(game@.width, game@.height) ==> #[trigger] game@.state_at(p)
                != CellState::Closed),
        (exists|p: Position| crate::immediate::immediate_applies(game@, p)) ==> r is Some,
{
    let immediate = crate::immediate::find_immediate_move(game);
    match immediate {
        Some(next_move) => {
            proof {
                if forall|p: Position|
                    p.valid(game@.width, game@.height) ==> #[trigger] game@.state_at(p)
                        != CellState::Closed {
                    assert(game@.state_at(next_move.0) != CellState::Closed);
                }
            }
            Some(next_move)
        },
        None => crate::random::choose_random_move(game),
    }
}

} // verus!
