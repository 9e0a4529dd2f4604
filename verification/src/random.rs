//! The random fallback: open a uniformly chosen closed cell.

use vstd::prelude::*;

use crate::cell::{CellData, CellState};
use crate::minefield::MineField;
use crate::position::Position;

verus! {

/// Relies on `rand::random_range` over `0..n`: returns a value uniformly
/// sampled from that range; the range is nonempty, so the call does not
/// panic.  Nothing more is assumed of the value than its bound.
#[verifier::external_body]
pub(crate) fn random_below(n: usize) -> (r: usize)
    requires
        n > 0,
    ensures
        r < n,
{
    rand::random_range(0..n)
}

/// Open a closed cell chosen uniformly at random; `None` exactly when the
/// board has no closed cell left.
pub fn choose_random_move(game: &MineField) -> (r: Option<(Position, bool)>)
    requires
        game@.wf(),
    ensures
        r matches Some((p, b)) ==> p.valid(game@.width, game@.height) && game@.state_at(p)
            == CellState::Closed && b == false,
        (r is None) == (forall|p: Position|
            p.valid(game@.width, game@.height) ==> #[trigger] game@.state_at(p)
                != CellState::Closed),
{
    let ghost v = game@;
    let height = game.height();
    let width = game.width();
    let mut closed_positions: Vec<Position> = Vec::new();
    for y in 0..height
        invariant
            v == game@,
            v.wf(),
            width == v.width,
            height == v.height,
            forall|k: int|
                0 <= k < closed_positions@.len() ==> (#[trigger] closed_positions@[k]).valid(
                    v.width,
                    v.height,
                ) && v.state_at(closed_positions@[k]) == CellState::Closed,
            forall|p: Position|
                p.valid(v.width, v.height) && p.y < y && #[trigger] v.state_at(p)
                    == CellState::Closed ==> closed_positions@.contains(p),
        decreases height - y,
    {
        for x in 0..width
            invariant
                v == game@,
                v.wf(),
                width == v.width,
                height == v.height,
                y < height,
                forall|k: int|
                    0 <= k < closed_positions@.len() ==> (#[trigger] closed_positions@[k]).valid(
                        v.width,
                        v.height,
                    ) && v.state_at(closed_positions@[k]) == CellState::Closed,
                forall|p: Position|
                    p.valid(v.width, v.height) && (p.y < y || (p.y == y && p.x < x))
                        && #[trigger] v.state_at(p) == CellState::Closed ==> closed_positions@
                        .contains(p),
            decreases width - x,
        {
            let pos = Position { x, y };
            match game.cell_data(pos) {
                CellData::Closed => {
                    proof {
                        crate::counting::lemma_push_contains(closed_positions@, pos);
                    }
                    closed_positions.push(pos);
                },
                _ => {},
            }
            proof {
                assert forall|p: Position|
                    p.valid(v.width, v.height) && (p.y < y || (p.y == y && p.x < x + 1))
                        && #[trigger] v.state_at(p) == CellState::Closed implies closed_positions@
                    .contains(p) by {
                    if p.y == y && p.x == x {
                        assert(p == pos);
                    }
                }
            }
        }
    }
    if closed_positions.len() == 0 {
        proof {
            assert forall|p: Position|
                p.valid(v.width, v.height) implies #[trigger] v.state_at(p)
                != CellState::Closed by {
                if v.state_at(p) == CellState::Closed {
                    assert(closed_positions@.contains(p));
                }
            }
        }
        return None;
    }
    let i = random_below(closed_positions.len());
    let pos = closed_positions[i];
    proof {
        assert(v.state_at(pos) == CellState::Closed);
    }
    Some((pos, false))
}

} // verus!
