//! The single-pass immediate deduction.
//!
//! For each revealed numbered cell: when its flagged neighbours already
//! account for every mine it shows, any remaining closed neighbour is
//! safe to open; when its closed neighbours are exactly as many as the
//! mines still unaccounted for, each of them must be a mine and can be
//! flagged.  The first cell (in row-major order) where either rule fires
//! yields the move.

use vstd::prelude::*;

use crate::cell::{CellData, CellState};
use crate::counting::count_matching;
use crate::minefield::{lemma_world_closed_count, BoardV, MineField};
use crate::position::{neighbours_list, Position};

verus! {

/// The deduction rule fires at `p`: a revealed cell whose flags do not
/// exceed its count, with at least one closed neighbour, where either
/// every shown mine is already flagged or the closed neighbours are
/// exactly the missing mines.
pub open spec fn immediate_applies(v: BoardV, p: Position) -> bool {
    &&& p.valid(v.width, v.height)
    &&& v.state_at(p) == CellState::Open
    &&& v.flagged_nb_count(p) <= v.shown_count(p)
    &&& v.closed_nb_count(p) > 0
    &&& (v.shown_count(p) == v.flagged_nb_count(p) || v.closed_nb_count(p) == v.shown_count(p)
        - v.flagged_nb_count(p))
}

/// The first move the one-rule deduction finds, scanning row-major.
///
/// Any returned move is correct in every mine placement consistent with
/// what the board shows, and a move is found whenever the rule applies
/// anywhere on the board.
pub fn find_immediate_move(game: &MineField) -> (r: Option<(Position, bool)>)
    requires
        game@.wf(),
    ensures
        r matches Some((p, b)) ==> p.valid(game@.width, game@.height) && game@.state_at(p)
            == CellState::Closed && (forall|w: Seq<bool>|
            game@.consistent_world(w) ==> w[p.idx(game@.width)] == b),
        (exists|p: Position| immediate_applies(game@, p)) ==> r is Some,
{
    let ghost v = game@;
    let height = game.height();
    let width = game.width();
    for y in 0..height
        invariant
            v == game@,
            v.wf(),
            width == v.width,
            height == v.height,
            forall|p: Position| p.y < y && #[trigger] immediate_applies(v, p) ==> false,
        decreases height - y,
    {
        for x in 0..width
            invariant
                v == game@,
                v.wf(),
                width == v.width,
                height == v.height,
                y < height,
                forall|p: Position|
                    (p.y < y || (p.y == y && p.x < x)) && #[trigger] immediate_applies(v, p)
                        ==> false,
            decreases width - x,
        {
            let pos = Position { x, y };
            match game.cell_data(pos) {
                CellData::Flagged | CellData::Closed => {},
                CellData::Open(mines_around) => {
                    let ghost f_closed = |q: Position| v.states[q.idx(v.width)]
                        == CellState::Closed;
                    let ghost f_flagged = |q: Position| v.states[q.idx(v.width)]
                        == CellState::Flagged;
                    let nbs = pos.neighbours(game);
                    proof {
                        crate::position::lemma_neighbours_props(pos, v.width, v.height);
                        crate::counting::lemma_count_bounds(nbs@, f_closed);
                        crate::counting::lemma_count_bounds(nbs@, f_flagged);
                        crate::counting::lemma_count_bounds(
                            nbs@,
                            |q: Position| v.mines[q.idx(v.width)],
                        );
                    }
                    let mut closed_count: usize = 0;
                    let mut flagged_count: usize = 0;
                    let mut last_closed: Option<Position> = None;
                    let mut i: usize = 0;
                    while i < nbs.len()
                        invariant
                            v == game@,
                            v.wf(),
                            pos.valid(v.width, v.height),
                            nbs@ == neighbours_list(pos, v.width, v.height),
                            forall|q: Position|
                                #[trigger] nbs@.contains(q) <==> (q.valid(v.width, v.height)
                                    && pos.adjacent(q)),
                            0 <= i <= nbs@.len() <= 8,
                            closed_count == count_matching(nbs@.take(i as int), f_closed),
                            flagged_count == count_matching(nbs@.take(i as int), f_flagged),
                            closed_count <= i,
                            flagged_count <= i,
                            f_closed == (|q: Position| v.states[q.idx(v.width)]
                                == CellState::Closed),
                            f_flagged == (|q: Position| v.states[q.idx(v.width)]
                                == CellState::Flagged),
                            last_closed matches Some(c) ==> c.valid(v.width, v.height)
                                && pos.adjacent(c) && v.state_at(c) == CellState::Closed,
                            (last_closed is Some) == (closed_count > 0),
                        decreases nbs@.len() - i,
                    {
                        proof {
                            assert(nbs@.contains(nbs@[i as int]));
                            crate::counting::lemma_count_take_step(nbs@, f_closed, i as int);
                            crate::counting::lemma_count_take_step(nbs@, f_flagged, i as int);
                        }
                        let q = nbs[i];
                        match game.cell_data(q) {
                            CellData::Closed => {
                                closed_count = closed_count + 1;
                                last_closed = Some(q);
                            },
                            CellData::Flagged => {
                                flagged_count = flagged_count + 1;
                            },
                            CellData::Open(_) => {},
                        }
                        i = i + 1;
                    }
                    proof {
                        crate::counting::lemma_count_take_all(nbs@, f_closed);
                        crate::counting::lemma_count_take_all(nbs@, f_flagged);
                    }
                    if flagged_count <= mines_around {
                        let mines_left = mines_around - flagged_count;
                        if mines_left == 0 || closed_count == mines_left {
                            if let Some(chosen) = last_closed {
                                proof {
                                    crate::position::lemma_idx_bijective(v.width, v.height);
                                    assert forall|w: Seq<bool>| v.consistent_world(w) implies w[
                                    chosen.idx(v.width)] == (mines_left > 0) by {
                                        lemma_world_closed_count(v, pos, w);
                                        let f_closed_w = |q: Position| v.states[q.idx(v.width)]
                                            == CellState::Closed && w[q.idx(v.width)];
                                        assert(count_matching(nbs@, f_closed_w)
                                            == mines_left as int);
                                        assert(nbs@.contains(chosen));
                                        let ci = choose|ci: int|
                                            0 <= ci < nbs@.len() && nbs@[ci] == chosen;
                                        if mines_left == 0 {
                                            crate::counting::lemma_count_zero(nbs@, f_closed_w);
                                            assert(!f_closed_w(nbs@[ci]));
                                            assert(!w[chosen.idx(v.width)]);
                                        } else {
                                            let f_closed_nw = |q: Position| v.states[q.idx(
                                                v.width,
                                            )] == CellState::Closed && !w[q.idx(v.width)];
                                            crate::counting::lemma_count_split(
                                                nbs@,
                                                f_closed,
                                                f_closed_w,
                                                f_closed_nw,
                                            );
                                            assert(count_matching(nbs@, f_closed_nw) == 0);
                                            crate::counting::lemma_count_zero(nbs@, f_closed_nw);
                                            assert(!f_closed_nw(nbs@[ci]));
                                            assert(w[chosen.idx(v.width)]);
                                        }
                                    }
                                }
                                return Some((chosen, mines_left > 0));
                            }
                        }
                    }
                    proof {
                        assert(!immediate_applies(v, pos));
                    }
                },
            }
            proof {
                assert forall|p: Position|
                    (p.y < y || (p.y == y && p.x < x + 1)) && #[trigger] immediate_applies(
                    v,
                    p,
                ) implies false by {
                    if p.y == y && p.x == x {
                        assert(p == pos);
                    }
                }
            }
        }
    }
    proof {
        if exists|p: Position| immediate_applies(v, p) {
            let p = choose|p: Position| immediate_applies(v, p);
            assert(false);
        }
    }
    None
}

} // verus!
