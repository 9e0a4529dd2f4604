//! The shadow board: a speculative overlay of the real board used during
//! one solving pass.
//!
//! Every open (numbered) cell carries a live `mines_left` counter: its
//! shown count minus the neighbours already spoken for by flags, real or
//! speculative.  Closed cells can be speculatively flagged or opened, and
//! both operations have exact inverses; the solver uses them in strict
//! push/pop pairs.

use vstd::prelude::*;

use crate::cell::{CellData, CellState};
use crate::cluster::ClusterCell;
use crate::counting::count_matching;
use crate::minefield::{BoardV, MineField};
use crate::position::{neighbours_list, Position};

verus! {

/// The speculative state of one cell during a solving pass.
#[derive(Clone, Copy, PartialEq, Eq, Structural, Debug)]
pub enum ShadowCell {
    /// Closed on the real board, not yet touched by this search.
    Closed,
    /// Open on the real board: `mines` is its shown count, `mines_left`
    /// what remains after subtracting flagged neighbours.
    Open { mines: usize, mines_left: usize },
    /// Speculatively assumed safe by the search.
    ShadowOpen,
    /// Flagged on the real board before the pass began.
    Flagged,
    /// Speculatively assumed to be a mine by the search.
    ShadowFlagged,
}

impl ShadowCell {
    pub open spec fn spec_mines_left(self) -> Option<usize> {
        match self {
            ShadowCell::Open { mines: _, mines_left } => Some(mines_left),
            _ => None,
        }
    }

    /// Whether this is a revealed numbered cell.
    pub fn is_open(&self) -> (r: bool)
        ensures
            r == (self is Open),
    {
        self.get_mines_left().is_some()
    }

    pub fn is_shadow_open(&self) -> (r: bool)
        ensures
            r == (self is ShadowOpen),
    {
        match self {
            ShadowCell::ShadowOpen => true,
            _ => false,
        }
    }

    /// The live outstanding-mines counter of an open cell.
    pub fn get_mines_left(&self) -> (r: Option<usize>)
        ensures
            r == self.spec_mines_left(),
    {
        match self {
            ShadowCell::Open { mines: _, mines_left } => Some(*mines_left),
            _ => None,
        }
    }

    pub fn is_closed(&self) -> (r: bool)
        ensures
            r == (self is Closed),
    {
        match self {
            ShadowCell::Closed => true,
            _ => false,
        }
    }

    /// Whether the cell counts as a confirmed mine, really or
    /// speculatively flagged.
    pub fn is_flagged(&self) -> (r: bool)
        ensures
            r == (self is Flagged || self is ShadowFlagged),
    {
        match self {
            ShadowCell::Flagged | ShadowCell::ShadowFlagged => true,
            _ => false,
        }
    }

    pub fn is_shadow_flagged(&self) -> (r: bool)
        ensures
            r == (self is ShadowFlagged),
    {
        match self {
            ShadowCell::ShadowFlagged => true,
            _ => false,
        }
    }
}

/// The model of a shadow board: dimensions and the shadow state of every
/// cell, row-major.
pub ghost struct ShadowV {
    pub width: int,
    pub height: int,
    pub cells: Seq<ShadowCell>,
}

impl ShadowV {
    pub open spec fn size(self) -> int {
        self.width * self.height
    }

    pub open spec fn wf(self) -> bool {
        &&& self.width >= 0
        &&& self.height >= 0
        &&& self.width <= usize::MAX
        &&& self.height <= usize::MAX
        &&& self.cells.len() == self.size()
        &&& self.size() <= usize::MAX
        &&& forall|j: int|
            0 <= j < self.cells.len() ==> (#[trigger] self.cells[j] matches ShadowCell::Open {
                mines,
                mines_left,
            } ==> mines_left <= mines)
    }

    /// The shadow cell at a valid position.
    pub open spec fn at(self, p: Position) -> ShadowCell {
        self.cells[p.idx(self.width)]
    }

    /// The outstanding-mines counter of an open cell (0 for any other
    /// cell).
    pub open spec fn mines_left_at(self, p: Position) -> int {
        match self.at(p) {
            ShadowCell::Open { mines: _, mines_left } => mines_left as int,
            _ => 0,
        }
    }

    /// How many neighbours of `p` are still `Closed` in the shadow.
    pub open spec fn closed_nb_count(self, p: Position) -> int {
        count_matching(
            neighbours_list(p, self.width, self.height),
            |q: Position| self.at(q) is Closed,
        )
    }

    /// The shadow a fresh pass derives from board `v`.
    pub open spec fn matches_board(self, v: BoardV) -> bool {
        &&& self.width == v.width
        &&& self.height == v.height
        &&& self.cells.len() == v.states.len()
        &&& forall|p: Position|
            p.valid(self.width, self.height) ==> #[trigger] self.at(p) == spec_shadow_init(v, p)
    }
}

/// The initial shadow state of one cell: closed and flagged cells carry
/// over; an open cell starts with its shown count, reduced by the
/// neighbours already really flagged.
pub open spec fn spec_shadow_init(v: BoardV, p: Position) -> ShadowCell {
    match v.state_at(p) {
        CellState::Closed => ShadowCell::Closed,
        CellState::Flagged => ShadowCell::Flagged,
        CellState::Open => ShadowCell::Open {
            mines: v.shown_count(p) as usize,
            mines_left: (v.shown_count(p) - v.flagged_nb_count(p)) as usize,
        },
    }
}

/// The fresh shadow of board `v` as one value: every cell initialised by
/// `spec_shadow_init`.
pub open spec fn shadow_of(v: BoardV) -> ShadowV {
    ShadowV {
        width: v.width,
        height: v.height,
        cells: Seq::new(
            (v.width * v.height) as nat,
            |j: int| spec_shadow_init(v, crate::position::pos_at(j, v.width)),
        ),
    }
}

/// A shadow that matches board `v` cell for cell is the fresh shadow of
/// `v`: `matches_board` pins the whole value.
pub proof fn lemma_matches_board_is_shadow_of(s: ShadowV, v: BoardV)
    requires
        v.wf(),
        s.matches_board(v),
    ensures
        s == shadow_of(v),
{
    let t = shadow_of(v);
    assert(s.cells.len() == v.states.len());
    assert(t.cells.len() == v.size());
    if v.width > 0 && v.height > 0 {
        crate::position::lemma_idx_bijective(v.width, v.height);
        assert forall|j: int| 0 <= j < s.cells.len() implies s.cells[j] == t.cells[j] by {
            let p = crate::position::pos_at(j, v.width);
            assert(p.valid(v.width, v.height) && p.idx(v.width) == j);
            assert(s.at(p) == spec_shadow_init(v, p));
            assert(s.cells[j] == s.at(p));
        }
        assert(s.cells =~= t.cells);
    } else {
        assert(v.size() == 0) by (nonlinear_arith)
            requires
                v.width >= 0,
                v.height >= 0,
                v.width == 0 || v.height == 0,
        ;
        assert(s.cells =~= t.cells);
    }
}

/// A speculative flag at a neighbour: an open cell has one fewer mine
/// outstanding.
pub open spec fn dec_open(c: ShadowCell) -> ShadowCell {
    match c {
        ShadowCell::Open { mines, mines_left } => ShadowCell::Open {
            mines,
            mines_left: (mines_left - 1) as usize,
        },
        _ => c,
    }
}

/// The exact inverse of `dec_open` on open cells.
pub open spec fn inc_open(c: ShadowCell) -> ShadowCell {
    match c {
        ShadowCell::Open { mines, mines_left } => ShadowCell::Open {
            mines,
            mines_left: (mines_left + 1) as usize,
        },
        _ => c,
    }
}

pub struct ShadowMinefield {
    width: usize,
    height: usize,
    field: Vec<ShadowCell>,
}

impl View for ShadowMinefield {
    type V = ShadowV;

    closed spec fn view(&self) -> ShadowV {
        ShadowV { width: self.width as int, height: self.height as int, cells: self.field@ }
    }
}

impl ShadowMinefield {
    /// A fresh shadow of the whole board: closed and flagged cells carry
    /// over, open cells get their live counter.
    pub fn new(game: &MineField) -> (r: ShadowMinefield)
        requires
            game@.wf(),
            game@.flags_bounded(),
        ensures
            r@.wf(),
            r@.matches_board(game@),
    {
        let ghost v = game@;
        let width = game.width();
        let height = game.height();
        let mut field: Vec<ShadowCell> = Vec::new();
        proof {
            assert(0 * width == 0) by (nonlinear_arith);
        }
        for y in 0..height
            invariant
                v == game@,
                v.wf(),
                v.flags_bounded(),
                width == v.width,
                height == v.height,
                field@.len() == y * width,
                forall|j: int|
                    0 <= j < field@.len() ==> #[trigger] field@[j] == spec_shadow_init(
                        v,
                        crate::position::pos_at(j, v.width),
                    ),
                forall|j: int|
                    0 <= j < field@.len() ==> (#[trigger] field@[j] matches ShadowCell::Open {
                        mines,
                        mines_left,
                    } ==> mines_left <= mines),
        {
            proof {
                assert((y + 1) * width == y * width + width) by (nonlinear_arith);
                assert(y * width + width <= height * width) by (nonlinear_arith)
                    requires
                        0 <= y < height,
                ;
                assert(height * width == width * height) by (nonlinear_arith);
            }
            for x in 0..width
                invariant
                    v == game@,
                    v.wf(),
                    v.flags_bounded(),
                    width == v.width,
                    height == v.height,
                    y < height,
                    y * width + width <= width * height,
                    field@.len() == y * width + x,
                    forall|j: int|
                        0 <= j < field@.len() ==> #[trigger] field@[j] == spec_shadow_init(
                            v,
                            crate::position::pos_at(j, v.width),
                        ),
                    forall|j: int|
                        0 <= j < field@.len() ==> (#[trigger] field@[j] matches ShadowCell::Open {
                            mines,
                            mines_left,
                        } ==> mines_left <= mines),
            {
                let pos = Position { x, y };
                let cell = match game.cell_data(pos) {
                    CellData::Closed => ShadowCell::Closed,
                    CellData::Flagged => ShadowCell::Flagged,
                    CellData::Open(mines) => {
                        let flagged = count_flagged_neighbours(game, pos);
                        proof {
                            crate::position::lemma_neighbours_props(pos, v.width, v.height);
                            crate::counting::lemma_count_bounds(
                                neighbours_list(pos, v.width, v.height),
                                |q: Position| v.states[q.idx(v.width)] == CellState::Flagged,
                            );
                            crate::counting::lemma_count_bounds(
                                neighbours_list(pos, v.width, v.height),
                                |q: Position| v.mines[q.idx(v.width)],
                            );
                        }
                        ShadowCell::Open { mines, mines_left: mines - flagged }
                    },
                };
                field.push(cell);
                proof {
                    crate::position::lemma_idx_bijective(v.width, v.height);
                    assert(pos.idx(v.width) == y * width + x);
                    assert(field@[y * width + x] == spec_shadow_init(v, pos));
                }
            }
        }
        let r = ShadowMinefield { width, height, field };
        proof {
            assert(height * width == width * height) by (nonlinear_arith);
            assert forall|p: Position| p.valid(r@.width, r@.height) implies #[trigger] r@.at(p)
                == spec_shadow_init(v, p) by {
                crate::position::lemma_idx_bijective(v.width, v.height);
                assert(r@.cells[p.idx(v.width)] == spec_shadow_init(
                    v,
                    crate::position::pos_at(p.idx(v.width), v.width),
                ));
            }
        }
        r
    }

    pub fn width(&self) -> (r: usize)
        ensures
            r == self@.width,
    {
        self.width
    }

    pub fn height(&self) -> (r: usize)
        ensures
            r == self@.height,
    {
        self.height
    }

    pub fn get_cell(&self, pos: &Position) -> (r: &ShadowCell)
        requires
            self@.wf(),
            pos.valid(self@.width, self@.height),
        ensures
            *r == self@.at(*pos),
    {
        proof {
            crate::position::lemma_idx_bijective(self@.width, self@.height);
        }
        let i = pos.to_index(self.width);
        &self.field[i]
    }

    /// The neighbours of `pos` that are still `Closed` in the shadow,
    /// exactly and each once.
    pub fn get_closed_positions(&self, pos: &Position) -> (r: Vec<Position>)
        requires
            self@.wf(),
            pos.valid(self@.width, self@.height),
        ensures
            r@.no_duplicates(),
            forall|q: Position|
                #[trigger] r@.contains(q) <==> (q.valid(self@.width, self@.height) && pos.adjacent(
                    q,
                ) && self@.at(q) is Closed),
            r@.len() == self@.closed_nb_count(*pos),
    {
        let ghost s = self@;
        let ghost f = |q: Position| s.at(q) is Closed;
        let nbs = crate::position::neighbours_of(*pos, self.width, self.height);
        proof {
            crate::position::lemma_neighbours_props(*pos, s.width, s.height);
        }
        let mut r: Vec<Position> = Vec::new();
        let mut i: usize = 0;
        while i < nbs.len()
            invariant
                self@ == s,
                s.wf(),
                pos.valid(s.width, s.height),
                nbs@ == neighbours_list(*pos, s.width, s.height),
                nbs@.no_duplicates(),
                forall|q: Position|
                    #[trigger] nbs@.contains(q) <==> (q.valid(s.width, s.height) && pos.adjacent(
                        q,
                    )),
                0 <= i <= nbs@.len(),
                r@.no_duplicates(),
                forall|q: Position|
                    #[trigger] r@.contains(q) <==> (nbs@.take(i as int).contains(q) && s.at(
                        q,
                    ) is Closed),
                r@.len() == count_matching(nbs@.take(i as int), f),
                f == (|q: Position| s.at(q) is Closed),
            decreases nbs@.len() - i,
        {
            proof {
                crate::counting::lemma_count_take_step(nbs@, f, i as int);
                crate::counting::lemma_take_step_contains(nbs@, i as int);
                crate::counting::lemma_take_not_contains_current(nbs@, i as int);
                assert(nbs@.contains(nbs@[i as int]));
            }
            let q = nbs[i];
            let is_closed = self.get_cell(&q).is_closed();
            if is_closed {
                proof {
                    if r@.contains(q) {
                        assert(nbs@.take(i as int).contains(q));
                        assert(false);
                    }
                    crate::counting::lemma_push_no_dup(r@, q);
                    crate::counting::lemma_push_contains(r@, q);
                }
                r.push(q);
            }
            i = i + 1;
        }
        proof {
            crate::counting::lemma_count_take_all(nbs@, f);
            assert(nbs@.take(nbs@.len() as int) =~= nbs@);
        }
        r
    }

    /// Speculatively flag `cell` as a mine.  Refused (returning `false`,
    /// changing nothing) exactly when some open neighbour already has no
    /// mine outstanding; otherwise every open neighbour's counter drops by
    /// one and the cell becomes `ShadowFlagged`.
    pub fn flag(&mut self, cell: &ClusterCell) -> (r: bool)
        requires
            old(self)@.wf(),
            cell.wf(old(self)@),
            old(self)@.at(cell.pos) is Closed,
        ensures
            final(self)@.wf(),
            final(self)@.width == old(self)@.width,
            final(self)@.height == old(self)@.height,
            r == (forall|q: Position|
                #[trigger] cell.open_neighbours@.contains(q) ==> old(self)@.mines_left_at(q) >= 1),
            !r ==> final(self)@ == old(self)@,
            r ==> final(self)@.at(cell.pos) == ShadowCell::ShadowFlagged,
            r ==> forall|q: Position|
                q.valid(old(self)@.width, old(self)@.height) && q != cell.pos
                    ==> #[trigger] final(self)@.at(q) == (if cell.open_neighbours@.contains(q) {
                    dec_open(old(self)@.at(q))
                } else {
                    old(self)@.at(q)
                }),
    {
        let ghost s0 = self@;
        let n = cell.open_neighbours.len();
        let mut i: usize = 0;
        while i < n
            invariant
                self@ == s0,
                s0.wf(),
                cell.wf(s0),
                n == cell.open_neighbours@.len(),
                0 <= i <= n,
                forall|j: int|
                    0 <= j < i ==> s0.mines_left_at(#[trigger] cell.open_neighbours@[j]) >= 1,
            decreases n - i,
        {
            proof {
                assert(cell.open_neighbours@.contains(cell.open_neighbours@[i as int]));
            }
            let q = cell.open_neighbours[i];
            if let ShadowCell::Open { mines: _, mines_left } = *self.get_cell(&q) {
                if mines_left == 0 {
                    proof {
                        assert(s0.mines_left_at(cell.open_neighbours@[i as int]) == 0);
                    }
                    return false;
                }
            }
            i = i + 1;
        }
        proof {
            assert forall|q: Position| #[trigger] cell.open_neighbours@.contains(q) implies s0
                .mines_left_at(q) >= 1 by {
                let j = choose|j: int|
                    0 <= j < cell.open_neighbours@.len() && #[trigger] cell.open_neighbours@[j]
                        == q;
            }
        }
        let mut i: usize = 0;
        while i < n
            invariant
                s0.wf(),
                cell.wf(s0),
                self@.width == s0.width,
                self@.height == s0.height,
                self@.cells.len() == s0.cells.len(),
                n == cell.open_neighbours@.len(),
                0 <= i <= n,
                forall|q: Position|
                    #[trigger] cell.open_neighbours@.contains(q) ==> s0.mines_left_at(q) >= 1,
                forall|q: Position|
                    q.valid(s0.width, s0.height) ==> #[trigger] self@.at(q) == (if cell
                        .open_neighbours@.take(i as int).contains(q) {
                        dec_open(s0.at(q))
                    } else {
                        s0.at(q)
                    }),
            decreases n - i,
        {
            let ghost qs = cell.open_neighbours@[i as int];
            proof {
                crate::position::lemma_idx_bijective(s0.width, s0.height);
                crate::counting::lemma_take_step_contains(cell.open_neighbours@, i as int);
                crate::counting::lemma_take_not_contains_current(cell.open_neighbours@, i as int);
                assert(cell.open_neighbours@.contains(qs));
                assert(self@.at(qs) == s0.at(qs));
                assert(s0.mines_left_at(qs) >= 1);
            }
            let q = cell.open_neighbours[i];
            let qi = q.to_index(self.width);
            let current = self.field[qi];
            proof {
                assert(current == self@.at(qs));
            }
            let ghost before = self@;
            if let ShadowCell::Open { mines, mines_left } = current {
                self.field[qi] = ShadowCell::Open { mines, mines_left: mines_left - 1 };
            }
            proof {
                assert forall|p: Position| p.valid(s0.width, s0.height) implies #[trigger] self@.at(
                    p,
                ) == (if cell.open_neighbours@.take(i as int + 1).contains(p) {
                    dec_open(s0.at(p))
                } else {
                    s0.at(p)
                }) by {
                    if p == qs {
                        assert(self@.at(p) == dec_open(s0.at(p)));
                    } else {
                        assert(p.idx(s0.width) != qs.idx(s0.width));
                        assert(self@.at(p) == before.at(p));
                    }
                }
            }
            i = i + 1;
        }
        proof {
            assert(cell.open_neighbours@.take(n as int) =~= cell.open_neighbours@);
        }
        let ghost before = self@;
        proof {
            crate::position::lemma_idx_bijective(s0.width, s0.height);
        }
        let ci = cell.pos.to_index(self.width);
        self.field[ci] = ShadowCell::ShadowFlagged;
        proof {
            assert forall|q: Position|
                q.valid(s0.width, s0.height) && q != cell.pos implies #[trigger] self@.at(q) == (
            if cell.open_neighbours@.contains(q) {
                dec_open(s0.at(q))
            } else {
                s0.at(q)
            }) by {
                assert(q.idx(s0.width) != cell.pos.idx(s0.width));
                assert(self@.at(q) == before.at(q));
            }
            assert(self@.wf()) by {
                assert forall|j: int|
                    0 <= j < self@.cells.len() implies (#[trigger] self@.cells[j]
                    matches ShadowCell::Open { mines, mines_left } ==> mines_left <= mines) by {
                    crate::position::lemma_idx_bijective(s0.width, s0.height);
                    assert(self@.cells.len() == s0.size());
                    let p = crate::position::pos_at(j, s0.width);
                    assert(p.valid(s0.width, s0.height) && p.idx(s0.width) == j);
                    assert(self@.cells[j] == self@.at(p));
                    assert(s0.cells[j] == s0.at(p));
                }
            }
        }
        true
    }

    /// The exact inverse of a successful `flag`: restore the cell to
    /// `Closed` and give every open neighbour its mine back.
    pub fn unflag(&mut self, cell: &ClusterCell)
        requires
            old(self)@.wf(),
            cell.wf(old(self)@),
            old(self)@.at(cell.pos) is ShadowFlagged,
            forall|q: Position|
                #[trigger] cell.open_neighbours@.contains(q) ==> (old(self)@.at(q)
                    matches ShadowCell::Open { mines, mines_left } && mines_left < mines),
        ensures
            final(self)@.wf(),
            final(self)@.width == old(self)@.width,
            final(self)@.height == old(self)@.height,
            final(self)@.at(cell.pos) == ShadowCell::Closed,
            forall|q: Position|
                q.valid(old(self)@.width, old(self)@.height) && q != cell.pos
                    ==> #[trigger] final(self)@.at(q) == (if cell.open_neighbours@.contains(q) {
                    inc_open(old(self)@.at(q))
                } else {
                    old(self)@.at(q)
                }),
    {
        let ghost s0 = self@;
        let n = cell.open_neighbours.len();
        let mut i: usize = 0;
        while i < n
            invariant
                s0.wf(),
                cell.wf(s0),
                self@.width == s0.width,
                self@.height == s0.height,
                self@.cells.len() == s0.cells.len(),
                n == cell.open_neighbours@.len(),
                0 <= i <= n,
                forall|q: Position|
                    #[trigger] cell.open_neighbours@.contains(q) ==> (s0.at(q)
                        matches ShadowCell::Open { mines, mines_left } && mines_left < mines),
                forall|q: Position|
                    q.valid(s0.width, s0.height) ==> #[trigger] self@.at(q) == (if cell
                        .open_neighbours@.take(i as int).contains(q) {
                        inc_open(s0.at(q))
                    } else {
                        s0.at(q)
                    }),
            decreases n - i,
        {
            let ghost qs = cell.open_neighbours@[i as int];
            proof {
                crate::position::lemma_idx_bijective(s0.width, s0.height);
                crate::counting::lemma_take_step_contains(cell.open_neighbours@, i as int);
                crate::counting::lemma_take_not_contains_current(cell.open_neighbours@, i as int);
                assert(cell.open_neighbours@.contains(qs));
                assert(self@.at(qs) == s0.at(qs));
            }
            let q = cell.open_neighbours[i];
            let qi = q.to_index(self.width);
            let current = self.field[qi];
            proof {
                assert(current == self@.at(qs));
            }
            let ghost before = self@;
            if let ShadowCell::Open { mines, mines_left } = current {
                self.field[qi] = ShadowCell::Open { mines, mines_left: mines_left + 1 };
            }
            proof {
                assert forall|p: Position| p.valid(s0.width, s0.height) implies #[trigger] self@.at(
                    p,
                ) == (if cell.open_neighbours@.take(i as int + 1).contains(p) {
                    inc_open(s0.at(p))
                } else {
                    s0.at(p)
                }) by {
                    if p == qs {
                        assert(self@.at(p) == inc_open(s0.at(p)));
                    } else {
                        assert(p.idx(s0.width) != qs.idx(s0.width));
                        assert(self@.at(p) == before.at(p));
                    }
                }
            }
            i = i + 1;
        }
        proof {
            assert(cell.open_neighbours@.take(n as int) =~= cell.open_neighbours@);
        }
        let ghost before = self@;
        proof {
            crate::position::lemma_idx_bijective(s0.width, s0.height);
        }
        let ci = cell.pos.to_index(self.width);
        self.field[ci] = ShadowCell::Closed;
        proof {
            assert forall|q: Position|
                q.valid(s0.width, s0.height) && q != cell.pos implies #[trigger] self@.at(q) == (
            if cell.open_neighbours@.contains(q) {
                inc_open(s0.at(q))
            } else {
                s0.at(q)
            }) by {
                assert(q.idx(s0.width) != cell.pos.idx(s0.width));
                assert(self@.at(q) == before.at(q));
            }
            assert(self@.wf()) by {
                assert forall|j: int|
                    0 <= j < self@.cells.len() implies (#[trigger] self@.cells[j]
                    matches ShadowCell::Open { mines, mines_left } ==> mines_left <= mines) by {
                    crate::position::lemma_idx_bijective(s0.width, s0.height);
                    assert(self@.cells.len() == s0.size());
                    let p = crate::position::pos_at(j, s0.width);
                    assert(p.valid(s0.width, s0.height) && p.idx(s0.width) == j);
                    assert(self@.cells[j] == self@.at(p));
                    assert(s0.cells[j] == s0.at(p));
                }
            }
        }
    }

    /// Speculatively open `cell` as safe.  Refused (returning `false`,
    /// changing nothing) exactly when some open neighbour still needs more
    /// mines than its other closed neighbours could hold; otherwise the
    /// cell becomes `ShadowOpen` and no counter changes.
    pub fn open(&mut self, cell: &ClusterCell) -> (r: bool)
        requires
            old(self)@.wf(),
            cell.wf(old(self)@),
            old(self)@.at(cell.pos) is Closed,
        ensures
            final(self)@.wf(),
            final(self)@.width == old(self)@.width,
            final(self)@.height == old(self)@.height,
            r == !(exists|q: Position|
                #[trigger] cell.open_neighbours@.contains(q) && old(self)@.mines_left_at(q) > 0
                    && old(self)@.closed_nb_count(q) <= old(self)@.mines_left_at(q)),
            !r ==> final(self)@ == old(self)@,
            r ==> final(self)@.at(cell.pos) == ShadowCell::ShadowOpen,
            r ==> forall|q: Position|
                q.valid(old(self)@.width, old(self)@.height) && q != cell.pos
                    ==> #[trigger] final(self)@.at(q) == old(self)@.at(q),
    {
        let ghost s0 = self@;
        let n = cell.open_neighbours.len();
        let mut i: usize = 0;
        while i < n
            invariant
                self@ == s0,
                s0.wf(),
                cell.wf(s0),
                n == cell.open_neighbours@.len(),
                0 <= i <= n,
                forall|j: int|
                    0 <= j < i ==> !(s0.mines_left_at(#[trigger] cell.open_neighbours@[j]) > 0 && s0
                        .closed_nb_count(cell.open_neighbours@[j]) <= s0.mines_left_at(
                        cell.open_neighbours@[j],
                    )),
            decreases n - i,
        {
            proof {
                assert(cell.open_neighbours@.contains(cell.open_neighbours@[i as int]));
            }
            let q = cell.open_neighbours[i];
            if let ShadowCell::Open { mines: _, mines_left } = *self.get_cell(&q) {
                if mines_left > 0 {
                    let closed = self.get_closed_positions(&q);
                    if closed.len() <= mines_left {
                        proof {
                            let qs = cell.open_neighbours@[i as int];
                            assert(cell.open_neighbours@.contains(qs) && s0.mines_left_at(qs) > 0
                                && s0.closed_nb_count(qs) <= s0.mines_left_at(qs));
                        }
                        return false;
                    }
                }
            }
            i = i + 1;
        }
        proof {
            assert forall|q: Position|
                #[trigger] cell.open_neighbours@.contains(q) implies !(s0.mines_left_at(q) > 0
                && s0.closed_nb_count(q) <= s0.mines_left_at(q)) by {
                let j = choose|j: int|
                    0 <= j < cell.open_neighbours@.len() && #[trigger] cell.open_neighbours@[j]
                        == q;
            }
        }
        let ghost before = self@;
        proof {
            crate::position::lemma_idx_bijective(s0.width, s0.height);
        }
        let ci = cell.pos.to_index(self.width);
        self.field[ci] = ShadowCell::ShadowOpen;
        proof {
            assert forall|q: Position|
                q.valid(s0.width, s0.height) && q != cell.pos implies #[trigger] self@.at(q) == s0
                .at(q) by {
                assert(q.idx(s0.width) != cell.pos.idx(s0.width));
                assert(self@.at(q) == before.at(q));
            }
            assert(self@.wf()) by {
                assert forall|j: int|
                    0 <= j < self@.cells.len() implies (#[trigger] self@.cells[j]
                    matches ShadowCell::Open { mines, mines_left } ==> mines_left <= mines) by {
                    crate::position::lemma_idx_bijective(s0.width, s0.height);
                    assert(self@.cells.len() == s0.size());
                    let p = crate::position::pos_at(j, s0.width);
                    assert(p.valid(s0.width, s0.height) && p.idx(s0.width) == j);
                    assert(self@.cells[j] == self@.at(p));
                    assert(s0.cells[j] == s0.at(p));
                }
            }
        }
        true
    }

    /// The exact inverse of a successful `open`: restore the cell to
    /// `Closed`.
    pub fn unopen(&mut self, cell: &ClusterCell)
        requires
            old(self)@.wf(),
            cell.wf(old(self)@),
            old(self)@.at(cell.pos) is ShadowOpen,
        ensures
            final(self)@.wf(),
            final(self)@.width == old(self)@.width,
            final(self)@.height == old(self)@.height,
            final(self)@.at(cell.pos) == ShadowCell::Closed,
            forall|q: Position|
                q.valid(old(self)@.width, old(self)@.height) && q != cell.pos
                    ==> #[trigger] final(self)@.at(q) == old(self)@.at(q),
    {
        let ghost s0 = self@;
        proof {
            crate::position::lemma_idx_bijective(s0.width, s0.height);
        }
        let ci = cell.pos.to_index(self.width);
        self.field[ci] = ShadowCell::Closed;
        proof {
            assert forall|q: Position|
                q.valid(s0.width, s0.height) && q != cell.pos implies #[trigger] self@.at(q) == s0
                .at(q) by {
                assert(q.idx(s0.width) != cell.pos.idx(s0.width));
            }
            assert(self@.wf()) by {
                assert forall|j: int|
                    0 <= j < self@.cells.len() implies (#[trigger] self@.cells[j]
                    matches ShadowCell::Open { mines, mines_left } ==> mines_left <= mines) by {
                    crate::position::lemma_idx_bijective(s0.width, s0.height);
                    assert(self@.cells.len() == s0.size());
                    let p = crate::position::pos_at(j, s0.width);
                    assert(p.valid(s0.width, s0.height) && p.idx(s0.width) == j);
                    assert(self@.cells[j] == self@.at(p));
                    assert(s0.cells[j] == s0.at(p));
                }
            }
        }
    }
}

/// How many neighbours of `pos` the board shows as flagged.
fn count_flagged_neighbours(game: &MineField, pos: Position) -> (r: usize)
    requires
        game@.wf(),
        pos.valid(game@.width, game@.height),
    ensures
        r == game@.flagged_nb_count(pos),
{
    let ghost v = game@;
    let ghost f = |q: Position| v.states[q.idx(v.width)] == CellState::Flagged;
    let nbs = pos.neighbours(game);
    proof {
        crate::position::lemma_neighbours_props(pos, v.width, v.height);
        crate::counting::lemma_count_bounds(nbs@, f);
    }
    let mut count: usize = 0;
    let mut i: usize = 0;
    while i < nbs.len()
        invariant
            v == game@,
            v.wf(),
            pos.valid(v.width, v.height),
            nbs@ == neighbours_list(pos, v.width, v.height),
            forall|q: Position| nbs@.contains(q) ==> q.valid(v.width, v.height),
            0 <= i <= nbs@.len() <= 8,
            count == count_matching(nbs@.take(i as int), f),
            count <= i,
            f == (|q: Position| v.states[q.idx(v.width)] == CellState::Flagged),
        decreases nbs@.len() - i,
    {
        proof {
            assert(nbs@.contains(nbs@[i as int]));
            crate::counting::lemma_count_take_step(nbs@, f, i as int);
        }
        let q = nbs[i];
        match game.cell_data(q) {
            CellData::Flagged => {
                count = count + 1;
            },
            _ => {},
        }
        i = i + 1;
    }
    proof {
        crate::counting::lemma_count_take_all(nbs@, f);
    }
    count
}

} // verus!
