//! The board simulation: a grid of cells, each hiding a mine or not and
//! each closed, open, or flagged.  The solver reads the board through
//! `cell_data`; moves are applied through `play`, which opens cells
//! (cascading through zero-count regions) or toggles flags.

use vstd::prelude::*;

use crate::cell::{Cell, CellConfig, CellData, CellState, GameState};
use crate::counting::count_matching;
use crate::position::{neighbours_list, Position};

verus! {

/// The mathematical model of a board: dimensions, the mine of every cell,
/// and the visibility of every cell, row-major.
pub ghost struct BoardV {
    pub started: bool,
    pub width: int,
    pub height: int,
    pub mines: Seq<bool>,
    pub states: Seq<CellState>,
}

impl BoardV {
    pub open spec fn size(self) -> int {
        self.width * self.height
    }

    pub open spec fn wf(self) -> bool {
        &&& self.width >= 0
        &&& self.height >= 0
        &&& self.width <= usize::MAX
        &&& self.height <= usize::MAX
        &&& self.mines.len() == self.size()
        &&& self.states.len() == self.size()
        &&& self.size() <= usize::MAX
    }

    pub open spec fn state_at(self, p: Position) -> CellState {
        self.states[p.idx(self.width)]
    }

    pub open spec fn mine_at(self, p: Position) -> bool {
        self.mines[p.idx(self.width)]
    }

    /// How many cells of the board hide a mine.
    pub open spec fn mine_total(self) -> int {
        count_matching(self.mines, |b: bool| b)
    }

    /// The number an open cell shows: how many of its neighbours hide a
    /// mine.
    pub open spec fn shown_count(self, p: Position) -> int {
        count_matching(
            neighbours_list(p, self.width, self.height),
            |q: Position| self.mines[q.idx(self.width)],
        )
    }

    /// How many neighbours of `p` are flagged.
    pub open spec fn flagged_nb_count(self, p: Position) -> int {
        count_matching(
            neighbours_list(p, self.width, self.height),
            |q: Position| self.states[q.idx(self.width)] == CellState::Flagged,
        )
    }

    /// How many neighbours of `p` are closed.
    pub open spec fn closed_nb_count(self, p: Position) -> int {
        count_matching(
            neighbours_list(p, self.width, self.height),
            |q: Position| self.states[q.idx(self.width)] == CellState::Closed,
        )
    }

    /// No open cell has more flagged neighbours than its shown count.  The
    /// solver's bookkeeping of outstanding mines starts from this surplus,
    /// so it requires it.
    pub open spec fn flags_bounded(self) -> bool {
        forall|p: Position|
            p.valid(self.width, self.height) && self.state_at(p) == CellState::Open
                ==> self.flagged_nb_count(p) <= self.shown_count(p)
    }

    /// The board's own visibility tells the truth: open cells hide no mine
    /// and flagged cells hide one.
    pub open spec fn self_consistent(self) -> bool {
        forall|j: int|
            0 <= j < self.size() ==> ((#[trigger] self.states[j] == CellState::Open
                ==> !self.mines[j]) && (self.states[j] == CellState::Flagged ==> self.mines[j]))
    }

    /// How many neighbours of `p` the mine assignment `w` marks as mines.
    pub open spec fn world_count(self, w: Seq<bool>, p: Position) -> int {
        count_matching(
            neighbours_list(p, self.width, self.height),
            |q: Position| w[q.idx(self.width)],
        )
    }

    /// A mine assignment that agrees with everything the board has
    /// revealed: open cells are not mines, flagged cells are, and every open
    /// cell's shown count matches the assignment.  The solver's guarantees
    /// are stated over all such assignments.
    pub open spec fn consistent_world(self, w: Seq<bool>) -> bool {
        &&& w.len() == self.size()
        &&& forall|j: int|
            0 <= j < self.size() ==> (#[trigger] self.states[j] == CellState::Open ==> !w[j])
        &&& forall|j: int|
            0 <= j < self.size() ==> (#[trigger] self.states[j] == CellState::Flagged ==> w[j])
        &&& forall|p: Position|
            p.valid(self.width, self.height) && self.state_at(p) == CellState::Open
                ==> self.world_count(w, p) == self.shown_count(p)
    }
}

/// The real mine placement of a self-consistent board is itself a
/// consistent world: whatever holds of every consistent world holds of the
/// board.
pub proof fn lemma_real_board_is_consistent_world(v: BoardV)
    requires
        v.wf(),
        v.self_consistent(),
    ensures
        v.consistent_world(v.mines),
{
}

/// If every consistent world of a self-consistent board marks `p` the same
/// way, the board's real mine placement marks it that way: a forced move
/// reported against all consistent worlds is correct on the real board.
pub proof fn lemma_forced_move_is_real(v: BoardV, p: Position, flag: bool)
    requires
        v.wf(),
        v.self_consistent(),
        p.valid(v.width, v.height),
        forall|w: Seq<bool>| v.consistent_world(w) ==> w[p.idx(v.width)] == flag,
    ensures
        v.mine_at(p) == flag,
{
    lemma_real_board_is_consistent_world(v);
    crate::position::lemma_idx_bijective(v.width, v.height);
}

/// In any consistent world, the mines among the closed neighbours of an
/// open cell number exactly its shown count minus its flagged neighbours:
/// flags already account for one mine each, and open neighbours hold none.
pub proof fn lemma_world_closed_count(v: BoardV, p: Position, w: Seq<bool>)
    requires
        v.wf(),
        p.valid(v.width, v.height),
        v.state_at(p) == CellState::Open,
        v.consistent_world(w),
    ensures
        count_matching(
            neighbours_list(p, v.width, v.height),
            |q: Position| v.states[q.idx(v.width)] == CellState::Closed && w[q.idx(v.width)],
        ) == v.shown_count(p) - v.flagged_nb_count(p),
{
    crate::position::lemma_idx_bijective(v.width, v.height);
    let nbs = neighbours_list(p, v.width, v.height);
    crate::position::lemma_neighbours_props(p, v.width, v.height);
    let f_w = |q: Position| w[q.idx(v.width)];
    let f_w_open = |q: Position| v.states[q.idx(v.width)] == CellState::Open && w[q.idx(v.width)];
    let f_w_nonopen = |q: Position| v.states[q.idx(v.width)] != CellState::Open && w[q.idx(
        v.width,
    )];
    let f_w_flagged = |q: Position| v.states[q.idx(v.width)] == CellState::Flagged && w[q.idx(
        v.width,
    )];
    let f_w_closed = |q: Position| v.states[q.idx(v.width)] == CellState::Closed && w[q.idx(
        v.width,
    )];
    assert forall|i: int| 0 <= i < nbs.len() implies (f_w(nbs[i]) <==> (f_w_open(nbs[i])
        || f_w_nonopen(nbs[i]))) by {
        assert(nbs.contains(nbs[i]));
    }
    crate::counting::lemma_count_split(nbs, f_w, f_w_open, f_w_nonopen);
    crate::counting::lemma_count_split(nbs, f_w_nonopen, f_w_flagged, f_w_closed);
    assert(count_matching(nbs, f_w_open) == 0) by {
        crate::counting::lemma_count_zero(nbs, f_w_open);
        assert forall|i: int| 0 <= i < nbs.len() implies !f_w_open(nbs[i]) by {
            assert(nbs.contains(nbs[i]));
        }
    }
    assert(count_matching(nbs, f_w_flagged) == v.flagged_nb_count(p)) by {
        assert forall|i: int| 0 <= i < nbs.len() implies (f_w_flagged(nbs[i]) <==> v.states[
        nbs[i].idx(v.width)] == CellState::Flagged) by {
            assert(nbs.contains(nbs[i]));
        }
        crate::counting::lemma_count_pointwise(
            nbs,
            f_w_flagged,
            |q: Position| v.states[q.idx(v.width)] == CellState::Flagged,
        );
    }
    assert(v.world_count(w, p) == v.shown_count(p));
}

/// Boards with the same mines and dimensions show the same counts.
pub proof fn lemma_shown_count_same(v1: BoardV, v2: BoardV, p: Position)
    requires
        v1.width == v2.width,
        v1.height == v2.height,
        v1.mines == v2.mines,
    ensures
        v1.shown_count(p) == v2.shown_count(p),
{
    crate::counting::lemma_count_pointwise(
        neighbours_list(p, v1.width, v1.height),
        |q: Position| v1.mines[q.idx(v1.width)],
        |q: Position| v2.mines[q.idx(v2.width)],
    );
}

/// A cascade path: consecutive in-bounds neighbours, where every step
/// leaves a cell showing zero mines.
pub open spec fn cascade_path(v: BoardV, path: Seq<Position>) -> bool {
    &&& path.len() >= 1
    &&& forall|i: int| 0 <= i < path.len() ==> (#[trigger] path[i]).valid(v.width, v.height)
    &&& forall|i: int| 0 <= i < path.len() - 1 ==> (#[trigger] path[i]).adjacent(path[i + 1])
    &&& forall|i: int| 0 <= i < path.len() - 1 ==> v.shown_count(#[trigger] path[i]) == 0
}

/// `q` lies in the cascade region of `src`: some cascade path leads from
/// `src` to it.
pub open spec fn cascade_reaches(v: BoardV, src: Position, q: Position) -> bool {
    exists|path: Seq<Position>|
        cascade_path(v, path) && path.first() == src && path.last() == q
}

pub proof fn lemma_cascade_start(v: BoardV, src: Position)
    requires
        src.valid(v.width, v.height),
    ensures
        cascade_reaches(v, src, src),
{
    let path = seq![src];
    assert(cascade_path(v, path));
    assert(path.first() == src && path.last() == src);
}

pub proof fn lemma_cascade_extend(v: BoardV, src: Position, p: Position, q: Position)
    requires
        cascade_reaches(v, src, p),
        v.shown_count(p) == 0,
        p.adjacent(q),
        q.valid(v.width, v.height),
    ensures
        cascade_reaches(v, src, q),
{
    let path = choose|path: Seq<Position>|
        cascade_path(v, path) && path.first() == src && path.last() == p;
    let longer = path.push(q);
    assert(cascade_path(v, longer)) by {
        assert(forall|i: int| 0 <= i < path.len() ==> longer[i] == path[i]);
        assert(longer[longer.len() - 1] == q);
        assert(longer[longer.len() - 2] == path.last());
    }
    assert(longer.first() == src && longer.last() == q);
}

/// Boards with the same mines and dimensions have the same cascade
/// regions.
pub proof fn lemma_cascade_same(v1: BoardV, v2: BoardV, src: Position, q: Position)
    requires
        v1.width == v2.width,
        v1.height == v2.height,
        v1.mines == v2.mines,
        cascade_reaches(v1, src, q),
    ensures
        cascade_reaches(v2, src, q),
{
    let path = choose|path: Seq<Position>|
        cascade_path(v1, path) && path.first() == src && path.last() == q;
    assert(cascade_path(v2, path)) by {
        assert forall|i: int| 0 <= i < path.len() - 1 implies v2.shown_count(
            #[trigger] path[i],
        ) == 0 by {
            lemma_shown_count_same(v1, v2, path[i]);
        }
    }
}

/// Under the closure property of a finished walk (every visited cell
/// showing zero has all its neighbours visited), a whole cascade path
/// from a visited start stays visited.
proof fn lemma_cascade_covered(
    v: BoardV,
    visited: Seq<bool>,
    path: Seq<Position>,
)
    requires
        v.wf(),
        visited.len() == v.size(),
        cascade_path(v, path),
        visited[path.first().idx(v.width)],
        forall|p: Position, c: Position|
            p.valid(v.width, v.height) && #[trigger] visited[p.idx(v.width)] && v.shown_count(p)
                == 0 && c.valid(v.width, v.height) && p.adjacent(c) ==> #[trigger] visited[c.idx(
                v.width,
            )],
    ensures
        visited[path.last().idx(v.width)],
    decreases path.len(),
{
    if path.len() > 1 {
        let shorter = path.drop_last();
        assert(cascade_path(v, shorter)) by {
            assert(forall|i: int| 0 <= i < shorter.len() ==> shorter[i] == path[i]);
        }
        assert(shorter.first() == path.first());
        lemma_cascade_covered(v, visited, shorter);
        let p = path[path.len() - 2];
        assert(shorter.last() == p);
        assert(v.shown_count(p) == 0);
        assert(p.adjacent(path.last()));
    }
}

/// Marking one more cell visited and open preserves the cascade's
/// description of the board: every visited cell is open, everything else
/// is as before.
proof fn lemma_cascade_mark(
    v0: BoardV,
    sv0: BoardV,
    sv1: BoardV,
    vis0: Seq<bool>,
    vis1: Seq<bool>,
    p: Position,
)
    requires
        v0.wf(),
        sv0.width == v0.width,
        sv0.height == v0.height,
        sv1.width == v0.width,
        sv1.height == v0.height,
        p.valid(v0.width, v0.height),
        vis0.len() == v0.size(),
        vis1 == vis0.update(p.idx(v0.width), true),
        sv0.states.len() == v0.size(),
        sv1.states == sv0.states.update(p.idx(v0.width), CellState::Open),
        forall|q: Position|
            q.valid(v0.width, v0.height) ==> #[trigger] sv0.state_at(q) == (if vis0[q.idx(
                v0.width,
            )] {
                CellState::Open
            } else {
                v0.state_at(q)
            }),
    ensures
        forall|q: Position|
            q.valid(v0.width, v0.height) ==> #[trigger] sv1.state_at(q) == (if vis1[q.idx(
                v0.width,
            )] {
                CellState::Open
            } else {
                v0.state_at(q)
            }),
{
    crate::position::lemma_idx_bijective(v0.width, v0.height);
    assert forall|q: Position| q.valid(v0.width, v0.height) implies #[trigger] sv1.state_at(q) == (
    if vis1[q.idx(v0.width)] {
        CellState::Open
    } else {
        v0.state_at(q)
    }) by {
        if q != p {
            assert(q.idx(v0.width) != p.idx(v0.width));
            assert(sv1.states[q.idx(v0.width)] == sv0.states[q.idx(v0.width)]);
            assert(sv0.state_at(q) == (if vis0[q.idx(v0.width)] {
                CellState::Open
            } else {
                v0.state_at(q)
            }));
        } else {
            assert(sv1.states[p.idx(v0.width)] == CellState::Open);
        }
    }
}

/// What `cell_data` reports for `p`.
pub open spec fn spec_cell_data(v: BoardV, p: Position) -> CellData {
    match v.state_at(p) {
        CellState::Closed => CellData::Closed,
        CellState::Flagged => CellData::Flagged,
        CellState::Open => CellData::Open(v.shown_count(p) as usize),
    }
}

pub struct MineField {
    started: bool,
    width: usize,
    height: usize,
    field: Vec<Cell>,
}

impl View for MineField {
    type V = BoardV;

    closed spec fn view(&self) -> BoardV {
        BoardV {
            started: self.started,
            width: self.width as int,
            height: self.height as int,
            mines: self.field@.map_values(|c: Cell| c.has_mine),
            states: self.field@.map_values(|c: Cell| c.state),
        }
    }
}

impl MineField {
    /// A board laid out from a literal grid of cell configurations, as the
    /// tests write one; `H` rows of `W` cells each.
    pub fn from<const W: usize, const H: usize>(field: [[CellConfig; W]; H]) -> (r: MineField)
        requires
            W * H <= usize::MAX,
        ensures
            r@.wf(),
            r@.width == W,
            r@.height == H,
            r@.started,
            forall|p: Position|
                p.valid(W as int, H as int) ==> r@.states[#[trigger] p.idx(W as int)]
                    == field@[p.y as int]@[p.x as int].spec_state() && r@.mines[p.idx(W as int)]
                    == field@[p.y as int]@[p.x as int].spec_mine(),
    {
        let mut cells: Vec<Cell> = Vec::new();
        proof {
            assert(0 * W == 0) by (nonlinear_arith);
        }
        for y in 0..H
            invariant
                W * H <= usize::MAX,
                cells@.len() == y * W,
                forall|y2: int, x2: int|
                    0 <= y2 < y && 0 <= x2 < W ==> #[trigger] cells@[y2 * W + x2] == (Cell {
                        has_mine: field@[y2]@[x2].spec_mine(),
                        state: field@[y2]@[x2].spec_state(),
                    }),
        {
            proof {
                assert((y + 1) * W == y * W + W) by (nonlinear_arith);
                assert(y * W + W <= H * W) by (nonlinear_arith)
                    requires
                        0 <= y < H,
                ;
                assert(H * W == W * H) by (nonlinear_arith);
            }
            for x in 0..W
                invariant
                    W * H <= usize::MAX,
                    y < H,
                    y * W + W <= W * H,
                    cells@.len() == y * W + x,
                    forall|y2: int, x2: int|
                        0 <= y2 < y && 0 <= x2 < W ==> #[trigger] cells@[y2 * W + x2] == (Cell {
                            has_mine: field@[y2]@[x2].spec_mine(),
                            state: field@[y2]@[x2].spec_state(),
                        }),
                    forall|x2: int|
                        0 <= x2 < x ==> #[trigger] cells@[y * W + x2] == (Cell {
                            has_mine: field@[y as int]@[x2].spec_mine(),
                            state: field@[y as int]@[x2].spec_state(),
                        }),
            {
                let config = field[y][x];
                let cell = match config {
                    CellConfig::Closed => Cell { has_mine: false, state: CellState::Closed },
                    CellConfig::Open => Cell { has_mine: false, state: CellState::Open },
                    CellConfig::Mine => Cell { has_mine: true, state: CellState::Closed },
                    CellConfig::Flagged => Cell { has_mine: true, state: CellState::Flagged },
                };
                cells.push(cell);
                proof {
                    assert forall|y2: int, x2: int|
                        0 <= y2 < y && 0 <= x2 < W implies #[trigger] cells@[y2 * W + x2] == (Cell {
                        has_mine: field@[y2]@[x2].spec_mine(),
                        state: field@[y2]@[x2].spec_state(),
                    }) by {
                        assert(0 <= y2 * W + x2 && y2 * W + W <= y * W) by (nonlinear_arith)
                            requires
                                0 <= y2 < y,
                                0 <= x2 < W,
                        ;
                    }
                }
            }
        }
        let r = MineField { started: true, width: W, height: H, field: cells };
        proof {
            assert(H * W == W * H) by (nonlinear_arith);
            assert(r@.mines.len() == W * H);
            assert(r@.states.len() == W * H);
            assert forall|p: Position| p.valid(W as int, H as int) implies r@.states[
                #[trigger] p.idx(W as int)] == field@[p.y as int]@[p.x as int].spec_state()
                && r@.mines[p.idx(W as int)] == field@[p.y as int]@[p.x as int].spec_mine() by {
                assert(0 <= p.y * W + p.x < W * H) by (nonlinear_arith)
                    requires
                        0 <= p.x < W,
                        0 <= p.y < H,
                ;
                assert(cells@[p.y * W + p.x] == (Cell {
                    has_mine: field@[p.y as int]@[p.x as int].spec_mine(),
                    state: field@[p.y as int]@[p.x as int].spec_state(),
                }));
            }
        }
        r
    }

    pub fn width(&self) -> (r: usize)
        ensures
            r == self@.width,
    {
        self.width
    }

    pub fn height(&self) -> (r: usize)
        ensures
            r == self@.height,
    {
        self.height
    }

    fn get_cell(&self, pos: Position) -> (r: &Cell)
        requires
            self@.wf(),
            pos.valid(self@.width, self@.height),
        ensures
            r.has_mine == self@.mine_at(pos),
            r.state == self@.state_at(pos),
    {
        proof {
            crate::position::lemma_idx_bijective(self@.width, self@.height);
        }
        let i = pos.to_index(self.width);
        &self.field[i]
    }

    /// How many neighbours of `pos` hide a mine.
    fn neighbouring_mines(&self, pos: Position) -> (r: usize)
        requires
            self@.wf(),
            pos.valid(self@.width, self@.height),
        ensures
            r == self@.shown_count(pos),
    {
        let ghost w = self@.width;
        let ghost h = self@.height;
        let ghost f = |q: Position| self@.mines[q.idx(w)];
        let nbs = pos.neighbours(self);
        proof {
            crate::position::lemma_neighbours_props(pos, w, h);
            crate::counting::lemma_count_bounds(nbs@, f);
        }
        let mut count: usize = 0;
        let mut i: usize = 0;
        while i < nbs.len()
            invariant
                self@.wf(),
                nbs@ == neighbours_list(pos, w, h),
                w == self@.width,
                h == self@.height,
                f == (|q: Position| self@.mines[q.idx(w)]),
                forall|q: Position| nbs@.contains(q) ==> q.valid(w, h),
                0 <= i <= nbs@.len() <= 8,
                count == count_matching(nbs@.take(i as int), f),
                count <= i,
            decreases nbs@.len() - i,
        {
            proof {
                assert(nbs@.contains(nbs@[i as int]));
                crate::counting::lemma_count_take_step(nbs@, f, i as int);
            }
            if self.get_cell(nbs[i]).has_mine {
                count = count + 1;
            }
            i = i + 1;
        }
        proof {
            crate::counting::lemma_count_take_all(nbs@, f);
        }
        count
    }

    /// The solver's read-only window onto one cell.
    pub fn cell_data(&self, pos: Position) -> (r: CellData)
        requires
            self@.wf(),
            pos.valid(self@.width, self@.height),
        ensures
            r == spec_cell_data(self@, pos),
    {
        let cell = self.get_cell(pos);
        match cell.state {
            CellState::Closed => CellData::Closed,
            CellState::Flagged => CellData::Flagged,
            CellState::Open => CellData::Open(self.neighbouring_mines(pos)),
        }
    }
}


impl MineField {
    /// Write one cell's visibility, leaving every mine in place.
    fn set_state(&mut self, pos: Position, st: CellState)
        requires
            old(self)@.wf(),
            pos.valid(old(self)@.width, old(self)@.height),
        ensures
            final(self)@.wf(),
            final(self)@.width == old(self)@.width,
            final(self)@.height == old(self)@.height,
            final(self)@.started == old(self)@.started,
            final(self)@.mines == old(self)@.mines,
            final(self)@.states == old(self)@.states.update(pos.idx(old(self)@.width), st),
    {
        proof {
            crate::position::lemma_idx_bijective(self@.width, self@.height);
        }
        let ghost v0 = self@;
        let i = pos.to_index(self.width);
        let current = self.field[i];
        self.field[i] = Cell { has_mine: current.has_mine, state: st };
        proof {
            assert(self@.mines =~= v0.mines);
            assert(self@.states =~= v0.states.update(pos.idx(v0.width), st));
        }
    }

    /// Plant or clear a mine at linear index `i`, leaving visibility alone.
    fn set_mine(&mut self, i: usize, m: bool)
        requires
            old(self)@.wf(),
            i < old(self)@.size(),
        ensures
            final(self)@.wf(),
            final(self)@.width == old(self)@.width,
            final(self)@.height == old(self)@.height,
            final(self)@.started == old(self)@.started,
            final(self)@.states == old(self)@.states,
            final(self)@.mines == old(self)@.mines.update(i as int, m),
    {
        let ghost v0 = self@;
        let current = self.field[i];
        self.field[i] = Cell { has_mine: m, state: current.state };
        proof {
            assert(self@.states =~= v0.states);
            assert(self@.mines =~= v0.mines.update(i as int, m));
        }
    }

    /// A fresh board of the given size with `mines` mines placed uniformly
    /// at random among distinct cells, all cells closed.
    pub fn new(width: usize, height: usize, mines: u32) -> (r: MineField)
        requires
            width * height <= usize::MAX,
            (mines as int) < width * height,
        ensures
            r@.wf(),
            r@.width == width,
            r@.height == height,
            r@.started,
            forall|j: int| 0 <= j < r@.size() ==> r@.states[j] == CellState::Closed,
            r@.mine_total() == mines as int,
    {
        let size = width * height;
        let mut field: Vec<Cell> = Vec::new();
        while field.len() < size
            invariant
                0 <= field@.len() <= size,
                forall|j: int|
                    0 <= j < field@.len() ==> #[trigger] field@[j] == (Cell {
                        has_mine: false,
                        state: CellState::Closed,
                    }),
            decreases size - field@.len(),
        {
            field.push(Cell { has_mine: false, state: CellState::Closed });
        }
        let mut game = MineField { started: true, width, height, field };
        proof {
            assert(game@.mines =~= Seq::new(size as nat, |j: int| false));
            crate::counting::lemma_count_zero(game@.mines, |b: bool| b);
            crate::counting::lemma_count_bounds(game@.mines, |b: bool| b);
        }
        let mut remaining = mines;
        while remaining > 0
            invariant
                game@.wf(),
                game@.width == width,
                game@.height == height,
                game@.started,
                width * height <= usize::MAX,
                (mines as int) < width * height,
                remaining <= mines,
                forall|j: int| 0 <= j < game@.size() ==> game@.states[j] == CellState::Closed,
                game@.mine_total() == mines - remaining,
            decreases remaining,
        {
            let free = collect_free_cells(&game.field);
            proof {
                crate::counting::lemma_count_bounds(game@.mines, |b: bool| b);
                assert(free@.len() > 0);
            }
            let pick = free[crate::random::random_below(free.len())];
            let ghost v0 = game@;
            proof {
                assert(!v0.mines[pick as int]);
            }
            game.set_mine(pick, true);
            proof {
                crate::counting::lemma_count_true_update(v0.mines, pick as int);
            }
            remaining = remaining - 1;
        }
        game
    }

    /// Move the mine under `initial` onto a uniformly chosen mine-free
    /// cell elsewhere, so the first click never loses.
    fn move_mine_somewhere_else(&mut self, initial: Position)
        requires
            old(self)@.wf(),
            initial.valid(old(self)@.width, old(self)@.height),
            old(self)@.mine_at(initial),
            old(self)@.mine_total() < old(self)@.size(),
        ensures
            final(self)@.wf(),
            final(self)@.width == old(self)@.width,
            final(self)@.height == old(self)@.height,
            final(self)@.started == old(self)@.started,
            final(self)@.states == old(self)@.states,
            !final(self)@.mine_at(initial),
            final(self)@.mine_total() == old(self)@.mine_total(),
            exists|j: int|
                0 <= j < old(self)@.size() && j != initial.idx(old(self)@.width) && !old(
                    self,
                )@.mines[j] && final(self)@.mines == old(self)@.mines.update(j, true).update(
                    initial.idx(old(self)@.width),
                    false,
                ),
    {
        let ghost v0 = self@;
        proof {
            crate::position::lemma_idx_bijective(v0.width, v0.height);
        }
        let free = collect_free_cells(&self.field);
        proof {
            crate::counting::lemma_count_bounds(v0.mines, |b: bool| b);
            assert(free@.len() > 0);
        }
        let pick = free[crate::random::random_below(free.len())];
        proof {
            assert(!v0.mines[pick as int]);
            assert(pick as int != initial.idx(v0.width));
        }
        self.set_mine(pick, true);
        let ghost v1 = self@;
        let ii = initial.to_index(self.width);
        self.set_mine(ii, false);
        proof {
            crate::counting::lemma_count_true_update(v0.mines, pick as int);
            assert(v1.mines[ii as int]);
            assert(self@.mines =~= v1.mines.update(ii as int, false));
            crate::counting::lemma_count_true_set_false(v1.mines, ii as int);
            assert(self@.mines == v0.mines.update(pick as int, true).update(
                initial.idx(v0.width),
                false,
            ));
        }
    }

    /// Apply one move.  With `flag` the cell's flag is toggled; otherwise
    /// the cell is opened, cascading through zero-count neighbours.  On
    /// the very first open the mine, if any, is first moved away; after
    /// that, opening a mined cell loses the game.
    pub fn play(&mut self, pos: Position, flag: bool) -> (r: GameState)
        requires
            old(self)@.wf(),
            pos.valid(old(self)@.width, old(self)@.height),
            !flag && old(self)@.started ==> old(self)@.mine_total() < old(self)@.size(),
        ensures
            final(self)@.wf(),
            final(self)@.width == old(self)@.width,
            final(self)@.height == old(self)@.height,
            r != GameState::Won,
            flag ==> ({
                &&& r == GameState::Ongoing
                &&& final(self)@.mines == old(self)@.mines
                &&& final(self)@.started == old(self)@.started
                &&& final(self)@.states == old(self)@.states.update(
                    pos.idx(old(self)@.width),
                    if old(self)@.state_at(pos) == CellState::Flagged {
                        CellState::Closed
                    } else {
                        CellState::Flagged
                    },
                )
            }),
            !flag ==> ({
                let v0 = old(self)@;
                let v1 = final(self)@;
                &&& !v1.started
                &&& v1.mine_total() == v0.mine_total()
                &&& (!(v0.started && v0.mine_at(pos)) ==> v1.mines == v0.mines)
                &&& ((r == GameState::Lost) <==> (!v0.started && v0.mine_at(pos)))
                &&& (r == GameState::Lost ==> v1.states == v0.states.update(
                    pos.idx(v0.width),
                    CellState::Open,
                ))
                &&& (r == GameState::Ongoing ==> !v1.mine_at(pos) && v1.state_at(pos)
                    == CellState::Open && (forall|q: Position|
                    q.valid(v0.width, v0.height) ==> #[trigger] v1.state_at(q) == v0.state_at(q)
                        || v1.state_at(q) == CellState::Open) && (forall|q: Position|
                    q.valid(v0.width, v0.height) && #[trigger] v1.state_at(q) != v0.state_at(q)
                        ==> q == pos || cascade_reaches(v1, pos, q)) && (v1.shown_count(pos) == 0
                    ==> (forall|q: Position|
                    q.valid(v0.width, v0.height) && #[trigger] cascade_reaches(v1, pos, q)
                        ==> v1.state_at(q) == CellState::Open)) && (v1.shown_count(pos) > 0
                    ==> v1.states == v0.states.update(pos.idx(v0.width), CellState::Open)))
            }),
    {
        let ghost v0 = self@;
        proof {
            crate::position::lemma_idx_bijective(v0.width, v0.height);
        }
        if flag {
            let st = self.get_cell(pos).state;
            if st == CellState::Flagged {
                self.set_state(pos, CellState::Closed);
            } else {
                self.set_state(pos, CellState::Flagged);
            }
            return GameState::Ongoing;
        }
        let started = self.started;
        if self.get_cell(pos).has_mine && started {
            self.move_mine_somewhere_else(pos);
        }
        self.started = false;
        proof {
            assert(self@.states == v0.states);
            assert(self@.mine_total() == v0.mine_total());
        }
        if self.get_cell(pos).has_mine {
            self.set_state(pos, CellState::Open);
            return GameState::Lost;
        }
        let ghost vc = self@;
        self.open_cascade(pos);
        proof {
            assert forall|q: Position|
                q.valid(v0.width, v0.height) && #[trigger] self@.state_at(q) != v0.state_at(
                q,
            ) implies q == pos || cascade_reaches(self@, pos, q) by {
                assert(vc.state_at(q) == v0.state_at(q));
                if q != pos && self@.state_at(q) != vc.state_at(q) {
                    assert(cascade_reaches(vc, pos, q));
                    lemma_cascade_same(vc, self@, pos, q);
                }
            }
            lemma_shown_count_same(self@, vc, pos);
            if self@.shown_count(pos) == 0 {
                assert forall|q: Position|
                    q.valid(v0.width, v0.height) && #[trigger] cascade_reaches(
                    self@,
                    pos,
                    q,
                ) implies self@.state_at(q) == CellState::Open by {
                    lemma_cascade_same(self@, vc, pos, q);
                    assert(cascade_reaches(vc, pos, q));
                }
            }
        }
        GameState::Ongoing
    }

    /// Open `pos` and flood through zero-count cells: every cell opened
    /// beyond `pos` was reached from it, and if `pos` itself shows a
    /// count, nothing else changes.
    #[verifier::rlimit(100)]
    #[verifier::spinoff_prover]
    fn open_cascade(&mut self, pos: Position)
        requires
            old(self)@.wf(),
            pos.valid(old(self)@.width, old(self)@.height),
        ensures
            final(self)@.wf(),
            final(self)@.width == old(self)@.width,
            final(self)@.height == old(self)@.height,
            final(self)@.started == old(self)@.started,
            final(self)@.mines == old(self)@.mines,
            final(self)@.state_at(pos) == CellState::Open,
            forall|q: Position|
                q.valid(old(self)@.width, old(self)@.height) ==> #[trigger] final(self)@.state_at(
                    q,
                ) == old(self)@.state_at(q) || final(self)@.state_at(q) == CellState::Open,
            forall|q: Position|
                q.valid(old(self)@.width, old(self)@.height) && #[trigger] final(self)@.state_at(q)
                    != old(self)@.state_at(q) ==> q == pos || cascade_reaches(old(self)@, pos, q),
            old(self)@.shown_count(pos) == 0 ==> (forall|q: Position|
                q.valid(old(self)@.width, old(self)@.height) && #[trigger] cascade_reaches(
                    old(self)@,
                    pos,
                    q,
                ) ==> final(self)@.state_at(q) == CellState::Open),
            old(self)@.shown_count(pos) > 0 ==> final(self)@.states == old(self)@.states.update(
                pos.idx(old(self)@.width),
                CellState::Open,
            ),
    {
        let ghost v0 = self@;
        proof {
            crate::position::lemma_idx_bijective(v0.width, v0.height);
        }
        let width = self.width;
        let height = self.height;
        // open the clicked cell itself; a shown count stops the cascade
        self.set_state(pos, CellState::Open);
        let ghost base = self@;
        if self.neighbouring_mines(pos) > 0 {
            proof {
                lemma_shown_count_same(self@, v0, pos);
            }
            return ;
        }
        let total = width * height;
        let mut visited: Vec<bool> = Vec::new();
        while visited.len() < total
            invariant
                total == v0.size(),
                0 <= visited@.len() <= total,
                forall|j: int| 0 <= j < visited@.len() ==> !(#[trigger] visited@[j]),
            decreases total - visited@.len(),
        {
            visited.push(false);
        }
        let mut stack: Vec<Position> = Vec::new();
        stack.push(pos);
        proof {
            crate::counting::lemma_count_bounds(visited@, |b: bool| b);
            lemma_cascade_start(v0, pos);
            assert(stack@[0] == pos);
        }
        while stack.len() > 0
            invariant
                v0.wf(),
                base.wf(),
                self@.wf(),
                base.width == v0.width,
                base.height == v0.height,
                base.started == v0.started,
                base.mines == v0.mines,
                self@.width == v0.width,
                self@.height == v0.height,
                self@.started == v0.started,
                self@.mines == v0.mines,
                pos.valid(v0.width, v0.height),
                width == v0.width,
                height == v0.height,
                forall|q: Position|
                    q.valid(v0.width, v0.height) ==> #[trigger] base.state_at(q) == v0.state_at(q)
                        || base.state_at(q) == CellState::Open,
                visited@.len() == v0.size(),
                0 <= crate::counting::count_true(visited@) <= visited@.len(),
                forall|k: int|
                    0 <= k < stack@.len() ==> (#[trigger] stack@[k]).valid(v0.width, v0.height)
                        && cascade_reaches(v0, pos, stack@[k]),
                forall|q: Position|
                    q.valid(v0.width, v0.height) && #[trigger] visited@[q.idx(v0.width)]
                        ==> cascade_reaches(v0, pos, q),
                forall|p2: Position, c: Position|
                    p2.valid(v0.width, v0.height) && #[trigger] visited@[p2.idx(v0.width)]
                        && v0.shown_count(p2) == 0 && c.valid(v0.width, v0.height) && p2.adjacent(
                        c,
                    ) ==> #[trigger] visited@[c.idx(v0.width)] || stack@.contains(c),
                visited@[pos.idx(v0.width)] || stack@.contains(pos),
                forall|q: Position|
                    q.valid(v0.width, v0.height) ==> #[trigger] self@.state_at(q) == (if visited@[
                        q.idx(v0.width)
                    ] {
                        CellState::Open
                    } else {
                        base.state_at(q)
                    }),
            decreases v0.size() - crate::counting::count_true(visited@), stack@.len(),
        {
            let ghost stack0 = stack@;
            let p = stack.pop().unwrap();
            proof {
                crate::position::lemma_idx_bijective(v0.width, v0.height);
                assert(stack0[stack0.len() - 1] == p);
                assert forall|z: Position| stack0.contains(z) && z != p implies #[trigger] stack@
                    .contains(z) by {
                    let k = choose|k: int| 0 <= k < stack0.len() && #[trigger] stack0[k] == z;
                    assert(k < stack0.len() - 1);
                    assert(stack@[k] == z);
                }
            }
            let pi = p.to_index(width);
            if visited[pi] {
                proof {
                    assert forall|p2: Position, c: Position|
                        p2.valid(v0.width, v0.height) && #[trigger] visited@[p2.idx(v0.width)]
                            && v0.shown_count(p2) == 0 && c.valid(v0.width, v0.height)
                            && p2.adjacent(c) implies #[trigger] visited@[c.idx(v0.width)]
                        || stack@.contains(c) by {
                        if !visited@[c.idx(v0.width)] && c != p {
                            assert(stack0.contains(c));
                        }
                    }
                }
                continue ;
            }
            let ghost visited_pre = visited@;
            let ghost sv0 = self@;
            visited[pi] = true;
            self.set_state(p, CellState::Open);
            proof {
                crate::counting::lemma_count_true_update(visited_pre, p.idx(v0.width));
                crate::counting::lemma_count_bounds(visited@, |b: bool| b);
                lemma_cascade_mark(base, sv0, self@, visited_pre, visited@, p);
                assert forall|q: Position|
                    q.valid(v0.width, v0.height) && #[trigger] visited@[q.idx(v0.width)] implies cascade_reaches(
                    v0,
                    pos,
                    q,
                ) by {
                    if q != p {
                        assert(q.idx(v0.width) != p.idx(v0.width));
                        assert(visited_pre[q.idx(v0.width)]);
                    }
                }
            }
            if self.neighbouring_mines(p) > 0 {
                proof {
                    lemma_shown_count_same(self@, v0, p);
                    assert(v0.shown_count(p) != 0);
                    assert forall|p2: Position, c: Position|
                        p2.valid(v0.width, v0.height) && #[trigger] visited@[p2.idx(v0.width)]
                            && v0.shown_count(p2) == 0 && c.valid(v0.width, v0.height)
                            && p2.adjacent(c) implies #[trigger] visited@[c.idx(v0.width)]
                        || stack@.contains(c) by {
                        if !visited@[c.idx(v0.width)] && c != p {
                            assert(p2 != p);
                            assert(visited_pre[p2.idx(v0.width)]);
                            assert(visited_pre[c.idx(v0.width)] || stack0.contains(c));
                            assert(stack0.contains(c));
                        }
                    }
                }
                continue ;
            }
            let nbs = crate::position::neighbours_of(p, width, height);
            proof {
                crate::position::lemma_neighbours_props(p, v0.width, v0.height);
                lemma_shown_count_same(self@, v0, p);
                assert(v0.shown_count(p) == 0);
            }
            let ghost stack1 = stack@;
            let mut k: usize = 0;
            while k < nbs.len()
                invariant
                    0 <= k <= nbs@.len(),
                    pos.valid(v0.width, v0.height),
                    p.valid(v0.width, v0.height),
                    cascade_reaches(v0, pos, p),
                    v0.shown_count(p) == 0,
                    forall|j: int|
                        0 <= j < nbs@.len() ==> (#[trigger] nbs@[j]).valid(v0.width, v0.height)
                            && p.adjacent(nbs@[j]),
                    forall|j: int|
                        0 <= j < stack@.len() ==> (#[trigger] stack@[j]).valid(v0.width, v0.height)
                            && cascade_reaches(v0, pos, stack@[j]),
                    forall|z: Position| stack1.contains(z) ==> #[trigger] stack@.contains(z),
                    forall|j: int| 0 <= j < k ==> stack@.contains(#[trigger] nbs@[j]),
                decreases nbs@.len() - k,
            {
                proof {
                    assert(nbs@.contains(nbs@[k as int]));
                    lemma_cascade_extend(v0, pos, p, nbs@[k as int]);
                    crate::counting::lemma_push_contains(stack@, nbs@[k as int]);
                }
                let q = nbs[k];
                stack.push(q);
                k = k + 1;
            }
            proof {
                crate::position::lemma_neighbours_props(p, v0.width, v0.height);
                assert forall|p2: Position, c: Position|
                    p2.valid(v0.width, v0.height) && #[trigger] visited@[p2.idx(v0.width)]
                        && v0.shown_count(p2) == 0 && c.valid(v0.width, v0.height) && p2.adjacent(
                    c,
                ) implies #[trigger] visited@[c.idx(v0.width)] || stack@.contains(c) by {
                    if !visited@[c.idx(v0.width)] {
                        if p2 == p {
                            assert(nbs@.contains(c));
                            let j = choose|j: int| 0 <= j < nbs@.len() && #[trigger] nbs@[j] == c;
                            assert(stack@.contains(nbs@[j]));
                        } else {
                            assert(visited_pre[p2.idx(v0.width)]);
                            assert(visited_pre[c.idx(v0.width)] || stack0.contains(c));
                            if c != p {
                                assert(stack@.contains(c)) by {
                                    assert(stack1.contains(c));
                                }
                            } else {
                                assert(visited@[c.idx(v0.width)]);
                            }
                        }
                    }
                }
            }
        }
        proof {
            assert(base.state_at(pos) == CellState::Open);
            if stack@.contains(pos) {
                let k = choose|k: int| 0 <= k < stack@.len() && #[trigger] stack@[k] == pos;
                assert(false);
            }
            assert(visited@[pos.idx(v0.width)]);
            assert(self@.state_at(pos) == CellState::Open);
            // the stack is empty, so the walk's closure is unconditional
            // and covers every cascade path
            assert forall|p2: Position, c: Position|
                p2.valid(v0.width, v0.height) && #[trigger] visited@[p2.idx(v0.width)]
                    && v0.shown_count(p2) == 0 && c.valid(v0.width, v0.height) && p2.adjacent(
                c,
            ) implies #[trigger] visited@[c.idx(v0.width)] by {
                if stack@.contains(c) {
                    let k = choose|k: int| 0 <= k < stack@.len() && #[trigger] stack@[k] == c;
                    assert(false);
                }
            }
            assert forall|q: Position|
                q.valid(v0.width, v0.height) && #[trigger] cascade_reaches(
                v0,
                pos,
                q,
            ) implies self@.state_at(q) == CellState::Open by {
                let path = choose|path: Seq<Position>|
                    cascade_path(v0, path) && path.first() == pos && path.last() == q;
                lemma_cascade_covered(v0, visited@, path);
            }
        }
    }
}

/// The linear indices of the cells that hold no mine, in order.
fn collect_free_cells(field: &Vec<Cell>) -> (r: Vec<usize>)
    ensures
        forall|k: int|
            0 <= k < r@.len() ==> (#[trigger] r@[k]) < field@.len() && !field@[r@[k] as int].has_mine,
        r@.len() == field@.len() - count_matching(
            field@.map_values(|c: Cell| c.has_mine),
            |b: bool| b,
        ),
{
    let ghost mines = field@.map_values(|c: Cell| c.has_mine);
    let ghost f_mine = |b: bool| b;
    let mut r: Vec<usize> = Vec::new();
    let n = field.len();
    let mut i: usize = 0;
    while i < n
        invariant
            n == field@.len(),
            mines == field@.map_values(|c: Cell| c.has_mine),
            mines.len() == n,
            0 <= i <= n,
            forall|k: int|
                0 <= k < r@.len() ==> (#[trigger] r@[k]) < field@.len() && !field@[r@[k] as int].has_mine,
            r@.len() == i - count_matching(mines.take(i as int), f_mine),
            f_mine == (|b: bool| b),
        decreases n - i,
    {
        proof {
            crate::counting::lemma_count_take_step(mines, f_mine, i as int);
            crate::counting::lemma_count_bounds(mines.take(i as int), f_mine);
        }
        if !field[i].has_mine {
            r.push(i);
        }
        i = i + 1;
    }
    proof {
        crate::counting::lemma_count_take_all(mines, f_mine);
    }
    r
}


} // verus!
