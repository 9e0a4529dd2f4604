//! Board coordinates and the Moore neighbourhood.
//!
//! A `Position` names a cell by column (`x`) and row (`y`).  Cells are laid
//! out row-major, so a position's linear index is `y * width + x`.  The
//! neighbourhood of a cell lists its at most eight in-bounds neighbours in a
//! fixed order (NW, N, NE, W, E, SW, S, SE); the solver relies on this order
//! being deterministic.

use vstd::prelude::*;

use crate::minefield::MineField;

verus! {

#[derive(Clone, Copy, PartialEq, Eq, Structural, Debug)]
pub struct Position {
    pub x: usize,
    pub y: usize,
}

impl Position {
    /// The position lies on a `width` by `height` board.
    pub open spec fn valid(self, width: int, height: int) -> bool {
        self.x < width && self.y < height
    }

    /// Row-major linear index.
    pub open spec fn idx(self, width: int) -> int {
        self.y * width + self.x
    }

    /// Moore adjacency: distinct cells whose coordinates differ by at most
    /// one in each direction.
    pub open spec fn adjacent(self, other: Position) -> bool {
        &&& self != other
        &&& -1 <= self.x - other.x <= 1
        &&& -1 <= self.y - other.y <= 1
    }

    pub fn from(x: usize, y: usize) -> (r: Position)
        ensures
            r == (Position { x, y }),
    {
        Position { x, y }
    }

    pub(crate) fn to_index(self, width: usize) -> (r: usize)
        requires
            self.idx(width as int) <= usize::MAX,
        ensures
            r == self.idx(width as int),
    {
        self.y * width + self.x
    }

    /// The in-bounds Moore neighbours of `self`, in the fixed NW, N, NE, W,
    /// E, SW, S, SE order.
    pub fn neighbours(self, context: &MineField) -> (r: Vec<Position>)
        requires
            self.valid(context@.width, context@.height),
        ensures
            r@ == neighbours_list(self, context@.width, context@.height),
    {
        let width = context.width();
        let height = context.height();
        neighbours_of(self, width, height)
    }
}

/// `p` moved by the given offsets; meaningful only when the result is in
/// bounds.
pub open spec fn shift(p: Position, dx: int, dy: int) -> Position {
    Position { x: (p.x + dx) as usize, y: (p.y + dy) as usize }
}

/// The in-bounds Moore neighbours of `p`, in NW, N, NE, W, E, SW, S, SE
/// order.
pub open spec fn neighbours_list(p: Position, width: int, height: int) -> Seq<Position> {
    let c_nw: Seq<Position> = if p.x > 0 && p.y > 0 {
        seq![shift(p, -1, -1)]
    } else {
        Seq::empty()
    };
    let c_n: Seq<Position> = if p.y > 0 {
        seq![shift(p, 0, -1)]
    } else {
        Seq::empty()
    };
    let c_ne: Seq<Position> = if p.x < width - 1 && p.y > 0 {
        seq![shift(p, 1, -1)]
    } else {
        Seq::empty()
    };
    let c_w: Seq<Position> = if p.x > 0 {
        seq![shift(p, -1, 0)]
    } else {
        Seq::empty()
    };
    let c_e: Seq<Position> = if p.x < width - 1 {
        seq![shift(p, 1, 0)]
    } else {
        Seq::empty()
    };
    let c_sw: Seq<Position> = if p.x > 0 && p.y < height - 1 {
        seq![shift(p, -1, 1)]
    } else {
        Seq::empty()
    };
    let c_s: Seq<Position> = if p.y < height - 1 {
        seq![shift(p, 0, 1)]
    } else {
        Seq::empty()
    };
    let c_se: Seq<Position> = if p.x < width - 1 && p.y < height - 1 {
        seq![shift(p, 1, 1)]
    } else {
        Seq::empty()
    };
    c_nw + c_n + c_ne + c_w + c_e + c_sw + c_s + c_se
}

/// The neighbour list holds exactly the valid positions adjacent to `p`,
/// each once.
#[verifier::rlimit(60)]
pub proof fn lemma_neighbours_props(p: Position, width: int, height: int)
    requires
        p.valid(width, height),
        width <= usize::MAX,
        height <= usize::MAX,
    ensures
        forall|q: Position|
            #[trigger] neighbours_list(p, width, height).contains(q) <==> (q.valid(width, height)
                && p.adjacent(q)),
        neighbours_list(p, width, height).no_duplicates(),
        neighbours_list(p, width, height).len() <= 8,
{
    broadcast use vstd::seq_lib::lemma_seq_concat_contains_all_elements;

    let l = neighbours_list(p, width, height);
    let c_nw: Seq<Position> = if p.x > 0 && p.y > 0 {
        seq![shift(p, -1, -1)]
    } else {
        Seq::empty()
    };
    let c_n: Seq<Position> = if p.y > 0 {
        seq![shift(p, 0, -1)]
    } else {
        Seq::empty()
    };
    let c_ne: Seq<Position> = if p.x < width - 1 && p.y > 0 {
        seq![shift(p, 1, -1)]
    } else {
        Seq::empty()
    };
    let c_w: Seq<Position> = if p.x > 0 {
        seq![shift(p, -1, 0)]
    } else {
        Seq::empty()
    };
    let c_e: Seq<Position> = if p.x < width - 1 {
        seq![shift(p, 1, 0)]
    } else {
        Seq::empty()
    };
    let c_sw: Seq<Position> = if p.x > 0 && p.y < height - 1 {
        seq![shift(p, -1, 1)]
    } else {
        Seq::empty()
    };
    let c_s: Seq<Position> = if p.y < height - 1 {
        seq![shift(p, 0, 1)]
    } else {
        Seq::empty()
    };
    let c_se: Seq<Position> = if p.x < width - 1 && p.y < height - 1 {
        seq![shift(p, 1, 1)]
    } else {
        Seq::empty()
    };
    let cc = c_nw + c_n + c_ne + c_w + c_e + c_sw + c_s + c_se;
    assert(l == cc);
    assert forall|q: Position| #[trigger] l.contains(q) implies (q.valid(width, height)
        && p.adjacent(q)) by {
        assert(cc.contains(q));
        assert(c_nw.contains(q) || c_n.contains(q) || c_ne.contains(q) || c_w.contains(q)
            || c_e.contains(q) || c_sw.contains(q) || c_s.contains(q) || c_se.contains(q));
        if c_nw.contains(q) {
            assert(q == shift(p, -1, -1));
        } else if c_n.contains(q) {
            assert(q == shift(p, 0, -1));
        } else if c_ne.contains(q) {
            assert(q == shift(p, 1, -1));
        } else if c_w.contains(q) {
            assert(q == shift(p, -1, 0));
        } else if c_e.contains(q) {
            assert(q == shift(p, 1, 0));
        } else if c_sw.contains(q) {
            assert(q == shift(p, -1, 1));
        } else if c_s.contains(q) {
            assert(q == shift(p, 0, 1));
        } else {
            assert(c_se.contains(q));
            assert(q == shift(p, 1, 1));
        }
    }
    assert forall|q: Position| q.valid(width, height) && p.adjacent(q) implies #[trigger] l.contains(
        q,
    ) by {
        if q.y < p.y {
            if q.x < p.x {
                assert(c_nw[0] == q);
                assert(c_nw.contains(q));
            } else if q.x == p.x {
                assert(c_n[0] == q);
                assert(c_n.contains(q));
            } else {
                assert(c_ne[0] == q);
                assert(c_ne.contains(q));
            }
        } else if q.y == p.y {
            if q.x < p.x {
                assert(c_w[0] == q);
                assert(c_w.contains(q));
            } else {
                assert(c_e[0] == q);
                assert(c_e.contains(q));
            }
        } else {
            if q.x < p.x {
                assert(c_sw[0] == q);
                assert(c_sw.contains(q));
            } else if q.x == p.x {
                assert(c_s[0] == q);
                assert(c_s.contains(q));
            } else {
                assert(c_se[0] == q);
                assert(c_se.contains(q));
            }
        }
        assert(cc.contains(q));
    }
    assert(l.no_duplicates()) by {
        assert forall|i: int, j: int|
            0 <= i < cc.len() && 0 <= j < cc.len() && i != j implies #[trigger] cc[i]
            != #[trigger] cc[j] by {
        }
    }
}

/// Exec construction of the neighbour list.
pub(crate) fn neighbours_of(p: Position, width: usize, height: usize) -> (r: Vec<Position>)
    requires
        p.valid(width as int, height as int),
    ensures
        r@ == neighbours_list(p, width as int, height as int),
{
    let mut r: Vec<Position> = Vec::new();
    let x = p.x;
    let y = p.y;
    if x > 0 && y > 0 {
        r.push(Position { x: x - 1, y: y - 1 });
    }
    if y > 0 {
        r.push(Position { x, y: y - 1 });
    }
    if x < width - 1 && y > 0 {
        r.push(Position { x: x + 1, y: y - 1 });
    }
    if x > 0 {
        r.push(Position { x: x - 1, y });
    }
    if x < width - 1 {
        r.push(Position { x: x + 1, y });
    }
    if x > 0 && y < height - 1 {
        r.push(Position { x: x - 1, y: y + 1 });
    }
    if y < height - 1 {
        r.push(Position { x, y: y + 1 });
    }
    if x < width - 1 && y < height - 1 {
        r.push(Position { x: x + 1, y: y + 1 });
    }
    proof {
        assert(r@ =~= neighbours_list(p, width as int, height as int));
    }
    r
}

/// The position whose row-major index is `j`.
pub open spec fn pos_at(j: int, width: int) -> Position {
    Position { x: (j % width) as usize, y: (j / width) as usize }
}

/// Linear indexing is a bijection between valid positions and `0..width *
/// height`.
pub proof fn lemma_idx_bijective(width: int, height: int)
    requires
        width > 0,
        height > 0,
        width * height <= usize::MAX,
    ensures
        forall|p: Position|
            p.valid(width, height) ==> 0 <= #[trigger] p.idx(width) < width * height && pos_at(
                p.idx(width),
                width,
            ) == p,
        forall|j: int|
            0 <= j < width * height ==> #[trigger] pos_at(j, width).valid(width, height) && pos_at(
                j,
                width,
            ).idx(width) == j,
{
    assert forall|p: Position| p.valid(width, height) implies 0 <= #[trigger] p.idx(width) < width
        * height && pos_at(p.idx(width), width) == p by {
        let j = p.idx(width);
        assert(p.y * width + p.x < width * height) by (nonlinear_arith)
            requires
                0 <= p.x < width,
                0 <= p.y < height,
        ;
        vstd::arithmetic::div_mod::lemma_fundamental_div_mod_converse(
            j,
            width,
            p.y as int,
            p.x as int,
        );
    }
    assert(width <= width * height && height <= width * height) by (nonlinear_arith)
        requires
            width > 0,
            height > 0,
    ;
    assert forall|j: int| 0 <= j < width * height implies #[trigger] pos_at(j, width).valid(
        width,
        height,
    ) && pos_at(j, width).idx(width) == j by {
        vstd::arithmetic::div_mod::lemma_fundamental_div_mod(j, width);
        vstd::arithmetic::div_mod::lemma_mod_bound(j, width);
        vstd::arithmetic::div_mod::lemma_div_pos_is_pos(j, width);
        assert(j / width < height) by (nonlinear_arith)
            requires
                width > 0,
                height > 0,
                0 <= j < width * height,
                j == width * (j / width) + j % width,
                0 <= j % width < width,
        ;
        assert((j / width) * width == width * (j / width)) by (nonlinear_arith);
    }
}

/// Sequences indexed by position that agree at every valid position are
/// equal.
pub proof fn lemma_pointwise_eq<A>(c1: Seq<A>, c2: Seq<A>, width: int, height: int)
    requires
        width >= 0,
        height >= 0,
        width * height <= usize::MAX,
        c1.len() == width * height,
        c2.len() == width * height,
        forall|p: Position|
            p.valid(width, height) ==> c1[#[trigger] p.idx(width)] == c2[p.idx(width)],
    ensures
        c1 == c2,
{
    if width > 0 && height > 0 {
        lemma_idx_bijective(width, height);
        assert forall|j: int| 0 <= j < c1.len() implies c1[j] == c2[j] by {
            let p = pos_at(j, width);
            assert(c1[p.idx(width)] == c2[p.idx(width)]);
        }
        assert(c1 =~= c2);
    } else {
        assert(width * height == 0) by (nonlinear_arith)
            requires
                width >= 0,
                height >= 0,
                width == 0 || height == 0,
        ;
        assert(c1 =~= c2);
    }
}

} // verus!
