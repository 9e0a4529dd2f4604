//! The exact constraint-satisfaction solver.
//!
//! Over one cluster of closed cells, the enumerator explores every
//! mine/safe assignment by speculatively flagging or opening each cell in
//! turn on the shadow board, undoing each step on return.  Its contract
//! characterises the result exactly: the returned solutions are precisely
//! the assignments under which every constraining open cell gets exactly
//! its outstanding number of mines.  The decision step then reports the
//! first cell on which all solutions agree, which makes the reported move
//! correct in every mine placement consistent with the board.

use vstd::prelude::*;

use crate::cell::{CellData, CellState};
use crate::cluster::{enumerates_cluster, has_pos, opens_of, Cluster, ClusterCell};
use crate::counting::count_matching;
use crate::minefield::{BoardV, MineField};
use crate::position::{neighbours_list, Position};
use crate::shadow::{dec_open, inc_open, spec_shadow_init, ShadowCell, ShadowMinefield, ShadowV};

verus! {

/// How many of the flags `sol` places lie next to `p`: the number of
/// cluster cells assigned "mine" whose open-neighbour list holds `p`.
pub open spec fn flag_count(sol: Seq<bool>, cluster: Seq<ClusterCell>, p: Position) -> int
    decreases cluster.len(),
{
    if cluster.len() == 0 || sol.len() != cluster.len() {
        0
    } else {
        flag_count(sol.drop_last(), cluster.drop_last(), p) + if sol.last()
            && cluster.last().open_neighbours@.contains(p) {
            1int
        } else {
            0int
        }
    }
}

pub proof fn lemma_flag_count_nonneg(sol: Seq<bool>, cluster: Seq<ClusterCell>, p: Position)
    ensures
        flag_count(sol, cluster, p) >= 0,
    decreases cluster.len(),
{
    if cluster.len() > 0 && sol.len() == cluster.len() {
        lemma_flag_count_nonneg(sol.drop_last(), cluster.drop_last(), p);
    }
}

/// `sol` satisfies every constraint: each open position in `opens` has
/// exactly its outstanding mines among the cluster cells assigned "mine".
pub open spec fn is_valid_solution(
    s: ShadowV,
    opens: Seq<Position>,
    cluster: Seq<ClusterCell>,
    sol: Seq<bool>,
) -> bool {
    &&& sol.len() == cluster.len()
    &&& forall|k: int|
        0 <= k < opens.len() ==> s.mines_left_at(#[trigger] opens[k]) == flag_count(
            sol,
            cluster,
            opens[k],
        )
}

/// What the enumeration maintains of shadow, opens and remaining cluster:
/// the cluster cells are distinct closed cells whose open-neighbour lists
/// hold open cells, every listed open neighbour appears in `opens`, and
/// `opens` holds open cells only.
pub open spec fn enum_wf(s: ShadowV, opens: Seq<Position>, cluster: Seq<ClusterCell>) -> bool {
    &&& s.wf()
    &&& forall|i: int|
        0 <= i < cluster.len() ==> (#[trigger] cluster[i]).wf(s) && s.at(cluster[i].pos) is Closed
    &&& forall|i: int, j: int|
        0 <= i < cluster.len() && 0 <= j < cluster.len() && i != j ==> (#[trigger] cluster[i]).pos
            != (#[trigger] cluster[j]).pos
    &&& forall|k: int|
        0 <= k < opens.len() ==> (#[trigger] opens[k]).valid(s.width, s.height) && s.at(
            opens[k],
        ) is Open
    &&& forall|i: int, q: Position|
        0 <= i < cluster.len() && #[trigger] cluster[i].open_neighbours@.contains(q)
            ==> opens.contains(q)
}

/// The flags a solution can place next to `p` are limited by how many
/// closed neighbours `p` has outside the exclusion set `x`.
proof fn lemma_flag_count_bounded(
    s: ShadowV,
    cluster: Seq<ClusterCell>,
    sol: Seq<bool>,
    p: Position,
    x: Set<Position>,
)
    requires
        s.wf(),
        sol.len() == cluster.len(),
        p.valid(s.width, s.height),
        forall|i: int|
            0 <= i < cluster.len() ==> (#[trigger] cluster[i]).wf(s) && s.at(
                cluster[i].pos,
            ) is Closed && !x.contains(cluster[i].pos),
        forall|i: int, j: int|
            0 <= i < cluster.len() && 0 <= j < cluster.len() && i != j ==> (#[trigger] cluster[i]).pos
                != (#[trigger] cluster[j]).pos,
    ensures
        flag_count(sol, cluster, p) <= count_matching(
            neighbours_list(p, s.width, s.height),
            |q: Position| s.at(q) is Closed && !x.contains(q),
        ),
    decreases cluster.len(),
{
    let nbs = neighbours_list(p, s.width, s.height);
    let g = |q: Position| s.at(q) is Closed && !x.contains(q);
    crate::position::lemma_neighbours_props(p, s.width, s.height);
    if cluster.len() == 0 {
        crate::counting::lemma_count_bounds(nbs, g);
    } else {
        let c = cluster.last();
        let x1 = x.insert(c.pos);
        let g1 = |q: Position| s.at(q) is Closed && !x1.contains(q);
        assert(forall|i: int|
            0 <= i < cluster.len() - 1 ==> cluster.drop_last()[i] == cluster[i]);
        lemma_flag_count_bounded(s, cluster.drop_last(), sol.drop_last(), p, x1);
        assert(flag_count(sol, cluster, p) == flag_count(sol.drop_last(), cluster.drop_last(), p)
            + if sol.last() && c.open_neighbours@.contains(p) {
            1int
        } else {
            0int
        });
        if sol.last() && c.open_neighbours@.contains(p) {
            // `p` is an open neighbour of the last cell, so that cell is a
            // closed neighbour of `p` not yet excluded
            assert(c.pos.adjacent(p));
            assert(p.adjacent(c.pos));
            assert(nbs.contains(c.pos));
            assert(forall|a: Position| #[trigger] g1(a) <==> (g(a) && a != c.pos));
            crate::counting::lemma_count_remove_one(nbs, g, c.pos, g1);
            assert(count_matching(nbs, g) == 1 + count_matching(nbs, g1));
        } else {
            crate::counting::lemma_count_mono(nbs, g1, g);
        }
    }
}

/// Whether every open position listed has no mines outstanding.
fn all_opens_satisfied(shadow: &ShadowMinefield, opens: &Vec<Position>) -> (r: bool)
    requires
        shadow@.wf(),
        forall|k: int|
            0 <= k < opens@.len() ==> (#[trigger] opens@[k]).valid(shadow@.width, shadow@.height)
                && shadow@.at(opens@[k]) is Open,
    ensures
        r == (forall|k: int|
            0 <= k < opens@.len() ==> shadow@.mines_left_at(#[trigger] opens@[k]) == 0),
{
    let n = opens.len();
    let mut i: usize = 0;
    while i < n
        invariant
            shadow@.wf(),
            n == opens@.len(),
            forall|k: int|
                0 <= k < opens@.len() ==> (#[trigger] opens@[k]).valid(
                    shadow@.width,
                    shadow@.height,
                ) && shadow@.at(opens@[k]) is Open,
            0 <= i <= n,
            forall|k: int| 0 <= k < i ==> shadow@.mines_left_at(#[trigger] opens@[k]) == 0,
        decreases n - i,
    {
        let q = opens[i];
        match shadow.get_cell(&q).get_mines_left() {
            Some(left) => {
                if left != 0 {
                    return false;
                }
            },
            None => {
                proof {
                    assert(false);
                }
                return false;
            },
        }
        i = i + 1;
    }
    true
}

/// Move every partial solution from `subs` into `out`, extending each with
/// the assignment `value` for the cell just decided.  The solutions land in
/// reverse order of `subs`.
fn append_with(subs: Vec<Vec<bool>>, value: bool, out: &mut Vec<Vec<bool>>) -> (n0: usize)
    ensures
        n0 == old(out)@.len(),
        final(out)@.len() == old(out)@.len() + subs@.len(),
        forall|k: int| 0 <= k < old(out)@.len() ==> final(out)@[k] == old(out)@[k],
        forall|k: int|
            #![trigger final(out)@[k]]
            old(out)@.len() <= k < final(out)@.len() ==> (final(out)@[k])@ == (subs@[old(out)@.len()
                + subs@.len() - 1 - k])@.push(value),
{
    let ghost subs0 = subs@;
    let ghost out0 = out@;
    let n0 = out.len();
    let mut subs = subs;
    while subs.len() > 0
        invariant
            n0 == out0.len(),
            subs@.len() <= subs0.len(),
            forall|j: int| 0 <= j < subs@.len() ==> subs@[j] == subs0[j],
            out@.len() == out0.len() + (subs0.len() - subs@.len()),
            forall|k: int| 0 <= k < out0.len() ==> out@[k] == out0[k],
            forall|k: int|
                #![trigger out@[k]]
                out0.len() <= k < out@.len() ==> (out@[k])@ == (subs0[out0.len() + subs0.len() - 1
                    - k])@.push(value),
        decreases subs@.len(),
    {
        let ghost j = subs@.len() - 1;
        let mut sub = subs.pop().unwrap();
        sub.push(value);
        out.push(sub);
        proof {
            assert(out@[out@.len() - 1]@ == (subs0[j])@.push(value));
        }
    }
    n0
}


/// After a successful speculative flag on `cell`, the remaining search
/// problem is exactly the old one restricted to solutions assigning `cell`
/// a mine.
proof fn lemma_flag_shift(
    s0: ShadowV,
    s1: ShadowV,
    cell: ClusterCell,
    tail: Seq<ClusterCell>,
    cl0: Seq<ClusterCell>,
    opens: Seq<Position>,
)
    requires
        enum_wf(s0, opens, cl0),
        cl0 == tail.push(cell),
        s1.wf(),
        s1.width == s0.width,
        s1.height == s0.height,
        forall|q: Position| #[trigger] cell.open_neighbours@.contains(q) ==> s0.mines_left_at(q) >= 1,
        s1.at(cell.pos) == ShadowCell::ShadowFlagged,
        forall|q: Position|
            q.valid(s0.width, s0.height) && q != cell.pos ==> #[trigger] s1.at(q) == (if cell
                .open_neighbours@.contains(q) {
                dec_open(s0.at(q))
            } else {
                s0.at(q)
            }),
    ensures
        enum_wf(s1, opens, tail),
        forall|sol: Seq<bool>|
            #![trigger is_valid_solution(s1, opens, tail, sol)]
            #![trigger is_valid_solution(s0, opens, cl0, sol.push(true))]
            sol.len() == tail.len() ==> (is_valid_solution(s1, opens, tail, sol)
                <==> is_valid_solution(s0, opens, cl0, sol.push(true))),
{
    assert(cl0[cl0.len() - 1] == cell);
    assert(cell.wf(s0) && s0.at(cell.pos) is Closed);
    assert(forall|i: int| 0 <= i < tail.len() ==> cl0[i] == tail[i]);
    assert forall|i: int| 0 <= i < tail.len() implies (#[trigger] tail[i]).wf(s1) && s1.at(
        tail[i].pos,
    ) is Closed by {
        assert(cl0[i] == tail[i]);
        assert(tail[i].pos != cell.pos);
        assert(!cell.open_neighbours@.contains(tail[i].pos));
        assert(s1.at(tail[i].pos) == s0.at(tail[i].pos));
        assert forall|q: Position| #[trigger] tail[i].open_neighbours@.contains(q) implies q.valid(
            s1.width,
            s1.height,
        ) && tail[i].pos.adjacent(q) && s1.at(q) is Open by {
            assert(q != cell.pos);
        }
    }
    assert forall|k: int| 0 <= k < opens.len() implies (#[trigger] opens[k]).valid(
        s1.width,
        s1.height,
    ) && s1.at(opens[k]) is Open by {
        assert(opens[k] != cell.pos);
    }
    assert forall|i: int, q: Position|
        0 <= i < tail.len() && #[trigger] tail[i].open_neighbours@.contains(q) implies opens
        .contains(q) by {
        assert(cl0[i] == tail[i]);
        assert(cl0[i].open_neighbours@.contains(q));
    }
    assert forall|k: int| 0 <= k < opens.len() implies s1.mines_left_at(#[trigger] opens[k]) == s0
        .mines_left_at(opens[k]) - (if cell.open_neighbours@.contains(opens[k]) {
        1int
    } else {
        0int
    }) by {
        assert(opens[k] != cell.pos);
    }
    assert forall|sol: Seq<bool>| sol.len() == tail.len() implies (is_valid_solution(
        s1,
        opens,
        tail,
        sol,
    ) <==> is_valid_solution(s0, opens, cl0, sol.push(true))) by {
        let full = sol.push(true);
        assert(full.drop_last() =~= sol);
        assert(cl0.drop_last() =~= tail);
        assert(full.last());
        assert(cl0.last() == cell);
        assert forall|k: int| 0 <= k < opens.len() implies flag_count(
            full,
            cl0,
            #[trigger] opens[k],
        ) == flag_count(sol, tail, opens[k]) + (if cell.open_neighbours@.contains(opens[k]) {
            1int
        } else {
            0int
        }) by {}
    }
}

/// After a successful speculative open on `cell`, the remaining search
/// problem is exactly the old one restricted to solutions marking `cell`
/// safe.
proof fn lemma_open_shift(
    s0: ShadowV,
    s3: ShadowV,
    cell: ClusterCell,
    tail: Seq<ClusterCell>,
    cl0: Seq<ClusterCell>,
    opens: Seq<Position>,
)
    requires
        enum_wf(s0, opens, cl0),
        cl0 == tail.push(cell),
        s3.wf(),
        s3.width == s0.width,
        s3.height == s0.height,
        s3.at(cell.pos) == ShadowCell::ShadowOpen,
        forall|q: Position|
            q.valid(s0.width, s0.height) && q != cell.pos ==> #[trigger] s3.at(q) == s0.at(q),
    ensures
        enum_wf(s3, opens, tail),
        forall|sol: Seq<bool>|
            #![trigger is_valid_solution(s3, opens, tail, sol)]
            #![trigger is_valid_solution(s0, opens, cl0, sol.push(false))]
            sol.len() == tail.len() ==> (is_valid_solution(s3, opens, tail, sol)
                <==> is_valid_solution(s0, opens, cl0, sol.push(false))),
{
    assert(cl0[cl0.len() - 1] == cell);
    assert(cell.wf(s0) && s0.at(cell.pos) is Closed);
    assert(forall|i: int| 0 <= i < tail.len() ==> cl0[i] == tail[i]);
    assert forall|i: int| 0 <= i < tail.len() implies (#[trigger] tail[i]).wf(s3) && s3.at(
        tail[i].pos,
    ) is Closed by {
        assert(cl0[i] == tail[i]);
        assert(tail[i].pos != cell.pos);
        assert(s3.at(tail[i].pos) == s0.at(tail[i].pos));
        assert forall|q: Position| #[trigger] tail[i].open_neighbours@.contains(q) implies q.valid(
            s3.width,
            s3.height,
        ) && tail[i].pos.adjacent(q) && s3.at(q) is Open by {
            assert(q != cell.pos);
        }
    }
    assert forall|k: int| 0 <= k < opens.len() implies (#[trigger] opens[k]).valid(
        s3.width,
        s3.height,
    ) && s3.at(opens[k]) is Open && s3.mines_left_at(opens[k]) == s0.mines_left_at(opens[k]) by {
        assert(opens[k] != cell.pos);
    }
    assert forall|i: int, q: Position|
        0 <= i < tail.len() && #[trigger] tail[i].open_neighbours@.contains(q) implies opens
        .contains(q) by {
        assert(cl0[i] == tail[i]);
        assert(cl0[i].open_neighbours@.contains(q));
    }
    assert forall|sol: Seq<bool>| sol.len() == tail.len() implies (is_valid_solution(
        s3,
        opens,
        tail,
        sol,
    ) <==> is_valid_solution(s0, opens, cl0, sol.push(false))) by {
        let full = sol.push(false);
        assert(full.drop_last() =~= sol);
        assert(cl0.drop_last() =~= tail);
        assert(!full.last());
        assert forall|k: int| 0 <= k < opens.len() implies flag_count(
            full,
            cl0,
            #[trigger] opens[k],
        ) == flag_count(sol, tail, opens[k]) by {}
    }
}

/// If some open neighbour of `cell` has no mine outstanding, no valid
/// solution can assign `cell` a mine.
proof fn lemma_flag_fail(
    s0: ShadowV,
    cell: ClusterCell,
    cl0: Seq<ClusterCell>,
    opens: Seq<Position>,
    q0: Position,
)
    requires
        enum_wf(s0, opens, cl0),
        cl0.len() > 0,
        cl0.last() == cell,
        cell.open_neighbours@.contains(q0),
        s0.mines_left_at(q0) == 0,
    ensures
        forall|sol: Seq<bool>|
            sol.len() == cl0.len() && (#[trigger] sol.last()) ==> !is_valid_solution(
                s0,
                opens,
                cl0,
                sol,
            ),
{
    assert(opens.contains(q0)) by {
        assert(cl0[cl0.len() - 1].open_neighbours@.contains(q0));
    }
    let k0 = choose|k: int| 0 <= k < opens.len() && opens[k] == q0;
    assert forall|sol: Seq<bool>|
        sol.len() == cl0.len() && (#[trigger] sol.last()) implies !is_valid_solution(
        s0,
        opens,
        cl0,
        sol,
    ) by {
        lemma_flag_count_nonneg(sol.drop_last(), cl0.drop_last(), q0);
        assert(flag_count(sol, cl0, q0) >= 1);
        if is_valid_solution(s0, opens, cl0, sol) {
            assert(s0.mines_left_at(opens[k0]) == flag_count(sol, cl0, opens[k0]));
        }
    }
}

/// If some open neighbour of `cell` still needs more mines than its other
/// closed neighbours could hold, no valid solution can mark `cell` safe.
proof fn lemma_open_fail(
    s0: ShadowV,
    cell: ClusterCell,
    cl0: Seq<ClusterCell>,
    opens: Seq<Position>,
    q0: Position,
)
    requires
        enum_wf(s0, opens, cl0),
        cl0.len() > 0,
        cl0.last() == cell,
        cell.open_neighbours@.contains(q0),
        s0.mines_left_at(q0) > 0,
        s0.closed_nb_count(q0) <= s0.mines_left_at(q0),
    ensures
        forall|sol: Seq<bool>|
            sol.len() == cl0.len() && !(#[trigger] sol.last()) ==> !is_valid_solution(
                s0,
                opens,
                cl0,
                sol,
            ),
{
    assert(cl0[cl0.len() - 1] == cell);
    assert(cell.wf(s0));
    assert(q0.valid(s0.width, s0.height));
    assert(opens.contains(q0)) by {
        assert(cl0[cl0.len() - 1].open_neighbours@.contains(q0));
    }
    let k0 = choose|k: int| 0 <= k < opens.len() && opens[k] == q0;
    let tail = cl0.drop_last();
    let x = Set::<Position>::empty().insert(cell.pos);
    let f = |q: Position| s0.at(q) is Closed;
    let g = |q: Position| s0.at(q) is Closed && !x.contains(q);
    let nbs = neighbours_list(q0, s0.width, s0.height);
    crate::position::lemma_neighbours_props(q0, s0.width, s0.height);
    assert(cell.pos.adjacent(q0));
    assert(q0.adjacent(cell.pos));
    assert(nbs.contains(cell.pos));
    assert(f(cell.pos));
    assert(forall|a: Position| #[trigger] g(a) <==> (f(a) && a != cell.pos));
    crate::counting::lemma_count_remove_one(nbs, f, cell.pos, g);
    assert(count_matching(nbs, g) == s0.closed_nb_count(q0) - 1);
    assert forall|sol: Seq<bool>|
        sol.len() == cl0.len() && !(#[trigger] sol.last()) implies !is_valid_solution(
        s0,
        opens,
        cl0,
        sol,
    ) by {
        assert(forall|i: int| 0 <= i < tail.len() ==> tail[i] == cl0[i]);
        assert forall|i: int| 0 <= i < tail.len() implies (#[trigger] tail[i]).wf(s0) && s0.at(
            tail[i].pos,
        ) is Closed && !x.contains(tail[i].pos) by {
            assert(cl0[i] == tail[i]);
            assert(tail[i].pos != cell.pos);
        }
        lemma_flag_count_bounded(s0, tail, sol.drop_last(), q0, x);
        assert(flag_count(sol, cl0, q0) == flag_count(sol.drop_last(), tail, q0));
        assert(flag_count(sol, cl0, q0) <= s0.closed_nb_count(q0) - 1);
        if is_valid_solution(s0, opens, cl0, sol) {
            assert(s0.mines_left_at(opens[k0]) == flag_count(sol, cl0, opens[k0]));
        }
    }
}

/// A flag followed by its unflag restores the shadow exactly.
proof fn lemma_unflag_restores(s0: ShadowV, s1: ShadowV, s2: ShadowV, cell: ClusterCell)
    requires
        s0.wf(),
        s1.wf(),
        s2.wf(),
        s1.width == s0.width && s1.height == s0.height,
        s2.width == s0.width && s2.height == s0.height,
        cell.wf(s0),
        s0.at(cell.pos) is Closed,
        forall|q: Position| #[trigger] cell.open_neighbours@.contains(q) ==> s0.mines_left_at(q) >= 1,
        s1.at(cell.pos) == ShadowCell::ShadowFlagged,
        forall|q: Position|
            q.valid(s0.width, s0.height) && q != cell.pos ==> #[trigger] s1.at(q) == (if cell
                .open_neighbours@.contains(q) {
                dec_open(s0.at(q))
            } else {
                s0.at(q)
            }),
        s2.at(cell.pos) == ShadowCell::Closed,
        forall|q: Position|
            q.valid(s0.width, s0.height) && q != cell.pos ==> #[trigger] s2.at(q) == (if cell
                .open_neighbours@.contains(q) {
                inc_open(s1.at(q))
            } else {
                s1.at(q)
            }),
    ensures
        s2 == s0,
{
    assert forall|p: Position| p.valid(s0.width, s0.height) implies s2.cells[#[trigger] p.idx(
        s0.width,
    )] == s0.cells[p.idx(s0.width)] by {
        assert(s2.at(p) == s2.cells[p.idx(s0.width)]);
        assert(s0.at(p) == s0.cells[p.idx(s0.width)]);
        if p == cell.pos {
            assert(s2.at(p) == s0.at(p));
        } else if cell.open_neighbours@.contains(p) {
            assert(s0.mines_left_at(p) >= 1);
            assert(s2.at(p) == inc_open(dec_open(s0.at(p))));
            assert(s2.at(p) == s0.at(p));
        } else {
            assert(s2.at(p) == s0.at(p));
        }
    }
    crate::position::lemma_pointwise_eq(
        s2.cells,
        s0.cells,
        s0.width,
        s0.height,
    );
}

/// An open followed by its unopen restores the shadow exactly.
proof fn lemma_unopen_restores(s0: ShadowV, s3: ShadowV, s4: ShadowV, cell: ClusterCell)
    requires
        s0.wf(),
        s3.wf(),
        s4.wf(),
        s3.width == s0.width && s3.height == s0.height,
        s4.width == s0.width && s4.height == s0.height,
        cell.pos.valid(s0.width, s0.height),
        s0.at(cell.pos) is Closed,
        s3.at(cell.pos) == ShadowCell::ShadowOpen,
        forall|q: Position|
            q.valid(s0.width, s0.height) && q != cell.pos ==> #[trigger] s3.at(q) == s0.at(q),
        s4.at(cell.pos) == ShadowCell::Closed,
        forall|q: Position|
            q.valid(s0.width, s0.height) && q != cell.pos ==> #[trigger] s4.at(q) == s3.at(q),
    ensures
        s4 == s0,
{
    assert forall|p: Position| p.valid(s0.width, s0.height) implies s4.cells[#[trigger] p.idx(
        s0.width,
    )] == s0.cells[p.idx(s0.width)] by {
        assert(s4.at(p) == s4.cells[p.idx(s0.width)]);
        assert(s0.at(p) == s0.cells[p.idx(s0.width)]);
    }
    crate::position::lemma_pointwise_eq(
        s4.cells,
        s0.cells,
        s0.width,
        s0.height,
    );
}


/// Depth-first enumeration of every assignment of mine/safe to the
/// cluster's cells that satisfies all constraints.
///
/// The shadow board is mutated speculatively, one cell per recursion
/// frame, and restored exactly before returning; the cluster vector is
/// likewise restored.  The returned set holds precisely the valid
/// solutions - no unsound entry, no omission, no duplicate.
#[verifier::rlimit(100)]
#[verifier::spinoff_prover]
pub fn generate_suitable_cluster_solutions(
    shadow_minefield: &mut ShadowMinefield,
    open_positions: &Vec<Position>,
    cluster: &mut Vec<ClusterCell>,
) -> (solutions: Vec<Vec<bool>>)
    requires
        enum_wf(old(shadow_minefield)@, open_positions@, old(cluster)@),
    ensures
        final(shadow_minefield)@ == old(shadow_minefield)@,
        final(cluster)@ == old(cluster)@,
        forall|k: int|
            0 <= k < solutions@.len() ==> is_valid_solution(
                old(shadow_minefield)@,
                open_positions@,
                old(cluster)@,
                (#[trigger] solutions@[k])@,
            ),
        forall|sol: Seq<bool>|
            #[trigger] is_valid_solution(old(shadow_minefield)@, open_positions@, old(cluster)@, sol)
                ==> exists|k: int| 0 <= k < solutions@.len() && (#[trigger] solutions@[k])@ == sol,
        forall|k1: int, k2: int|
            0 <= k1 < solutions@.len() && 0 <= k2 < solutions@.len() && k1 != k2 ==> (
            #[trigger] solutions@[k1])@ != (#[trigger] solutions@[k2])@,
    decreases old(cluster)@.len(),
{
    let ghost s0 = shadow_minefield@;
    let ghost cl0 = cluster@;
    let ghost opens = open_positions@;
    let popped = cluster.pop();
    match popped {
        None => {
            proof {
                assert(cl0.len() == 0);
            }
            if all_opens_satisfied(shadow_minefield, open_positions) {
                let mut solutions: Vec<Vec<bool>> = Vec::new();
                let empty_sol: Vec<bool> = Vec::new();
                solutions.push(empty_sol);
                proof {
                    assert(solutions@[0]@ =~= Seq::<bool>::empty());
                    assert(is_valid_solution(s0, opens, cl0, solutions@[0]@));
                    assert forall|sol: Seq<bool>|
                        #[trigger] is_valid_solution(s0, opens, cl0, sol) implies exists|k: int|
                        0 <= k < solutions@.len() && (#[trigger] solutions@[k])@ == sol by {
                        assert(sol.len() == 0);
                        assert(sol =~= solutions@[0]@);
                        assert((solutions@[0])@ == sol);
                    }
                }
                solutions
            } else {
                let solutions: Vec<Vec<bool>> = Vec::new();
                proof {
                    let k0 = choose|k: int|
                        0 <= k < opens.len() && s0.mines_left_at(#[trigger] opens[k]) != 0;
                    assert forall|sol: Seq<bool>|
                        #[trigger] is_valid_solution(s0, opens, cl0, sol) implies false by {
                        assert(flag_count(sol, cl0, opens[k0]) == 0);
                        assert(s0.mines_left_at(opens[k0]) == flag_count(sol, cl0, opens[k0]));
                    }
                }
                solutions
            }
        },
        Some(cell) => {
            let ghost tail = cluster@;
            proof {
                assert(cl0.len() > 0);
                assert(cl0.last() == cell);
                assert(tail =~= cl0.drop_last());
                assert(cl0 =~= tail.push(cell));
                assert(cl0[cl0.len() - 1] == cell);
                assert(cell.wf(s0) && s0.at(cell.pos) is Closed);
            }
            let mut solutions: Vec<Vec<bool>> = Vec::new();
            let ghost mut s1 = s0;
            let ghost mut subs_t: Seq<Vec<bool>> = Seq::empty();
            let flagged = shadow_minefield.flag(&cell);
            if flagged {
                proof {
                    s1 = shadow_minefield@;
                    lemma_flag_shift(s0, s1, cell, tail, cl0, opens);
                }
                let subs = generate_suitable_cluster_solutions(
                    shadow_minefield,
                    open_positions,
                    cluster,
                );
                proof {
                    subs_t = subs@;
                }
                let ghost s1b = shadow_minefield@;
                append_with(subs, true, &mut solutions);
                proof {
                    crate::position::lemma_idx_bijective(s0.width, s0.height);
                    assert forall|q: Position|
                        #[trigger] cell.open_neighbours@.contains(q) implies (s1b.at(q)
                        matches ShadowCell::Open { mines, mines_left } && mines_left < mines) by {
                        assert(q != cell.pos);
                        assert(s1b.at(q) == dec_open(s0.at(q)));
                        assert(s0.mines_left_at(q) >= 1);
                        assert(s0.cells[q.idx(s0.width)] == s0.at(q));
                    }
                }
                shadow_minefield.unflag(&cell);
                proof {
                    lemma_unflag_restores(s0, s1b, shadow_minefield@, cell);
                }
            }
            let ghost n_flag = solutions@.len() as int;
            let ghost sols_mid = solutions@;
            let ghost mut s3 = s0;
            let ghost mut subs_o: Seq<Vec<bool>> = Seq::empty();
            let opened = shadow_minefield.open(&cell);
            if opened {
                proof {
                    s3 = shadow_minefield@;
                    lemma_open_shift(s0, s3, cell, tail, cl0, opens);
                }
                let subs = generate_suitable_cluster_solutions(
                    shadow_minefield,
                    open_positions,
                    cluster,
                );
                proof {
                    subs_o = subs@;
                }
                let ghost s3b = shadow_minefield@;
                append_with(subs, false, &mut solutions);
                shadow_minefield.unopen(&cell);
                proof {
                    lemma_unopen_restores(s0, s3b, shadow_minefield@, cell);
                }
            }
            cluster.push(cell);
            proof {
                assert(cluster@ =~= cl0);
                // soundness: every collected entry is a valid full solution
                assert forall|k: int| 0 <= k < solutions@.len() implies is_valid_solution(
                    s0,
                    opens,
                    cl0,
                    (#[trigger] solutions@[k])@,
                ) by {
                    if k < n_flag {
                        let j = n_flag - 1 - k;
                        assert((solutions@[k])@ == (subs_t[j])@.push(true));
                        assert(is_valid_solution(s1, opens, tail, (subs_t[j])@));
                    } else {
                        let j = n_flag + subs_o.len() - 1 - k;
                        assert((solutions@[k])@ == (subs_o[j])@.push(false));
                        assert(is_valid_solution(s3, opens, tail, (subs_o[j])@));
                    }
                }
                // completeness: every valid full solution was collected
                assert forall|sol: Seq<bool>|
                    #[trigger] is_valid_solution(s0, opens, cl0, sol) implies exists|k: int|
                    0 <= k < solutions@.len() && (#[trigger] solutions@[k])@ == sol by {
                    assert(sol.len() == cl0.len());
                    let dl = sol.drop_last();
                    assert(dl.push(sol.last()) =~= sol);
                    if sol.last() {
                        if !flagged {
                            let q0 = choose|q: Position|
                                #[trigger] cell.open_neighbours@.contains(q)
                                    && !(s0.mines_left_at(q) >= 1);
                            assert(s0.mines_left_at(q0) == 0);
                            lemma_flag_fail(s0, cell, cl0, opens, q0);
                            assert(false);
                        }
                        assert(is_valid_solution(s0, opens, cl0, dl.push(true)));
                        assert(is_valid_solution(s1, opens, tail, dl));
                        let j = choose|j: int| 0 <= j < subs_t.len() && (#[trigger] subs_t[j])@ == dl;
                        let k = n_flag - 1 - j;
                        assert((solutions@[k])@ == (subs_t[j])@.push(true));
                        assert((solutions@[k])@ == sol);
                    } else {
                        if !opened {
                            let q0 = choose|q: Position|
                                #[trigger] cell.open_neighbours@.contains(q)
                                    && s0.mines_left_at(q) > 0 && s0.closed_nb_count(q)
                                    <= s0.mines_left_at(q);
                            lemma_open_fail(s0, cell, cl0, opens, q0);
                            assert(false);
                        }
                        assert(is_valid_solution(s0, opens, cl0, dl.push(false)));
                        assert(is_valid_solution(s3, opens, tail, dl));
                        let j = choose|j: int| 0 <= j < subs_o.len() && (#[trigger] subs_o[j])@ == dl;
                        let k = n_flag + subs_o.len() - 1 - j;
                        assert((solutions@[k])@ == (subs_o[j])@.push(false));
                        assert((solutions@[k])@ == sol);
                    }
                }
                // no duplicates: the two branches end in different values,
                // and each branch's sub-solutions are distinct
                assert forall|k1: int, k2: int|
                    0 <= k1 < solutions@.len() && 0 <= k2 < solutions@.len() && k1 != k2 implies (
                #[trigger] solutions@[k1])@ != (#[trigger] solutions@[k2])@ by {
                    if k1 < n_flag && k2 < n_flag {
                        let j1 = n_flag - 1 - k1;
                        let j2 = n_flag - 1 - k2;
                        assert((solutions@[k1])@ == (subs_t[j1])@.push(true));
                        assert((solutions@[k2])@ == (subs_t[j2])@.push(true));
                        assert((subs_t[j1])@ != (subs_t[j2])@);
                        assert((subs_t[j1])@.push(true).drop_last() =~= (subs_t[j1])@);
                        assert((subs_t[j2])@.push(true).drop_last() =~= (subs_t[j2])@);
                    } else if k1 >= n_flag && k2 >= n_flag {
                        let j1 = n_flag + subs_o.len() - 1 - k1;
                        let j2 = n_flag + subs_o.len() - 1 - k2;
                        assert((solutions@[k1])@ == (subs_o[j1])@.push(false));
                        assert((solutions@[k2])@ == (subs_o[j2])@.push(false));
                        assert((subs_o[j1])@ != (subs_o[j2])@);
                        assert((subs_o[j1])@.push(false).drop_last() =~= (subs_o[j1])@);
                        assert((subs_o[j2])@.push(false).drop_last() =~= (subs_o[j2])@);
                    } else if k1 < n_flag {
                        let j1 = n_flag - 1 - k1;
                        let j2 = n_flag + subs_o.len() - 1 - k2;
                        assert((solutions@[k1])@ == (subs_t[j1])@.push(true));
                        assert((solutions@[k2])@ == (subs_o[j2])@.push(false));
                        assert((solutions@[k1])@.last() != (solutions@[k2])@.last());
                    } else {
                        let j1 = n_flag + subs_o.len() - 1 - k1;
                        let j2 = n_flag - 1 - k2;
                        assert((solutions@[k1])@ == (subs_o[j1])@.push(false));
                        assert((solutions@[k2])@ == (subs_t[j2])@.push(true));
                        assert((solutions@[k1])@.last() != (solutions@[k2])@.last());
                    }
                }
            }
            solutions
        },
    }
}


/// Every solution assigns `b` at cluster index `i`.
pub open spec fn all_assign_spec(solutions: Seq<Vec<bool>>, i: int, b: bool) -> bool {
    forall|j: int| 0 <= j < solutions.len() ==> (#[trigger] solutions[j])@[i] == b
}

/// Cluster index `i` is unanimous: every solution agrees on its value.
pub open spec fn unanimous_at(solutions: Seq<Vec<bool>>, i: int) -> bool {
    all_assign_spec(solutions, i, true) || all_assign_spec(solutions, i, false)
}

/// Whether every solution assigns value `b` to cluster position `i`.
fn all_assign(solutions: &Vec<Vec<bool>>, i: usize, b: bool) -> (r: bool)
    requires
        forall|j: int| 0 <= j < solutions@.len() ==> i < (#[trigger] solutions@[j])@.len(),
    ensures
        r == all_assign_spec(solutions@, i as int, b),
{
    let n = solutions.len();
    let mut j: usize = 0;
    while j < n
        invariant
            n == solutions@.len(),
            forall|j2: int| 0 <= j2 < solutions@.len() ==> i < (#[trigger] solutions@[j2])@.len(),
            0 <= j <= n,
            forall|j2: int| 0 <= j2 < j ==> (#[trigger] solutions@[j2])@[i as int] == b,
        decreases n - j,
    {
        if solutions[j][i] != b {
            return false;
        }
        j = j + 1;
    }
    true
}

/// Scan the cluster in order for a cell on which every solution agrees:
/// always a mine means flag it, always safe means open it.  The first
/// unanimous index wins, mine checked before safe; an empty solution set
/// (a contradictory shadow state) yields no decision, and so does a
/// cluster with no unanimous cell.
fn find_invariant_solution(cluster: Vec<ClusterCell>, solutions: Vec<Vec<bool>>) -> (r: Option<
    (Position, bool),
>)
    requires
        forall|j: int|
            0 <= j < solutions@.len() ==> (#[trigger] solutions@[j])@.len() == cluster@.len(),
    ensures
        (r is None) <==> (solutions@.len() == 0 || (forall|i: int|
            0 <= i < cluster@.len() ==> !unanimous_at(solutions@, i))),
        r matches Some((p, b)) ==> solutions@.len() > 0 && exists|i: int|
            0 <= i < cluster@.len() && (#[trigger] cluster@[i]).pos == p && all_assign_spec(
                solutions@,
                i,
                b,
            ) && (forall|j: int| 0 <= j < i ==> !unanimous_at(solutions@, j)) && (b == false
                ==> !all_assign_spec(solutions@, i, true)),
{
    if solutions.len() == 0 {
        return None;
    }
    let n = cluster.len();
    let mut i: usize = 0;
    while i < n
        invariant
            n == cluster@.len(),
            solutions@.len() > 0,
            forall|j: int|
                0 <= j < solutions@.len() ==> (#[trigger] solutions@[j])@.len() == cluster@.len(),
            0 <= i <= n,
            forall|j: int| 0 <= j < i ==> !unanimous_at(solutions@, j),
        decreases n - i,
    {
        if all_assign(&solutions, i, true) {
            proof {
                assert(unanimous_at(solutions@, i as int));
            }
            return Some((cluster[i].pos, true));
        }
        if all_assign(&solutions, i, false) {
            proof {
                assert(unanimous_at(solutions@, i as int));
            }
            return Some((cluster[i].pos, false));
        }
        i = i + 1;
    }
    None
}

/// A count over cluster cells whose predicate depends only on the
/// assignment and the open-neighbour test equals `flag_count`.
proof fn lemma_flag_count_as_count(
    sol: Seq<bool>,
    cells: Seq<ClusterCell>,
    p: Position,
    fc: spec_fn(ClusterCell) -> bool,
)
    requires
        sol.len() == cells.len(),
        forall|i: int|
            0 <= i < cells.len() ==> (fc(#[trigger] cells[i]) <==> (sol[i]
                && cells[i].open_neighbours@.contains(p))),
    ensures
        flag_count(sol, cells, p) == count_matching(cells, fc),
    decreases cells.len(),
{
    if cells.len() > 0 {
        assert(forall|i: int| 0 <= i < cells.len() - 1 ==> cells.drop_last()[i] == cells[i]);
        assert(forall|i: int| 0 <= i < sol.len() - 1 ==> sol.drop_last()[i] == sol[i]);
        lemma_flag_count_as_count(sol.drop_last(), cells.drop_last(), p, fc);
        assert(cells.last() == cells[cells.len() - 1]);
        assert(sol.last() == sol[sol.len() - 1]);
    }
}

/// A count over cluster cells whose predicate depends only on the cell's
/// position equals the same count over the sequence of positions.
proof fn lemma_count_map_pos(
    cells: Seq<ClusterCell>,
    fc: spec_fn(ClusterCell) -> bool,
    fp: spec_fn(Position) -> bool,
)
    requires
        forall|i: int| 0 <= i < cells.len() ==> (fc(#[trigger] cells[i]) <==> fp(cells[i].pos)),
    ensures
        count_matching(cells, fc) == count_matching(
            cells.map_values(|c: ClusterCell| c.pos),
            fp,
        ),
    decreases cells.len(),
{
    let m = cells.map_values(|c: ClusterCell| c.pos);
    if cells.len() == 0 {
        assert(m.len() == 0);
    } else {
        assert(forall|i: int| 0 <= i < cells.len() - 1 ==> cells.drop_last()[i] == cells[i]);
        lemma_count_map_pos(cells.drop_last(), fc, fp);
        assert(cells.drop_last().map_values(|c: ClusterCell| c.pos) =~= m.drop_last());
        assert(m.last() == cells.last().pos);
        assert(cells.last() == cells[cells.len() - 1]);
    }
}

/// Any mine assignment consistent with the board, restricted to the
/// cluster, is a valid solution of the enumeration problem the fresh
/// shadow poses.
#[verifier::rlimit(100)]
#[verifier::spinoff_prover]
proof fn lemma_world_solution(
    v: BoardV,
    s: ShadowV,
    cells: Seq<ClusterCell>,
    opens: Seq<Position>,
    w: Seq<bool>,
)
    requires
        v.wf(),
        v.flags_bounded(),
        s.wf(),
        s.matches_board(v),
        v.consistent_world(w),
        forall|i: int|
            0 <= i < cells.len() ==> (#[trigger] cells[i]).exact(s) && s.at(cells[i].pos) is Closed,
        forall|i: int, j: int|
            0 <= i < cells.len() && 0 <= j < cells.len() && i != j ==> (#[trigger] cells[i]).pos
                != (#[trigger] cells[j]).pos,
        forall|q: Position| #[trigger] opens.contains(q) <==> opens_of(cells, q),
        forall|q: Position, c: Position|
            #[trigger] opens.contains(q) && c.valid(s.width, s.height) && q.adjacent(c)
                && #[trigger] s.at(c) is Closed ==> has_pos(cells, c),
    ensures
        is_valid_solution(
            s,
            opens,
            cells,
            Seq::new(cells.len(), |i: int| w[cells[i].pos.idx(v.width)]),
        ),
{
    let sol_w = Seq::new(cells.len(), |i: int| w[cells[i].pos.idx(v.width)]);
    assert forall|k: int| 0 <= k < opens.len() implies s.mines_left_at(#[trigger] opens[k])
        == flag_count(sol_w, cells, opens[k]) by {
        let p = opens[k];
        assert(opens.contains(p));
        crate::position::lemma_idx_bijective(v.width, v.height);
        let i0 = choose|i: int|
            0 <= i < cells.len() && (#[trigger] cells[i]).open_neighbours@.contains(p);
        assert(p.valid(s.width, s.height) && s.at(p) is Open);
        // the shadow's live counter at p is the shown count minus the real
        // flags around p
        assert(s.at(p) == spec_shadow_init(v, p));
        assert(v.state_at(p) == CellState::Open);
        let nbs = neighbours_list(p, v.width, v.height);
        crate::position::lemma_neighbours_props(p, v.width, v.height);
        crate::counting::lemma_count_bounds(nbs, |q: Position| v.mines[q.idx(v.width)]);
        crate::counting::lemma_count_bounds(
            nbs,
            |q: Position| v.states[q.idx(v.width)] == CellState::Flagged,
        );
        assert(s.mines_left_at(p) == v.shown_count(p) - v.flagged_nb_count(p));
        // in world w, the mines among p's closed neighbours are exactly
        // the mines it still has outstanding
        crate::minefield::lemma_world_closed_count(v, p, w);
        let f_closed_w = |q: Position| v.states[q.idx(v.width)] == CellState::Closed && w[q.idx(
            v.width,
        )];
        assert(count_matching(nbs, f_closed_w) == s.mines_left_at(p));
        // the closed neighbours carrying a mine in w are exactly the
        // cluster cells adjacent to p that sol_w assigns a mine
        let fc = |c: ClusterCell| w[c.pos.idx(v.width)] && c.open_neighbours@.contains(p);
        let fp = |q: Position| w[q.idx(v.width)] && q.adjacent(p) && s.at(q) is Closed;
        assert forall|i: int| 0 <= i < cells.len() implies (fc(#[trigger] cells[i]) <==> (sol_w[i]
            && cells[i].open_neighbours@.contains(p))) by {}
        lemma_flag_count_as_count(sol_w, cells, p, fc);
        assert forall|i: int| 0 <= i < cells.len() implies (fc(#[trigger] cells[i]) <==> fp(
            cells[i].pos,
        )) by {
            if cells[i].open_neighbours@.contains(p) {
                assert(cells[i].pos.adjacent(p));
            }
            if fp(cells[i].pos) {
                assert(cells[i].exact(s));
                assert(cells[i].pos.adjacent(p));
                assert(cells[i].open_neighbours@.contains(p));
            }
        }
        lemma_count_map_pos(cells, fc, fp);
        let positions = cells.map_values(|c: ClusterCell| c.pos);
        assert(positions.no_duplicates()) by {
            assert forall|i: int, j: int|
                0 <= i < positions.len() && 0 <= j < positions.len() && i != j implies positions[i]
                != positions[j] by {
                assert(positions[i] == cells[i].pos);
                assert(positions[j] == cells[j].pos);
            }
        }
        assert forall|x: Position| (positions.contains(x) && fp(x)) <==> (nbs.contains(x)
            && f_closed_w(x)) by {
            if positions.contains(x) && fp(x) {
                let i = choose|i: int| 0 <= i < positions.len() && #[trigger] positions[i] == x;
                assert(cells[i].pos == x);
                assert(x.valid(s.width, s.height));
                assert(p.adjacent(x));
                assert(nbs.contains(x));
                assert(s.at(x) == spec_shadow_init(v, x));
                assert(v.states[x.idx(v.width)] == CellState::Closed);
            }
            if nbs.contains(x) && f_closed_w(x) {
                assert(x.valid(v.width, v.height) && p.adjacent(x));
                assert(s.at(x) == spec_shadow_init(v, x));
                assert(s.at(x) is Closed);
                assert(has_pos(cells, x));
                let i = choose|i: int| 0 <= i < cells.len() && (#[trigger] cells[i]).pos == x;
                assert(positions[i] == x);
                assert(positions.contains(x));
                assert(x.adjacent(p));
            }
        }
        crate::counting::lemma_count_equal_sets(positions, fp, nbs, f_closed_w);
    }
}


/// The cluster around `start` forces `p` to the value `b`: for every
/// faithful enumeration of that cluster, the solution set is nonempty,
/// `p` is one of the cluster's cells, and every solution assigns it `b`.
pub open spec fn cluster_forces(s: ShadowV, start: Position, p: Position, b: bool) -> bool {
    forall|cells: Seq<ClusterCell>, opens: Seq<Position>|
        #[trigger] enumerates_cluster(s, start, cells, opens) ==> ({
            &&& exists|sol: Seq<bool>| is_valid_solution(s, opens, cells, sol)
            &&& has_pos(cells, p)
            &&& forall|i: int, sol: Seq<bool>|
                0 <= i < cells.len() && (#[trigger] cells[i]).pos == p
                    && #[trigger] is_valid_solution(s, opens, cells, sol) ==> sol[i] == b
        })
}

/// `p` is a unanimous cell of the cluster around `start`: some faithful
/// enumeration of that cluster has `p` among its cells, a nonempty
/// solution set, and every solution assigning `p` the value `b`.
pub open spec fn decided_by(s: ShadowV, start: Position, p: Position, b: bool) -> bool {
    exists|cells: Seq<ClusterCell>, opens: Seq<Position>, i: int|
        #![trigger enumerates_cluster(s, start, cells, opens), cells[i]]
        {
            &&& enumerates_cluster(s, start, cells, opens)
            &&& 0 <= i < cells.len()
            &&& cells[i].pos == p
            &&& exists|sol: Seq<bool>| is_valid_solution(s, opens, cells, sol)
            &&& forall|sol: Seq<bool>|
                #[trigger] is_valid_solution(s, opens, cells, sol) ==> sol[i] == b
        }
}

/// Build the cluster around `initial_pos`, enumerate its solutions, and
/// return the first unanimous decision, if any.
fn build_cluster_and_find_move(
    shadow_minefield: &mut ShadowMinefield,
    initial_pos: Position,
    Ghost(v): Ghost<BoardV>,
) -> (r: Option<(Position, bool)>)
    requires
        v.wf(),
        v.flags_bounded(),
        old(shadow_minefield)@.wf(),
        old(shadow_minefield)@.matches_board(v),
        initial_pos.valid(v.width, v.height),
        v.state_at(initial_pos) == CellState::Open,
    ensures
        final(shadow_minefield)@ == old(shadow_minefield)@,
        r matches Some((p, b)) ==> p.valid(v.width, v.height) && v.state_at(p) == CellState::Closed
            && (forall|w: Seq<bool>| v.consistent_world(w) ==> w[p.idx(v.width)] == b)
            && crate::cluster::walk_reaches(old(shadow_minefield)@, initial_pos, p) && decided_by(
            old(shadow_minefield)@,
            initial_pos,
            p,
            b,
        ),
        r is None ==> forall|p: Position, b: bool|
            !(#[trigger] cluster_forces(old(shadow_minefield)@, initial_pos, p, b)),
        crate::cluster::no_closed_around(old(shadow_minefield)@, initial_pos) ==> r is None,
{
    let ghost s0 = shadow_minefield@;
    proof {
        assert(s0.at(initial_pos) == spec_shadow_init(v, initial_pos));
    }
    let cluster = Cluster::from(shadow_minefield, initial_pos);
    let Cluster { closed_positions: mut cells, open_positions } = cluster;
    let ghost cellsv = cells@;
    let ghost opens = open_positions@;
    proof {
        assert(crate::cluster::enumerates_cluster(s0, initial_pos, cellsv, opens));
    }
    if cells.len() == 0 {
        proof {
            // the empty cluster is itself a faithful enumeration, and it
            // holds no cell at all, so nothing is forced here
            assert forall|p: Position, b: bool|
                !(#[trigger] cluster_forces(s0, initial_pos, p, b)) by {
                if cluster_forces(s0, initial_pos, p, b) {
                    assert(has_pos(cellsv, p));
                    let i = choose|i: int|
                        0 <= i < cellsv.len() && (#[trigger] cellsv[i]).pos == p;
                    assert(false);
                }
            }
        }
        return None;
    }
    proof {
        // the cluster's guarantees give the enumerator what it requires
        assert forall|k: int| 0 <= k < opens.len() implies (#[trigger] opens[k]).valid(
            s0.width,
            s0.height,
        ) && s0.at(opens[k]) is Open by {
            assert(opens.contains(opens[k]));
            let i = choose|i: int|
                0 <= i < cellsv.len() && (#[trigger] cellsv[i]).open_neighbours@.contains(opens[k]);
        }
        assert(enum_wf(s0, opens, cellsv));
    }
    let solutions = generate_suitable_cluster_solutions(
        shadow_minefield,
        &open_positions,
        &mut cells,
    );
    proof {
        assert forall|j: int| 0 <= j < solutions@.len() implies (#[trigger] solutions@[j])@.len()
            == cells@.len() by {
            assert(is_valid_solution(s0, opens, cellsv, (solutions@[j])@));
        }
    }
    let ghost solsv = solutions@;
    let r = find_invariant_solution(cells, solutions);
    proof {
        if r is None {
            // the decision saw the full solution set; were anything
            // forced, the forced cell's index would be unanimous
            assert forall|p: Position, b: bool|
                !(#[trigger] cluster_forces(s0, initial_pos, p, b)) by {
                if cluster_forces(s0, initial_pos, p, b) {
                    let sol0 = choose|sol: Seq<bool>| is_valid_solution(s0, opens, cellsv, sol);
                    assert(exists|k: int| 0 <= k < solsv.len() && (#[trigger] solsv[k])@ == sol0);
                    assert(solsv.len() > 0);
                    assert(has_pos(cellsv, p));
                    let i = choose|i: int|
                        0 <= i < cellsv.len() && (#[trigger] cellsv[i]).pos == p;
                    assert forall|k: int| 0 <= k < solsv.len() implies (#[trigger] solsv[k])@[i]
                        == b by {
                        assert(is_valid_solution(s0, opens, cellsv, solsv[k]@));
                    }
                    assert(all_assign_spec(solsv, i, b));
                    assert(unanimous_at(solsv, i));
                    assert(false);
                }
            }
        }
        if let Some((p, b)) = r {
            let i = choose|i: int|
                0 <= i < cellsv.len() && (#[trigger] cellsv[i]).pos == p && (forall|j: int|
                    0 <= j < solsv.len() ==> (#[trigger] solsv[j])@[i] == b);
            assert(s0.at(p) is Closed);
            assert(s0.at(p) == spec_shadow_init(v, p));
            assert(v.state_at(p) == CellState::Closed);
            assert(crate::cluster::walk_reaches(s0, initial_pos, p));
            assert(decided_by(s0, initial_pos, p, b)) by {
                assert(solsv.len() > 0);
                assert(is_valid_solution(s0, opens, cellsv, solsv[0]@));
                assert forall|sol: Seq<bool>|
                    #[trigger] is_valid_solution(s0, opens, cellsv, sol) implies sol[i] == b by {
                    let k = choose|k: int| 0 <= k < solsv.len() && (#[trigger] solsv[k])@ == sol;
                    assert(solsv[k]@[i] == b);
                }
                assert(enumerates_cluster(s0, initial_pos, cellsv, opens) && 0 <= i < cellsv.len()
                    && cellsv[i].pos == p);
            }
            assert forall|w: Seq<bool>| v.consistent_world(w) implies w[p.idx(v.width)] == b by {
                lemma_world_solution(v, s0, cellsv, opens, w);
                let sol_w = Seq::new(cellsv.len(), |i2: int| w[cellsv[i2].pos.idx(v.width)]);
                assert(is_valid_solution(s0, opens, cellsv, sol_w));
                let k = choose|k: int| 0 <= k < solsv.len() && (#[trigger] solsv[k])@ == sol_w;
                assert(solsv[k]@[i] == b);
                assert(sol_w[i] == b);
            }
        }
    }
    r
}

/// Scan the revealed numbered cells in row-major order and return the
/// first forced move the constraint solver can prove.
///
/// Any returned move is correct in every mine placement consistent with
/// what the board shows, and is a unanimous cell of the cluster of some
/// revealed cell with a positive count.  Conversely, whenever some such
/// cluster forces a cell, a move is returned; and a board with no
/// informative revealed cell (every open cell shows zero or has no closed
/// neighbour, in particular a board of only closed and flagged cells)
/// yields `None`.
pub fn find_invariant_move(game: &MineField) -> (r: Option<(Position, bool)>)
    requires
        game@.wf(),
        game@.flags_bounded(),
    ensures
        r matches Some((p, b)) ==> p.valid(game@.width, game@.height) && game@.state_at(p)
            == CellState::Closed && (forall|w: Seq<bool>|
            game@.consistent_world(w) ==> w[p.idx(game@.width)] == b),
        r matches Some((p, b)) ==> (exists|start: Position|
            start.valid(game@.width, game@.height) && game@.state_at(start) == CellState::Open
                && game@.shown_count(start) > 0 && #[trigger] decided_by(
                crate::shadow::shadow_of(game@),
                start,
                p,
                b,
            ) && crate::cluster::walk_reaches(crate::shadow::shadow_of(game@), start, p)),
        (exists|start: Position, p: Position, b: bool|
            start.valid(game@.width, game@.height) && game@.state_at(start) == CellState::Open
                && game@.shown_count(start) > 0 && #[trigger] cluster_forces(
                crate::shadow::shadow_of(game@),
                start,
                p,
                b,
            )) ==> r is Some,
        (forall|p: Position|
            p.valid(game@.width, game@.height) && #[trigger] game@.state_at(p) == CellState::Open
                ==> (game@.shown_count(p) == 0 || game@.closed_nb_count(p) == 0)) ==> r is None,
{
    let ghost v = game@;
    let ghost quiet = forall|p: Position|
        p.valid(v.width, v.height) && #[trigger] v.state_at(p) == CellState::Open ==> (
        v.shown_count(p) == 0 || v.closed_nb_count(p) == 0);
    let mut shadow_minefield = ShadowMinefield::new(game);
    let height = game.height();
    let width = game.width();
    for y in 0..height
        invariant
            v == game@,
            v.wf(),
            v.flags_bounded(),
            width == v.width,
            height == v.height,
            shadow_minefield@.wf(),
            shadow_minefield@.matches_board(v),
            quiet == (forall|p: Position|
                p.valid(v.width, v.height) && #[trigger] v.state_at(p) == CellState::Open ==> (
                v.shown_count(p) == 0 || v.closed_nb_count(p) == 0)),
            forall|start: Position, p: Position, b: bool|
                start.valid(v.width, v.height) && start.y < y && v.state_at(start)
                    == CellState::Open && v.shown_count(start) > 0 && #[trigger] cluster_forces(
                    crate::shadow::shadow_of(v),
                    start,
                    p,
                    b,
                ) ==> false,
        decreases height - y,
    {
        for x in 0..width
            invariant
                v == game@,
                v.wf(),
                v.flags_bounded(),
                width == v.width,
                height == v.height,
                y < height,
                shadow_minefield@.wf(),
                shadow_minefield@.matches_board(v),
                quiet == (forall|p: Position|
                    p.valid(v.width, v.height) && #[trigger] v.state_at(p) == CellState::Open ==> (
                    v.shown_count(p) == 0 || v.closed_nb_count(p) == 0)),
                forall|start: Position, p: Position, b: bool|
                    start.valid(v.width, v.height) && (start.y < y || (start.y == y && start.x
                        < x)) && v.state_at(start) == CellState::Open && v.shown_count(start) > 0
                        && #[trigger] cluster_forces(
                        crate::shadow::shadow_of(v),
                        start,
                        p,
                        b,
                    ) ==> false,
            decreases width - x,
        {
            let pos = Position { x, y };
            match game.cell_data(pos) {
                CellData::Flagged | CellData::Closed => {},
                CellData::Open(mines) => {
                    proof {
                        crate::position::lemma_neighbours_props(pos, v.width, v.height);
                        crate::counting::lemma_count_bounds(
                            neighbours_list(pos, v.width, v.height),
                            |q: Position| v.mines[q.idx(v.width)],
                        );
                    }
                    if mines > 0 {
                        let ghost s_before = shadow_minefield@;
                        let next_move = build_cluster_and_find_move(
                            &mut shadow_minefield,
                            pos,
                            Ghost(v),
                        );
                        proof {
                            crate::shadow::lemma_matches_board_is_shadow_of(s_before, v);
                            if next_move is None {
                                assert(forall|p: Position, b: bool|
                                    !(#[trigger] cluster_forces(
                                        crate::shadow::shadow_of(v),
                                        pos,
                                        p,
                                        b,
                                    )));
                            }
                        }
                        if let Some(chosen) = next_move {
                            proof {
                                // the decided cell is a unanimous cell of the
                                // scanned cell's cluster, and that cell shows
                                // a positive count
                                assert(v.shown_count(pos) > 0);
                                assert(crate::cluster::walk_reaches(
                                    crate::shadow::shadow_of(v),
                                    pos,
                                    chosen.0,
                                ));
                                assert(decided_by(
                                    crate::shadow::shadow_of(v),
                                    pos,
                                    chosen.0,
                                    chosen.1,
                                ));
                            }
                            proof {
                                if quiet {
                                    // a quiet board never yields a move: the
                                    // scanned cell would have no closed
                                    // neighbour, so its cluster is empty
                                    crate::counting::lemma_count_bounds(
                                        neighbours_list(pos, v.width, v.height),
                                        |q: Position| v.mines[q.idx(v.width)],
                                    );
                                    assert(v.state_at(pos) == CellState::Open);
                                    assert(v.shown_count(pos) > 0);
                                    assert(v.closed_nb_count(pos) == 0);
                                    crate::position::lemma_neighbours_props(
                                        pos,
                                        v.width,
                                        v.height,
                                    );
                                    crate::counting::lemma_count_zero(
                                        neighbours_list(pos, v.width, v.height),
                                        |q: Position| v.states[q.idx(v.width)]
                                            == CellState::Closed,
                                    );
                                    let s = shadow_minefield@;
                                    assert forall|d: Position|
                                        d.valid(s.width, s.height) && pos.adjacent(d) implies !(
                                    #[trigger] s.at(d) is Closed) by {
                                        assert(neighbours_list(pos, v.width, v.height).contains(d));
                                        assert(s.at(d) == spec_shadow_init(v, d));
                                    }
                                    assert(false);
                                }
                            }
                            return Some(chosen);
                        }
                    }
                },
            }
            proof {
                assert forall|start: Position, p2: Position, b2: bool|
                    start.valid(v.width, v.height) && (start.y < y || (start.y == y && start.x < x
                        + 1)) && v.state_at(start) == CellState::Open && v.shown_count(start) > 0
                        && #[trigger] cluster_forces(
                        crate::shadow::shadow_of(v),
                        start,
                        p2,
                        b2,
                    ) implies false by {
                    if start.y == y && start.x == x {
                        assert(start == pos);
                    }
                }
            }
        }
    }
    proof {
        if exists|start: Position, p: Position, b: bool|
            start.valid(v.width, v.height) && v.state_at(start) == CellState::Open
                && v.shown_count(start) > 0 && #[trigger] cluster_forces(
                crate::shadow::shadow_of(v),
                start,
                p,
                b,
            ) {
            let (start, p, b): (Position, Position, bool) = choose|start: Position, p: Position, b: bool|
                start.valid(v.width, v.height) && v.state_at(start) == CellState::Open
                    && v.shown_count(start) > 0 && #[trigger] cluster_forces(
                    crate::shadow::shadow_of(v),
                    start,
                    p,
                    b,
                );
            assert(false);
        }
    }
    None
}

} // verus!
