//! Clusters of closed cells.
//!
//! A cluster gathers the closed cells that are tied together by shared open
//! (numbered) neighbours: starting from an open cell, the walk crosses from
//! an open cell to its closed neighbours and from a closed cell to its open
//! neighbours, until nothing new is reached.  Each closed cell is emitted
//! once, paired with the list of its own open neighbours; the cluster also
//! records the union of those open neighbour lists.

use vstd::prelude::*;

use crate::counting::count_true;
use crate::position::{neighbours_list, Position};
use crate::shadow::{ShadowMinefield, ShadowV};

verus! {

/// One closed cell of a cluster, with the open cells directly adjacent to
/// it (precomputed so the search does not rediscover them at every step).
#[derive(Clone, Debug)]
pub struct ClusterCell {
    pub pos: Position,
    pub open_neighbours: Vec<Position>,
}

impl ClusterCell {
    /// What the shadow-board operations need of a cluster cell: its
    /// position is on the board, and its open-neighbour list holds only
    /// open cells adjacent to it, each once.
    pub open spec fn wf(self, s: ShadowV) -> bool {
        &&& self.pos.valid(s.width, s.height)
        &&& self.open_neighbours@.no_duplicates()
        &&& forall|q: Position|
            #[trigger] self.open_neighbours@.contains(q) ==> q.valid(s.width, s.height)
                && self.pos.adjacent(q) && s.at(q) is Open
    }

    /// The open-neighbour list is moreover exhaustive: every open cell
    /// adjacent to the position is listed.
    pub open spec fn exact(self, s: ShadowV) -> bool {
        &&& self.wf(s)
        &&& forall|q: Position|
            q.valid(s.width, s.height) && self.pos.adjacent(q) && s.at(q) is Open
                ==> #[trigger] self.open_neighbours@.contains(q)
    }
}

/// Some cluster cell sits at position `p`.
pub open spec fn has_pos(cells: Seq<ClusterCell>, p: Position) -> bool {
    exists|j: int| 0 <= j < cells.len() && (#[trigger] cells[j]).pos == p
}

/// Some cluster cell lists `q` among its open neighbours.
pub open spec fn opens_of(cells: Seq<ClusterCell>, q: Position) -> bool {
    exists|i: int| 0 <= i < cells.len() && (#[trigger] cells[i]).open_neighbours@.contains(q)
}

/// The two ends of a walk step: one cell open, the other closed.
pub open spec fn bipartite(s: ShadowV, q: Position, c: Position) -> bool {
    (s.at(q) is Open && s.at(c) is Closed) || (s.at(q) is Closed && s.at(c) is Open)
}

/// No closed cell neighbours `p` in the shadow.
pub open spec fn no_closed_around(s: ShadowV, p: Position) -> bool {
    forall|d: Position|
        d.valid(s.width, s.height) && p.adjacent(d) ==> !(#[trigger] s.at(d) is Closed)
}

/// A walk path: consecutive in-bounds neighbours, alternating between
/// open and closed cells at every step.
pub open spec fn walk_path(s: ShadowV, path: Seq<Position>) -> bool {
    &&& path.len() >= 1
    &&& forall|i: int| 0 <= i < path.len() ==> (#[trigger] path[i]).valid(s.width, s.height)
    &&& forall|i: int|
        0 <= i < path.len() - 1 ==> (#[trigger] path[i]).adjacent(path[i + 1]) && bipartite(
            s,
            path[i],
            path[i + 1],
        )
}

/// `q` lies in the walk's reach from `src`: some alternating path leads
/// from `src` to it.
pub open spec fn walk_reaches(s: ShadowV, src: Position, q: Position) -> bool {
    exists|path: Seq<Position>| walk_path(s, path) && path.first() == src && path.last() == q
}

pub proof fn lemma_walk_start(s: ShadowV, src: Position)
    requires
        src.valid(s.width, s.height),
    ensures
        walk_reaches(s, src, src),
{
    let path = seq![src];
    assert(walk_path(s, path));
    assert(path.first() == src && path.last() == src);
}

pub proof fn lemma_walk_extend(s: ShadowV, src: Position, p: Position, q: Position)
    requires
        walk_reaches(s, src, p),
        p.adjacent(q),
        bipartite(s, p, q),
        q.valid(s.width, s.height),
    ensures
        walk_reaches(s, src, q),
{
    let path = choose|path: Seq<Position>|
        walk_path(s, path) && path.first() == src && path.last() == p;
    let longer = path.push(q);
    assert(walk_path(s, longer)) by {
        assert(forall|i: int| 0 <= i < path.len() ==> longer[i] == path[i]);
        assert(longer[longer.len() - 1] == q);
        assert(longer[longer.len() - 2] == path.last());
    }
    assert(longer.first() == src && longer.last() == q);
}

/// Every property the solver relies on, stated of shadow state `s`: the
/// cells are distinct closed cells with exact open-neighbour lists;
/// `opens` is exactly the union of those lists; and the cluster is closed
/// under the walk, so every closed cell next to one of its open cells
/// belongs to it.
pub open spec fn cluster_wf(
    s: ShadowV,
    cells: Seq<ClusterCell>,
    opens: Seq<Position>,
) -> bool {
    &&& forall|i: int|
        0 <= i < cells.len() ==> (#[trigger] cells[i]).exact(s) && s.at(cells[i].pos) is Closed
    &&& forall|i: int, j: int|
        0 <= i < cells.len() && 0 <= j < cells.len() && i != j ==> (#[trigger] cells[i]).pos != (
        #[trigger] cells[j]).pos
    &&& forall|q: Position| #[trigger] opens.contains(q) <==> opens_of(cells, q)
    &&& forall|q: Position, c: Position|
        #[trigger] opens.contains(q) && c.valid(s.width, s.height) && q.adjacent(c)
            && #[trigger] s.at(c) is Closed ==> has_pos(cells, c)
}

/// The pair `(cells, opens)` is a faithful enumeration of the cluster
/// around `start`: well-formed as above, every closed neighbour of
/// `start` included, and nothing beyond the walk's reach included.
pub open spec fn enumerates_cluster(
    s: ShadowV,
    start: Position,
    cells: Seq<ClusterCell>,
    opens: Seq<Position>,
) -> bool {
    &&& cluster_wf(s, cells, opens)
    &&& forall|q: Position|
        q.valid(s.width, s.height) && start.adjacent(q) && #[trigger] s.at(q) is Closed
            ==> has_pos(cells, q)
    &&& forall|i: int|
        0 <= i < cells.len() ==> walk_reaches(s, start, (#[trigger] cells[i]).pos)
}

/// A cluster: the closed cells bound together by shared open neighbours,
/// and the union of their open-neighbour lists.
pub struct Cluster {
    pub closed_positions: Vec<ClusterCell>,
    pub open_positions: Vec<Position>,
}

impl Cluster {
    /// See `cluster_wf`.
    pub open spec fn wf(self, s: ShadowV) -> bool {
        cluster_wf(s, self.closed_positions@, self.open_positions@)
    }

    /// Walk the bipartite closed/open adjacency from `initial_pos` (an
    /// open cell) and collect the cluster of closed cells it reaches.
    pub fn from(shadow: &ShadowMinefield, initial_pos: Position) -> (c: Cluster)
        requires
            shadow@.wf(),
            initial_pos.valid(shadow@.width, shadow@.height),
            shadow@.at(initial_pos) is Open,
        ensures
            c.wf(shadow@),
            enumerates_cluster(shadow@, initial_pos, c.closed_positions@, c.open_positions@),
            no_closed_around(shadow@, initial_pos) ==> c.closed_positions@.len() == 0,
    {
        let ghost s = shadow@;
        let w = shadow.width();
        let h = shadow.height();
        proof {
            crate::position::lemma_idx_bijective(s.width, s.height);
        }
        let total = w * h;
        let mut visited: Vec<bool> = Vec::new();
        while visited.len() < total
            invariant
                total == s.size(),
                0 <= visited@.len() <= total,
                forall|j: int| 0 <= j < visited@.len() ==> !(#[trigger] visited@[j]),
            decreases total - visited@.len(),
        {
            visited.push(false);
        }
        let mut stack: Vec<Position> = Vec::new();
        let mut result: Vec<Position> = Vec::new();
        let ii = initial_pos.to_index(w);
        visited[ii] = true;
        stack.push(initial_pos);
        proof {
            crate::counting::lemma_count_bounds(visited@, |b: bool| b);
            lemma_walk_start(s, initial_pos);
            assert(stack@[0] == initial_pos);
            assert(stack@.contains(initial_pos));
            assert forall|q: Position|
                q.valid(s.width, s.height) && #[trigger] visited@[q.idx(s.width)] implies walk_reaches(
                s,
                initial_pos,
                q,
            ) by {
                if q != initial_pos {
                    assert(q.idx(s.width) != initial_pos.idx(s.width));
                }
            }
            assert forall|c: Position|
                c.valid(s.width, s.height) && #[trigger] visited@[c.idx(s.width)] implies c
                == initial_pos by {
                if c != initial_pos {
                    assert(c.idx(s.width) != initial_pos.idx(s.width));
                }
            }
        }
        while stack.len() > 0
            invariant
                s == shadow@,
                s.wf(),
                w == s.width,
                h == s.height,
                initial_pos.valid(s.width, s.height),
                s.at(initial_pos) is Open,
                visited@.len() == s.size(),
                visited@[initial_pos.idx(s.width)],
                0 <= count_true(visited@) <= visited@.len(),
                stack@.no_duplicates(),
                forall|k: int|
                    0 <= k < stack@.len() ==> (#[trigger] stack@[k]).valid(s.width, s.height)
                        && visited@[stack@[k].idx(s.width)] && (s.at(stack@[k]) is Open || s.at(
                        stack@[k],
                    ) is Closed),
                forall|j: int|
                    0 <= j < visited@.len() && #[trigger] visited@[j] ==> (s.cells[j] is Open
                        || s.cells[j] is Closed),
                forall|q: Position|
                    q.valid(s.width, s.height) && #[trigger] visited@[q.idx(s.width)]
                        ==> walk_reaches(s, initial_pos, q),
                forall|q: Position|
                    q.valid(s.width, s.height) ==> (#[trigger] result@.contains(q) <==> (visited@[
                        q.idx(s.width)
                    ] && s.at(q) is Closed)),
                result@.no_duplicates(),
                forall|k: int|
                    0 <= k < result@.len() ==> (#[trigger] result@[k]).valid(s.width, s.height)
                        && s.at(result@[k]) is Closed,
                forall|q: Position, c: Position|
                    q.valid(s.width, s.height) && #[trigger] visited@[q.idx(s.width)]
                        && !stack@.contains(q) && c.valid(s.width, s.height) && q.adjacent(c)
                        && bipartite(s, q, c) ==> #[trigger] visited@[c.idx(s.width)],
                no_closed_around(s, initial_pos) ==> (forall|c: Position|
                    c.valid(s.width, s.height) && #[trigger] visited@[c.idx(s.width)] ==> c
                        == initial_pos),
            decreases s.size() - count_true(visited@), stack@.len(),
        {
            let ghost stack0 = stack@;
            let ghost visited0 = visited@;
            let p = stack.pop().unwrap();
            proof {
                crate::position::lemma_idx_bijective(s.width, s.height);
                assert(stack0[stack0.len() - 1] == p);
                assert(p.valid(s.width, s.height));
                assert forall|z: Position| #[trigger] stack@.contains(z) implies stack0.contains(
                    z,
                ) by {
                    let k = choose|k: int| 0 <= k < stack@.len() && #[trigger] stack@[k] == z;
                    assert(stack0[k] == z);
                }
                assert(!stack@.contains(p)) by {
                    if stack@.contains(p) {
                        let k = choose|k: int| 0 <= k < stack@.len() && #[trigger] stack@[k] == p;
                        assert(stack0[k] == p);
                    }
                }
                assert forall|z: Position| stack0.contains(z) && z != p implies #[trigger] stack@
                    .contains(z) by {
                    let k = choose|k: int| 0 <= k < stack0.len() && #[trigger] stack0[k] == z;
                    assert(stack@[k] == z);
                }
            }
            let nbs = crate::position::neighbours_of(p, w, h);
            proof {
                crate::position::lemma_neighbours_props(p, s.width, s.height);
            }
            let p_closed = shadow.get_cell(&p).is_closed();
            let mut k: usize = 0;
            while k < nbs.len()
                invariant
                    s == shadow@,
                    s.wf(),
                    w == s.width,
                    h == s.height,
                    initial_pos.valid(s.width, s.height),
                    s.at(initial_pos) is Open,
                    p.valid(s.width, s.height),
                    s.at(p) is Open || s.at(p) is Closed,
                    p_closed == (s.at(p) is Closed),
                    walk_reaches(s, initial_pos, p),
                    visited@[p.idx(s.width)],
                    nbs@ == neighbours_list(p, s.width, s.height),
                    forall|q: Position|
                        #[trigger] nbs@.contains(q) <==> (q.valid(s.width, s.height) && p.adjacent(
                            q,
                        )),
                    0 <= k <= nbs@.len(),
                    visited@.len() == s.size(),
                    0 <= count_true(visited@) <= visited@.len(),
                    count_true(visited0) <= count_true(visited@),
                    stack@.len() + count_true(visited0) <= stack0.len() - 1 + count_true(
                        visited@,
                    ),
                    forall|j: int|
                        0 <= j < visited@.len() && #[trigger] visited0[j] ==> visited@[j],
                    stack@.no_duplicates(),
                    !stack@.contains(p),
                    forall|k2: int|
                        0 <= k2 < stack@.len() ==> (#[trigger] stack@[k2]).valid(s.width, s.height)
                            && visited@[stack@[k2].idx(s.width)] && (s.at(stack@[k2]) is Open
                            || s.at(stack@[k2]) is Closed),
                    forall|j: int|
                        0 <= j < visited@.len() && #[trigger] visited@[j] ==> (s.cells[j] is Open
                            || s.cells[j] is Closed),
                    forall|q: Position|
                        q.valid(s.width, s.height) && #[trigger] visited@[q.idx(s.width)]
                            ==> walk_reaches(s, initial_pos, q),
                    forall|q: Position|
                        q.valid(s.width, s.height) ==> (#[trigger] result@.contains(q) <==> (
                        visited@[q.idx(s.width)] && s.at(q) is Closed)),
                    result@.no_duplicates(),
                    forall|k2: int|
                        0 <= k2 < result@.len() ==> (#[trigger] result@[k2]).valid(s.width, s.height)
                            && s.at(result@[k2]) is Closed,
                    forall|q: Position, c: Position|
                        q.valid(s.width, s.height) && #[trigger] visited@[q.idx(s.width)] && q != p
                            && !stack@.contains(q) && c.valid(s.width, s.height) && q.adjacent(c)
                            && bipartite(s, q, c) ==> #[trigger] visited@[c.idx(s.width)],
                    forall|c: Position|
                        #[trigger] nbs@.take(k as int).contains(c) && bipartite(s, p, c)
                            ==> visited@[c.idx(s.width)],
                    forall|c: Position|
                        c.valid(s.width, s.height) && #[trigger] visited@[c.idx(s.width)]
                            && !visited0[c.idx(s.width)] ==> stack@.contains(c),
                    no_closed_around(s, initial_pos) ==> (forall|c: Position|
                        c.valid(s.width, s.height) && #[trigger] visited@[c.idx(s.width)] ==> c
                            == initial_pos),
                decreases nbs@.len() - k,
            {
                proof {
                    crate::position::lemma_idx_bijective(s.width, s.height);
                    crate::counting::lemma_take_step_contains(nbs@, k as int);
                    assert(nbs@.contains(nbs@[k as int]));
                }
                let q = nbs[k];
                let qi = q.to_index(w);
                let already = visited[qi];
                if !already {
                    let qcell = shadow.get_cell(&q);
                    let q_closed = qcell.is_closed();
                    let q_open = qcell.is_open();
                    if (q_closed && !p_closed) || (q_open && p_closed) {
                        let ghost visited_pre = visited@;
                        visited[qi] = true;
                        proof {
                            crate::counting::lemma_count_true_update(visited_pre, q.idx(s.width));
                            assert(bipartite(s, p, nbs@[k as int]));
                            lemma_walk_extend(s, initial_pos, p, nbs@[k as int]);
                            assert forall|z: Position|
                                z.valid(s.width, s.height) && #[trigger] visited@[z.idx(s.width)] implies walk_reaches(
                                s,
                                initial_pos,
                                z,
                            ) by {
                                if z != q && z.idx(s.width) != q.idx(s.width) {
                                    assert(visited_pre[z.idx(s.width)]);
                                }
                            }
                            crate::counting::lemma_count_bounds(visited@, |b: bool| b);
                            assert forall|c: Position|
                                c.valid(s.width, s.height) && #[trigger] visited@[c.idx(s.width)]
                                    && !visited_pre[c.idx(s.width)] implies c == q by {
                                if c.idx(s.width) != q.idx(s.width) {
                                    assert(visited@[c.idx(s.width)] == visited_pre[c.idx(
                                        s.width,
                                    )]);
                                }
                            }
                            assert(s.cells[q.idx(s.width)] == s.at(q));
                            if no_closed_around(s, initial_pos) {
                                assert(visited_pre[p.idx(s.width)]);
                                assert(p == initial_pos);
                                assert(bipartite(s, p, q));
                                assert(s.at(q) is Closed);
                                assert(false);
                            }
                        }
                        if q_closed {
                            proof {
                                if result@.contains(q) {
                                    assert(visited_pre[q.idx(s.width)]);
                                    assert(false);
                                }
                                crate::counting::lemma_push_no_dup(result@, q);
                                crate::counting::lemma_push_contains(result@, q);
                            }
                            result.push(q);
                        }
                        proof {
                            if stack@.contains(q) {
                                assert(visited_pre[q.idx(s.width)]);
                                assert(false);
                            }
                            crate::counting::lemma_push_no_dup(stack@, q);
                            crate::counting::lemma_push_contains(stack@, q);
                        }
                        stack.push(q);
                        proof {
                            assert(stack@[stack@.len() - 1] == q);
                            assert forall|z: Position| z.valid(s.width, s.height) implies (
                            #[trigger] result@.contains(z) <==> (visited@[z.idx(s.width)] && s.at(
                                z,
                            ) is Closed)) by {
                                if z != q {
                                    assert(z.idx(s.width) != q.idx(s.width));
                                    assert(visited@[z.idx(s.width)] == visited_pre[z.idx(
                                        s.width,
                                    )]);
                                }
                            }
                            assert forall|c: Position|
                                #[trigger] nbs@.take(k as int + 1).contains(c) && bipartite(
                                s,
                                p,
                                c,
                            ) implies visited@[c.idx(s.width)] by {
                                if c != q && c.idx(s.width) != q.idx(s.width) {
                                    assert(visited@[c.idx(s.width)] == visited_pre[c.idx(
                                        s.width,
                                    )]);
                                }
                            }
                        }
                    }
                }
                k = k + 1;
            }
            proof {
                assert(nbs@.take(nbs@.len() as int) =~= nbs@);
                assert forall|q: Position, c: Position|
                    q.valid(s.width, s.height) && #[trigger] visited@[q.idx(s.width)]
                        && !stack@.contains(q) && c.valid(s.width, s.height) && q.adjacent(c)
                        && bipartite(s, q, c) implies #[trigger] visited@[c.idx(s.width)] by {
                    if q == p {
                        assert(nbs@.contains(c));
                        assert(nbs@.take(nbs@.len() as int).contains(c));
                    }
                }
                if count_true(visited0) == count_true(visited@) {
                    assert(stack@.len() < stack0.len());
                }
            }
        }
        // The walk is done: build the cluster cells, each with its exact
        // open-neighbour list, and collect the union of those lists.
        let mut cells: Vec<ClusterCell> = Vec::new();
        let mut opens: Vec<Position> = Vec::new();
        let mut i: usize = 0;
        while i < result.len()
            invariant
                s == shadow@,
                s.wf(),
                forall|q: Position|
                    q.valid(s.width, s.height) ==> (#[trigger] result@.contains(q) <==> (visited@[
                        q.idx(s.width)
                    ] && s.at(q) is Closed)),
                result@.no_duplicates(),
                forall|k2: int|
                    0 <= k2 < result@.len() ==> (#[trigger] result@[k2]).valid(s.width, s.height)
                        && s.at(result@[k2]) is Closed,
                0 <= i <= result@.len(),
                cells@.len() == i,
                forall|k2: int|
                    0 <= k2 < i ==> (#[trigger] cells@[k2]).pos == result@[k2] && cells@[k2].exact(
                        s,
                    ),
                forall|q: Position|
                    #[trigger] opens@.contains(q) <==> opens_of(cells@.take(i as int), q),
            decreases result@.len() - i,
        {
            proof {
                assert(result@.contains(result@[i as int]));
            }
            let pos = result[i];
            let open_nbs = open_neighbours_of(shadow, pos);
            let cell = ClusterCell { pos, open_neighbours: open_nbs };
            let ghost cells_pre = cells@;
            cells.push(cell);
            proof {
                assert(cells_pre.take(i as int) =~= cells_pre);
                assert(cells@.take(i as int) =~= cells_pre);
                assert(cells@[i as int] == cell);
            }
            let mut j: usize = 0;
            while j < cells[i].open_neighbours.len()
                invariant
                    s == shadow@,
                    s.wf(),
                    0 <= i < cells@.len(),
                    i + 1 == cells@.len(),
                    cells@[i as int].exact(s),
                    0 <= j <= cells@[i as int].open_neighbours@.len(),
                    forall|q: Position|
                        #[trigger] opens@.contains(q) <==> (opens_of(cells@.take(i as int), q)
                            || cells@[i as int].open_neighbours@.take(j as int).contains(q)),
                decreases cells@[i as int].open_neighbours@.len() - j,
            {
                proof {
                    crate::counting::lemma_take_step_contains(
                        cells@[i as int].open_neighbours@,
                        j as int,
                    );
                    crate::counting::lemma_push_contains(opens@, cells@[i as int].open_neighbours@[j as int]);
                }
                let q = cells[i].open_neighbours[j];
                opens.push(q);
                j = j + 1;
            }
            proof {
                assert(cells@[i as int].open_neighbours@.take(
                    cells@[i as int].open_neighbours@.len() as int,
                ) =~= cells@[i as int].open_neighbours@);
                assert forall|q: Position| #[trigger] opens@.contains(q) implies opens_of(
                    cells@.take(i as int + 1),
                    q,
                ) by {
                    if opens_of(cells@.take(i as int), q) {
                        let k2 = choose|k2: int|
                            0 <= k2 < i && (#[trigger] cells@.take(i as int)[k2]).open_neighbours@
                                .contains(q);
                        assert(cells@.take(i as int + 1)[k2].open_neighbours@.contains(q));
                    } else {
                        assert(cells@.take(i as int + 1)[i as int].open_neighbours@.contains(q));
                    }
                }
                assert forall|q: Position| opens_of(cells@.take(i as int + 1), q) implies #[trigger] opens@
                    .contains(q) by {
                    let k2 = choose|k2: int|
                        0 <= k2 < i + 1 && (#[trigger] cells@.take(i as int + 1)[k2])
                            .open_neighbours@.contains(q);
                    if k2 < i {
                        assert(cells@.take(i as int)[k2].open_neighbours@.contains(q));
                    }
                }
            }
            i = i + 1;
        }
        let c = Cluster { closed_positions: cells, open_positions: opens };
        proof {
            assert(cells@.take(cells@.len() as int) =~= cells@);
            assert forall|k2: int, j2: int|
                0 <= k2 < cells@.len() && 0 <= j2 < cells@.len() && k2 != j2 implies (
            #[trigger] cells@[k2]).pos != (#[trigger] cells@[j2]).pos by {
                assert(result@[k2] != result@[j2]);
            }
            assert forall|q: Position, cq: Position|
                #[trigger] c.open_positions@.contains(q) && cq.valid(s.width, s.height)
                    && q.adjacent(cq) && #[trigger] s.at(cq) is Closed implies has_pos(
                c.closed_positions@,
                cq,
            ) by {
                let k2 = choose|k2: int|
                    0 <= k2 < cells@.len() && (#[trigger] cells@[k2]).open_neighbours@.contains(q);
                let holder = cells@[k2].pos;
                assert(cells@[k2].exact(s));
                assert(q.valid(s.width, s.height) && s.at(q) is Open);
                assert(holder.valid(s.width, s.height) && s.at(holder) is Closed);
                assert(result@.contains(holder));
                assert(visited@[holder.idx(s.width)]);
                // the open cell q was reached through `holder`, so it is
                // visited and processed; its closed neighbour `cq` is then
                // visited too
                assert(!stack@.contains(holder));
                assert(holder.adjacent(q) && bipartite(s, holder, q));
                assert(visited@[q.idx(s.width)]);
                assert(!stack@.contains(q));
                assert(bipartite(s, q, cq));
                assert(visited@[cq.idx(s.width)]);
                assert(result@.contains(cq));
                let m = choose|m: int| 0 <= m < result@.len() && #[trigger] result@[m] == cq;
                assert(cells@[m].pos == cq);
            }
            assert forall|i: int|
                0 <= i < c.closed_positions@.len() implies walk_reaches(
                s,
                initial_pos,
                (#[trigger] c.closed_positions@[i]).pos,
            ) by {
                assert(cells@[i].pos == result@[i]);
                assert(result@.contains(result@[i]));
                assert(visited@[result@[i].idx(s.width)]);
            }
            assert forall|q: Position|
                q.valid(s.width, s.height) && initial_pos.adjacent(q) && #[trigger] s.at(
                q,
            ) is Closed implies has_pos(c.closed_positions@, q) by {
                assert(!stack@.contains(initial_pos)) by {
                    if stack@.contains(initial_pos) {
                        let k = choose|k: int|
                            0 <= k < stack@.len() && #[trigger] stack@[k] == initial_pos;
                        assert(false);
                    }
                }
                assert(bipartite(s, initial_pos, q));
                assert(visited@[q.idx(s.width)]);
                assert(result@.contains(q));
                let m = choose|m: int| 0 <= m < result@.len() && #[trigger] result@[m] == q;
                assert(cells@[m].pos == q);
            }
            if no_closed_around(s, initial_pos) {
                assert forall|q: Position| true implies !result@.contains(q) by {
                    if result@.contains(q) {
                        let m = choose|m: int| 0 <= m < result@.len() && #[trigger] result@[m] == q;
                        assert(q.valid(s.width, s.height) && s.at(q) is Closed);
                        assert(visited@[q.idx(s.width)]);
                        assert(q == initial_pos);
                    }
                }
                if result@.len() > 0 {
                    assert(result@.contains(result@[0]));
                }
            }
        }
        c
    }
}

/// The open (numbered) neighbours of `pos` in the shadow, exactly and
/// each once.
fn open_neighbours_of(shadow: &ShadowMinefield, pos: Position) -> (r: Vec<Position>)
    requires
        shadow@.wf(),
        pos.valid(shadow@.width, shadow@.height),
    ensures
        r@.no_duplicates(),
        forall|q: Position|
            #[trigger] r@.contains(q) <==> (q.valid(shadow@.width, shadow@.height) && pos.adjacent(
                q,
            ) && shadow@.at(q) is Open),
{
    let ghost s = shadow@;
    let nbs = crate::position::neighbours_of(pos, shadow.width(), shadow.height());
    proof {
        crate::position::lemma_neighbours_props(pos, s.width, s.height);
    }
    let mut r: Vec<Position> = Vec::new();
    let mut i: usize = 0;
    while i < nbs.len()
        invariant
            s == shadow@,
            s.wf(),
            pos.valid(s.width, s.height),
            nbs@ == neighbours_list(pos, s.width, s.height),
            nbs@.no_duplicates(),
            forall|q: Position|
                #[trigger] nbs@.contains(q) <==> (q.valid(s.width, s.height) && pos.adjacent(q)),
            0 <= i <= nbs@.len(),
            r@.no_duplicates(),
            forall|q: Position|
                #[trigger] r@.contains(q) <==> (nbs@.take(i as int).contains(q) && s.at(
                    q,
                ) is Open),
        decreases nbs@.len() - i,
    {
        proof {
            crate::counting::lemma_take_step_contains(nbs@, i as int);
            crate::counting::lemma_take_not_contains_current(nbs@, i as int);
            assert(nbs@.contains(nbs@[i as int]));
        }
        let q = nbs[i];
        let is_open = shadow.get_cell(&q).is_open();
        if is_open {
            proof {
                if r@.contains(q) {
                    assert(nbs@.take(i as int).contains(q));
                    assert(false);
                }
                crate::counting::lemma_push_no_dup(r@, q);
                crate::counting::lemma_push_contains(r@, q);
            }
            r.push(q);
        }
        i = i + 1;
    }
    proof {
        assert(nbs@.take(nbs@.len() as int) =~= nbs@);
    }
    r
}

} // verus!
