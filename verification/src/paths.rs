use vstd::prelude::*;

verus! {

use crate::grid::{adjacent, adjacent2, Maze, Point};

/// `p` is an ordered walk through `m` from `start` to `goal`: non-empty,
/// with the requested endpoints, every cell open, and every consecutive
/// pair of cells unit-distance apart.
pub open spec fn valid_path(m: Maze, p: Seq<Point>, start: Point, goal: Point) -> bool {
    &&& p.len() >= 1
    &&& p[0] == start
    &&& p[p.len() - 1] == goal
    &&& forall|i: int| 0 <= i < p.len() ==> m.is_open(#[trigger] p[i])
    &&& forall|i: int| 0 <= i < p.len() - 1 ==> adjacent(#[trigger] p[i], p[i + 1])
}

/// No coordinate repeats.
pub open spec fn is_simple(p: Seq<Point>) -> bool {
    forall|i: int, j: int| 0 <= i < j < p.len() ==> p[i] != p[j]
}

/// `b` can be reached from `a` through open cells of `m`.
#[verifier::opaque]
pub open spec fn connected(m: Maze, a: Point, b: Point) -> bool {
    exists|p: Seq<Point>| valid_path(m, p, a, b)
}

/// Opening cells never invalidates an existing path: a walk that was
/// valid stays valid in any same-sized grid whose open cells include the
/// old ones.
pub proof fn lemma_path_preserved(m1: Maze, m2: Maze, p: Seq<Point>, a: Point, b: Point)
    requires
        valid_path(m1, p, a, b),
        m1.width == m2.width,
        m1.height == m2.height,
        forall|q: Point| m1.is_open(q) ==> m2.is_open(q),
    ensures
        valid_path(m2, p, a, b),
{
    assert forall|i: int| 0 <= i < p.len() implies m2.is_open(#[trigger] p[i]) by {
        assert(m1.is_open(p[i]));
    }
}

/// Any predicate that holds at `a` and is closed under stepping to an
/// open adjacent cell holds everywhere a valid path from `a` leads.
pub proof fn lemma_closed_reaches(
    m: Maze,
    marked: spec_fn(Point) -> bool,
    p: Seq<Point>,
    a: Point,
    b: Point,
)
    requires
        marked(a),
        forall|q: Point, r: Point|
            marked(q) && m.is_open(r) && #[trigger] adjacent(q, r) ==> marked(r),
        valid_path(m, p, a, b),
    ensures
        marked(b),
    decreases p.len(),
{
    if p.len() == 1 {
        assert(b == a);
    } else {
        let p2 = p.drop_last();
        let c = p[p.len() - 2];
        assert(valid_path(m, p2, a, c));
        lemma_closed_reaches(m, marked, p2, a, c);
        assert(adjacent(c, b) && m.is_open(b));
    }
}

/// A distance labelling that starts at zero on `a` and never jumps by
/// more than one across an open edge bounds the graph distance from
/// below: wherever a path of `n` steps leads, the label is at most `n`.
pub proof fn lemma_distance_bound(
    m: Maze,
    labelled: spec_fn(Point) -> bool,
    label: spec_fn(Point) -> int,
    p: Seq<Point>,
    a: Point,
    b: Point,
)
    requires
        labelled(a),
        label(a) == 0,
        forall|q: Point, r: Point|
            labelled(q) && m.is_open(r) && #[trigger] adjacent(q, r) ==> labelled(r) && label(r)
                <= label(q) + 1,
        valid_path(m, p, a, b),
    ensures
        labelled(b),
        label(b) <= p.len() - 1,
    decreases p.len(),
{
    if p.len() == 1 {
        assert(b == a);
    } else {
        let p2 = p.drop_last();
        let c = p[p.len() - 2];
        assert(valid_path(m, p2, a, c));
        lemma_distance_bound(m, labelled, label, p2, a, c);
        assert(adjacent(c, b) && m.is_open(b));
    }
}

/// A path of minimum length among all valid paths with the same
/// endpoints never repeats a coordinate: a repeat could be cut out,
/// leaving a strictly shorter valid path.
pub proof fn lemma_minimal_is_simple(m: Maze, p: Seq<Point>, a: Point, b: Point)
    requires
        valid_path(m, p, a, b),
        forall|q: Seq<Point>| valid_path(m, q, a, b) ==> p.len() <= q.len(),
    ensures
        is_simple(p),
{
    if !is_simple(p) {
        let (i, j): (int, int) = choose|i: int, j: int|
            0 <= i < j < p.len() && p[i] == p[j];
        let q = p.subrange(0, i) + p.subrange(j, p.len() as int);
        assert(q.len() == i + p.len() - j);
        assert(q[0] == a);
        assert(q[q.len() - 1] == b);
        assert forall|k: int| 0 <= k < q.len() implies m.is_open(#[trigger] q[k]) by {
            if k < i {
                assert(q[k] == p[k]);
            } else {
                assert(q[k] == p[j + (k - i)]);
            }
        }
        assert forall|k: int| 0 <= k < q.len() - 1 implies adjacent(#[trigger] q[k], q[k + 1]) by {
            if k < i - 1 {
                assert(q[k] == p[k] && q[k + 1] == p[k + 1]);
            } else if k == i - 1 {
                assert(q[k] == p[i - 1] && q[k + 1] == p[j] && p[j] == p[i]);
                assert(adjacent(p[i - 1], p[i]));
            } else {
                assert(q[k] == p[j + (k - i)] && q[k + 1] == p[j + (k - i) + 1]);
            }
        }
        assert(valid_path(m, q, a, b));
        assert(p.len() <= q.len());
        assert(false);
    }
}


/// A walk read backwards is a walk between the swapped endpoints:
/// unit adjacency is symmetric.
pub proof fn lemma_path_reverse(m: Maze, p: Seq<Point>, a: Point, b: Point)
    requires
        valid_path(m, p, a, b),
    ensures
        valid_path(m, p.reverse(), b, a),
{
    let r = p.reverse();
    assert(r.len() == p.len());
    assert(r[0] == p[p.len() - 1]);
    assert(r[r.len() - 1] == p[0]);
    assert forall|i: int| 0 <= i < r.len() implies m.is_open(#[trigger] r[i]) by {
        assert(r[i] == p[p.len() - 1 - i]);
    }
    assert forall|i: int| 0 <= i < r.len() - 1 implies adjacent(#[trigger] r[i], r[i + 1]) by {
        assert(r[i] == p[p.len() - 1 - i]);
        assert(r[i + 1] == p[p.len() - 2 - i]);
        assert(adjacent(p[p.len() - 2 - i], p[(p.len() - 2 - i) + 1]));
    }
}

/// Two walks sharing an endpoint join into one walk.
pub proof fn lemma_path_concat(m: Maze, p1: Seq<Point>, p2: Seq<Point>, a: Point, b: Point, c: Point)
    requires
        valid_path(m, p1, a, b),
        valid_path(m, p2, b, c),
    ensures
        valid_path(m, p1 + p2.drop_first(), a, c),
{
    let q = p1 + p2.drop_first();
    assert(q.len() == p1.len() + p2.len() - 1);
    assert(q[0] == p1[0]);
    if p2.len() == 1 {
        assert(q =~= p1);
        assert(b == c);
    } else {
        assert(q[q.len() - 1] == p2.drop_first()[p2.len() - 2]);
        assert(p2.drop_first()[p2.len() - 2] == p2[p2.len() - 1]);
        assert forall|i: int| 0 <= i < q.len() implies m.is_open(#[trigger] q[i]) by {
            if i >= p1.len() {
                assert(q[i] == p2[i - p1.len() + 1]);
            }
        }
        assert forall|i: int| 0 <= i < q.len() - 1 implies adjacent(#[trigger] q[i], q[i + 1]) by {
            if i < p1.len() - 1 {
                assert(q[i] == p1[i] && q[i + 1] == p1[i + 1]);
            } else if i == p1.len() - 1 {
                assert(q[i] == b && q[i + 1] == p2[1]);
                assert(adjacent(p2[0], p2[1]));
            } else {
                assert(q[i] == p2[i - p1.len() + 1]);
                assert(q[i + 1] == p2[i - p1.len() + 2]);
                assert(adjacent(p2[i - p1.len() + 1], p2[(i - p1.len() + 1) + 1]));
            }
        }
    }
}

/// Among the walks between two cells one of minimum length exists.
pub proof fn lemma_minimal_path_exists(m: Maze, p: Seq<Point>, a: Point, b: Point)
    requires
        valid_path(m, p, a, b),
    ensures
        exists|q: Seq<Point>|
            valid_path(m, q, a, b) && (forall|r: Seq<Point>|
                valid_path(m, r, a, b) ==> q.len() <= r.len()),
    decreases p.len(),
{
    if forall|r: Seq<Point>| valid_path(m, r, a, b) ==> p.len() <= r.len() {
        assert(valid_path(m, p, a, b) && (forall|r: Seq<Point>|
            valid_path(m, r, a, b) ==> p.len() <= r.len()));
    } else {
        let shorter = choose|r: Seq<Point>| valid_path(m, r, a, b) && r.len() < p.len();
        lemma_minimal_path_exists(m, shorter, a, b);
    }
}

/// The existence half of the perfect-maze uniqueness property: in a
/// grid whose every open cell can be reached from one hub cell, at
/// least one simple path runs between any two open cells. (That no
/// second simple path exists is `unique_paths`, which generation
/// establishes as well.)
pub proof fn lemma_simple_path_between(m: Maze, hub: Point, a: Point, b: Point)
    requires
        forall|p: Point| m.is_open(p) ==> connected(m, hub, p),
        m.is_open(a),
        m.is_open(b),
    ensures
        exists|q: Seq<Point>| valid_path(m, q, a, b) && is_simple(q),
{
    reveal(connected);
    let pa = choose|p: Seq<Point>| valid_path(m, p, hub, a);
    let pb = choose|p: Seq<Point>| valid_path(m, p, hub, b);
    lemma_path_reverse(m, pa, hub, a);
    lemma_path_concat(m, pa.reverse(), pb, a, hub, b);
    let walk = pa.reverse() + pb.drop_first();
    lemma_minimal_path_exists(m, walk, a, b);
    let q = choose|q: Seq<Point>|
        valid_path(m, q, a, b) && (forall|r: Seq<Point>|
            valid_path(m, r, a, b) ==> q.len() <= r.len());
    lemma_minimal_is_simple(m, q, a, b);
}


/// A walk over the room lattice: consecutive cells at doubled-step
/// distance, all within bounds, open or not. This is the
/// generation-time notion of reachability, distinct from the
/// traversal-time `valid_path`.
pub open spec fn valid_room_path(m: Maze, p: Seq<Point>, a: Point, b: Point) -> bool {
    &&& p.len() >= 1
    &&& p[0] == a
    &&& p[p.len() - 1] == b
    &&& forall|i: int| 0 <= i < p.len() ==> m.in_bounds(#[trigger] p[i])
    &&& forall|i: int| 0 <= i < p.len() - 1 ==> adjacent2(#[trigger] p[i], p[i + 1])
}

/// `b` can be reached from `a` by in-bounds doubled steps.
#[verifier::opaque]
pub open spec fn room_connected(m: Maze, a: Point, b: Point) -> bool {
    exists|p: Seq<Point>| valid_room_path(m, p, a, b)
}

/// Any predicate that holds at `a` and is closed under an in-bounds
/// doubled step holds everywhere a room walk from `a` leads.
pub proof fn lemma_room_closed_reaches(
    m: Maze,
    marked: spec_fn(Point) -> bool,
    p: Seq<Point>,
    a: Point,
    b: Point,
)
    requires
        marked(a),
        forall|q: Point, r: Point|
            marked(q) && m.in_bounds(r) && #[trigger] adjacent2(q, r) ==> marked(r),
        valid_room_path(m, p, a, b),
    ensures
        marked(b),
    decreases p.len(),
{
    if p.len() == 1 {
        assert(b == a);
    } else {
        let p2 = p.drop_last();
        let c = p[p.len() - 2];
        assert(valid_room_path(m, p2, a, c));
        lemma_room_closed_reaches(m, marked, p2, a, c);
        assert(adjacent2(c, b) && m.in_bounds(b));
    }
}


/// No two distinct simple walks share both endpoints: the open cells
/// form a tree.
#[verifier::opaque]
pub open spec fn unique_paths(m: Maze) -> bool {
    forall|a: Point, b: Point, p1: Seq<Point>, p2: Seq<Point>|
        #[trigger] valid_path(m, p1, a, b) && #[trigger] valid_path(m, p2, a, b) && is_simple(p1)
            && is_simple(p2) ==> p1 == p2
}

/// A walk read backwards stays simple.
pub proof fn lemma_reverse_simple(p: Seq<Point>)
    requires
        is_simple(p),
    ensures
        is_simple(p.reverse()),
{
    let r = p.reverse();
    assert forall|i: int, j: int| 0 <= i < j < r.len() implies r[i] != r[j] by {
        assert(r[i] == p[p.len() - 1 - i]);
        assert(r[j] == p[p.len() - 1 - j]);
    }
}

/// Reversing twice gives the walk back.
pub proof fn lemma_reverse_involutive(p: Seq<Point>)
    ensures
        p.reverse().reverse() == p,
{
    assert(p.reverse().reverse() =~= p);
}

} // verus!
