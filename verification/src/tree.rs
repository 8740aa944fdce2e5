use vstd::prelude::*;

verus! {

use crate::grid::{adjacent, adjacent2, Maze, Point};
use crate::paths::{
    is_simple, lemma_path_reverse, lemma_reverse_involutive, lemma_reverse_simple, unique_paths,
    valid_path,
};
use crate::counting::{
    lemma_parity_flip, lemma_point_of_index_roundtrip, room_class, wall_class,
};
use crate::gen::{carve_inv, carved_wall_ok, wall_between};
use crate::CellState;

/// The carved corridor hangs off the rest of the open region as a
/// pendant: the wall slot touches only the hub room and the new room,
/// and the new room touches only the wall slot.
pub open spec fn pendant(m: Maze, hub: Point, next: Point, wall: Point) -> bool {
    &&& m.wf()
    &&& m.is_open(hub)
    &&& m.is_open(wall)
    &&& m.is_open(next)
    &&& adjacent(hub, wall)
    &&& adjacent(wall, next)
    &&& hub != wall
    &&& hub != next
    &&& wall != next
    &&& forall|q: Point| m.is_open(q) && #[trigger] adjacent(wall, q) ==> q == hub || q == next
    &&& forall|q: Point| m.is_open(q) && #[trigger] adjacent(next, q) ==> q == wall
}

/// How the carved grid `m2` extends the old grid `m0`: only the two
/// corridor cells changed, from wall to open.
pub open spec fn corridor_frame(m0: Maze, m2: Maze, next: Point, wall: Point) -> bool {
    &&& m0.wf()
    &&& m2.wf()
    &&& m2.width == m0.width
    &&& m2.height == m0.height
    &&& !m0.is_open(wall)
    &&& !m0.is_open(next)
    &&& forall|q: Point|
        m0.in_bounds(q) && q != wall && q != next ==> #[trigger] m2.at(q) == m0.at(q)
}

/// A simple walk never crosses the dead-end room: both its open
/// neighbors would have to be the one wall slot.
proof fn lemma_next_not_interior(
    m: Maze,
    hub: Point,
    next: Point,
    wall: Point,
    p: Seq<Point>,
    a: Point,
    b: Point,
)
    requires
        pendant(m, hub, next, wall),
        valid_path(m, p, a, b),
        is_simple(p),
    ensures
        forall|j: int| 0 < j < p.len() - 1 ==> p[j] != next,
{
    assert forall|j: int| 0 < j < p.len() - 1 implies p[j] != next by {
        if p[j] == next {
            assert(adjacent(p[j], p[j + 1]));
            assert(adjacent(p[j - 1], p[j]));
            assert(adjacent(next, p[j + 1]));
            assert(adjacent(next, p[j - 1]));
            assert(m.is_open(p[j + 1]) && m.is_open(p[j - 1]));
            assert(p[j + 1] == wall && p[j - 1] == wall);
        }
    }
}

/// A simple walk between cells outside the corridor never crosses the
/// wall slot either: passing through it would also cross the dead-end
/// room.
proof fn lemma_wall_not_interior(
    m: Maze,
    hub: Point,
    next: Point,
    wall: Point,
    p: Seq<Point>,
    a: Point,
    b: Point,
)
    requires
        pendant(m, hub, next, wall),
        valid_path(m, p, a, b),
        is_simple(p),
        a != next,
        b != next,
    ensures
        forall|j: int| 0 < j < p.len() - 1 ==> p[j] != wall,
{
    lemma_next_not_interior(m, hub, next, wall, p, a, b);
    assert forall|j: int| 0 < j < p.len() - 1 implies p[j] != wall by {
        if p[j] == wall {
            assert(adjacent(p[j], p[j + 1]));
            assert(adjacent(p[j - 1], p[j]));
            assert(adjacent(wall, p[j + 1]));
            assert(adjacent(wall, p[j - 1]));
            assert(m.is_open(p[j + 1]) && m.is_open(p[j - 1]));
            assert(p[j - 1] != p[j + 1]);
            assert(p[j - 1] == next || p[j + 1] == next);
            if p[j - 1] == next {
                assert(j - 1 != 0 ==> false);
                assert(p[0] == a);
            } else {
                assert(j + 1 != p.len() - 1 ==> false);
                assert(p[p.len() - 1] == b);
            }
        }
    }
}

/// A simple walk whose endpoints predate the carve stays entirely in
/// the old grid.
proof fn lemma_walk_predates(
    m0: Maze,
    m2: Maze,
    hub: Point,
    next: Point,
    wall: Point,
    p: Seq<Point>,
    a: Point,
    b: Point,
)
    requires
        pendant(m2, hub, next, wall),
        corridor_frame(m0, m2, next, wall),
        valid_path(m2, p, a, b),
        is_simple(p),
        a != wall,
        a != next,
        b != wall,
        b != next,
    ensures
        valid_path(m0, p, a, b),
{
    lemma_next_not_interior(m2, hub, next, wall, p, a, b);
    lemma_wall_not_interior(m2, hub, next, wall, p, a, b);
    assert forall|i: int| 0 <= i < p.len() implies m0.is_open(#[trigger] p[i]) by {
        assert(m2.is_open(p[i]));
        assert(p[i] != next && p[i] != wall);
        assert(m2.at(p[i]) == m0.at(p[i]));
    }
}

/// Two simple walks of the carved grid with the same endpoints
/// coincide, provided the walks' target is ranked: first the old
/// region, then the wall slot, then the new room. Walks into the
/// corridor peel off its cells one by one and bottom out in the old
/// grid, where uniqueness already held.
proof fn lemma_unique_pair(
    m0: Maze,
    m2: Maze,
    hub: Point,
    next: Point,
    wall: Point,
    p1: Seq<Point>,
    p2: Seq<Point>,
    a: Point,
    b: Point,
)
    requires
        pendant(m2, hub, next, wall),
        corridor_frame(m0, m2, next, wall),
        unique_paths(m0),
        valid_path(m2, p1, a, b),
        is_simple(p1),
        valid_path(m2, p2, a, b),
        is_simple(p2),
        b == next || b == wall || (a != next && a != wall),
    ensures
        p1 == p2,
    decreases (if b == next {
        2int
    } else if b == wall {
        1int
    } else {
        0int
    }),
{
    if a == b {
        assert(p1.len() == 1) by {
            if p1.len() >= 2 {
                assert(p1[0] == p1[p1.len() - 1]);
            }
        }
        assert(p2.len() == 1) by {
            if p2.len() >= 2 {
                assert(p2[0] == p2[p2.len() - 1]);
            }
        }
        assert(p1 =~= p2);
    } else if b == next {
        assert(p1.len() >= 2 && p2.len() >= 2);
        assert(adjacent(p1[p1.len() - 2], p1[p1.len() - 1]));
        assert(adjacent(next, p1[p1.len() - 2]));
        assert(p1[p1.len() - 2] == wall);
        assert(adjacent(p2[p2.len() - 2], p2[p2.len() - 1]));
        assert(adjacent(next, p2[p2.len() - 2]));
        assert(p2[p2.len() - 2] == wall);
        if a == wall {
            assert(p1.len() == 2) by {
                assert(p1[0] == wall);
                if p1.len() > 2 {
                    assert(p1[0] == p1[p1.len() - 2]);
                }
            }
            assert(p2.len() == 2) by {
                assert(p2[0] == wall);
                if p2.len() > 2 {
                    assert(p2[0] == p2[p2.len() - 2]);
                }
            }
            assert(p1 =~= p2);
        } else {
            let q1 = p1.drop_last();
            let q2 = p2.drop_last();
            assert(valid_path(m2, q1, a, wall));
            assert(is_simple(q1));
            assert(valid_path(m2, q2, a, wall));
            assert(is_simple(q2));
            lemma_unique_pair(m0, m2, hub, next, wall, q1, q2, a, wall);
            assert forall|i: int| 0 <= i < p1.len() implies p1[i] == #[trigger] p2[i] by {
                if i < p1.len() - 1 {
                    assert(p1[i] == q1[i] && p2[i] == q2[i]);
                }
            }
            assert(p1 =~= p2);
        }
    } else if b == wall {
        assert(p1.len() >= 2 && p2.len() >= 2);
        if a == next {
            assert(adjacent(p1[0], p1[1]));
            assert(adjacent(next, p1[1]));
            assert(p1[1] == wall);
            assert(p1.len() == 2) by {
                if p1.len() > 2 {
                    assert(p1[1] == p1[p1.len() - 1]);
                }
            }
            assert(adjacent(p2[0], p2[1]));
            assert(adjacent(next, p2[1]));
            assert(p2[1] == wall);
            assert(p2.len() == 2) by {
                if p2.len() > 2 {
                    assert(p2[1] == p2[p2.len() - 1]);
                }
            }
            assert(p1 =~= p2);
        } else {
            lemma_next_not_interior(m2, hub, next, wall, p1, a, b);
            lemma_next_not_interior(m2, hub, next, wall, p2, a, b);
            assert(adjacent(p1[p1.len() - 2], p1[p1.len() - 1]));
            assert(adjacent(wall, p1[p1.len() - 2]));
            assert(m2.is_open(p1[p1.len() - 2]));
            assert(p1[p1.len() - 2] == hub) by {
                if p1[p1.len() - 2] == next {
                    assert(p1.len() - 2 != 0);
                }
            }
            assert(adjacent(p2[p2.len() - 2], p2[p2.len() - 1]));
            assert(adjacent(wall, p2[p2.len() - 2]));
            assert(m2.is_open(p2[p2.len() - 2]));
            assert(p2[p2.len() - 2] == hub) by {
                if p2[p2.len() - 2] == next {
                    assert(p2.len() - 2 != 0);
                }
            }
            let q1 = p1.drop_last();
            let q2 = p2.drop_last();
            assert(valid_path(m2, q1, a, hub));
            assert(is_simple(q1));
            assert(valid_path(m2, q2, a, hub));
            assert(is_simple(q2));
            assert(hub != next && hub != wall);
            lemma_unique_pair(m0, m2, hub, next, wall, q1, q2, a, hub);
            assert forall|i: int| 0 <= i < p1.len() implies p1[i] == #[trigger] p2[i] by {
                if i < p1.len() - 1 {
                    assert(p1[i] == q1[i] && p2[i] == q2[i]);
                }
            }
            assert(p1 =~= p2);
        }
    } else {
        lemma_walk_predates(m0, m2, hub, next, wall, p1, a, b);
        lemma_walk_predates(m0, m2, hub, next, wall, p2, a, b);
        reveal(unique_paths);
        assert(p1 == p2);
    }
}

/// One carving step keeps the open region a tree: the wall slot and the
/// new room attach as a pendant corridor off the hub room, so no second
/// route between any two cells can appear.
#[verifier::rlimit(100)]
pub proof fn lemma_carve_unique(
    m0: Maze,
    m1: Maze,
    m2: Maze,
    vis0: Seq<bool>,
    s: Point,
    current: Point,
    next: Point,
    wall: Point,
)
    requires
        carve_inv(m0, vis0, s),
        unique_paths(m0),
        m0.in_bounds(current),
        vis0[m0.idx_of(current)],
        m0.in_bounds(next),
        !vis0[m0.idx_of(next)],
        adjacent2(current, next),
        wall == wall_between(current, next),
        m0.in_bounds(wall),
        m1.width == m0.width,
        m1.height == m0.height,
        m1.cells@ == m0.cells@.update(m0.idx_of(wall), CellState::Open),
        m2.width == m0.width,
        m2.height == m0.height,
        m2.cells@ == m1.cells@.update(m1.idx_of(next), CellState::Open),
    ensures
        unique_paths(m2),
{
    m0.lemma_idx_in_range(current);
    m0.lemma_idx_in_range(next);
    m0.lemma_idx_in_range(wall);
    lemma_point_of_index_roundtrip(m0, current);
    lemma_point_of_index_roundtrip(m0, next);
    crate::counting::lemma_parity_step2(current.x as int);
    crate::counting::lemma_parity_step2(current.y as int);
    lemma_parity_flip(current.x as int);
    lemma_parity_flip(current.y as int);
    lemma_parity_flip(next.x as int);
    lemma_parity_flip(next.y as int);
    assert(room_class(s, current));
    assert(m0.is_open(current));
    assert(room_class(s, next));
    assert(wall_class(s, wall));
    assert(adjacent(current, wall));
    assert(adjacent(wall, next));
    assert(wall != current && wall != next && current != next);
    let wi = m0.idx_of(wall);
    let ni = m0.idx_of(next);
    assert(wi != ni) by {
        if wi == ni {
            m0.lemma_idx_injective(wall, next);
        }
    }
    assert(!(m0.at(wall) is Open)) by {
        if m0.at(wall) is Open {
            assert(carved_wall_ok(m0, vis0, s, wall));
            assert(vis0[ni]);
        }
    }
    assert(!(m0.at(next) is Open)) by {
        if m0.at(next) is Open {
            assert(vis0[ni]);
        }
    }
    assert forall|q: Point| m0.in_bounds(q) && q != wall && q != next implies m2.at(q) == m0.at(
        q,
    ) by {
        m0.lemma_idx_in_range(q);
        assert(m0.idx_of(q) != wi) by {
            if m0.idx_of(q) == wi {
                m0.lemma_idx_injective(q, wall);
            }
        }
        assert(m0.idx_of(q) != ni) by {
            if m0.idx_of(q) == ni {
                m0.lemma_idx_injective(q, next);
            }
        }
    }
    assert(m2.is_open(wall));
    assert(m2.is_open(next));
    assert(m2.is_open(current));
    assert(corridor_frame(m0, m2, next, wall));
    // both lattice classes carry over to the carved grid
    assert forall|p: Point| m2.is_open(p) implies room_class(s, p) || wall_class(s, p) by {
        if p != wall && p != next {
            assert(m0.is_open(p));
        }
    }
    // the wall slot touches open cells only along the carve axis
    assert forall|q: Point| m2.is_open(q) && #[trigger] adjacent(wall, q) implies q == current
        || q == next by {
        lemma_parity_flip(q.x as int);
        lemma_parity_flip(q.y as int);
        if q.x == wall.x {
            // off-axis neighbor: both parities differ from the start's,
            // so the cell is in neither class and cannot be open
            assert(room_class(s, q) || wall_class(s, q));
            assert(q.y + 1 == wall.y || wall.y + 1 == q.y);
            if current.y == next.y {
                assert(wall.y == current.y);
                assert(wall.x % 2 != s.x % 2);
                assert(q.y % 2 != s.y % 2);
                assert(false);
            } else {
                assert(wall.x == current.x);
                assert(q == current || q == next);
            }
        } else {
            assert(q.y == wall.y);
            assert(q.x + 1 == wall.x || wall.x + 1 == q.x);
            if current.y == next.y {
                assert(wall.y == current.y);
                assert(q == current || q == next);
            } else {
                assert(room_class(s, q) || wall_class(s, q));
                assert(wall.y % 2 != s.y % 2);
                assert(q.x % 2 != s.x % 2);
                assert(false);
            }
        }
    }
    // the new room touches no open cell but the wall slot: any other
    // open wall around it would have been carved from it earlier
    assert forall|q: Point| m2.is_open(q) && #[trigger] adjacent(next, q) implies q == wall by {
        if q != wall {
            assert(q != next);
            assert(m0.is_open(q));
            assert(carved_wall_ok(m0, vis0, s, q));
            lemma_parity_flip(q.x as int);
            lemma_parity_flip(q.y as int);
            if q.y == next.y && q.x + 1 == next.x {
                assert(q.x % 2 != s.x % 2);
                assert((Point { x: (q.x + 1) as usize, y: q.y }) == next);
                assert(vis0[ni]);
            } else if q.y == next.y && next.x + 1 == q.x {
                assert(q.x % 2 != s.x % 2);
                assert((Point { x: (q.x - 1) as usize, y: q.y }) == next);
                assert(vis0[ni]);
            } else if q.x == next.x && q.y + 1 == next.y {
                assert(q.x % 2 == s.x % 2);
                assert(q.y % 2 != s.y % 2);
                assert((Point { x: q.x, y: (q.y + 1) as usize }) == next);
                assert(vis0[ni]);
            } else {
                assert(q.x == next.x && next.y + 1 == q.y);
                assert(q.x % 2 == s.x % 2);
                assert(q.y % 2 != s.y % 2);
                assert((Point { x: q.x, y: (q.y - 1) as usize }) == next);
                assert(vis0[ni]);
            }
        }
    }
    assert(pendant(m2, current, next, wall));
    reveal(unique_paths);
    assert forall|a: Point, b: Point, p1: Seq<Point>, p2: Seq<Point>|
        #[trigger] valid_path(m2, p1, a, b) && #[trigger] valid_path(m2, p2, a, b) && is_simple(
            p1,
        ) && is_simple(p2) implies p1 == p2 by {
        if b == next || b == wall || (a != next && a != wall) {
            lemma_unique_pair(m0, m2, current, next, wall, p1, p2, a, b);
        } else {
            lemma_path_reverse(m2, p1, a, b);
            lemma_reverse_simple(p1);
            lemma_path_reverse(m2, p2, a, b);
            lemma_reverse_simple(p2);
            lemma_unique_pair(m0, m2, current, next, wall, p1.reverse(), p2.reverse(), b, a);
            lemma_reverse_involutive(p1);
            lemma_reverse_involutive(p2);
        }
    }
}

/// In a grid with a single open cell every simple walk is that cell
/// alone, so no two distinct walks share endpoints.
pub proof fn lemma_unique_init(m: Maze, s: Point)
    requires
        forall|p: Point| m.is_open(p) ==> p == s,
    ensures
        unique_paths(m),
{
    reveal(unique_paths);
    assert forall|a: Point, b: Point, p1: Seq<Point>, p2: Seq<Point>|
        #[trigger] valid_path(m, p1, a, b) && #[trigger] valid_path(m, p2, a, b) && is_simple(p1)
            && is_simple(p2) implies p1 == p2 by {
        assert(p1.len() == 1) by {
            if p1.len() >= 2 {
                assert(m.is_open(p1[0]) && m.is_open(p1[1]));
                assert(p1[0] == s && p1[1] == s);
            }
        }
        assert(p2.len() == 1) by {
            if p2.len() >= 2 {
                assert(m.is_open(p2[0]) && m.is_open(p2[1]));
                assert(p2[0] == s && p2[1] == s);
            }
        }
        assert(p1[0] == a && p2[0] == a);
        assert(p1 =~= p2);
    }
}


/// The perfect-maze property in full: in a grid whose open cells are
/// all reachable from one hub cell and whose simple walks are unique,
/// exactly one simple path joins any two open cells.
pub proof fn lemma_exactly_one_simple_path(m: Maze, hub: Point, a: Point, b: Point)
    requires
        forall|p: Point| m.is_open(p) ==> crate::paths::connected(m, hub, p),
        unique_paths(m),
        m.is_open(a),
        m.is_open(b),
    ensures
        exists|q: Seq<Point>|
            valid_path(m, q, a, b) && is_simple(q) && (forall|r: Seq<Point>|
                valid_path(m, r, a, b) && is_simple(r) ==> r == q),
{
    crate::paths::lemma_simple_path_between(m, hub, a, b);
    let q = choose|q: Seq<Point>| valid_path(m, q, a, b) && is_simple(q);
    reveal(unique_paths);
    assert(valid_path(m, q, a, b) && is_simple(q) && (forall|r: Seq<Point>|
        valid_path(m, r, a, b) && is_simple(r) ==> r == q));
}

} // verus!
