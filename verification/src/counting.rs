use vstd::prelude::*;

verus! {

use crate::grid::{Maze, Point};
use vstd::arithmetic::div_mod::{lemma_fundamental_div_mod, lemma_fundamental_div_mod_converse};

/// Stepping by one flips parity.
pub proof fn lemma_parity_flip(a: int)
    requires
        a >= 0,
    ensures
        (a + 1) % 2 != a % 2,
{
    let k = a / 2;
    lemma_fundamental_div_mod(a, 2);
    if a % 2 == 0 {
        lemma_fundamental_div_mod_converse(a + 1, 2, k, 1);
    } else {
        lemma_fundamental_div_mod_converse(a + 1, 2, k + 1, 0);
    }
}

/// Stepping by two keeps parity.
pub proof fn lemma_parity_step2(a: int)
    requires
        a >= 0,
    ensures
        (a + 2) % 2 == a % 2,
{
    let k = a / 2;
    lemma_fundamental_div_mod(a, 2);
    lemma_fundamental_div_mod_converse(a + 2, 2, k + 1, a % 2);
}

/// How many entries of `s` are set.
pub open spec fn count_true(s: Seq<bool>) -> int
    decreases s.len(),
{
    if s.len() == 0 {
        0
    } else {
        count_true(s.drop_last()) + if s.last() {
            1int
        } else {
            0int
        }
    }
}

pub proof fn lemma_count_true_bounds(s: Seq<bool>)
    ensures
        0 <= count_true(s) <= s.len(),
    decreases s.len(),
{
    if s.len() > 0 {
        lemma_count_true_bounds(s.drop_last());
    }
}

/// Overwriting one entry moves the count by the difference of the old
/// and new values.
pub proof fn lemma_count_true_update(s: Seq<bool>, j: int, b: bool)
    requires
        0 <= j < s.len(),
    ensures
        count_true(s.update(j, b)) == count_true(s) - (if s[j] {
            1int
        } else {
            0int
        }) + (if b {
            1int
        } else {
            0int
        }),
    decreases s.len(),
{
    let s2 = s.update(j, b);
    if j == s.len() - 1 {
        assert(s2.drop_last() =~= s.drop_last());
        assert(s2.last() == b);
    } else {
        assert(s2.drop_last() =~= s.drop_last().update(j, b));
        lemma_count_true_update(s.drop_last(), j, b);
        assert(s2.last() == s.last());
    }
}

/// The two generation-time cell classes, relative to the start cell of a
/// carving run. A coordinate whose parities both match the start's is a
/// room; one that differs in exactly one axis is the wall slot between
/// two rooms; a coordinate differing in both parities is in neither
/// class and is never carved.
pub open spec fn room_class(s: Point, p: Point) -> bool {
    p.x % 2 == s.x % 2 && p.y % 2 == s.y % 2
}

pub open spec fn wall_class(s: Point, p: Point) -> bool {
    (p.x % 2 == s.x % 2) != (p.y % 2 == s.y % 2)
}

/// The coordinate whose row-major index in `m` is `i`.
pub open spec fn point_of_index(m: Maze, i: int) -> Point {
    Point { x: (i % (m.width as int)) as usize, y: (i / (m.width as int)) as usize }
}

pub proof fn lemma_point_of_index_roundtrip(m: Maze, p: Point)
    requires
        m.wf(),
        m.in_bounds(p),
    ensures
        point_of_index(m, m.idx_of(p)) == p,
{
    lemma_fundamental_div_mod_converse(
        p.y * m.width + p.x,
        m.width as int,
        p.y as int,
        p.x as int,
    );
}

/// Every backing-store index denotes an in-bounds coordinate, and the
/// two translations invert each other.
pub proof fn lemma_index_roundtrip(m: Maze, i: int)
    requires
        m.wf(),
        0 <= i < m.cells@.len(),
    ensures
        m.in_bounds(point_of_index(m, i)),
        m.idx_of(point_of_index(m, i)) == i,
{
    let w = m.width as int;
    lemma_fundamental_div_mod(i, w);
    let y = i / w;
    let x = i % w;
    assert(y < m.height) by (nonlinear_arith)
        requires
            w >= 1,
            y * w + x == i,
            0 <= x < w,
            i < m.width * m.height,
            w == m.width,
    ;
}

/// Flags marking the open cells of the room class.
pub open spec fn room_flags(m: Maze, s: Point) -> Seq<bool> {
    Seq::new(m.cells@.len(), |i: int| m.cells@[i] is Open && room_class(s, point_of_index(m, i)))
}

/// Flags marking the open cells of the wall class.
pub open spec fn wall_flags(m: Maze, s: Point) -> Seq<bool> {
    Seq::new(m.cells@.len(), |i: int| m.cells@[i] is Open && wall_class(s, point_of_index(m, i)))
}

/// How many open cells sit on the room lattice of `s`.
pub open spec fn open_room_count(m: Maze, s: Point) -> int {
    count_true(room_flags(m, s))
}

/// How many carved wall slots join rooms of the lattice of `s`.
pub open spec fn open_wall_count(m: Maze, s: Point) -> int {
    count_true(wall_flags(m, s))
}

/// Carving one wall cell open moves exactly the counter of its class.
pub proof fn lemma_carve_counts(m1: Maze, m2: Maze, s: Point, p: Point)
    requires
        m1.wf(),
        m2.wf(),
        m1.in_bounds(p),
        m2.width == m1.width,
        m2.height == m1.height,
        m1.at(p) is Wall,
        m2.cells@ == m1.cells@.update(m1.idx_of(p), crate::CellState::Open),
    ensures
        open_room_count(m2, s) == open_room_count(m1, s) + (if room_class(s, p) {
            1int
        } else {
            0int
        }),
        open_wall_count(m2, s) == open_wall_count(m1, s) + (if wall_class(s, p) {
            1int
        } else {
            0int
        }),
{
    let j = m1.idx_of(p);
    m1.lemma_idx_in_range(p);
    lemma_point_of_index_roundtrip(m1, p);
    assert(point_of_index(m2, j) == p);
    assert(room_flags(m2, s) =~= room_flags(m1, s).update(j, room_class(s, p)));
    assert(wall_flags(m2, s) =~= wall_flags(m1, s).update(j, wall_class(s, p)));
    lemma_count_true_update(room_flags(m1, s), j, room_class(s, p));
    lemma_count_true_update(wall_flags(m1, s), j, wall_class(s, p));
    assert(!(room_flags(m1, s)[j]));
    assert(!(wall_flags(m1, s)[j]));
}

pub proof fn lemma_count_all_false(s: Seq<bool>)
    requires
        forall|i: int| 0 <= i < s.len() ==> !(#[trigger] s[i]),
    ensures
        count_true(s) == 0,
    decreases s.len(),
{
    if s.len() > 0 {
        lemma_count_all_false(s.drop_last());
    }
}

} // verus!
