use vstd::prelude::*;

verus! {

use crate::grid::{adjacent, adjacent2, Maze, MazeError, Point};
use crate::paths::{
    connected, lemma_path_preserved, lemma_room_closed_reaches, room_connected, valid_path,
    valid_room_path,
};
use crate::counting::{
    count_true, lemma_carve_counts, lemma_count_all_false, lemma_count_true_bounds,
    lemma_count_true_update, lemma_index_roundtrip, lemma_parity_flip, lemma_parity_step2,
    lemma_point_of_index_roundtrip, open_room_count, open_wall_count, point_of_index, room_class,
    wall_class, wall_flags,
};
use crate::CellState;

#[verifier::external_type_specification]
#[verifier::external_body]
pub struct ExStdRng(rand::rngs::StdRng);

/// Relies on rand's `SeedableRng::seed_from_u64` for `StdRng`: builds a
/// pseudorandom generator from a 64-bit seed. Nothing is assumed of the
/// stream it produces.
#[verifier::external_body]
fn rng_from_seed(seed: u64) -> rand::rngs::StdRng {
    <rand::rngs::StdRng as rand::SeedableRng>::seed_from_u64(seed)
}

/// Relies on rand's `Rng::gen_range` over the non-empty range `0..n`:
/// the sample always lies below `n`. Nothing else is assumed of the
/// draw.
#[verifier::external_body]
fn rng_below(rng: &mut rand::rngs::StdRng, n: usize) -> (r: usize)
    requires
        n >= 1,
    ensures
        r < n,
{
    rand::Rng::gen_range(rng, 0..n)
}

/// Relies on rand's `random` (the thread-local generator) to seed an
/// unseeded generation run. Nothing is assumed of the value.
#[verifier::external_body]
fn random_seed() -> u64 {
    rand::random::<u64>()
}

/// An open wall-class cell joins two visited rooms: the cells one step
/// to each side along its off-parity axis are in bounds and visited.
pub open spec fn carved_wall_ok(m: Maze, visited: Seq<bool>, s: Point, p: Point) -> bool {
    if p.x % 2 != s.x % 2 {
        &&& 1 <= p.x
        &&& p.x + 1 < m.width
        &&& visited[m.idx_of(Point { x: (p.x - 1) as usize, y: p.y })]
        &&& visited[m.idx_of(Point { x: (p.x + 1) as usize, y: p.y })]
    } else {
        &&& 1 <= p.y
        &&& p.y + 1 < m.height
        &&& visited[m.idx_of(Point { x: p.x, y: (p.y - 1) as usize })]
        &&& visited[m.idx_of(Point { x: p.x, y: (p.y + 1) as usize })]
    }
}

/// Every in-bounds doubled-step neighbor of `p` has been visited: the
/// backtracker only ever leaves a room once its room neighbors are all
/// carved.
pub open spec fn room_closed(m: Maze, visited: Seq<bool>, p: Point) -> bool {
    forall|q: Point|
        m.in_bounds(q) && #[trigger] adjacent2(p, q) ==> 0 <= m.idx_of(q) < visited.len()
            && visited[m.idx_of(q)]
}

/// The cell halfway between two room cells at doubled-step distance.
pub open spec fn wall_between(a: Point, b: Point) -> Point {
    Point {
        x: if b.x > a.x {
            (a.x + 1) as usize
        } else if b.x < a.x {
            (b.x + 1) as usize
        } else {
            a.x
        },
        y: if b.y > a.y {
            (a.y + 1) as usize
        } else if b.y < a.y {
            (b.y + 1) as usize
        } else {
            a.y
        },
    }
}

/// The generation loop's invariants, over the grid and the visited
/// flags of one carving run from `s`: flags mark exactly the open room
/// cells; every open wall-class cell joins two visited rooms; every
/// open cell is on one of the two lattice classes and reachable from
/// `s`; and the carved walls number one less than the visited rooms.
pub open spec fn carve_inv(m: Maze, vis: Seq<bool>, s: Point) -> bool {
    &&& m.wf()
    &&& vis.len() == m.cells@.len()
    &&& forall|j: int|
        0 <= j < vis.len() ==> vis[j] == (m.cells@[j] is Open && room_class(
            s,
            point_of_index(m, j),
        ))
    &&& forall|p: Point| m.is_open(p) && wall_class(s, p) ==> carved_wall_ok(m, vis, s, p)
    &&& forall|p: Point| m.is_open(p) ==> room_class(s, p) || wall_class(s, p)
    &&& forall|p: Point| m.is_open(p) ==> connected(m, s, p)
    &&& open_wall_count(m, s) == count_true(vis) - 1
}

/// One carving step — opening the wall slot and the chosen unvisited
/// room next to a visited room — preserves the generation invariants,
/// visits one more room, and only ever opens cells.
#[verifier::rlimit(100)]
proof fn lemma_carve_maintains(
    m0: Maze,
    m1: Maze,
    m2: Maze,
    vis0: Seq<bool>,
    vis1: Seq<bool>,
    s: Point,
    current: Point,
    next: Point,
    wall: Point,
)
    requires
        carve_inv(m0, vis0, s),
        m0.in_bounds(current),
        vis0[m0.idx_of(current)],
        m0.in_bounds(next),
        !vis0[m0.idx_of(next)],
        adjacent2(current, next),
        wall == wall_between(current, next),
        m0.in_bounds(wall),
        m1.width == m0.width,
        m1.height == m0.height,
        m1.cells@ == m0.cells@.update(m0.idx_of(wall), CellState::Open),
        m2.width == m0.width,
        m2.height == m0.height,
        m2.cells@ == m1.cells@.update(m1.idx_of(next), CellState::Open),
        vis1 == vis0.update(m0.idx_of(next), true),
    ensures
        carve_inv(m2, vis1, s),
        count_true(vis1) == count_true(vis0) + 1,
        forall|q: Point| m0.is_open(q) ==> m2.is_open(q),
        m2.is_open(next),
{
    m0.lemma_idx_in_range(current);
    m0.lemma_idx_in_range(next);
    m0.lemma_idx_in_range(wall);
    lemma_point_of_index_roundtrip(m0, current);
    lemma_point_of_index_roundtrip(m0, next);
    lemma_parity_flip(current.x as int);
    lemma_parity_flip(current.y as int);
    lemma_parity_flip(next.x as int);
    lemma_parity_flip(next.y as int);
    lemma_parity_step2(current.x as int);
    lemma_parity_step2(current.y as int);
    assert(room_class(s, current));
    assert(m0.is_open(current));
    assert(room_class(s, next));
    assert(wall_class(s, wall));
    assert(adjacent(current, wall));
    assert(adjacent(wall, next));
    assert(wall != current && wall != next);
    let wi = m0.idx_of(wall);
    let ni = m0.idx_of(next);
    assert(wi != ni) by {
        if wi == ni {
            m0.lemma_idx_injective(wall, next);
        }
    }
    // the wall slot between a visited room and an unvisited one cannot
    // have been carved yet
    assert(!(m0.at(wall) is Open)) by {
        if m0.at(wall) is Open {
            assert(carved_wall_ok(m0, vis0, s, wall));
            assert(vis0[ni]);
        }
    }
    assert(!(m0.at(next) is Open)) by {
        if m0.at(next) is Open {
            assert(vis0[ni]);
        }
    }
    lemma_count_true_update(vis0, ni, true);
    lemma_carve_counts(m0, m1, s, wall);
    lemma_carve_counts(m1, m2, s, next);
    assert(m2.is_open(wall));
    assert(m2.is_open(next));
    // cells other than the two carved ones kept their state
    assert forall|q: Point| m0.in_bounds(q) && q != wall && q != next implies m2.at(q) == m0.at(
        q,
    ) by {
        m0.lemma_idx_in_range(q);
        assert(m0.idx_of(q) != wi) by {
            if m0.idx_of(q) == wi {
                m0.lemma_idx_injective(q, wall);
            }
        }
        assert(m0.idx_of(q) != ni) by {
            if m0.idx_of(q) == ni {
                m0.lemma_idx_injective(q, next);
            }
        }
    }
    assert forall|q: Point| m0.is_open(q) implies m2.is_open(q) by {}
    // the visited flags still mark exactly the open room cells
    assert forall|j: int| 0 <= j < vis1.len() implies vis1[j] == (m2.cells@[j] is Open
        && room_class(s, point_of_index(m2, j))) by {
        lemma_index_roundtrip(m0, j);
        let p = point_of_index(m0, j);
        assert(point_of_index(m2, j) == p);
        if j == wi {
            m0.lemma_idx_injective(p, wall);
            assert(!room_class(s, p));
        } else if j == ni {
            m0.lemma_idx_injective(p, next);
        }
    }
    // every open wall cell still joins two visited rooms
    assert forall|p: Point| m2.is_open(p) && wall_class(s, p) implies carved_wall_ok(
        m2,
        vis1,
        s,
        p,
    ) by {
        if p == wall {
            assert(wall.y == current.y ==> wall.y % 2 == s.y % 2);
            assert(wall.x == current.x ==> wall.x % 2 == s.x % 2);
            if next.x == current.x + 2 {
                assert(wall.x % 2 != s.x % 2);
                assert((Point { x: (wall.x - 1) as usize, y: wall.y }) == current);
                assert((Point { x: (wall.x + 1) as usize, y: wall.y }) == next);
            } else if current.x == next.x + 2 {
                assert(wall.x % 2 != s.x % 2);
                assert((Point { x: (wall.x - 1) as usize, y: wall.y }) == next);
                assert((Point { x: (wall.x + 1) as usize, y: wall.y }) == current);
            } else if next.y == current.y + 2 {
                assert(wall.x % 2 == s.x % 2);
                assert((Point { x: wall.x, y: (wall.y - 1) as usize }) == current);
                assert((Point { x: wall.x, y: (wall.y + 1) as usize }) == next);
            } else {
                assert(wall.x % 2 == s.x % 2);
                assert((Point { x: wall.x, y: (wall.y - 1) as usize }) == next);
                assert((Point { x: wall.x, y: (wall.y + 1) as usize }) == current);
            }
            assert(vis1[m2.idx_of(current)]);
            assert(vis1[m2.idx_of(next)]);
        } else {
            assert(p != next);
            assert(m0.is_open(p));
            assert(carved_wall_ok(m0, vis0, s, p));
            if p.x % 2 != s.x % 2 {
                let e1 = Point { x: (p.x - 1) as usize, y: p.y };
                let e2 = Point { x: (p.x + 1) as usize, y: p.y };
                assert(m0.in_bounds(e1) && m0.in_bounds(e2));
                m0.lemma_idx_in_range(e1);
                m0.lemma_idx_in_range(e2);
            } else {
                let e1 = Point { x: p.x, y: (p.y - 1) as usize };
                let e2 = Point { x: p.x, y: (p.y + 1) as usize };
                assert(m0.in_bounds(e1) && m0.in_bounds(e2));
                m0.lemma_idx_in_range(e1);
                m0.lemma_idx_in_range(e2);
            }
        }
    }
    // both lattice classes are preserved
    assert forall|p: Point| m2.is_open(p) implies room_class(s, p) || wall_class(s, p) by {
        if p != wall && p != next {
            assert(m0.is_open(p));
        }
    }
    // old cells keep their paths; the two carved cells extend the path
    // that reaches `current`
    assert forall|p: Point| m2.is_open(p) implies connected(m2, s, p) by {
        reveal(connected);
        if p == wall || p == next {
            let pc = choose|pc: Seq<Point>| valid_path(m0, pc, s, current);
            lemma_path_preserved(m0, m2, pc, s, current);
            let pw = pc.push(wall);
            assert(valid_path(m2, pw, s, wall)) by {
                assert(forall|t: int| 0 <= t < pc.len() ==> pw[t] == #[trigger] pc[t]);
            }
            if p == next {
                let pn = pw.push(next);
                assert(valid_path(m2, pn, s, next)) by {
                    assert(forall|t: int| 0 <= t < pw.len() ==> pn[t] == #[trigger] pw[t]);
                }
            }
        } else {
            assert(m0.is_open(p));
            let pp = choose|pp: Seq<Point>| valid_path(m0, pp, s, p);
            lemma_path_preserved(m0, m2, pp, s, p);
        }
    }
}

/// Right after the start cell of a fresh all-wall grid has been opened
/// and marked visited, the generation invariants hold.
proof fn lemma_carve_init(m_prev: Maze, m: Maze, vis: Seq<bool>, s: Point)
    requires
        m_prev.wf(),
        m_prev.in_bounds(s),
        forall|p: Point| m_prev.in_bounds(p) ==> m_prev.at(p) is Wall,
        m.width == m_prev.width,
        m.height == m_prev.height,
        m.cells@ == m_prev.cells@.update(m_prev.idx_of(s), CellState::Open),
        vis.len() == m.cells@.len(),
        forall|j: int| 0 <= j < vis.len() ==> vis[j] == (j == m_prev.idx_of(s)),
    ensures
        carve_inv(m, vis, s),
        count_true(vis) == 1,
        m.is_open(s),
        forall|p: Point| m.is_open(p) ==> p == s,
{
    m_prev.lemma_idx_in_range(s);
    let si = m_prev.idx_of(s);
    assert(m.is_open(s));
    // the one open cell is the start cell
    assert forall|p: Point| m.is_open(p) implies p == s by {
        m.lemma_idx_in_range(p);
        if m.idx_of(p) != si {
            assert(m_prev.in_bounds(p));
            assert(m_prev.at(p) is Wall);
            assert(m.at(p) == m_prev.at(p));
            assert(false);
        } else {
            m.lemma_idx_injective(p, s);
        }
    }
    assert forall|j: int| 0 <= j < vis.len() implies vis[j] == (m.cells@[j] is Open && room_class(
        s,
        point_of_index(m, j),
    )) by {
        lemma_index_roundtrip(m, j);
        let p = point_of_index(m, j);
        if j == si {
            m.lemma_idx_injective(p, s);
            assert(room_class(s, s));
        } else {
            if m.cells@[j] is Open {
                assert(m.is_open(p));
                assert(p == s);
                assert(m.idx_of(p) == j);
                assert(false);
            }
        }
    }
    let all_false = Seq::new(vis.len(), |j: int| false);
    lemma_count_all_false(all_false);
    lemma_count_true_update(all_false, si, true);
    assert(vis =~= all_false.update(si, true));
    assert(count_true(vis) == 1);
    assert forall|j: int| 0 <= j < m.cells@.len() implies !(#[trigger] wall_flags(m, s)[j]) by {
        lemma_index_roundtrip(m, j);
        let p = point_of_index(m, j);
        if m.cells@[j] is Open {
            assert(m.is_open(p));
            assert(p == s);
            assert(!wall_class(s, p));
        }
    }
    lemma_count_all_false(wall_flags(m, s));
    assert(open_wall_count(m, s) == 0);
    assert forall|p: Point| m.is_open(p) implies connected(m, s, p) by {
        reveal(connected);
        assert(p == s);
        assert(valid_path(m, seq![s], s, s));
    }
    assert forall|p: Point| m.is_open(p) && wall_class(s, p) implies carved_wall_ok(
        m,
        vis,
        s,
        p,
    ) by {
        assert(p == s);
        assert(room_class(s, s));
    }
}

impl Maze {
    /// Carves a perfect maze into a freshly allocated all-wall grid by a
    /// randomized depth-first backtracker over the room lattice of
    /// `start`. Afterwards every open cell is reachable from `start`;
    /// every room that in-bounds doubled steps can reach from `start`
    /// has been carved; every open cell sits on the room lattice or is
    /// a carved wall between two of its rooms; no two distinct simple
    /// walks share endpoints; and the carved walls number exactly one
    /// less than the open rooms — the spanning-tree edge count. The
    /// open region is a tree: exactly one simple path joins any two
    /// open cells (`lemma_exactly_one_simple_path`).
    pub fn generate_maze(&mut self, start: Point, rng: &mut rand::rngs::StdRng)
        requires
            old(self).wf(),
            old(self).in_bounds(start),
            forall|p: Point| old(self).in_bounds(p) ==> old(self).at(p) is Wall,
        ensures
            final(self).wf(),
            final(self).width == old(self).width,
            final(self).height == old(self).height,
            final(self).is_open(start),
            forall|p: Point| final(self).is_open(p) ==> connected(*final(self), start, p),
            forall|p: Point|
                final(self).is_open(p) ==> room_class(start, p) || wall_class(start, p),
            forall|p: Point|
                room_connected(*final(self), start, p) ==> final(self).is_open(p),
            crate::paths::unique_paths(*final(self)),
            open_room_count(*final(self), start) == open_wall_count(*final(self), start) + 1,
    {
        let ghost w0 = self.width;
        let ghost h0 = self.height;
        let n = self.cells.len();
        let mut visited: Vec<bool> = Vec::new();
        let mut i: usize = 0;
        while i < n
            invariant
                i <= n,
                visited@.len() == i,
                forall|j: int| 0 <= j < i ==> !(#[trigger] visited@[j]),
            decreases n - i,
        {
            visited.push(false);
            i = i + 1;
        }

        let ghost m_prev = *self;
        self.set(start.x, start.y, CellState::Open);
        let si = self.index(start.x, start.y);
        visited[si] = true;
        let mut stack: Vec<Point> = Vec::new();
        stack.push(start);
        proof {
            lemma_carve_init(m_prev, *self, visited@, start);
            crate::tree::lemma_unique_init(*self, start);
            assert(stack@[0] == start);
            assert(stack@.contains(start));
            assert forall|p: Point|
                self.in_bounds(p) && visited@[self.idx_of(p)] && !stack@.contains(p)
                implies room_closed(*self, visited@, p) by {
                self.lemma_idx_in_range(p);
                lemma_point_of_index_roundtrip(*self, p);
                assert(self.is_open(p));
                assert(p == start);
            }
        }

        while stack.len() > 0
            invariant
                carve_inv(*self, visited@, start),
                self.width == w0,
                self.height == h0,
                self.in_bounds(start),
                self.is_open(start),
                forall|k: int|
                    0 <= k < stack@.len() ==> self.in_bounds(#[trigger] stack@[k]) && visited@[self.idx_of(
                        stack@[k],
                    )],
                forall|p: Point|
                    self.in_bounds(p) && visited@[self.idx_of(p)] && !stack@.contains(p)
                        ==> room_closed(*self, visited@, p),
                crate::paths::unique_paths(*self),
            decreases
                    self.cells@.len() - count_true(visited@),
                    stack@.len(),
        {
            proof {
                lemma_count_true_bounds(visited@);
            }
            let current = stack[stack.len() - 1];
            proof {
                self.lemma_idx_in_range(current);
            }
            let nbrs = self.neighbors(current);
            let mut cand: Vec<Point> = Vec::new();
            let mut i: usize = 0;
            while i < nbrs.len()
                invariant
                    self.wf(),
                    visited@.len() == self.cells@.len(),
                    i <= nbrs@.len(),
                    forall|j: int|
                        0 <= j < nbrs@.len() ==> self.in_bounds(#[trigger] nbrs@[j]) && adjacent2(
                            current,
                            nbrs@[j],
                        ),
                    forall|j: int|
                        0 <= j < cand@.len() ==> self.in_bounds(#[trigger] cand@[j]) && adjacent2(
                            current,
                            cand@[j],
                        ) && !visited@[self.idx_of(cand@[j])],
                    forall|t: int|
                        0 <= t < i ==> visited@[self.idx_of(#[trigger] nbrs@[t])]
                            || cand@.contains(nbrs@[t]),
                decreases nbrs@.len() - i,
            {
                let q = nbrs[i];
                let qi = self.index(q.x, q.y);
                if !visited[qi] {
                    let ghost cand_mid = cand@;
                    cand.push(q);
                    proof {
                        assert forall|x: Point| cand_mid.contains(x) implies cand@.contains(
                            x,
                        ) by {
                            let t = choose|t: int| 0 <= t < cand_mid.len() && cand_mid[t] == x;
                            assert(cand@[t] == x);
                        }
                        assert(cand@[cand@.len() - 1] == q);
                        assert(cand@.contains(q));
                    }
                }
                i = i + 1;
            }

            if cand.len() > 0 {
                let k = rng_below(rng, cand.len());
                let next = cand[k];
                let wx = if next.x > current.x {
                    current.x + 1
                } else if next.x < current.x {
                    next.x + 1
                } else {
                    current.x
                };
                let wy = if next.y > current.y {
                    current.y + 1
                } else if next.y < current.y {
                    next.y + 1
                } else {
                    current.y
                };
                let wall = Point { x: wx, y: wy };
                let ghost m0 = *self;
                let ghost vis0 = visited@;
                proof {
                    assert(wall == wall_between(current, next));
                    assert(self.in_bounds(wall));
                }
                self.set(wall.x, wall.y, CellState::Open);
                let ghost m1 = *self;
                self.set(next.x, next.y, CellState::Open);
                let ni = self.index(next.x, next.y);
                visited[ni] = true;
                let ghost stack_before = stack@;
                stack.push(next);
                proof {
                    lemma_carve_maintains(
                        m0,
                        m1,
                        *self,
                        vis0,
                        visited@,
                        start,
                        current,
                        next,
                        wall,
                    );
                    crate::tree::lemma_carve_unique(
                        m0,
                        m1,
                        *self,
                        vis0,
                        start,
                        current,
                        next,
                        wall,
                    );
                    lemma_count_true_bounds(visited@);
                    assert forall|kk: int|
                        0 <= kk < stack@.len() implies self.in_bounds(#[trigger] stack@[kk])
                        && visited@[self.idx_of(stack@[kk])] by {
                        if kk < stack@.len() - 1 {
                            assert(stack@[kk] == stack_before[kk]);
                            m0.lemma_idx_in_range(stack_before[kk]);
                            assert(vis0[m0.idx_of(stack_before[kk])]);
                        } else {
                            assert(stack@[kk] == next);
                            m0.lemma_idx_in_range(next);
                        }
                    }
                    assert(stack@[stack@.len() - 1] == next);
                    assert(stack@.contains(next));
                    assert forall|p: Point|
                        self.in_bounds(p) && visited@[self.idx_of(p)] && !stack@.contains(p)
                        implies room_closed(*self, visited@, p) by {
                        assert(p != next);
                        self.lemma_idx_in_range(p);
                        assert(m0.idx_of(p) == self.idx_of(p));
                        assert(vis0[m0.idx_of(p)]) by {
                            if m0.idx_of(p) == m0.idx_of(next) {
                                m0.lemma_idx_injective(p, next);
                            }
                        }
                        assert(!stack_before.contains(p)) by {
                            if stack_before.contains(p) {
                                let t = choose|t: int|
                                    0 <= t < stack_before.len() && stack_before[t] == p;
                                assert(stack@[t] == p);
                            }
                        }
                        assert(room_closed(m0, vis0, p));
                        assert forall|q: Point|
                            self.in_bounds(q) && #[trigger] adjacent2(p, q) implies 0
                            <= self.idx_of(q) < visited@.len() && visited@[self.idx_of(q)] by {
                            assert(m0.in_bounds(q));
                            assert(vis0[m0.idx_of(q)]);
                        }
                    }
                }
            } else {
                let ghost stack_pre = stack@;
                let _ = stack.pop();
                proof {
                    assert(stack@ =~= stack_pre.subrange(0, stack_pre.len() - 1));
                    assert(stack_pre[stack_pre.len() - 1] == current);
                    // the peeked room's doubled-step neighbors are all
                    // visited: the filter found no candidate
                    assert(room_closed(*self, visited@, current)) by {
                        assert forall|q: Point|
                            self.in_bounds(q) && #[trigger] adjacent2(current, q) implies 0
                            <= self.idx_of(q) < visited@.len() && visited@[self.idx_of(q)] by {
                            assert(nbrs@.contains(q));
                            let t = choose|t: int| 0 <= t < nbrs@.len() && nbrs@[t] == q;
                            self.lemma_idx_in_range(q);
                            assert(visited@[self.idx_of(nbrs@[t])] || cand@.contains(nbrs@[t]));
                        }
                    }
                    assert forall|p: Point|
                        self.in_bounds(p) && visited@[self.idx_of(p)] && !stack@.contains(p)
                        implies room_closed(*self, visited@, p) by {
                        if p != current {
                            assert(!stack_pre.contains(p)) by {
                                if stack_pre.contains(p) {
                                    let t = choose|t: int|
                                        0 <= t < stack_pre.len() && stack_pre[t] == p;
                                    assert(t < stack_pre.len() - 1);
                                    assert(stack@[t] == p);
                                }
                            }
                        }
                    }
                }
            }
        }
        proof {
            // the open rooms are exactly the visited cells, so the two
            // counters differ by exactly one
            assert(crate::counting::room_flags(*self, start) =~= visited@);
            assert(open_room_count(*self, start) == count_true(visited@));
            // with the stack empty every visited room is closed, so the
            // visited rooms absorb every in-bounds doubled-step walk
            let mself = *self;
            let vis = visited@;
            let marked = |q: Point| mself.in_bounds(q) && vis[mself.idx_of(q)];
            assert(marked(start)) by {
                mself.lemma_idx_in_range(start);
                lemma_point_of_index_roundtrip(mself, start);
            }
            assert forall|qq: Point, rr: Point|
                marked(qq) && mself.in_bounds(rr) && #[trigger] adjacent2(qq, rr)
                implies marked(rr) by {
                assert(!stack@.contains(qq));
                assert(room_closed(mself, vis, qq));
            }
            assert forall|p: Point| room_connected(mself, start, p) implies self.is_open(p) by {
                reveal(room_connected);
                let walk = choose|w: Seq<Point>| valid_room_path(mself, w, start, p);
                lemma_room_closed_reaches(mself, marked, walk, start, p);
                mself.lemma_idx_in_range(p);
                lemma_point_of_index_roundtrip(mself, p);
            }
        }
    }
}

/// Constructs a `width` by `height` grid and carves a perfect maze into
/// it from `start`, seeded for reproducibility when a seed is given.
/// Fails with `InvalidDimensions` when a dimension is zero and with
/// `InvalidEndpoint` when `start` lies outside the grid.
pub fn generate_maze(width: usize, height: usize, start: Point, seed: Option<u64>) -> (r: Result<
    Maze,
    MazeError,
>)
    requires
        width * height <= usize::MAX,
    ensures
        match r {
            Ok(m) => {
                &&& m.wf()
                &&& m.width == width
                &&& m.height == height
                &&& m.in_bounds(start)
                &&& m.is_open(start)
                &&& forall|p: Point| m.is_open(p) ==> connected(m, start, p)
                &&& forall|p: Point| m.is_open(p) ==> room_class(start, p) || wall_class(start, p)
                &&& forall|p: Point| room_connected(m, start, p) ==> m.is_open(p)
                &&& crate::paths::unique_paths(m)
                &&& open_room_count(m, start) == open_wall_count(m, start) + 1
            },
            Err(e) => {
                &&& e is InvalidDimensions <==> (width == 0 || height == 0)
                &&& e is InvalidEndpoint <==> (width >= 1 && height >= 1 && !(start.x < width
                    && start.y < height))
                &&& !(e is NoPathFound)
            },
        },
{
    let mut m = match Maze::new(width, height) {
        Ok(m) => m,
        Err(e) => {
            return Err(e);
        },
    };
    if !(start.x < m.width && start.y < m.height) {
        return Err(MazeError::InvalidEndpoint);
    }
    let mut rng = match seed {
        Some(s) => rng_from_seed(s),
        None => rng_from_seed(random_seed()),
    };
    m.generate_maze(start, &mut rng);
    Ok(m)
}

} // verus!
