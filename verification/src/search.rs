use vstd::prelude::*;

verus! {

use crate::grid::{adjacent, Maze, MazeError, Point};
use crate::paths::{
    connected, is_simple, lemma_closed_reaches, lemma_distance_bound, lemma_minimal_is_simple,
    valid_path,
};
use crate::counting::{
    count_true, lemma_count_all_false, lemma_count_true_bounds, lemma_count_true_update,
    lemma_index_roundtrip, lemma_point_of_index_roundtrip, point_of_index,
};

/// The strategy selector for `path_find`. The set is closed and known at
/// compile time, so the dispatch is a plain match.
#[derive(Clone, Copy, Debug, PartialEq, Eq, Structural)]
pub enum Algorithm {
    Bfs,
    Dfs,
    Dijkstra,
}

/// An ordered route through open cells, start and goal included. Owned
/// by the caller; holds copies of the coordinates, no reference into
/// the grid.
#[derive(Clone, Debug)]
pub struct Path {
    pub steps: Vec<Point>,
}

/// The bookkeeping shared by the searches: visited flags over the
/// backing store, and for every visited cell but the start a parent
/// that is adjacent, visited, and exactly one depth level closer to
/// the start. The strictly decreasing depths make parent chains
/// terminate and keep reconstructed paths simple.
pub open spec fn parent_inv(
    m: Maze,
    start: Point,
    vis: Seq<bool>,
    parent: Seq<usize>,
    depth: Seq<usize>,
) -> bool {
    &&& vis.len() == m.cells@.len()
    &&& parent.len() == m.cells@.len()
    &&& depth.len() == m.cells@.len()
    &&& m.in_bounds(start)
    &&& vis[m.idx_of(start)]
    &&& depth[m.idx_of(start)] == 0
    &&& forall|j: int| 0 <= j < vis.len() && vis[j] ==> m.is_open(point_of_index(m, j))
    &&& forall|j: int|
        0 <= j < vis.len() && vis[j] && j != m.idx_of(start) ==> {
            &&& 0 <= parent[j] < vis.len()
            &&& vis[parent[j] as int]
            &&& depth[parent[j] as int] + 1 == depth[j]
            &&& adjacent(point_of_index(m, parent[j] as int), point_of_index(m, j))
        }
}

/// Every open neighbor of the cell at index `j` has been visited.
pub open spec fn closed_at(m: Maze, vis: Seq<bool>, j: int) -> bool {
    forall|q: Point|
        m.is_open(q) && #[trigger] adjacent(point_of_index(m, j), q) ==> 0 <= m.idx_of(q)
            < vis.len() && vis[m.idx_of(q)]
}

/// Every open neighbor of the cell at index `j` has been visited at a
/// depth at most one step further.
pub open spec fn closed_dist(m: Maze, vis: Seq<bool>, depth: Seq<usize>, j: int) -> bool {
    forall|q: Point|
        m.is_open(q) && #[trigger] adjacent(point_of_index(m, j), q) ==> 0 <= m.idx_of(q)
            < vis.len() && vis[m.idx_of(q)] && depth[m.idx_of(q)] <= depth[j] + 1
}

impl Maze {
    /// The coordinate stored at backing index `i`.
    pub(crate) fn point_at(&self, i: usize) -> (p: Point)
        requires
            self.wf(),
            i < self.cells@.len(),
        ensures
            p == point_of_index(*self, i as int),
            self.in_bounds(p),
            self.idx_of(p) == i,
    {
        proof {
            lemma_index_roundtrip(*self, i as int);
        }
        Point { x: i % self.width, y: i / self.width }
    }
}

/// Walks the parent chain back from `goal` and returns the route the
/// search recorded, start to goal, one step per depth level.
fn reconstruct(
    m: &Maze,
    start: Point,
    goal: Point,
    vis: &Vec<bool>,
    parent: &Vec<usize>,
    depth: &Vec<usize>,
) -> (r: Vec<Point>)
    requires
        m.wf(),
        parent_inv(*m, start, vis@, parent@, depth@),
        m.in_bounds(goal),
        vis@[m.idx_of(goal)],
    ensures
        valid_path(*m, r@, start, goal),
        is_simple(r@),
        r@.len() == depth@[m.idx_of(goal)] + 1,
{
    proof {
        m.lemma_idx_in_range(goal);
        m.lemma_idx_in_range(start);
    }
    let gi = m.index(goal.x, goal.y);
    let si = m.index(start.x, start.y);
    let mut rev: Vec<Point> = Vec::new();
    let mut cur: usize = gi;
    rev.push(goal);
    proof {
        lemma_point_of_index_roundtrip(*m, goal);
        lemma_point_of_index_roundtrip(*m, start);
    }
    while cur != si
        invariant
            m.wf(),
            parent_inv(*m, start, vis@, parent@, depth@),
            cur < vis@.len(),
            vis@[cur as int],
            m.idx_of(start) == si,
            m.idx_of(goal) == gi,
            m.in_bounds(start),
            point_of_index(*m, si as int) == start,
            rev@.len() >= 1,
            rev@[0] == goal,
            rev@[rev@.len() - 1] == point_of_index(*m, cur as int),
            rev@.len() + depth@[cur as int] == depth@[gi as int] + 1,
            forall|t: int| 0 <= t < rev@.len() ==> m.is_open(#[trigger] rev@[t]),
            forall|t: int| 0 <= t < rev@.len() - 1 ==> adjacent(#[trigger] rev@[t + 1], rev@[t]),
            forall|t: int|
                0 <= t < rev@.len() ==> m.idx_of(#[trigger] rev@[t]) < vis@.len() && vis@[m.idx_of(
                    rev@[t],
                )] && depth@[m.idx_of(rev@[t])] + t == depth@[gi as int],
        decreases depth@[cur as int],
    {
        proof {
            if cur as int != m.idx_of(start) {
            } else {
                m.lemma_idx_injective(point_of_index(*m, cur as int), start);
            }
            assert(cur as int != m.idx_of(start));
        }
        let pj = parent[cur as usize];
        let p = m.point_at(pj);
        rev.push(p);
        cur = pj;
    }
    proof {
        assert(rev@[rev@.len() - 1] == start);
    }
    // reverse into start-to-goal order
    let n = rev.len();
    let mut out: Vec<Point> = Vec::new();
    let mut i: usize = 0;
    while i < n
        invariant
            n == rev@.len(),
            i <= n,
            out@.len() == i,
            forall|t: int| 0 <= t < i ==> #[trigger] out@[t] == rev@[n - 1 - t],
        decreases n - i,
    {
        let p = rev[n - 1 - i];
        out.push(p);
        i = i + 1;
    }
    proof {
        assert(out@[0] == rev@[n - 1]);
        assert(out@[out@.len() - 1] == rev@[0]);
        assert forall|t: int| 0 <= t < out@.len() implies m.is_open(#[trigger] out@[t]) by {
            assert(out@[t] == rev@[n - 1 - t]);
        }
        assert forall|t: int| 0 <= t < out@.len() - 1 implies adjacent(
            #[trigger] out@[t],
            out@[t + 1],
        ) by {
            assert(out@[t] == rev@[n - 1 - t]);
            assert(out@[t + 1] == rev@[n - 1 - (t + 1)]);
            assert(adjacent(rev@[(n - 1 - t - 1) + 1], rev@[n - 1 - t - 1]));
        }
        assert forall|t1: int, t2: int| 0 <= t1 < t2 < out@.len() implies out@[t1] != out@[t2] by {
            assert(out@[t1] == rev@[n - 1 - t1]);
            assert(out@[t2] == rev@[n - 1 - t2]);
            assert(depth@[m.idx_of(rev@[n - 1 - t1])] + (n - 1 - t1) == depth@[m.idx_of(goal)]);
            assert(depth@[m.idx_of(rev@[n - 1 - t2])] + (n - 1 - t2) == depth@[m.idx_of(goal)]);
        }
    }
    out
}


/// A vector of `n` cleared flags.
fn falses(n: usize) -> (v: Vec<bool>)
    ensures
        v@.len() == n,
        forall|j: int| 0 <= j < n ==> !(#[trigger] v@[j]),
{
    let mut v: Vec<bool> = Vec::new();
    let mut i: usize = 0;
    while i < n
        invariant
            i <= n,
            v@.len() == i,
            forall|j: int| 0 <= j < i ==> !(#[trigger] v@[j]),
        decreases n - i,
    {
        v.push(false);
        i = i + 1;
    }
    v
}

/// A vector of `n` zeroes.
fn zeroes(n: usize) -> (v: Vec<usize>)
    ensures
        v@.len() == n,
        forall|j: int| 0 <= j < n ==> #[trigger] v@[j] == 0,
{
    let mut v: Vec<usize> = Vec::new();
    let mut i: usize = 0;
    while i < n
        invariant
            i <= n,
            v@.len() == i,
            forall|j: int| 0 <= j < i ==> #[trigger] v@[j] == 0,
        decreases n - i,
    {
        v.push(0);
        i = i + 1;
    }
    v
}

/// Depth-first search: explores one branch to exhaustion before
/// backtracking. Returns some valid simple path — with no promise of
/// minimality — or reports that no path exists.
#[verifier::rlimit(50)]
fn dfs_search(m: &Maze, start: Point, goal: Point) -> (r: Option<Vec<Point>>)
    requires
        m.wf(),
        m.is_open(start),
        m.is_open(goal),
    ensures
        match r {
            Some(p) => valid_path(*m, p@, start, goal) && is_simple(p@),
            None => !connected(*m, start, goal),
        },
{
    let n = m.cells.len();
    let mut vis = falses(n);
    let mut parent = zeroes(n);
    let mut depth = zeroes(n);
    proof {
        m.lemma_idx_in_range(start);
        m.lemma_idx_in_range(goal);
        lemma_point_of_index_roundtrip(*m, start);
        lemma_point_of_index_roundtrip(*m, goal);
        lemma_count_all_false(vis@);
        lemma_count_true_update(vis@, m.idx_of(start), true);
    }
    let si = m.index(start.x, start.y);
    let gi = m.index(goal.x, goal.y);
    vis[si] = true;
    let mut stack: Vec<usize> = Vec::new();
    stack.push(si);
    proof {
        assert(stack@[0] == si);
        assert(stack@.contains(si));
        assert forall|j: usize|
            j < n && vis@[j as int] && !stack@.contains(j) implies closed_at(
            *m,
            vis@,
            j as int,
        ) by {
            assert(j == si);
        }
    }
    while stack.len() > 0
        invariant
            m.wf(),
            m.is_open(start),
            m.is_open(goal),
            n == m.cells@.len(),
            si == m.idx_of(start),
            si < n,
            gi == m.idx_of(goal),
            gi < n,
            parent_inv(*m, start, vis@, parent@, depth@),
            forall|t: int|
                0 <= t < stack@.len() ==> (#[trigger] stack@[t]) < n && vis@[stack@[t] as int],
            forall|j: usize|
                j < n && vis@[j as int] && !stack@.contains(j) ==> closed_at(*m, vis@, j as int),
            forall|j: int| 0 <= j < n && vis@[j] ==> #[trigger] depth@[j] < count_true(vis@),
        decreases 2 * (n - count_true(vis@)) + stack@.len(),
    {
        proof {
            lemma_count_true_bounds(vis@);
        }
        let ghost stack_pre = stack@;
        let c = stack.pop().unwrap();
        proof {
            assert(stack@ =~= stack_pre.subrange(0, stack_pre.len() - 1));
            assert forall|j: usize| stack_pre.contains(j) && j != c implies stack@.contains(j) by {
                let t = choose|t: int| 0 <= t < stack_pre.len() && stack_pre[t] == j;
                assert(t < stack_pre.len() - 1);
                assert(stack@[t] == j);
            }
        }
        let pc = m.point_at(c);
        let succ = m.successors(pc);
        let ghost count0 = count_true(vis@);
        let ghost len0 = stack@.len() as int;
        let mut i: usize = 0;
        while i < succ.len()
            invariant
                m.wf(),
                m.is_open(start),
                n == m.cells@.len(),
                si == m.idx_of(start),
                si < n,
                c < n,
                vis@[c as int],
                pc == point_of_index(*m, c as int),
                i <= succ@.len(),
                parent_inv(*m, start, vis@, parent@, depth@),
                forall|t: int|
                    0 <= t < succ@.len() ==> m.is_open(#[trigger] succ@[t]) && adjacent(
                        pc,
                        succ@[t],
                    ),
                forall|t: int|
                    0 <= t < stack@.len() ==> (#[trigger] stack@[t]) < n && vis@[stack@[t] as int],
                forall|j: usize|
                    j < n && vis@[j as int] && !stack@.contains(j) && j != c ==> closed_at(
                        *m,
                        vis@,
                        j as int,
                    ),
                forall|j: int| 0 <= j < n && vis@[j] ==> #[trigger] depth@[j] < count_true(vis@),
                forall|t: int|
                    0 <= t < i ==> 0 <= m.idx_of(#[trigger] succ@[t]) < n && vis@[m.idx_of(
                        succ@[t],
                    )],
                2 * (n - count_true(vis@)) + stack@.len() <= 2 * (n - count0) + len0,
                count0 <= count_true(vis@),
            decreases succ@.len() - i,
        {
            let q = succ[i];
            let qi = m.index(q.x, q.y);
            if !vis[qi] {
                proof {
                    lemma_count_true_update(vis@, qi as int, true);
                    lemma_point_of_index_roundtrip(*m, q);
                    m.lemma_idx_in_range(q);
                    assert(qi != si);
                }
                vis[qi] = true;
                parent[qi] = c;
                let dc = depth[c];
                proof {
                    lemma_count_true_bounds(vis@);
                }
                depth[qi] = dc + 1;
                let ghost stack_mid = stack@;
                stack.push(qi);
                proof {
                    assert forall|j: usize| stack_mid.contains(j) implies stack@.contains(j) by {
                        let t = choose|t: int| 0 <= t < stack_mid.len() && stack_mid[t] == j;
                        assert(stack@[t] == j);
                    }
                    assert(stack@[stack@.len() - 1] == qi);
                    assert(stack@.contains(qi));
                }
            }
            i = i + 1;
        }
        proof {
            lemma_count_true_bounds(vis@);
            assert forall|j: usize|
                j < n && vis@[j as int] && !stack@.contains(j) implies closed_at(
                *m,
                vis@,
                j as int,
            ) by {
                if j == c {
                    assert forall|q: Point|
                        m.is_open(q) && #[trigger] adjacent(point_of_index(*m, j as int), q)
                        implies 0 <= m.idx_of(q) < vis@.len() && vis@[m.idx_of(q)] by {
                        assert(adjacent(pc, q));
                        assert(succ@.contains(q));
                        let t = choose|t: int| 0 <= t < succ@.len() && succ@[t] == q;
                        assert(vis@[m.idx_of(succ@[t])]);
                        m.lemma_idx_in_range(q);
                    }
                }
            }
        }
    }
    if vis[gi] {
        let path = reconstruct(m, start, goal, &vis, &parent, &depth);
        Some(path)
    } else {
        proof {
            if connected(*m, start, goal) {
                reveal(connected);
                let p = choose|p: Seq<Point>| valid_path(*m, p, start, goal);
                let marked = |q: Point| m.is_open(q) && vis@[m.idx_of(q)];
                assert forall|qq: Point, rr: Point|
                    marked(qq) && m.is_open(rr) && #[trigger] adjacent(qq, rr) implies marked(
                    rr,
                ) by {
                    m.lemma_idx_in_range(qq);
                    lemma_point_of_index_roundtrip(*m, qq);
                    let j = m.idx_of(qq) as usize;
                    assert(!stack@.contains(j));
                    assert(closed_at(*m, vis@, j as int));
                    assert(adjacent(point_of_index(*m, j as int), rr));
                    m.lemma_idx_in_range(rr);
                }
                lemma_closed_reaches(*m, marked, p, start, goal);
                assert(marked(goal));
                assert(false);
            }
        }
        None
    }
}


/// Uniform-cost search. Every edge costs one step, so the frontier
/// advances in whole depth levels; the cost labels it settles are exact
/// graph distances, which makes the returned path minimal. Returns a
/// shortest valid simple path, or reports that no path exists.
#[verifier::rlimit(100)]
fn uniform_cost_search(m: &Maze, start: Point, goal: Point) -> (r: Option<Vec<Point>>)
    requires
        m.wf(),
        m.is_open(start),
        m.is_open(goal),
    ensures
        match r {
            Some(p) => valid_path(*m, p@, start, goal) && is_simple(p@) && forall|q: Seq<Point>|
                valid_path(*m, q, start, goal) ==> p@.len() <= q.len(),
            None => !connected(*m, start, goal),
        },
{
    let n = m.cells.len();
    let mut vis = falses(n);
    let mut parent = zeroes(n);
    let mut depth = zeroes(n);
    proof {
        m.lemma_idx_in_range(start);
        m.lemma_idx_in_range(goal);
        lemma_point_of_index_roundtrip(*m, start);
        lemma_point_of_index_roundtrip(*m, goal);
        lemma_count_all_false(vis@);
        lemma_count_true_update(vis@, m.idx_of(start), true);
    }
    let si = m.index(start.x, start.y);
    let gi = m.index(goal.x, goal.y);
    vis[si] = true;
    let mut cur: Vec<usize> = Vec::new();
    let mut nxt: Vec<usize> = Vec::new();
    cur.push(si);
    let ghost mut d: int = 0;
    proof {
        assert(cur@[0] == si);
        assert(cur@.contains(si));
        assert forall|j: usize|
            j < n && vis@[j as int] && !cur@.contains(j) && !nxt@.contains(j)
            implies closed_dist(*m, vis@, depth@, j as int) by {
            assert(j == si);
        }
    }
    while cur.len() > 0 || nxt.len() > 0
        invariant
            m.wf(),
            m.is_open(start),
            m.is_open(goal),
            n == m.cells@.len(),
            si == m.idx_of(start),
            si < n,
            gi == m.idx_of(goal),
            gi < n,
            d >= 0,
            parent_inv(*m, start, vis@, parent@, depth@),
            forall|j: int| 0 <= j < n && vis@[j] ==> #[trigger] depth@[j] <= d + 1,
            forall|t: int|
                0 <= t < cur@.len() ==> (#[trigger] cur@[t]) < n && vis@[cur@[t] as int]
                    && depth@[cur@[t] as int] == d,
            forall|t: int|
                0 <= t < nxt@.len() ==> (#[trigger] nxt@[t]) < n && vis@[nxt@[t] as int]
                    && depth@[nxt@[t] as int] == d + 1,
            forall|j: usize|
                j < n && vis@[j as int] && !cur@.contains(j) && !nxt@.contains(j) ==> closed_dist(
                    *m,
                    vis@,
                    depth@,
                    j as int,
                ),
            forall|j: int| 0 <= j < n && vis@[j] ==> #[trigger] depth@[j] < count_true(vis@),
        decreases
                2 * (n - count_true(vis@)) + cur@.len() + nxt@.len(),
                (if cur@.len() == 0 {
                    1int
                } else {
                    0int
                }),
    {
        proof {
            lemma_count_true_bounds(vis@);
        }
        if cur.len() == 0 {
            cur = nxt;
            nxt = Vec::new();
            proof {
                d = d + 1;
            }
        } else {
            let ghost cur_pre = cur@;
            let c = cur.pop().unwrap();
            proof {
                assert(cur@ =~= cur_pre.subrange(0, cur_pre.len() - 1));
                assert forall|j: usize| cur_pre.contains(j) && j != c implies cur@.contains(j) by {
                    let t = choose|t: int| 0 <= t < cur_pre.len() && cur_pre[t] == j;
                    assert(t < cur_pre.len() - 1);
                    assert(cur@[t] == j);
                }
            }
            let pc = m.point_at(c);
            let succ = m.successors(pc);
            let ghost count0 = count_true(vis@);
            let ghost clen0 = cur@.len() as int;
            let ghost nlen0 = nxt@.len() as int;
            let mut i: usize = 0;
            while i < succ.len()
                invariant
                    m.wf(),
                    m.is_open(start),
                    n == m.cells@.len(),
                    si == m.idx_of(start),
                    si < n,
                    d >= 0,
                    c < n,
                    vis@[c as int],
                    depth@[c as int] == d,
                    pc == point_of_index(*m, c as int),
                    i <= succ@.len(),
                    parent_inv(*m, start, vis@, parent@, depth@),
                    forall|t: int|
                        0 <= t < succ@.len() ==> m.is_open(#[trigger] succ@[t]) && adjacent(
                            pc,
                            succ@[t],
                        ),
                    forall|j: int| 0 <= j < n && vis@[j] ==> #[trigger] depth@[j] <= d + 1,
                    forall|t: int|
                        0 <= t < cur@.len() ==> (#[trigger] cur@[t]) < n && vis@[cur@[t] as int]
                            && depth@[cur@[t] as int] == d,
                    forall|t: int|
                        0 <= t < nxt@.len() ==> (#[trigger] nxt@[t]) < n && vis@[nxt@[t] as int]
                            && depth@[nxt@[t] as int] == d + 1,
                    forall|j: usize|
                        j < n && vis@[j as int] && !cur@.contains(j) && !nxt@.contains(j) && j != c
                            ==> closed_dist(*m, vis@, depth@, j as int),
                    forall|j: int|
                        0 <= j < n && vis@[j] ==> #[trigger] depth@[j] < count_true(vis@),
                    forall|t: int|
                        0 <= t < i ==> 0 <= m.idx_of(#[trigger] succ@[t]) < n && vis@[m.idx_of(
                            succ@[t],
                        )] && depth@[m.idx_of(succ@[t])] <= d + 1,
                    2 * (n - count_true(vis@)) + cur@.len() + nxt@.len() <= 2 * (n - count0)
                        + clen0 + nlen0,
                    count0 <= count_true(vis@),
                decreases succ@.len() - i,
            {
                let q = succ[i];
                let qi = m.index(q.x, q.y);
                if !vis[qi] {
                    proof {
                        lemma_count_true_update(vis@, qi as int, true);
                        lemma_point_of_index_roundtrip(*m, q);
                        m.lemma_idx_in_range(q);
                        assert(qi != si);
                    }
                    vis[qi] = true;
                    parent[qi] = c;
                    let dc = depth[c];
                    proof {
                        lemma_count_true_bounds(vis@);
                    }
                    depth[qi] = dc + 1;
                    let ghost nxt_mid = nxt@;
                    nxt.push(qi);
                    proof {
                        assert forall|j: usize| nxt_mid.contains(j) implies nxt@.contains(j) by {
                            let t = choose|t: int| 0 <= t < nxt_mid.len() && nxt_mid[t] == j;
                            assert(nxt@[t] == j);
                        }
                        assert(nxt@[nxt@.len() - 1] == qi);
                        assert(nxt@.contains(qi));
                    }
                }
                i = i + 1;
            }
            proof {
                lemma_count_true_bounds(vis@);
                assert forall|j: usize|
                    j < n && vis@[j as int] && !cur@.contains(j) && !nxt@.contains(j)
                    implies closed_dist(*m, vis@, depth@, j as int) by {
                    if j == c {
                        assert forall|q: Point|
                            m.is_open(q) && #[trigger] adjacent(point_of_index(*m, j as int), q)
                            implies 0 <= m.idx_of(q) < vis@.len() && vis@[m.idx_of(q)]
                            && depth@[m.idx_of(q)] <= depth@[j as int] + 1 by {
                            assert(adjacent(pc, q));
                            assert(succ@.contains(q));
                            let t = choose|t: int| 0 <= t < succ@.len() && succ@[t] == q;
                            m.lemma_idx_in_range(q);
                            assert(vis@[m.idx_of(succ@[t])]);
                            assert(depth@[m.idx_of(q)] <= d + 1);
                        }
                    }
                }
            }
        }
    }
    if vis[gi] {
        let path = reconstruct(m, start, goal, &vis, &parent, &depth);
        proof {
            assert forall|q: Seq<Point>| valid_path(*m, q, start, goal) implies path@.len()
                <= q.len() by {
                let labelled = |p: Point| m.is_open(p) && vis@[m.idx_of(p)];
                let label = |p: Point| depth@[m.idx_of(p)] as int;
                assert forall|qq: Point, rr: Point|
                    labelled(qq) && m.is_open(rr) && #[trigger] adjacent(qq, rr) implies labelled(
                    rr,
                ) && label(rr) <= label(qq) + 1 by {
                    m.lemma_idx_in_range(qq);
                    lemma_point_of_index_roundtrip(*m, qq);
                    let j = m.idx_of(qq) as usize;
                    assert(!cur@.contains(j) && !nxt@.contains(j));
                    assert(closed_dist(*m, vis@, depth@, j as int));
                    assert(adjacent(point_of_index(*m, j as int), rr));
                    m.lemma_idx_in_range(rr);
                }
                lemma_distance_bound(*m, labelled, label, q, start, goal);
                assert(depth@[m.idx_of(goal)] <= q.len() - 1);
            }
        }
        Some(path)
    } else {
        proof {
            if connected(*m, start, goal) {
                reveal(connected);
                let p = choose|p: Seq<Point>| valid_path(*m, p, start, goal);
                let labelled = |q: Point| m.is_open(q) && vis@[m.idx_of(q)];
                let label = |q: Point| depth@[m.idx_of(q)] as int;
                assert forall|qq: Point, rr: Point|
                    labelled(qq) && m.is_open(rr) && #[trigger] adjacent(qq, rr) implies labelled(
                    rr,
                ) && label(rr) <= label(qq) + 1 by {
                    m.lemma_idx_in_range(qq);
                    lemma_point_of_index_roundtrip(*m, qq);
                    let j = m.idx_of(qq) as usize;
                    assert(!cur@.contains(j) && !nxt@.contains(j));
                    assert(closed_dist(*m, vis@, depth@, j as int));
                    assert(adjacent(point_of_index(*m, j as int), rr));
                    m.lemma_idx_in_range(rr);
                }
                lemma_distance_bound(*m, labelled, label, p, start, goal);
                assert(labelled(goal));
                assert(false);
            }
        }
        None
    }
}

/// Equality test handed to the search's goal predicate.
fn same_point(a: &Point, b: &Point) -> (r: bool)
    ensures
        r == (a == b),
{
    a.x == b.x && a.y == b.y
}

/// Relies on pathfinding's `bfs`: it computes one of the shortest paths
/// from `start` to the first node meeting the goal test — start and end
/// included, every step drawn from the successor closure, which here
/// yields exactly the open unit-distance neighbors — or returns `None`
/// when no such path exists.
#[verifier::external_body]
fn bfs_shortest(m: &Maze, start: Point, goal: Point) -> (r: Option<Vec<Point>>)
    requires
        m.wf(),
        m.is_open(start),
        m.is_open(goal),
    ensures
        match r {
            Some(p) => valid_path(*m, p@, start, goal) && forall|q: Seq<Point>|
                valid_path(*m, q, start, goal) ==> p@.len() <= q.len(),
            None => !connected(*m, start, goal),
        },
{
    pathfinding::directed::bfs::bfs(
        &start,
        |node: &Point| m.successors(*node),
        |node: &Point| same_point(node, &goal),
    )
}

/// Computes a route between two open cells of a grid with the selected
/// strategy. All three strategies return a valid simple path exactly
/// when one exists; breadth-first and uniform-cost additionally return
/// one of minimum length. Fails with `InvalidEndpoint` when an endpoint
/// is out of bounds or a wall, and with `NoPathFound` when the open
/// cells admit no route.
pub fn path_find(maze: &Maze, start: Point, goal: Point, algorithm: Algorithm) -> (r: Result<
    Path,
    MazeError,
>)
    requires
        maze.wf(),
    ensures
        match r {
            Ok(p) => {
                &&& maze.is_open(start)
                &&& maze.is_open(goal)
                &&& valid_path(*maze, p.steps@, start, goal)
                &&& is_simple(p.steps@)
                &&& (p.steps@.len() == 1 <==> start == goal)
                &&& (algorithm is Bfs || algorithm is Dijkstra) ==> forall|q: Seq<Point>|
                    valid_path(*maze, q, start, goal) ==> p.steps@.len() <= q.len()
            },
            Err(e) => {
                &&& e is InvalidEndpoint <==> !(maze.is_open(start) && maze.is_open(goal))
                &&& e is NoPathFound <==> (maze.is_open(start) && maze.is_open(goal)
                    && !connected(*maze, start, goal))
                &&& !(e is InvalidDimensions)
            },
        },
        maze.is_open(start) && maze.is_open(goal) && connected(*maze, start, goal) ==> r is Ok,
{
    let start_open = maze.cell_is_open(start.x, start.y);
    let goal_open = maze.cell_is_open(goal.x, goal.y);
    if !(start_open && goal_open) {
        return Err(MazeError::InvalidEndpoint);
    }
    let found = match algorithm {
        Algorithm::Bfs => {
            let r = bfs_shortest(maze, start, goal);
            proof {
                if r is Some {
                    lemma_minimal_is_simple(*maze, r.unwrap()@, start, goal);
                }
            }
            r
        },
        Algorithm::Dfs => dfs_search(maze, start, goal),
        Algorithm::Dijkstra => uniform_cost_search(maze, start, goal),
    };
    match found {
        Some(steps) => {
            proof {
                reveal(connected);
                assert(connected(*maze, start, goal));
                if start == goal {
                    assert(steps@[0] == steps@[steps@.len() - 1]);
                }
            }
            Ok(Path { steps })
        },
        None => Err(MazeError::NoPathFound),
    }
}

} // verus!
