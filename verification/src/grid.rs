use vstd::prelude::*;

verus! {

use crate::CellState;

/// A grid coordinate. Compared and hashed by value; coordinates are never
/// negative, and out-of-range coordinates are rejected by the grid, not
/// clamped.
#[derive(Clone, Copy, Debug, PartialEq, Eq, Hash, Structural)]
pub struct Point {
    pub x: usize,
    pub y: usize,
}

impl Point {
    pub fn new(x: usize, y: usize) -> (r: Point)
        ensures
            r.x == x,
            r.y == y,
    {
        Point { x, y }
    }
}

/// Unit (4-directional) adjacency: the traversal-time neighbor relation.
pub open spec fn adjacent(a: Point, b: Point) -> bool {
    ||| a.y == b.y && (a.x + 1 == b.x || b.x + 1 == a.x)
    ||| a.x == b.x && (a.y + 1 == b.y || b.y + 1 == a.y)
}

/// Doubled-step adjacency: the generation-time neighbor relation, which
/// keeps one wall cell between any two adjacent rooms.
pub open spec fn adjacent2(a: Point, b: Point) -> bool {
    ||| a.y == b.y && (a.x + 2 == b.x || b.x + 2 == a.x)
    ||| a.x == b.x && (a.y + 2 == b.y || b.y + 2 == a.y)
}

/// The errors this library reports: a grid constructed with a zero
/// dimension, a pathfinding endpoint that is out of bounds or a wall,
/// and a pathfinding request that no open route can satisfy.
#[derive(Clone, Copy, Debug, PartialEq, Eq, Structural)]
pub enum MazeError {
    InvalidDimensions,
    InvalidEndpoint,
    NoPathFound,
}

/// A fixed-size two-dimensional grid of cell states, stored densely in
/// row-major order. Dimensions are fixed at construction.
#[derive(Clone, Debug)]
pub struct Maze {
    pub width: usize,
    pub height: usize,
    pub cells: Vec<CellState>,
}

impl Maze {
    /// Well-formedness: positive dimensions and a dense backing store,
    /// one state per in-bounds coordinate.
    pub open spec fn wf(self) -> bool {
        &&& self.width >= 1
        &&& self.height >= 1
        &&& self.cells@.len() == self.width * self.height
    }

    pub open spec fn in_bounds(self, p: Point) -> bool {
        p.x < self.width && p.y < self.height
    }

    /// Row-major index of an in-bounds coordinate.
    pub open spec fn idx_of(self, p: Point) -> int {
        p.y * self.width + p.x
    }

    /// The state of an in-bounds cell.
    pub open spec fn at(self, p: Point) -> CellState {
        self.cells@[self.idx_of(p)]
    }

    pub open spec fn is_open(self, p: Point) -> bool {
        self.in_bounds(p) && self.at(p) is Open
    }

    /// What `get` returns: the cell state in bounds, absent outside.
    pub open spec fn spec_get(self, x: usize, y: usize) -> Option<CellState> {
        if self.in_bounds(Point { x, y }) {
            Some(self.at(Point { x, y }))
        } else {
            None
        }
    }

    pub proof fn lemma_idx_in_range(self, p: Point)
        requires
            self.wf(),
            self.in_bounds(p),
        ensures
            0 <= self.idx_of(p) < self.cells@.len(),
    {
        assert(p.y * self.width + p.x < self.height * self.width) by (nonlinear_arith)
            requires
                p.x < self.width,
                p.y < self.height,
        ;
        assert(self.height * self.width == self.width * self.height) by (nonlinear_arith);
    }

    /// Row-major indexing is injective on in-bounds coordinates.
    pub proof fn lemma_idx_injective(self, p: Point, q: Point)
        requires
            self.wf(),
            self.in_bounds(p),
            self.in_bounds(q),
            self.idx_of(p) == self.idx_of(q),
        ensures
            p == q,
    {
        assert(p.x == q.x && p.y == q.y) by (nonlinear_arith)
            requires
                p.x < self.width,
                q.x < self.width,
                p.y * self.width + p.x == q.y * self.width + q.x,
        ;
    }

    /// Allocates a `width * height` grid with every cell a `Wall`.
    /// Fails exactly when one of the dimensions is zero.
    pub fn new(width: usize, height: usize) -> (r: Result<Maze, MazeError>)
        requires
            width * height <= usize::MAX,
        ensures
            match r {
                Ok(m) => {
                    &&& width >= 1
                    &&& height >= 1
                    &&& m.wf()
                    &&& m.width == width
                    &&& m.height == height
                    &&& forall|p: Point| m.in_bounds(p) ==> m.at(p) is Wall
                },
                Err(e) => e is InvalidDimensions && (width == 0 || height == 0),
            },
    {
        if width == 0 || height == 0 {
            return Err(MazeError::InvalidDimensions);
        }
        let n = width * height;
        let mut cells: Vec<CellState> = Vec::new();
        let mut i: usize = 0;
        while i < n
            invariant
                i <= n,
                cells@.len() == i,
                forall|j: int| 0 <= j < i ==> cells@[j] is Wall,
            decreases n - i,
        {
            cells.push(CellState::Wall);
            i = i + 1;
        }
        let m = Maze { width, height, cells };
        proof {
            assert forall|p: Point| m.in_bounds(p) implies m.at(p) is Wall by {
                m.lemma_idx_in_range(p);
            }
        }
        Ok(m)
    }

    pub(crate) fn index(&self, x: usize, y: usize) -> (r: usize)
        requires
            self.wf(),
            x < self.width,
            y < self.height,
        ensures
            r == self.idx_of(Point { x, y }),
            r < self.cells@.len(),
    {
        let n = self.cells.len();
        proof {
            self.lemma_idx_in_range(Point { x, y });
            assert(y * self.width + x < n);
        }
        y * self.width + x
    }

    /// Bounds-checked query: the one accessor every other component uses.
    /// Out-of-bounds coordinates yield `None`, never a panic.
    pub fn get(&self, x: usize, y: usize) -> (r: Option<CellState>)
        requires
            self.wf(),
        ensures
            r == self.spec_get(x, y),
    {
        if x < self.width && y < self.height {
            let i = self.index(x, y);
            Some(self.cells[i])
        } else {
            None
        }
    }

    /// Writes one in-bounds cell; every other cell keeps its state.
    pub fn set(&mut self, x: usize, y: usize, cell: CellState)
        requires
            old(self).wf(),
            x < old(self).width,
            y < old(self).height,
        ensures
            final(self).wf(),
            final(self).width == old(self).width,
            final(self).height == old(self).height,
            final(self).cells@ == old(self).cells@.update(old(self).idx_of(Point { x, y }), cell),
            final(self).at(Point { x, y }) == cell,
            forall|q: Point|
                old(self).in_bounds(q) && q != (Point { x, y }) ==> final(self).at(q) == old(
                    self,
                ).at(q),
    {
        let i = self.index(x, y);
        self.cells[i] = cell;
        proof {
            let p = Point { x, y };
            assert forall|q: Point| old(self).in_bounds(q) && q != p implies self.at(q) == old(
                self,
            ).at(q) by {
                old(self).lemma_idx_in_range(q);
                if old(self).idx_of(q) == old(self).idx_of(p) {
                    old(self).lemma_idx_injective(q, p);
                }
            }
        }
    }
    /// The up-to-four in-bounds coordinates at doubled step distance from
    /// `p`: the generation-time "room" adjacency.
    pub fn neighbors(&self, p: Point) -> (r: Vec<Point>)
        requires
            self.wf(),
        ensures
            forall|i: int|
                0 <= i < r@.len() ==> self.in_bounds(#[trigger] r@[i]) && adjacent2(p, r@[i]),
            forall|q: Point| self.in_bounds(q) && adjacent2(p, q) ==> r@.contains(q),
            forall|i: int, j: int| 0 <= i < j < r@.len() ==> r@[i] != r@[j],
    {
        let mut r: Vec<Point> = Vec::new();
        let ghost mut iw: int = 0;
        let ghost mut ie: int = 0;
        let ghost mut in_: int = 0;
        let ghost mut is_: int = 0;
        let west_ok = p.x >= 2 && p.x - 2 < self.width && p.y < self.height;
        if west_ok {
            proof {
                iw = r@.len() as int;
            }
            r.push(Point { x: p.x - 2, y: p.y });
        }
        let east_ok = p.x < self.width && self.width - p.x >= 3 && p.y < self.height;
        if east_ok {
            proof {
                ie = r@.len() as int;
            }
            r.push(Point { x: p.x + 2, y: p.y });
        }
        let north_ok = p.y >= 2 && p.y - 2 < self.height && p.x < self.width;
        if north_ok {
            proof {
                in_ = r@.len() as int;
            }
            r.push(Point { x: p.x, y: p.y - 2 });
        }
        let south_ok = p.y < self.height && self.height - p.y >= 3 && p.x < self.width;
        if south_ok {
            proof {
                is_ = r@.len() as int;
            }
            r.push(Point { x: p.x, y: p.y + 2 });
        }
        proof {
            assert forall|q: Point| self.in_bounds(q) && adjacent2(p, q) implies r@.contains(
                q,
            ) by {
                if q.y == p.y && q.x + 2 == p.x {
                    assert(r@[iw] == q);
                } else if q.y == p.y && p.x + 2 == q.x {
                    assert(r@[ie] == q);
                } else if q.x == p.x && q.y + 2 == p.y {
                    assert(r@[in_] == q);
                } else {
                    assert(r@[is_] == q);
                }
            }
        }
        r
    }

    /// The up-to-four open coordinates at unit distance from `p`: the
    /// traversal adjacency that pathfinding consumes.
    pub fn successors(&self, p: Point) -> (r: Vec<Point>)
        requires
            self.wf(),
        ensures
            forall|i: int|
                0 <= i < r@.len() ==> self.is_open(#[trigger] r@[i]) && adjacent(p, r@[i]),
            forall|q: Point| self.is_open(q) && adjacent(p, q) ==> r@.contains(q),
            forall|i: int, j: int| 0 <= i < j < r@.len() ==> r@[i] != r@[j],
    {
        let mut r: Vec<Point> = Vec::new();
        let ghost mut iw: int = 0;
        let ghost mut ie: int = 0;
        let ghost mut in_: int = 0;
        let ghost mut is_: int = 0;
        if p.x >= 1 {
            if self.cell_is_open(p.x - 1, p.y) {
                proof {
                    iw = r@.len() as int;
                }
                r.push(Point { x: p.x - 1, y: p.y });
            }
        }
        if p.x < self.width && self.width - p.x >= 2 {
            if self.cell_is_open(p.x + 1, p.y) {
                proof {
                    ie = r@.len() as int;
                }
                r.push(Point { x: p.x + 1, y: p.y });
            }
        }
        if p.y >= 1 {
            if self.cell_is_open(p.x, p.y - 1) {
                proof {
                    in_ = r@.len() as int;
                }
                r.push(Point { x: p.x, y: p.y - 1 });
            }
        }
        if p.y < self.height && self.height - p.y >= 2 {
            if self.cell_is_open(p.x, p.y + 1) {
                proof {
                    is_ = r@.len() as int;
                }
                r.push(Point { x: p.x, y: p.y + 1 });
            }
        }
        proof {
            assert forall|q: Point| self.is_open(q) && adjacent(p, q) implies r@.contains(q) by {
                if q.y == p.y && q.x + 1 == p.x {
                    assert(r@[iw] == q);
                } else if q.y == p.y && p.x + 1 == q.x {
                    assert(r@[ie] == q);
                } else if q.x == p.x && q.y + 1 == p.y {
                    assert(r@[in_] == q);
                } else {
                    assert(r@[is_] == q);
                }
            }
        }
        r
    }

    /// Whether the in-bounds-checked cell at `(x, y)` is open.
    pub fn cell_is_open(&self, x: usize, y: usize) -> (r: bool)
        requires
            self.wf(),
        ensures
            r == self.is_open(Point { x, y }),
    {
        match self.get(x, y) {
            Some(CellState::Open) => true,
            _ => false,
        }
    }
}

} // verus!
