use vstd::prelude::*;

verus! {

/// The classification of one cell of a maze.
#[derive(Clone, Copy, Debug, PartialEq, Eq, Structural)]
pub enum Cell {
    Free,
    Blocked,
    Start,
    End,
    Path,
    /// A cell whose colour is neither of the two that a binarized maze uses.
    Unknown,
}

/// A cell position: `x` is the column, `y` the row (row 0 is the top).
#[derive(Clone, Copy, Debug, PartialEq, Eq, Hash, Structural)]
pub struct Point {
    pub x: i32,
    pub y: i32,
}

/// The largest width or height a maze may have: coordinates are `i32`.
pub const MAX_SIDE: u32 = 0x7fff_ffff;

/// A rectangular maze, its cells stored row by row.
pub struct Maze {
    width: u32,
    height: u32,
    cells: Vec<Cell>,
}

/// The mathematical model of a maze.
pub struct Grid {
    pub width: int,
    pub height: int,
    pub cells: Seq<Cell>,
}

pub open spec fn manhattan(a: Point, b: Point) -> int {
    let dx = a.x - b.x;
    let dy = a.y - b.y;
    (if dx < 0 { -dx } else { dx }) + (if dy < 0 { -dy } else { dy })
}

/// Two cells are 4-connected neighbours.
pub open spec fn adjacent(a: Point, b: Point) -> bool {
    manhattan(a, b) == 1
}

impl Grid {
    pub open spec fn wf(self) -> bool {
        &&& 0 <= self.width <= MAX_SIDE
        &&& 0 <= self.height <= MAX_SIDE
        &&& self.cells.len() == self.width * self.height
    }

    pub open spec fn in_bounds(self, p: Point) -> bool {
        0 <= p.x < self.width && 0 <= p.y < self.height
    }

    /// Where a cell is stored in `cells`.
    pub open spec fn key(self, p: Point) -> int {
        p.y * self.width + p.x
    }

    /// The cell stored at index `k` of `cells`.
    pub open spec fn point_of(self, k: int) -> Point {
        Point { x: (k % self.width) as i32, y: (k / self.width) as i32 }
    }

    pub open spec fn cell(self, p: Point) -> Cell {
        self.cells[self.key(p)]
    }

    pub open spec fn is_free(self, p: Point) -> bool {
        self.in_bounds(p) && self.cell(p) == Cell::Free
    }

    /// Every in-bounds neighbour of `p` is free or blocked.
    pub open spec fn is_clean(self, p: Point) -> bool {
        forall|q: Point| adjacent(p, q) && #[trigger] self.in_bounds(q) ==> self.cell(q) == Cell::Free
            || self.cell(q) == Cell::Blocked
    }

    /// Every cell is either free or blocked.
    pub open spec fn is_binary(self) -> bool {
        forall|k: int| 0 <= k < self.cells.len() ==> (#[trigger] self.cells[k] == Cell::Free
            || self.cells[k] == Cell::Blocked)
    }

    /// `p` is the leftmost free cell of its row.
    pub open spec fn is_first_free(self, p: Point) -> bool {
        &&& self.is_free(p)
        &&& forall|x: i32| 0 <= x < p.x ==> !#[trigger] self.is_free(Point { x, y: p.y })
    }

    pub open spec fn row_has_free(self, y: i32) -> bool {
        exists|x: i32| #[trigger] self.is_free(Point { x, y })
    }

    /// The start of the maze: the leftmost free cell of the top row.
    pub open spec fn is_start(self, p: Point) -> bool {
        p.y == 0 && self.is_first_free(p)
    }

    /// The end of the maze: the leftmost free cell of the bottom row.
    pub open spec fn is_end(self, p: Point) -> bool {
        p.y == self.height - 1 && self.is_first_free(p)
    }

    /// A non-empty sequence of free cells, each a neighbour of the one before.
    pub open spec fn is_walk(self, path: Seq<Point>) -> bool {
        &&& path.len() >= 1
        &&& forall|i: int| 0 <= i < path.len() ==> #[trigger] self.is_free(path[i])
        &&& forall|i: int| 0 <= i < path.len() - 1 ==> #[trigger] adjacent(path[i], path[i + 1])
    }

    /// `path` is a walk from `s` to `e`.
    pub open spec fn connects(self, path: Seq<Point>, s: Point, e: Point) -> bool {
        self.is_walk(path) && path[0] == s && path.last() == e
    }

    pub open spec fn reachable(self, s: Point, e: Point) -> bool {
        exists|path: Seq<Point>| self.connects(path, s, e)
    }

    /// `path` connects `s` to `e` and no walk between them has fewer cells.
    pub open spec fn is_shortest(self, path: Seq<Point>, s: Point, e: Point) -> bool {
        &&& self.connects(path, s, e)
        &&& forall|q: Seq<Point>| #[trigger] self.connects(q, s, e) ==> path.len() <= q.len()
    }

    /// Some cell of `path` is stored at index `k`.
    pub open spec fn on_path(self, path: Seq<Point>, k: int) -> bool {
        exists|i: int| 0 <= i < path.len() && self.key(#[trigger] path[i]) == k
    }

    /// The grid with every cell of `path` marked as part of the route.
    pub open spec fn rendered(self, path: Seq<Point>) -> Grid {
        Grid {
            width: self.width,
            height: self.height,
            cells: Seq::new(
                self.cells.len(),
                |k: int|
                    if self.on_path(path, k) {
                        Cell::Path
                    } else {
                        self.cells[k]
                    },
            ),
        }
    }

    /// The grid read with route marks taken as free cells.
    pub open spec fn unmarked(self) -> Grid {
        Grid {
            width: self.width,
            height: self.height,
            cells: Seq::new(
                self.cells.len(),
                |k: int|
                    if self.cells[k] == Cell::Path {
                        Cell::Free
                    } else {
                        self.cells[k]
                    },
            ),
        }
    }
}

/// An in-bounds point is stored inside `cells`, at a place no other point shares.
pub proof fn lemma_key_in_range(g: Grid, p: Point)
    requires
        g.wf(),
        g.in_bounds(p),
    ensures
        0 <= g.key(p) < g.width * g.height,
        g.width * g.height <= 0x4000_0000_0000_0000,
        g.point_of(g.key(p)) == p,
{
    let w = g.width;
    assert(w * g.height <= 0x4000_0000_0000_0000) by (nonlinear_arith)
        requires
            0 <= w <= MAX_SIDE,
            0 <= g.height <= MAX_SIDE,
    ;
    let (x, y) = (p.x as int, p.y as int);
    assert(0 <= y * w + x < w * g.height) by (nonlinear_arith)
        requires
            0 <= x < w,
            0 <= y < g.height,
    ;
    vstd::arithmetic::div_mod::lemma_fundamental_div_mod_converse(y * w + x, w, y, x);
}

/// Every index of `cells` belongs to an in-bounds point.
pub proof fn lemma_point_of_in_range(g: Grid, k: int)
    requires
        g.wf(),
        0 <= k < g.width * g.height,
    ensures
        g.in_bounds(g.point_of(k)),
        g.key(g.point_of(k)) == k,
        g.width * g.height <= 0x4000_0000_0000_0000,
{
    let w = g.width;
    assert(w * g.height <= 0x4000_0000_0000_0000) by (nonlinear_arith)
        requires
            0 <= w <= MAX_SIDE,
            0 <= g.height <= MAX_SIDE,
    ;
    assert(w > 0) by (nonlinear_arith)
        requires
            0 <= k < w * g.height,
            0 <= g.height,
    ;
    vstd::arithmetic::div_mod::lemma_fundamental_div_mod(k, w);
    vstd::arithmetic::div_mod::lemma_mod_bound(k, w);
    let (q, r) = (k / w, k % w);
    assert(0 <= q < g.height && q <= k) by (nonlinear_arith)
        requires
            k == w * q + r,
            0 <= r < w,
            0 <= k < w * g.height,
    ;
    assert(q * w == w * q) by (nonlinear_arith);
    assert(g.point_of(k).x == r && g.point_of(k).y == q);
}

impl View for Maze {
    type V = Grid;

    closed spec fn view(&self) -> Grid {
        Grid { width: self.width as int, height: self.height as int, cells: self.cells@ }
    }
}

impl Maze {
    pub open spec fn wf(&self) -> bool {
        self@.wf()
    }

    /// Builds a maze of the given size from its cells, listed row by row.
    /// Returns `None` when a side exceeds `MAX_SIDE` or the number of cells
    /// is not `width * height`.
    pub fn new(width: u32, height: u32, cells: Vec<Cell>) -> (r: Option<Maze>)
        ensures
            r is Some <==> (width <= MAX_SIDE && height <= MAX_SIDE && cells@.len() == width
                * height),
            r is Some ==> {
                let m = r->Some_0;
                &&& m.wf()
                &&& m@ == Grid { width: width as int, height: height as int, cells: cells@ }
            },
    {
        if width > MAX_SIDE || height > MAX_SIDE {
            return None;
        }
        assert(width as u64 * height as u64 <= 0x4000_0000_0000_0000) by (nonlinear_arith)
            requires
                width <= MAX_SIDE,
                height <= MAX_SIDE,
        ;
        let n: u64 = width as u64 * height as u64;
        if cells.len() as u64 != n {
            return None;
        }
        Some(Maze { width, height, cells })
    }

    pub fn height(&self) -> (r: i32)
        requires
            self.wf(),
        ensures
            r == self@.height,
    {
        self.height as i32
    }

    pub fn width(&self) -> (r: i32)
        requires
            self.wf(),
        ensures
            r == self@.width,
    {
        self.width as i32
    }

    /// The cells, row by row.
    pub fn cells(&self) -> (r: &Vec<Cell>)
        ensures
            r@ == self@.cells,
    {
        &self.cells
    }

    /// Where the cell at `p` is stored in `cells`.
    pub fn key_of(&self, p: Point) -> (r: usize)
        requires
            self.wf(),
            self@.in_bounds(p),
        ensures
            r == self@.key(p),
            r < self@.cells.len(),
    {
        proof {
            lemma_key_in_range(self@, p);
        }
        let n = self.cells.len();
        let (x, y, w) = (p.x as usize, p.y as usize, self.width as usize);
        assert(y * w <= self@.key(p) < n);
        y * w + x
    }

    /// The point whose cell is stored at index `k`.
    pub fn point_at(&self, k: u64) -> (r: Point)
        requires
            self.wf(),
            k < self@.cells.len(),
        ensures
            r == self@.point_of(k as int),
            self@.in_bounds(r),
            self@.key(r) == k,
    {
        proof {
            lemma_point_of_in_range(self@, k as int);
        }
        let w = self.width as u64;
        Point { x: (k % w) as i32, y: (k / w) as i32 }
    }

    /// A copy of the maze.
    pub fn duplicate(&self) -> (r: Maze)
        ensures
            r@ == self@,
    {
        let mut cells: Vec<Cell> = Vec::new();
        let mut i: usize = 0;
        while i < self.cells.len()
            invariant
                i <= self.cells@.len(),
                cells@ == self.cells@.take(i as int),
            decreases self.cells@.len() - i,
        {
            cells.push(self.cells[i]);
            i = i + 1;
            assert(cells@ =~= self.cells@.take(i as int));
        }
        assert(cells@ =~= self.cells@);
        Maze { width: self.width, height: self.height, cells }
    }

    /// Sets the classification of the cell at `p`.
    pub fn set_cell(&mut self, p: Point, c: Cell)
        requires
            old(self).wf(),
            old(self)@.in_bounds(p),
        ensures
            final(self).wf(),
            final(self)@ == (Grid {
                cells: old(self)@.cells.update(old(self)@.key(p), c),
                ..old(self)@
            }),
    {
        let k = self.key_of(p);
        self.cells.set(k, c);
    }

    /// The classification of the cell at `p`.
    pub fn cell(&self, p: Point) -> (r: Cell)
        requires
            self.wf(),
            self@.in_bounds(p),
        ensures
            r == self@.cell(p),
    {
        let k = self.key_of(p);
        self.cells[k]
    }
}

} // verus!
