use crate::maze::{adjacent, lemma_key_in_range, manhattan, Cell, Grid, Maze, Point};
use crate::search::solve_a_star;
use std::collections::HashMap;
use vstd::prelude::*;

verus! {

broadcast use vstd::std_specs::hash::group_hash_axioms;

/// Why a maze could not be solved.
#[derive(Clone, Copy, Debug, PartialEq, Eq, Structural)]
pub enum SolveError {
    /// The top row has no free cell.
    StartNotFound,
    /// The bottom row has no free cell.
    EndNotFound,
    /// The free cells do not connect the start to the end.
    NoPathExists,
    /// The search met a cell that is neither free nor blocked.
    UnknownCellClassification,
}

impl SolveError {
    /// A sentence describing the error.
    pub fn message(&self) -> (r: &'static str)
        ensures
            *self == SolveError::StartNotFound ==> r@ == "Unable to find start point for maze!"@,
            *self == SolveError::EndNotFound ==> r@ == "Unable to find end point for maze!"@,
            *self == SolveError::NoPathExists ==> r@ == "unable to find a path that solves the maze!"@,
            *self == SolveError::UnknownCellClassification ==> r@
                == "the maze holds a cell that is neither free nor blocked"@,
    {
        match self {
            SolveError::StartNotFound => "Unable to find start point for maze!",
            SolveError::EndNotFound => "Unable to find end point for maze!",
            SolveError::NoPathExists => "unable to find a path that solves the maze!",
            SolveError::UnknownCellClassification => "the maze holds a cell that is neither free nor blocked",
        }
    }
}

/// The leftmost free cell of row `y`, if any.
fn first_free_in_row(maze: &Maze, y: i32) -> (r: Option<Point>)
    requires
        maze.wf(),
        0 <= y < maze@.height,
    ensures
        r is Some <==> maze@.row_has_free(y),
        r matches Some(p) ==> p.y == y && maze@.is_first_free(p),
{
    let w = maze.width();
    let mut x: i32 = 0;
    while x < w
        invariant
            maze.wf(),
            0 <= y < maze@.height,
            w == maze@.width,
            0 <= x <= w,
            forall|x2: i32| 0 <= x2 < x ==> !#[trigger] maze@.is_free(Point { x: x2, y }),
        decreases w - x,
    {
        let p = Point { x, y };
        if maze.cell(p) == Cell::Free {
            assert(maze@.is_free(p));
            return Some(p);
        }
        x = x + 1;
    }
    assert forall|x2: i32| !#[trigger] maze@.is_free(Point { x: x2, y }) by {
        if 0 <= x2 < x {
        }
    }
    None
}

/// The start: the leftmost free cell of the top row.
pub(crate) fn find_start(maze: &Maze) -> (r: Result<Point, SolveError>)
    requires
        maze.wf(),
    ensures
        r is Ok <==> maze@.row_has_free(0),
        r matches Ok(p) ==> maze@.is_start(p),
        r matches Err(e) ==> e == SolveError::StartNotFound,
{
    if maze.height() == 0 {
        assert(forall|x: i32| !#[trigger] maze@.is_free(Point { x, y: 0 }));
        return Err(SolveError::StartNotFound);
    }
    match first_free_in_row(maze, 0) {
        Some(p) => Ok(p),
        None => Err(SolveError::StartNotFound),
    }
}

/// The end: the leftmost free cell of the bottom row.
pub(crate) fn find_end(maze: &Maze) -> (r: Result<Point, SolveError>)
    requires
        maze.wf(),
    ensures
        r is Ok <==> maze@.row_has_free((maze@.height - 1) as i32),
        r matches Ok(p) ==> maze@.is_end(p),
        r matches Err(e) ==> e == SolveError::EndNotFound,
{
    let h = maze.height();
    if h == 0 {
        assert(forall|x: i32| !#[trigger] maze@.is_free(Point { x, y: -1i32 }));
        return Err(SolveError::EndNotFound);
    }
    match first_free_in_row(maze, h - 1) {
        Some(p) => Ok(p),
        None => Err(SolveError::EndNotFound),
    }
}

/// Whether the cell at (`x`, `y`) can be walked on: out-of-bounds and blocked
/// cells cannot; any classification but free or blocked is an error.
fn is_open(maze: &Maze, x: i32, y: i32) -> (r: Result<bool, SolveError>)
    requires
        maze.wf(),
    ensures
        r matches Ok(b) ==> b == maze@.is_free(Point { x, y }),
        r is Err <==> (maze@.in_bounds(Point { x, y }) && maze@.cell(Point { x, y }) != Cell::Free
            && maze@.cell(Point { x, y }) != Cell::Blocked),
        r matches Err(e) ==> e == SolveError::UnknownCellClassification,
{
    if x < 0 || x > maze.width() - 1 || y < 0 || y > maze.height() - 1 {
        return Ok(false);
    }
    match maze.cell(Point { x, y }) {
        Cell::Blocked => Ok(false),
        Cell::Free => Ok(true),
        _ => Err(SolveError::UnknownCellClassification),
    }
}

/// A cell that is neither free nor blocked makes the grid not binary.
proof fn lemma_not_binary(g: Grid, p: Point)
    requires
        g.wf(),
        g.in_bounds(p),
        g.cell(p) != Cell::Free,
        g.cell(p) != Cell::Blocked,
    ensures
        !g.is_binary(),
{
    crate::maze::lemma_key_in_range(g, p);
}

/// The four cells next to `c`, in the order the search tries them: left,
/// right, above, below.
pub open spec fn neighbor_candidates(c: Point) -> Seq<Point> {
    seq![
        Point { x: (c.x - 1) as i32, y: c.y },
        Point { x: (c.x + 1) as i32, y: c.y },
        Point { x: c.x, y: (c.y - 1) as i32 },
        Point { x: c.x, y: (c.y + 1) as i32 },
    ]
}

/// The free 4-connected neighbours of `current`: the four candidates that
/// are free, in order; an error as soon as a candidate in bounds is neither
/// free nor blocked.
pub(crate) fn find_neighbors(maze: &Maze, current: Point) -> (r: Result<Vec<Point>, SolveError>)
    requires
        maze.wf(),
        maze@.in_bounds(current),
    ensures
        r is Ok <==> forall|j: int| 0 <= j < 4 ==> {
            let q = #[trigger] neighbor_candidates(current)[j];
            !maze@.in_bounds(q) || maze@.cell(q) == Cell::Free || maze@.cell(q) == Cell::Blocked
        },
        r is Ok <==> maze@.is_clean(current),
        r matches Ok(v) ==> v@ == neighbor_candidates(current).filter(|q: Point| maze@.is_free(q)),
        r matches Ok(v) ==> {
            &&& forall|i: int| 0 <= i < v@.len() ==> #[trigger] maze@.is_free(v@[i]) && adjacent(current, v@[i])
            &&& forall|p: Point| adjacent(current, p) && #[trigger] maze@.is_free(p) ==> v@.contains(p)
        },
        r matches Err(e) ==> e == SolveError::UnknownCellClassification && !maze@.is_binary(),
        maze@.is_binary() ==> r is Ok,
{
    let ghost cands = neighbor_candidates(current);
    let ghost pred = |q: Point| maze@.is_free(q);
    let mut neighbors: Vec<Point> = Vec::new();
    let candidates = [
        Point { x: current.x - 1, y: current.y },
        Point { x: current.x + 1, y: current.y },
        Point { x: current.x, y: current.y - 1 },
        Point { x: current.x, y: current.y + 1 },
    ];
    let mut i: usize = 0;
    assert(cands.take(0).filter(pred) =~= Seq::<Point>::empty());
    while i < 4
        invariant
            maze.wf(),
            maze@.in_bounds(current),
            0 <= i <= 4,
            cands == neighbor_candidates(current),
            pred == (|q: Point| maze@.is_free(q)),
            candidates@ == cands,
            neighbors@ == cands.take(i as int).filter(pred),
            forall|j: int| 0 <= j < i ==> {
                let q = #[trigger] cands[j];
                !maze@.in_bounds(q) || maze@.cell(q) == Cell::Free || maze@.cell(q) == Cell::Blocked
            },
            forall|j: int| 0 <= j < neighbors@.len() ==> #[trigger] maze@.is_free(neighbors@[j]) && adjacent(current, neighbors@[j]),
            forall|j: int| 0 <= j < i && #[trigger] maze@.is_free(cands[j]) ==> neighbors@.contains(cands[j]),
        decreases 4 - i,
    {
        let c = candidates[i];
        let ghost before = neighbors@;
        let ghost t = cands.take(i + 1);
        assert(t.len() == i + 1);
        assert(t.drop_last() =~= cands.take(i as int));
        assert(t.last() == c);
        proof {
            reveal_with_fuel(Seq::filter, 1);
        }
        assert(t.filter(pred) == (if pred(c) {
            before.push(c)
        } else {
            before
        }));
        assert(pred(c) == maze@.is_free(c));
        match is_open(maze, c.x, c.y) {
            Ok(true) => {
                neighbors.push(c);
                assert(neighbors@[neighbors@.len() - 1] == c);
                assert forall|q: Point| before.contains(q) implies neighbors@.contains(q) by {
                    let k = choose|k: int| 0 <= k < before.len() && before[k] == q;
                    assert(neighbors@[k] == q);
                }
            },
            Ok(false) => {},
            Err(e) => {
                proof {
                    lemma_not_binary(maze@, c);
                    assert(adjacent(current, c));
                    assert(!maze@.is_clean(current));
                }
                return Err(e);
            },
        }
        i = i + 1;
    }
    assert(cands.take(4) =~= cands);
    assert forall|p: Point| adjacent(current, p) && #[trigger] maze@.in_bounds(p) implies cands.contains(p) by {
        let j: int = if p.x < current.x { 0 } else if p.x > current.x { 1 } else if p.y < current.y { 2 } else { 3 };
        assert(cands[j] == p);
    }
    assert(maze@.is_clean(current));
    Ok(neighbors)
}

/// The square of the Euclidean distance between two points.
pub open spec fn squared_distance(a: Point, b: Point) -> int {
    (a.x - b.x) * (a.x - b.x) + (a.y - b.y) * (a.y - b.y)
}

/// The integer square root of `n`, rounded down.
fn isqrt(n: u128) -> (r: u64)
    requires
        n < 0x4_0000_0000_0000_0000,
    ensures
        r * r <= n < (r + 1) * (r + 1),
{
    let mut lo: u128 = 0;
    let mut hi: u128 = 0x2_0000_0000;
    assert(n < hi * hi) by (nonlinear_arith)
        requires
            n < 0x4_0000_0000_0000_0000,
            hi == 0x2_0000_0000,
    ;
    while lo + 1 < hi
        invariant
            lo < hi <= 0x2_0000_0000,
            lo * lo <= n < hi * hi,
        decreases hi - lo,
    {
        let mid = lo + (hi - lo) / 2;
        assert(mid * mid <= 0x4_0000_0000_0000_0000) by (nonlinear_arith)
            requires
                mid <= 0x2_0000_0000,
        ;
        if mid * mid <= n {
            lo = mid;
        } else {
            hi = mid;
        }
    }
    lo as u64
}

/// The Euclidean distance between the two points, truncated toward zero.
pub fn distance_between(point: &Point, end_point: &Point) -> (r: u64)
    ensures
        r * r <= squared_distance(*point, *end_point) < (r + 1) * (r + 1),
{
    let dx = end_point.x as i64 - point.x as i64;
    let dy = end_point.y as i64 - point.y as i64;
    let ax: u128 = if dx < 0 { (-dx) as u128 } else { dx as u128 };
    let ay: u128 = if dy < 0 { (-dy) as u128 } else { dy as u128 };
    assert(ax * ax + ay * ay < 0x4_0000_0000_0000_0000) by (nonlinear_arith)
        requires
            ax < 0x1_0000_0000,
            ay < 0x1_0000_0000,
    ;
    assert(ax * ax == dx * dx && ay * ay == dy * dy) by (nonlinear_arith)
        requires
            ax == dx || ax == -dx,
            ay == dy || ay == -dy,
    ;
    assert(squared_distance(*point, *end_point) == dx * dx + dy * dy) by (nonlinear_arith)
        requires
            dx == end_point.x - point.x,
            dy == end_point.y - point.y,
    ;
    isqrt(ax * ax + ay * ay)
}

/// The truncated Euclidean distance never exceeds the Manhattan distance.
pub(crate) proof fn lemma_distance_below_manhattan(a: Point, b: Point, r: int)
    requires
        0 <= r,
        r * r <= squared_distance(a, b),
    ensures
        r <= manhattan(a, b),
{
    let dx = a.x - b.x;
    let dy = a.y - b.y;
    let m = manhattan(a, b);
    assert(squared_distance(a, b) <= m * m) by (nonlinear_arith)
        requires
            m == (if dx < 0 { -dx } else { dx }) + (if dy < 0 { -dy } else { dy }),
            squared_distance(a, b) == dx * dx + dy * dy,
    ;
    if r > m {
        assert(m * m < r * r) by (nonlinear_arith)
            requires
                0 <= m < r,
        ;
    }
}

/// Every step of `came_from` leads to a cell of strictly lower `rank`, so
/// following it always ends.
pub open spec fn descends(came_from: Map<u64, u64>, rank: Map<u64, u64>) -> bool {
    forall|k: u64| #[trigger]
        came_from.contains_key(k) ==> rank.contains_key(k) && rank.contains_key(came_from[k])
            && rank[came_from[k]] < rank[k]
}

/// Each cell of `path` but the last has a predecessor, which is the next cell.
pub open spec fn follows(g: Grid, came_from: Map<u64, u64>, path: Seq<Point>) -> bool {
    forall|i: int|
        0 <= i < path.len() - 1 ==> came_from.contains_key(g.key(#[trigger] path[i]) as u64)
            && g.key(path[i + 1]) == came_from[g.key(path[i]) as u64]
}

/// Along a path that follows `came_from`, ranks fall by at least one a step.
proof fn lemma_rank_falls(
    g: Grid,
    came_from: Map<u64, u64>,
    rank: Map<u64, u64>,
    path: Seq<Point>,
    i: int,
)
    requires
        descends(came_from, rank),
        follows(g, came_from, path),
        0 <= i < path.len() - 1,
    ensures
        rank.contains_key(g.key(path[i]) as u64),
        rank[g.key(path[i]) as u64] >= path.len() - 1 - i,
    decreases path.len() - i,
{
    let k = g.key(path[i]) as u64;
    assert(came_from.contains_key(k));
    if i + 1 < path.len() - 1 {
        lemma_rank_falls(g, came_from, rank, path, i + 1);
    }
}

/// Walks `came_from` back from `end_point` until a cell without predecessor:
/// the route from the end back to the start.
pub fn reconstruct_path(maze: &Maze, came_from: &HashMap<u64, u64>, end_point: Point) -> (path: Vec<
    Point,
>)
    requires
        maze.wf(),
        maze@.in_bounds(end_point),
        forall|k: u64| #[trigger] came_from@.contains_key(k) ==> came_from@[k] < maze@.cells.len(),
        exists|rank: Map<u64, u64>| descends(came_from@, rank),
    ensures
        path@.len() >= 1,
        path@[0] == end_point,
        forall|i: int| 0 <= i < path@.len() ==> #[trigger] maze@.in_bounds(path@[i]),
        follows(maze@, came_from@, path@),
        !came_from@.contains_key(maze@.key(path@.last()) as u64),
        forall|rank: Map<u64, u64>| #[trigger]
            descends(came_from@, rank) && rank.contains_key(maze@.key(end_point) as u64)
                ==> path@.len() <= rank[maze@.key(end_point) as u64] + 1,
{
    let ghost rank = choose|rank: Map<u64, u64>| descends(came_from@, rank);
    let ghost g = maze@;
    let mut path: Vec<Point> = vec![end_point];
    let mut current = end_point;
    loop
        invariant
            maze.wf(),
            g == maze@,
            descends(came_from@, rank),
            forall|k: u64| #[trigger] came_from@.contains_key(k) ==> came_from@[k] < g.cells.len(),
            g.in_bounds(current),
            path@.len() >= 1,
            path@[0] == end_point,
            path@.last() == current,
            forall|i: int| 0 <= i < path@.len() ==> #[trigger] g.in_bounds(path@[i]),
            follows(g, came_from@, path@),
        ensures
            path@.len() >= 1,
            path@[0] == end_point,
            forall|i: int| 0 <= i < path@.len() ==> #[trigger] g.in_bounds(path@[i]),
            follows(g, came_from@, path@),
            !came_from@.contains_key(g.key(path@.last()) as u64),
        decreases (if came_from@.contains_key(g.key(current) as u64) {
            rank[g.key(current) as u64] + 1
        } else {
            0
        }),
    {
        let k = maze.key_of(current) as u64;
        match came_from.get(&k) {
            Some(parent) => {
                let p = maze.point_at(*parent);
                let ghost before = path@;
                path.push(p);
                assert forall|i: int| 0 <= i < path@.len() - 1 implies came_from@.contains_key(
                    g.key(#[trigger] path@[i]) as u64,
                ) && g.key(path@[i + 1]) == came_from@[g.key(path@[i]) as u64] by {
                    if i < before.len() - 1 {
                        assert(before[i] == path@[i] && before[i + 1] == path@[i + 1]);
                    }
                }
                current = p;
            },
            None => {
                break;
            },
        }
    }
    proof {
        assert forall|rank: Map<u64, u64>| #[trigger]
            descends(came_from@, rank) && rank.contains_key(g.key(end_point) as u64) implies path@.len()
            <= rank[g.key(end_point) as u64] + 1 by {
            if path@.len() > 1 {
                lemma_rank_falls(g, came_from@, rank, path@, 0);
            }
        }
    }
    path
}

/// A copy of `maze` in which every cell of `path` is marked as part of the route.
pub fn color_path(maze: &Maze, path: Vec<Point>) -> (solved: Maze)
    requires
        maze.wf(),
        forall|i: int| 0 <= i < path@.len() ==> #[trigger] maze@.in_bounds(path@[i]),
    ensures
        solved.wf(),
        solved@ == maze@.rendered(path@),
{
    let ghost g = maze@;
    let mut solved = maze.duplicate();
    let mut i: usize = 0;
    while i < path.len()
        invariant
            maze.wf(),
            g == maze@,
            solved.wf(),
            i <= path@.len(),
            forall|j: int| 0 <= j < path@.len() ==> #[trigger] g.in_bounds(path@[j]),
            solved@.width == g.width,
            solved@.height == g.height,
            solved@.cells.len() == g.cells.len(),
            forall|k: int| 0 <= k < g.cells.len() ==> #[trigger] solved@.cells[k] == if g.on_path(path@.take(i as int), k) {
                Cell::Path
            } else {
                g.cells[k]
            },
        decreases path@.len() - i,
    {
        let p = path[i];
        assert(g.in_bounds(path@[i as int]));
        proof {
            lemma_key_in_range(g, p);
        }
        solved.set_cell(p, Cell::Path);
        proof {
            let before = path@.take(i as int);
            let after = path@.take(i + 1);
            assert forall|k: int| 0 <= k < g.cells.len() implies g.on_path(after, k) == (g.on_path(before, k) || g.key(p) == k) by {
                if g.on_path(before, k) {
                    let j = choose|j: int| 0 <= j < before.len() && g.key(#[trigger] before[j]) == k;
                    assert(after[j] == before[j]);
                }
                if g.key(p) == k {
                    assert(after[i as int] == p);
                }
                if g.on_path(after, k) {
                    let j = choose|j: int| 0 <= j < after.len() && g.key(#[trigger] after[j]) == k;
                    if j < i {
                        assert(before[j] == after[j]);
                    }
                }
            }
        }
        i = i + 1;
    }
    proof {
        assert(path@.take(path@.len() as int) == path@);
        assert(solved@.cells =~= g.rendered(path@).cells);
    }
    solved
}

/// What finding a route through `g` yields: the endpoint errors exactly when
/// a boundary row has no free cell; otherwise a shortest walk from the start
/// to the end; `NoPathExists` only when no walk connects them and every cell
/// reachable from the start has only free or blocked neighbours; or
/// `UnknownCellClassification` only when some cell reachable from the start
/// has a neighbour in bounds that is neither free nor blocked.
pub open spec fn path_outcome(g: Grid, r: Result<Vec<Point>, SolveError>) -> bool {
    &&& (r matches Err(SolveError::StartNotFound)) <==> !g.row_has_free(0)
    &&& (r matches Err(SolveError::EndNotFound)) <==> (g.row_has_free(0) && !g.row_has_free(
        (g.height - 1) as i32,
    ))
    &&& r matches Ok(path) ==> {
        &&& g.is_start(path@[0])
        &&& g.is_end(path@.last())
        &&& g.is_shortest(path@, path@[0], path@.last())
    }
    &&& r matches Err(SolveError::NoPathExists) ==> forall|s: Point, e: Point|
        g.is_start(s) && g.is_end(e) ==> !#[trigger] g.reachable(s, e)
    &&& r matches Err(SolveError::NoPathExists) ==> forall|s: Point, p: Point|
        g.is_start(s) && #[trigger] g.reachable(s, p) ==> g.is_clean(p)
    &&& r matches Err(SolveError::UnknownCellClassification) ==> !g.is_binary()
    &&& r matches Err(SolveError::UnknownCellClassification) ==> forall|s: Point| #[trigger]
        g.is_start(s) ==> exists|p: Point| #[trigger] g.reachable(s, p) && !g.is_clean(p)
}

/// The first free cell of a row is unique.
pub proof fn lemma_first_free_unique(g: Grid, p: Point, q: Point)
    requires
        g.is_first_free(p),
        g.is_first_free(q),
        p.y == q.y,
    ensures
        p == q,
{
    if p.x < q.x {
        assert(!g.is_free(Point { x: p.x, y: q.y }));
    } else if q.x < p.x {
        assert(!g.is_free(Point { x: q.x, y: p.y }));
    }
}

/// Finds a shortest route from the start (the leftmost free cell of the top
/// row) to the end (the leftmost free cell of the bottom row), listed from
/// the start.
pub fn find_path(maze: &Maze) -> (r: Result<Vec<Point>, SolveError>)
    requires
        maze.wf(),
    ensures
        path_outcome(maze@, r),
{
    let start_point = match find_start(maze) {
        Ok(p) => p,
        Err(e) => return Err(e),
    };
    let end_point = match find_end(maze) {
        Ok(p) => p,
        Err(e) => {
            assert(maze@.row_has_free(0));
            return Err(e);
        },
    };
    let r = solve_a_star(maze, start_point, end_point);
    proof {
        assert(maze@.row_has_free(0));
        assert(maze@.row_has_free((maze@.height - 1) as i32));
        assert forall|s: Point, e: Point| maze@.is_start(s) && maze@.is_end(e) implies s == start_point && e == end_point by {
            lemma_first_free_unique(maze@, s, start_point);
            lemma_first_free_unique(maze@, e, end_point);
        }
    }
    r
}

/// Solves the maze: a copy of it with a shortest route from the start to the
/// end marked, or the reason there is none.
pub fn solve(maze: &Maze) -> (r: Result<Maze, SolveError>)
    requires
        maze.wf(),
    ensures
        r matches Ok(solved) ==> solved.wf() && exists|path: Vec<Point>| #[trigger]
            path_outcome(maze@, Ok(path)) && solved@ == maze@.rendered(path@),
        r matches Err(e) ==> path_outcome(maze@, Err(e)),
{
    let path = match find_path(maze) {
        Ok(path) => path,
        Err(e) => return Err(e),
    };
    let ghost route = path;
    assert(maze@.is_walk(path@));
    assert forall|i: int| 0 <= i < path@.len() implies #[trigger] maze@.in_bounds(path@[i]) by {
        assert(maze@.is_free(path@[i]));
    }
    let solved_maze = color_path(maze, path);
    assert(path_outcome(maze@, Ok(route)));
    Ok(solved_maze)
}

/// A route that is found runs from the start of the maze to its end.
pub proof fn lemma_route_ends(g: Grid, r: Result<Vec<Point>, SolveError>, s: Point, e: Point)
    requires
        path_outcome(g, r),
        r is Ok,
        g.is_start(s),
        g.is_end(e),
    ensures
        r->Ok_0@[0] == s,
        r->Ok_0@.last() == e,
{
    let path = r->Ok_0@;
    lemma_first_free_unique(g, path[0], s);
    lemma_first_free_unique(g, path.last(), e);
}

/// Consecutive cells of a route that is found are a Manhattan distance of
/// exactly one apart, and both are free in the maze.
pub proof fn lemma_route_steps_unit(g: Grid, r: Result<Vec<Point>, SolveError>, i: int)
    requires
        path_outcome(g, r),
        r is Ok,
        0 <= i < r->Ok_0@.len() - 1,
    ensures
        manhattan(r->Ok_0@[i], r->Ok_0@[i + 1]) == 1,
        g.is_free(r->Ok_0@[i]),
        g.is_free(r->Ok_0@[i + 1]),
{
    let path = r->Ok_0@;
    assert(adjacent(path[i], path[i + 1]));
    assert(g.is_free(path[i]));
    assert(g.is_free(path[i + 1]));
}

/// In a maze of free and blocked cells only, with a start and an end that no
/// walk over free cells connects, the search reports that no path exists.
pub proof fn lemma_disconnected_no_path(g: Grid, r: Result<Vec<Point>, SolveError>, s: Point, e: Point)
    requires
        path_outcome(g, r),
        g.is_binary(),
        g.is_start(s),
        g.is_end(e),
        !g.reachable(s, e),
    ensures
        r == Err::<Vec<Point>, SolveError>(SolveError::NoPathExists),
{
    assert(g.is_free(Point { x: s.x, y: 0 }));
    assert(Point { x: e.x, y: (g.height - 1) as i32 } == e);
    assert(g.is_free(Point { x: e.x, y: (g.height - 1) as i32 }));
    if r is Ok {
        lemma_route_ends(g, r, s, e);
        assert(g.connects(r->Ok_0@, s, e));
    }
}

/// Marking a route from the start to the end on a maze of free and blocked
/// cells, then solving again with the route's marks read as free cells, finds
/// a route again, and it is no longer than the marked one.
pub proof fn lemma_rerun_on_rendered(g: Grid, route: Seq<Point>, r: Result<Vec<Point>, SolveError>)
    requires
        g.wf(),
        g.is_binary(),
        g.is_walk(route),
        g.is_start(route[0]),
        g.is_end(route.last()),
        path_outcome(g.rendered(route).unmarked(), r),
    ensures
        r is Ok,
        r->Ok_0@.len() <= route.len(),
{
    let again = g.rendered(route).unmarked();
    assert forall|k: int| 0 <= k < g.cells.len() implies #[trigger] again.cells[k] == g.cells[k] by {
        if g.on_path(route, k) {
            let i = choose|i: int| 0 <= i < route.len() && g.key(#[trigger] route[i]) == k;
            assert(g.is_free(route[i]));
        }
    }
    assert(again.cells =~= g.cells);
    assert(again == g);
    let s = route[0];
    let e = route.last();
    assert(g.connects(route, s, e));
    assert(g.is_free(Point { x: s.x, y: 0 }));
    assert(Point { x: e.x, y: (g.height - 1) as i32 } == e);
    assert(g.is_free(Point { x: e.x, y: (g.height - 1) as i32 }));
    assert(g.reachable(s, e));
    lemma_route_ends(g, r, s, e);
}

/// A start with a neighbour that is neither free nor blocked, in a maze whose
/// end it cannot reach, gives `UnknownCellClassification`, never
/// `NoPathExists`.
pub proof fn lemma_unknown_beside_start(g: Grid, r: Result<Vec<Point>, SolveError>, s: Point, e: Point)
    requires
        path_outcome(g, r),
        g.is_start(s),
        g.is_end(e),
        !g.is_clean(s),
        !g.reachable(s, e),
    ensures
        r == Err::<Vec<Point>, SolveError>(SolveError::UnknownCellClassification),
{
    assert(g.is_free(Point { x: s.x, y: 0 }));
    assert(Point { x: e.x, y: (g.height - 1) as i32 } == e);
    assert(g.is_free(Point { x: e.x, y: (g.height - 1) as i32 }));
    assert(g.connects(seq![s], s, s));
    assert(g.reachable(s, s));
    if r is Ok {
        lemma_route_ends(g, r, s, e);
        assert(g.connects(r->Ok_0@, s, e));
    }
}

} // verus!
