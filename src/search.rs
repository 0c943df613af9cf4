//! A* search from the start cell to the end cell over 4-connected free cells.
use crate::maze::{adjacent, lemma_key_in_range, lemma_point_of_in_range, manhattan, Grid, Maze, Point};
use crate::queue::{queue_entries, queue_new, queue_pop, queue_push};
use crate::solver::{descends, distance_between, find_neighbors, follows, lemma_distance_below_manhattan, reconstruct_path, SolveError};
use std::collections::HashMap;
use vstd::prelude::*;

verus! {

broadcast use vstd::std_specs::hash::group_hash_axioms;

/// The recorded costs and predecessors describe walks from `s` over free cells.
spec fn costs_ok(g: Grid, s: Point, cost: Map<u64, u64>, came_from: Map<u64, u64>) -> bool {
    &&& cost.dom().finite()
    &&& forall|k: u64| #[trigger]
        cost.contains_key(k) ==> k < g.width * g.height && g.is_free(g.point_of(k as int))
            && cost[k] < cost.dom().len()
    &&& cost.contains_key(g.key(s) as u64)
    &&& cost[g.key(s) as u64] == 0
    &&& forall|k: u64| #[trigger]
        came_from.contains_key(k) ==> cost.contains_key(k) && cost.contains_key(came_from[k])
            && cost[came_from[k]] < cost[k] && adjacent(
            g.point_of(k as int),
            g.point_of(came_from[k] as int),
        )
    &&& forall|k: u64| #[trigger]
        cost.contains_key(k) ==> k == g.key(s) as u64 || came_from.contains_key(k)
    &&& forall|k: u64| #[trigger] cost.contains_key(k) ==> g.reachable(s, g.point_of(k as int))
}

/// Each queued cell has been reached, and its priority lies between minus
/// its cost plus its Manhattan distance to `e` and minus its cost; the end,
/// once reached, stays queued.
spec fn frontier_ok(g: Grid, e: Point, cost: Map<u64, u64>, q: Map<u64, i64>) -> bool {
    &&& q.dom().finite()
    &&& forall|k: u64| #[trigger]
        q.contains_key(k) ==> cost.contains_key(k) && -(cost[k] + manhattan(
            g.point_of(k as int),
            e,
        )) <= q[k] <= -cost[k]
    &&& cost.contains_key(g.key(e) as u64) ==> q.contains_key(g.key(e) as u64)
}

/// Every neighbour of the cell at `k` is free or blocked, and every free one
/// has been reached at most one step after it.
spec fn settled(g: Grid, cost: Map<u64, u64>, k: u64) -> bool {
    &&& g.is_clean(g.point_of(k as int))
    &&& forall|p: Point|
        adjacent(g.point_of(k as int), p) && #[trigger] g.is_free(p) ==> cost.contains_key(
            g.key(p) as u64,
        ) && cost[g.key(p) as u64] <= cost[k] + 1
}

/// Every reached cell that has left the queue is settled.
spec fn closed(g: Grid, cost: Map<u64, u64>, q: Map<u64, i64>) -> bool {
    forall|k: u64| #[trigger]
        cost.contains_key(k) && !q.contains_key(k) ==> settled(g, cost, k)
}

/// What each cell adds to the termination measure: its cost once reached.
spec fn weight(cost: Map<u64, u64>, n: nat, k: u64) -> nat {
    if cost.contains_key(k) {
        cost[k] as nat
    } else {
        n + 1
    }
}

spec fn potential(cost: Map<u64, u64>, n: nat, i: nat) -> nat
    decreases i,
{
    if i == 0 {
        0
    } else {
        potential(cost, n, (i - 1) as nat) + weight(cost, n, (i - 1) as u64)
    }
}

/// Lowering the weight of one cell lowers the potential of every range holding it.
proof fn lemma_potential_drop(cost: Map<u64, u64>, n: nat, i: nat, j: u64, v: u64)
    requires
        v < weight(cost, n, j),
        i <= 0x1_0000_0000_0000_0000,
    ensures
        j < i ==> potential(cost.insert(j, v), n, i) < potential(cost, n, i),
        j >= i ==> potential(cost.insert(j, v), n, i) == potential(cost, n, i),
    decreases i,
{
    if i > 0 {
        lemma_potential_drop(cost, n, (i - 1) as nat, j, v);
    }
}

/// A finite set of indices below `n` has at most `n` elements.
proof fn lemma_dom_bound(cost: Map<u64, u64>, n: u64)
    requires
        cost.dom().finite(),
        forall|k: u64| #[trigger] cost.contains_key(k) ==> k < n,
    ensures
        cost.dom().len() <= n,
{
    let r = Set::<u64>::range(0, n);
    vstd::set_lib::range_set_properties::<u64>(0, n);
    vstd::set_lib::lemma_len_subset(cost.dom(), r);
}

/// Along a walk, the Manhattan distance to its last cell is at most the
/// number of steps left.
proof fn lemma_walk_manhattan(g: Grid, walk: Seq<Point>, i: int)
    requires
        g.is_walk(walk),
        0 <= i < walk.len(),
    ensures
        manhattan(walk[i], walk.last()) <= walk.len() - 1 - i,
    decreases walk.len() - i,
{
    if i < walk.len() - 1 {
        lemma_walk_manhattan(g, walk, i + 1);
        assert(adjacent(walk[i], walk[i + 1]));
        assert(manhattan(walk[i + 1], walk.last()) <= walk.len() - 2 - i);
    }
}

/// Along any walk from the start, some cell among the first `j + 1` has a cost
/// no greater than its place on the walk, and is queued unless it is the `j`-th.
proof fn lemma_frontier(
    g: Grid,
    s: Point,
    cost: Map<u64, u64>,
    q: Map<u64, i64>,
    walk: Seq<Point>,
    j: int,
) -> (i: int)
    requires
        g.wf(),
        g.is_walk(walk),
        walk[0] == s,
        0 <= j < walk.len(),
        cost.contains_key(g.key(s) as u64),
        cost[g.key(s) as u64] == 0,
        closed(g, cost, q),
    ensures
        0 <= i <= j,
        cost.contains_key(g.key(walk[i]) as u64),
        cost[g.key(walk[i]) as u64] <= i,
        q.contains_key(g.key(walk[i]) as u64) || i == j,
    decreases j,
{
    if j == 0 {
        0
    } else {
        let i0 = lemma_frontier(g, s, cost, q, walk, j - 1);
        if q.contains_key(g.key(walk[i0]) as u64) {
            i0
        } else {
            let prev = walk[j - 1];
            assert(g.is_free(prev));
            lemma_key_in_range(g, prev);
            let k = g.key(prev) as u64;
            assert(settled(g, cost, k));
            let h = j - 1;
            assert(adjacent(walk[h], walk[h + 1]));
            assert(g.is_free(walk[j]));
            j
        }
    }
}

/// The queue holds a cell of every walk from the start to the end.
proof fn lemma_walk_meets_queue(
    g: Grid,
    s: Point,
    e: Point,
    cost: Map<u64, u64>,
    came_from: Map<u64, u64>,
    q: Map<u64, i64>,
    walk: Seq<Point>,
) -> (i: int)
    requires
        g.wf(),
        costs_ok(g, s, cost, came_from),
        frontier_ok(g, e, cost, q),
        closed(g, cost, q),
        g.connects(walk, s, e),
    ensures
        0 <= i < walk.len(),
        q.contains_key(g.key(walk[i]) as u64),
        cost[g.key(walk[i]) as u64] <= i,
{
    lemma_frontier(g, s, cost, q, walk, walk.len() - 1)
}

/// The search's answer: a shortest route from `start_point` to `end_point`,
/// `NoPathExists` when none exists, or `UnknownCellClassification` when it
/// meets a cell that is neither free nor blocked.
///
/// Ties: cells of equal priority leave the frontier by the binary heap's rule
/// in `priority_queue`. An item moves past another only when their
/// priorities differ strictly, so of two equal priorities the item nearer
/// the heap's root leaves first. Positions depend only on the sequence of
/// pushes and pops, never on hashing, so for one maze the order is the same
/// on every run. The contract holds whichever of the tied cells leaves first.
#[verifier::rlimit(40)]
pub(crate) fn solve_a_star(maze: &Maze, start_point: Point, end_point: Point) -> (r: Result<
    Vec<Point>,
    SolveError,
>)
    requires
        maze.wf(),
        maze@.is_free(start_point),
        maze@.in_bounds(end_point),
    ensures
        r matches Ok(path) ==> maze@.is_shortest(path@, start_point, end_point),
        r matches Err(e) ==> e == SolveError::NoPathExists || e
            == SolveError::UnknownCellClassification,
        r matches Err(SolveError::NoPathExists) ==> {
            &&& !maze@.reachable(start_point, end_point)
            &&& forall|p: Point| #[trigger] maze@.reachable(start_point, p) ==> maze@.is_clean(p)
        },
        r matches Err(SolveError::UnknownCellClassification) ==> {
            &&& !maze@.is_binary()
            &&& exists|p: Point| #[trigger] maze@.reachable(start_point, p) && !maze@.is_clean(p)
        },
{
    let ghost g = maze@;
    let n: u64 = maze.cells().len() as u64;
    let start_key = maze.key_of(start_point) as u64;
    let end_key = maze.key_of(end_point) as u64;
    proof {
        lemma_key_in_range(g, start_point);
        lemma_key_in_range(g, end_point);
    }
    let mut to_explore = queue_new();
    queue_push(&mut to_explore, start_key, 0);
    // for every cell, the cell it was most cheaply reached from
    let mut came_from: HashMap<u64, u64> = HashMap::new();
    // for every cell, the cost of the cheapest walk known to reach it
    let mut path_score: HashMap<u64, u64> = HashMap::new();
    path_score.insert(start_key, 0);
    proof {
        assert(g.connects(seq![start_point], start_point, start_point));
        assert(g.point_of(start_key as int) == start_point);
        assert(path_score@.dom() =~= set![start_key]);
        assert(queue_entries(to_explore).dom() =~= set![start_key]);
    }
    loop
        invariant
            maze.wf(),
            g == maze@,
            n == g.cells.len(),
            n == g.width * g.height,
            n <= 0x4000_0000_0000_0000,
            g.is_free(start_point),
            g.in_bounds(end_point),
            start_key == g.key(start_point),
            end_key == g.key(end_point),
            costs_ok(g, start_point, path_score@, came_from@),
            frontier_ok(g, end_point, path_score@, queue_entries(to_explore)),
            closed(g, path_score@, queue_entries(to_explore)),
        decreases queue_entries(to_explore).dom().len() + potential(path_score@, n as nat, n as nat),
    {
        let ghost q0 = queue_entries(to_explore);
        let ghost phi0 = q0.dom().len() + potential(path_score@, n as nat, n as nat);
        let popped = queue_pop(&mut to_explore);
        let (current_key, current_priority) = match popped {
            None => {
                proof {
                    assert forall|walk: Seq<Point>| !g.connects(walk, start_point, end_point) by {
                        if g.connects(walk, start_point, end_point) {
                            lemma_walk_meets_queue(g, start_point, end_point, path_score@, came_from@, q0, walk);
                        }
                    }
                    assert forall|p: Point| #[trigger] g.reachable(start_point, p) implies g.is_clean(p) by {
                        let walk = choose|walk: Seq<Point>| g.connects(walk, start_point, p);
                        let i = lemma_frontier(g, start_point, path_score@, q0, walk, walk.len() - 1);
                        assert(g.is_free(walk[i]));
                        lemma_key_in_range(g, walk[i]);
                        assert(settled(g, path_score@, g.key(p) as u64));
                    }
                }
                return Err(SolveError::NoPathExists);
            },
            Some(entry) => entry,
        };
        if current_key == end_key {
            assert(descends(came_from@, path_score@));
            let back = reconstruct_path(maze, &came_from, end_point);
            let path = reversed(&back);
            proof {
                lemma_route_found(g, start_point, end_point, path_score@, came_from@, q0, current_priority, back@, path@);
            }
            return Ok(path);
        }
        let current = maze.point_at(current_key);
        let current_score = *path_score.get(&current_key).unwrap();
        proof {
            lemma_dom_bound(path_score@, n);
        }
        let neighbors = match find_neighbors(maze, current) {
            Ok(v) => v,
            Err(e) => {
                assert(g.reachable(start_point, g.point_of(current_key as int)));
                return Err(e);
            },
        };
        let mut i: usize = 0;
        while i < neighbors.len()
            invariant
                maze.wf(),
                g == maze@,
                n == g.cells.len(),
                n == g.width * g.height,
                n <= 0x4000_0000_0000_0000,
                g.is_free(start_point),
                g.in_bounds(end_point),
                start_key == g.key(start_point),
                end_key == g.key(end_point),
                current_key != end_key,
                current_key < n,
                g.is_clean(current),
                g.in_bounds(current),
                g.key(current) == current_key,
                costs_ok(g, start_point, path_score@, came_from@),
                frontier_ok(g, end_point, path_score@, queue_entries(to_explore)),
                path_score@.contains_key(current_key),
                path_score@[current_key] == current_score,
                forall|k: u64| #[trigger]
                    path_score@.contains_key(k) && !queue_entries(to_explore).contains_key(k) && k
                        != current_key ==> settled(g, path_score@, k),
                forall|j: int| 0 <= j < neighbors@.len() ==> #[trigger] g.is_free(neighbors@[j])
                    && adjacent(current, neighbors@[j]),
                forall|j: int| 0 <= j < i ==> path_score@.contains_key(g.key(#[trigger] neighbors@[j]) as u64)
                    && path_score@[g.key(neighbors@[j]) as u64] <= current_score + 1,
                queue_entries(to_explore).dom().len() + potential(path_score@, n as nat, n as nat) < phi0,
            decreases neighbors.len() - i,
        {
            let neighbor = neighbors[i];
            assert(g.is_free(neighbors@[i as int]));
            let neighbor_key = maze.key_of(neighbor) as u64;
            proof {
                lemma_key_in_range(g, neighbor);
                lemma_dom_bound(path_score@, n);
            }
            // the cost of reaching the neighbour through the current cell
            let score = current_score + 1;
            let improves = match path_score.get(&neighbor_key) {
                Some(known) => score < *known,
                None => true,
            };
            if improves {
                let ghost cost0 = path_score@;
                let ghost came0 = came_from@;
                let ghost q1 = queue_entries(to_explore);
                came_from.insert(neighbor_key, current_key);
                path_score.insert(neighbor_key, score);
                let d = distance_between(&neighbor, &end_point);
                proof {
                    lemma_distance_below_manhattan(neighbor, end_point, d as int);
                }
                // nearer cells come out of the queue first
                let priority: i64 = -((score + d) as i64);
                queue_push(&mut to_explore, neighbor_key, priority);
                proof {
                    lemma_relax(g, start_point, end_point, cost0, came0, q1, current, current_key, neighbor, neighbor_key, score, priority, n);
                }
            }
            i = i + 1;
        }
        proof {
            assert(settled(g, path_score@, current_key)) by {
                assert forall|p: Point| adjacent(g.point_of(current_key as int), p) && #[trigger] g.is_free(p)
                    implies path_score@.contains_key(g.key(p) as u64) && path_score@[g.key(p) as u64] <= path_score@[current_key] + 1 by {
                    lemma_point_of_in_range(g, current_key as int);
                    assert(neighbors@.contains(p));
                    let j = choose|j: int| 0 <= j < neighbors@.len() && neighbors@[j] == p;
                    assert(path_score@.contains_key(g.key(neighbors@[j]) as u64));
                }
            }
        }
    }
}

/// One relaxation keeps the search invariants and lowers the termination measure.
proof fn lemma_relax(
    g: Grid,
    s: Point,
    e: Point,
    cost0: Map<u64, u64>,
    came0: Map<u64, u64>,
    q0: Map<u64, i64>,
    current: Point,
    ck: u64,
    neighbor: Point,
    nk: u64,
    score: u64,
    priority: i64,
    n: u64,
)
    requires
        g.wf(),
        n == g.width * g.height,
        g.in_bounds(current),
        g.key(current) == ck,
        g.is_free(neighbor),
        adjacent(current, neighbor),
        g.key(neighbor) == nk,
        costs_ok(g, s, cost0, came0),
        frontier_ok(g, e, cost0, q0),
        cost0.contains_key(ck),
        score == cost0[ck] + 1,
        cost0.contains_key(nk) ==> score < cost0[nk],
        -(score + manhattan(neighbor, e)) <= priority <= -score,
        forall|k: u64| #[trigger]
            cost0.contains_key(k) && !q0.contains_key(k) && k != ck ==> settled(g, cost0, k),
        cost0.dom().len() <= n,
    ensures
        ({
            let cost = cost0.insert(nk, score);
            let came = came0.insert(nk, ck);
            let q = q0.insert(nk, priority);
            &&& costs_ok(g, s, cost, came)
            &&& frontier_ok(g, e, cost, q)
            &&& forall|k: u64| #[trigger]
                cost.contains_key(k) && !q.contains_key(k) && k != ck ==> settled(g, cost, k)
            &&& cost.contains_key(ck) && cost[ck] == cost0[ck]
            &&& forall|k: u64| #[trigger] cost0.contains_key(k) ==> cost.contains_key(k) && cost[k] <= cost0[k]
            &&& cost.contains_key(nk) && cost[nk] == score
            &&& q.dom().len() + potential(cost, n as nat, n as nat) < q0.dom().len() + potential(cost0, n as nat, n as nat) + 1
        }),
{
    let cost = cost0.insert(nk, score);
    let came = came0.insert(nk, ck);
    let q = q0.insert(nk, priority);
    lemma_key_in_range(g, current);
    lemma_key_in_range(g, neighbor);
    let sk = g.key(s) as u64;
    assert(nk != ck);
    assert(nk != sk);
    assert(cost.dom() == cost0.dom().insert(nk));
    assert(cost.dom().len() >= cost0.dom().len());
    assert(q.dom() == q0.dom().insert(nk));
    assert(q.dom().len() <= q0.dom().len() + 1);
    assert(g.reachable(s, neighbor)) by {
        assert(g.reachable(s, g.point_of(ck as int)));
        let w = choose|w: Seq<Point>| g.connects(w, s, current);
        let w2 = w.push(neighbor);
        assert(w2[w2.len() - 2] == current);
        assert forall|i: int| 0 <= i < w2.len() implies #[trigger] g.is_free(w2[i]) by {
            if i < w.len() {
                assert(w2[i] == w[i]);
            }
        }
        assert forall|i: int| 0 <= i < w2.len() - 1 implies #[trigger] adjacent(w2[i], w2[i + 1]) by {
            if i < w.len() - 1 {
                assert(w2[i] == w[i] && w2[i + 1] == w[i + 1]);
            }
        }
        assert(g.connects(w2, s, neighbor));
    }
    assert forall|k: u64| #[trigger] cost.contains_key(k) implies g.reachable(s, g.point_of(k as int)) by {
        if k == nk {
            assert(g.point_of(nk as int) == neighbor);
        }
    }
    assert forall|k: u64| #[trigger] cost.contains_key(k) implies k < g.width * g.height && g.is_free(g.point_of(k as int))
        && cost[k] < cost.dom().len() by {
        if !cost0.contains_key(nk) {
            assert(cost.dom().len() == cost0.dom().len() + 1);
        }
    }
    assert forall|k: u64| #[trigger] came.contains_key(k) implies cost.contains_key(k) && cost.contains_key(came[k])
        && cost[came[k]] < cost[k] && adjacent(g.point_of(k as int), g.point_of(came[k] as int)) by {
        if k != nk {
            assert(came0.contains_key(k));
        }
    }
    assert forall|k: u64| #[trigger] cost.contains_key(k) && !q.contains_key(k) && k != ck implies settled(g, cost, k) by {
        assert(settled(g, cost0, k));
        assert forall|p: Point| adjacent(g.point_of(k as int), p) && #[trigger] g.is_free(p) implies cost.contains_key(
            g.key(p) as u64) && cost[g.key(p) as u64] <= cost[k] + 1 by {
        }
    }
    assert(score < weight(cost0, n as nat, nk));
    lemma_potential_drop(cost0, n as nat, n as nat, nk, score);
}

/// The route, read backwards.
fn reversed(v: &Vec<Point>) -> (r: Vec<Point>)
    ensures
        r@.len() == v@.len(),
        forall|i: int| 0 <= i < v@.len() ==> #[trigger] r@[i] == v@[v@.len() - 1 - i],
{
    let mut r: Vec<Point> = Vec::new();
    let mut i: usize = v.len();
    while i > 0
        invariant
            i <= v@.len(),
            r@.len() == v@.len() - i,
            forall|j: int| 0 <= j < r@.len() ==> #[trigger] r@[j] == v@[v@.len() - 1 - j],
        decreases i,
    {
        i = i - 1;
        r.push(v[i]);
    }
    r
}

/// Every cell of a route that follows the predecessors from a reached cell
/// has been reached.
proof fn lemma_route_reached(
    g: Grid,
    s: Point,
    cost: Map<u64, u64>,
    came_from: Map<u64, u64>,
    back: Seq<Point>,
)
    requires
        g.wf(),
        costs_ok(g, s, cost, came_from),
        back.len() >= 1,
        cost.contains_key(g.key(back[0]) as u64),
        forall|i: int| 0 <= i < back.len() ==> #[trigger] g.in_bounds(back[i]),
        follows(g, came_from, back),
    ensures
        forall|i: int| 0 <= i < back.len() ==> cost.contains_key(g.key(#[trigger] back[i]) as u64),
{
    assert forall|i: int| 0 <= i < back.len() implies cost.contains_key(g.key(#[trigger] back[i]) as u64) by {
        lemma_key_in_range(g, back[i]);
        if i > 0 {
            let h = i - 1;
            assert(came_from.contains_key(g.key(back[h]) as u64));
            assert(g.key(back[h + 1]) == came_from[g.key(back[h]) as u64]);
        }
    }
}

/// Read from its far end, a route of reached cells that follows the
/// predecessors steps from free cell to neighbouring free cell.
proof fn lemma_route_steps(
    g: Grid,
    cost: Map<u64, u64>,
    came_from: Map<u64, u64>,
    back: Seq<Point>,
    path: Seq<Point>,
)
    requires
        g.wf(),
        forall|k: u64| #[trigger] cost.contains_key(k) ==> g.is_free(g.point_of(k as int)),
        forall|k: u64| #[trigger] came_from.contains_key(k) ==> adjacent(
            g.point_of(k as int),
            g.point_of(came_from[k] as int),
        ),
        forall|i: int| 0 <= i < back.len() ==> cost.contains_key(g.key(#[trigger] back[i]) as u64),
        forall|i: int| 0 <= i < back.len() ==> #[trigger] g.in_bounds(back[i]),
        follows(g, came_from, back),
        path.len() == back.len(),
        forall|i: int| 0 <= i < back.len() ==> #[trigger] path[i] == back[back.len() - 1 - i],
    ensures
        forall|i: int| 0 <= i < path.len() ==> #[trigger] g.is_free(path[i]),
        forall|i: int| 0 <= i < path.len() - 1 ==> #[trigger] adjacent(path[i], path[i + 1]),
{
    assert forall|i: int| 0 <= i < path.len() implies #[trigger] g.is_free(path[i]) by {
        let b = back[back.len() - 1 - i];
        lemma_key_in_range(g, b);
        assert(cost.contains_key(g.key(b) as u64));
    }
    assert forall|i: int| 0 <= i < path.len() - 1 implies #[trigger] adjacent(path[i], path[i + 1]) by {
        let j = back.len() - 2 - i;
        assert(path[i + 1] == back[j]);
        assert(path[i] == back[back.len() - 1 - i]);
        assert(back[j + 1] == back[back.len() - 1 - i]);
        lemma_key_in_range(g, back[j]);
        lemma_key_in_range(g, back[j + 1]);
        assert(came_from.contains_key(g.key(back[j]) as u64));
    }
}

/// Every cell of a route rebuilt from the predecessors has been reached, and
/// read from its far end it is a walk from the start to `e`.
proof fn lemma_route_walk(
    g: Grid,
    s: Point,
    e: Point,
    cost: Map<u64, u64>,
    came_from: Map<u64, u64>,
    back: Seq<Point>,
    path: Seq<Point>,
)
    requires
        g.wf(),
        g.is_free(s),
        g.in_bounds(e),
        costs_ok(g, s, cost, came_from),
        cost.contains_key(g.key(e) as u64),
        back.len() >= 1,
        back[0] == e,
        forall|i: int| 0 <= i < back.len() ==> #[trigger] g.in_bounds(back[i]),
        follows(g, came_from, back),
        !came_from.contains_key(g.key(back.last()) as u64),
        path.len() == back.len(),
        forall|i: int| 0 <= i < back.len() ==> #[trigger] path[i] == back[back.len() - 1 - i],
    ensures
        g.connects(path, s, e),
{
    lemma_key_in_range(g, e);
    lemma_key_in_range(g, s);
    lemma_route_reached(g, s, cost, came_from, back);
    lemma_route_steps(g, cost, came_from, back, path);
    let last = back.last();
    lemma_key_in_range(g, last);
    assert(cost.contains_key(g.key(last) as u64));
    assert(last == s);
    assert(path[0] == back[back.len() - 1]);
    assert(path.last() == back[0]);
}

/// When the end leaves the queue with the greatest priority, its cost is at
/// most the number of steps of any walk from the start to it.
proof fn lemma_end_cost_optimal(
    g: Grid,
    s: Point,
    e: Point,
    cost: Map<u64, u64>,
    came_from: Map<u64, u64>,
    q: Map<u64, i64>,
    priority: i64,
    walk: Seq<Point>,
)
    requires
        g.wf(),
        g.in_bounds(e),
        costs_ok(g, s, cost, came_from),
        frontier_ok(g, e, cost, q),
        closed(g, cost, q),
        q.contains_key(g.key(e) as u64),
        q[g.key(e) as u64] == priority,
        forall|k: u64| #[trigger] q.contains_key(k) ==> q[k] <= priority,
        g.connects(walk, s, e),
    ensures
        cost[g.key(e) as u64] + 1 <= walk.len(),
{
    lemma_key_in_range(g, e);
    let i = lemma_walk_meets_queue(g, s, e, cost, came_from, q, walk);
    lemma_walk_manhattan(g, walk, i);
    assert(g.is_free(walk[i]));
    lemma_key_in_range(g, walk[i]);
    let k = g.key(walk[i]) as u64;
    assert(q.contains_key(k));
    assert(q[k] <= priority);
}

/// When the end leaves the queue, the route rebuilt from the predecessors,
/// read from the start, is a shortest walk from the start to the end.
proof fn lemma_route_found(
    g: Grid,
    s: Point,
    e: Point,
    cost: Map<u64, u64>,
    came_from: Map<u64, u64>,
    q: Map<u64, i64>,
    priority: i64,
    back: Seq<Point>,
    path: Seq<Point>,
)
    requires
        g.wf(),
        g.is_free(s),
        g.in_bounds(e),
        costs_ok(g, s, cost, came_from),
        frontier_ok(g, e, cost, q),
        closed(g, cost, q),
        q.contains_key(g.key(e) as u64),
        q[g.key(e) as u64] == priority,
        forall|k: u64| #[trigger] q.contains_key(k) ==> q[k] <= priority,
        back.len() >= 1,
        back[0] == e,
        forall|i: int| 0 <= i < back.len() ==> #[trigger] g.in_bounds(back[i]),
        follows(g, came_from, back),
        !came_from.contains_key(g.key(back.last()) as u64),
        forall|rank: Map<u64, u64>| #[trigger]
            descends(came_from, rank) && rank.contains_key(g.key(e) as u64) ==> back.len()
                <= rank[g.key(e) as u64] + 1,
        path.len() == back.len(),
        forall|i: int| 0 <= i < back.len() ==> #[trigger] path[i] == back[back.len() - 1 - i],
    ensures
        g.is_shortest(path, s, e),
{
    let ek = g.key(e) as u64;
    assert(descends(came_from, cost));
    assert(back.len() <= cost[ek] + 1);
    lemma_route_walk(g, s, e, cost, came_from, back, path);
    assert forall|walk: Seq<Point>| #[trigger] g.connects(walk, s, e) implies path.len() <= walk.len() by {
        lemma_end_cost_optimal(g, s, e, cost, came_from, q, priority, walk);
    }
}

} // verus!
