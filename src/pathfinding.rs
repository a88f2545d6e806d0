use vstd::prelude::*;
use crate::dungeon::{is_adjacent, manhattan, spec_adjacent, spec_manhattan};
use crate::maze::{Maze, fresh_table, lemma_table_mark, table_shape, unvisited, unvisited_in_row};

verus! {

/// `p` runs from `start` to `goal` in unit steps through open walls, every
/// position `(x, y)` inside the maze.
pub open spec fn is_route(maze: Maze, p: Seq<(usize, usize)>, start: (usize, usize), goal: (usize, usize)) -> bool {
    &&& p.len() > 0
    &&& p[0] == start
    &&& p.last() == goal
    &&& forall|i: int| 0 <= i < p.len() ==> maze.in_bounds((#[trigger] p[i]).1 as int, p[i].0 as int)
    &&& forall|i: int| 0 <= i < p.len() - 1 ==>
        spec_adjacent((#[trigger] p[i]).0 as int, p[i].1 as int, p[i + 1].0 as int, p[i + 1].1 as int, maze)
}

/// No route is shorter than the Manhattan distance between its ends.
pub proof fn lemma_route_at_least_manhattan(maze: Maze, p: Seq<(usize, usize)>, start: (usize, usize), goal: (usize, usize))
    requires
        is_route(maze, p, start, goal),
    ensures
        p.len() - 1 >= spec_manhattan(start.0 as int, start.1 as int, goal.0 as int, goal.1 as int),
    decreases p.len(),
{
    if p.len() > 1 {
        let q = p.drop_last();
        let last = p[p.len() - 2];
        assert forall|i: int| 0 <= i < q.len() - 1 implies
            spec_adjacent((#[trigger] q[i]).0 as int, q[i].1 as int, q[i + 1].0 as int, q[i + 1].1 as int, maze) by {
            assert(q[i] == p[i] && q[i + 1] == p[i + 1]);
        }
        assert forall|i: int| 0 <= i < q.len() implies maze.in_bounds((#[trigger] q[i]).1 as int, q[i].0 as int) by {
            assert(q[i] == p[i]);
        }
        lemma_route_at_least_manhattan(maze, q, start, last);
        assert(spec_adjacent(p[p.len() - 2].0 as int, p[p.len() - 2].1 as int, p[p.len() - 1].0 as int, p[p.len() - 1].1 as int, maze));
    }
}

/// A node of the open list: estimated total, cost so far, and the route
/// that reached it.
struct Node {
    total: usize,
    cost: usize,
    route: Vec<(usize, usize)>,
}

/// `route` followed by `next`.
fn extend(route: &Vec<(usize, usize)>, next: (usize, usize)) -> (r: Vec<(usize, usize)>)
    ensures
        r@ == route@.push(next),
{
    let mut r: Vec<(usize, usize)> = Vec::new();
    let mut i: usize = 0;
    while i < route.len()
        invariant
            i <= route@.len(),
            r@ == route@.subrange(0, i as int),
        decreases route@.len() - i,
    {
        r.push(route[i]);
        i = i + 1;
        assert(r@ =~= route@.subrange(0, i as int));
    }
    assert(route@.subrange(0, route@.len() as int) =~= route@);
    r.push(next);
    r
}

/// The index of a node with the least estimated total.
fn cheapest(open: &Vec<Node>) -> (k: usize)
    requires
        open@.len() > 0,
    ensures
        k < open@.len(),
        forall|j: int| 0 <= j < open@.len() ==> open@[k as int].total <= (#[trigger] open@[j]).total,
{
    let mut best: usize = 0;
    let mut i: usize = 1;
    while i < open.len()
        invariant
            1 <= i <= open@.len(),
            best < open@.len(),
            forall|j: int| 0 <= j < i ==> open@[best as int].total <= (#[trigger] open@[j]).total,
        decreases open@.len() - i,
    {
        if open[i].total < open[best].total {
            best = i;
        }
        i = i + 1;
    }
    best
}

/// Some node of the open list ends at `pos`.
spec fn in_open(open: Seq<Node>, pos: (usize, usize), bound: int) -> bool {
    exists|k: int| 0 <= k < open.len() && (#[trigger] open[k]).route@.last() == pos && open[k].cost <= bound
}

/// No route from `start` to `c` has fewer than `n` steps.
pub open spec fn shortest_to(maze: Maze, start: (usize, usize), c: (usize, usize), n: int) -> bool {
    forall|q: Seq<(usize, usize)>| #[trigger] is_route(maze, q, start, c) ==> n <= q.len() - 1
}

proof fn lemma_sub_route(maze: Maze, q: Seq<(usize, usize)>, start: (usize, usize), y: (usize, usize), a: int, b: int)
    requires
        is_route(maze, q, start, y),
        0 <= a < b <= q.len(),
    ensures
        is_route(maze, q.subrange(a, b), q[a], q[b - 1]),
{
    let r = q.subrange(a, b);
    assert forall|i: int| 0 <= i < r.len() implies maze.in_bounds((#[trigger] r[i]).1 as int, r[i].0 as int) by {
        assert(r[i] == q[a + i]);
    }
    assert forall|i: int| 0 <= i < r.len() - 1 implies
        spec_adjacent((#[trigger] r[i]).0 as int, r[i].1 as int, r[i + 1].0 as int, r[i + 1].1 as int, maze) by {
        assert(r[i] == q[a + i] && r[i + 1] == q[a + i + 1]);
    }
}

/// Along a route, the Manhattan estimate to `goal` falls by at most one
/// per step.
proof fn lemma_estimate(maze: Maze, q: Seq<(usize, usize)>, start: (usize, usize), y: (usize, usize), t: int, goal: (usize, usize))
    requires
        is_route(maze, q, start, y),
        0 <= t < q.len(),
    ensures
        t + spec_manhattan(q[t].0 as int, q[t].1 as int, goal.0 as int, goal.1 as int)
            <= q.len() - 1 + spec_manhattan(y.0 as int, y.1 as int, goal.0 as int, goal.1 as int),
{
    lemma_sub_route(maze, q, start, y, t, q.len() as int);
    lemma_route_at_least_manhattan(maze, q.subrange(t, q.len() as int), q[t], y);
}

/// The second cell of a shortest route is one step closer to the end: the
/// rest of the route is a shortest route from there, one step shorter.
pub proof fn lemma_shortest_rest(maze: Maze, p: Seq<(usize, usize)>, start: (usize, usize), goal: (usize, usize))
    requires
        is_route(maze, p, start, goal),
        p.len() > 1,
        forall|q: Seq<(usize, usize)>| #[trigger] is_route(maze, q, start, goal) ==> p.len() <= q.len(),
    ensures
        is_route(maze, p.subrange(1, p.len() as int), p[1], goal),
        forall|q: Seq<(usize, usize)>| #[trigger] is_route(maze, q, p[1], goal) ==> p.len() - 1 <= q.len(),
{
    lemma_sub_route(maze, p, start, goal, 1, p.len() as int);
    assert forall|q: Seq<(usize, usize)>| #[trigger] is_route(maze, q, p[1], goal) implies p.len() - 1 <= q.len() by {
        let r = seq![start] + q;
        assert forall|i: int| 0 <= i < r.len() implies maze.in_bounds((#[trigger] r[i]).1 as int, r[i].0 as int) by {
            if i > 0 {
                assert(r[i] == q[i - 1]);
            }
        }
        assert forall|i: int| 0 <= i < r.len() - 1 implies
            spec_adjacent((#[trigger] r[i]).0 as int, r[i].1 as int, r[i + 1].0 as int, r[i + 1].1 as int, maze) by {
            if i == 0 {
                assert(r[1] == q[0]);
                assert(spec_adjacent(p[0].0 as int, p[0].1 as int, p[1].0 as int, p[1].1 as int, maze));
            } else {
                assert(r[i] == q[i - 1] && r[i + 1] == q[i]);
            }
        }
        assert(r.last() == q.last());
        assert(is_route(maze, r, start, goal));
    }
}

/// Every open-wall neighbour of a closed cell is closed or ends a node of
/// the open list.
spec fn frontier_closed(maze: Maze, closed: Seq<Vec<bool>>, open: Seq<Node>, cc: Map<(usize, usize), int>) -> bool {
    forall|cx: int, cy: int, nx: int, ny: int|
        #![trigger closed[cy]@[cx], spec_adjacent(cx, cy, nx, ny, maze)]
        0 <= cx < maze.width && 0 <= cy < maze.height && 0 <= nx < maze.width && 0 <= ny < maze.height
        && closed[cy]@[cx] && spec_adjacent(cx, cy, nx, ny, maze)
        ==> closed[ny]@[nx] || in_open(open, (nx as usize, ny as usize), cc[(cx as usize, cy as usize)] + 1)
}

proof fn lemma_table_bound(g: Seq<Vec<bool>>, h: int, w: int)
    requires
        table_shape(g, h, w),
        w >= 0,
    ensures
        unvisited(g) <= h * w,
    decreases g.len(),
{
    if g.len() > 0 {
        let t = g.drop_last();
        assert(table_shape(t, h - 1, w)) by {
            assert forall|r: int| 0 <= r < h - 1 implies (#[trigger] t[r])@.len() == w by {
                assert(t[r] == g[r]);
            }
        }
        lemma_table_bound(t, h - 1, w);
        lemma_row_bound(g.last()@);
        assert((h - 1) * w + w == h * w) by (nonlinear_arith);
    }
}

proof fn lemma_row_bound(s: Seq<bool>)
    ensures
        unvisited_in_row(s) <= s.len(),
    decreases s.len(),
{
    if s.len() > 0 {
        lemma_row_bound(s.drop_last());
    }
}

/// In a closed set that is closed under open-wall steps, a route from a
/// closed cell stays in the set.
proof fn lemma_route_closed(maze: Maze, closed: Seq<Vec<bool>>, cc: Map<(usize, usize), int>, p: Seq<(usize, usize)>, start: (usize, usize), goal: (usize, usize))
    requires
        maze.wf(),
        table_shape(closed, maze.height as int, maze.width as int),
        frontier_closed(maze, closed, Seq::empty(), cc),
        is_route(maze, p, start, goal),
        closed[start.1 as int]@[start.0 as int],
    ensures
        closed[goal.1 as int]@[goal.0 as int],
    decreases p.len(),
{
    if p.len() > 1 {
        let q = p.drop_last();
        let last = p[p.len() - 2];
        assert forall|i: int| 0 <= i < q.len() - 1 implies
            spec_adjacent((#[trigger] q[i]).0 as int, q[i].1 as int, q[i + 1].0 as int, q[i + 1].1 as int, maze) by {
            assert(q[i] == p[i] && q[i + 1] == p[i + 1]);
        }
        assert forall|i: int| 0 <= i < q.len() implies maze.in_bounds((#[trigger] q[i]).1 as int, q[i].0 as int) by {
            assert(q[i] == p[i]);
        }
        lemma_route_closed(maze, closed, cc, q, start, last);
        let n = p.len() - 1;
        assert(spec_adjacent(p[n - 1].0 as int, p[n - 1].1 as int, p[n].0 as int, p[n].1 as int, maze));
        assert(maze.in_bounds(p[n].1 as int, p[n].0 as int));
        assert(closed[last.1 as int]@[last.0 as int]);
        assert(!in_open(Seq::<Node>::empty(), (p[n].0, p[n].1), cc[(last.0, last.1)] + 1));
    }
}

/// Any route from `start` to a cell that is not closed passes a cell that
/// ends some open node, whose cost is at most the steps taken to reach it.
proof fn lemma_frontier(maze: Maze, closed: Seq<Vec<bool>>, cc: Map<(usize, usize), int>, open: Seq<Node>,
    start: (usize, usize), q: Seq<(usize, usize)>, y: (usize, usize), j: int)
    requires
        maze.wf(),
        table_shape(closed, maze.height as int, maze.width as int),
        frontier_closed(maze, closed, open, cc),
        closed[start.1 as int]@[start.0 as int] || in_open(open, start, 0),
        forall|cx: int, cy: int| 0 <= cx < maze.width && 0 <= cy < maze.height && #[trigger] closed[cy]@[cx]
            ==> shortest_to(maze, start, (cx as usize, cy as usize), cc[(cx as usize, cy as usize)]),
        is_route(maze, q, start, y),
        !closed[y.1 as int]@[y.0 as int],
        0 <= j < q.len(),
        forall|i: int| 0 <= i < j ==> closed[(#[trigger] q[i]).1 as int]@[q[i].0 as int],
    ensures
        exists|k: int, t: int| #![trigger open[k], q[t]] 0 <= k < open.len() && 0 <= t < q.len()
            && open[k].route@.last() == q[t] && open[k].cost <= t,
    decreases q.len() - j,
{
    assert(maze.in_bounds(q[j].1 as int, q[j].0 as int));
    if closed[q[j].1 as int]@[q[j].0 as int] {
        assert(j < q.len() - 1);
        lemma_frontier(maze, closed, cc, open, start, q, y, j + 1);
    } else if j == 0 {
        let k = choose|k: int| 0 <= k < open.len() && (#[trigger] open[k]).route@.last() == start && open[k].cost <= 0;
        assert(open[k].route@.last() == q[0]);
        assert(q[0] == q[0]);
    } else {
        let c = q[j - 1];
        assert(closed[c.1 as int]@[c.0 as int]);
        assert(maze.in_bounds(c.1 as int, c.0 as int));
        lemma_sub_route(maze, q, start, y, 0, j);
        assert(q.subrange(0, j)[0] == start);
        assert(is_route(maze, q.subrange(0, j), start, c));
        assert(shortest_to(maze, start, (c.0, c.1), cc[(c.0, c.1)]));
        assert(spec_adjacent(c.0 as int, c.1 as int, q[j].0 as int, q[j].1 as int, maze));
        assert(in_open(open, (q[j].0, q[j].1), cc[(c.0, c.1)] + 1));
        let k = choose|k: int| 0 <= k < open.len() && (#[trigger] open[k]).route@.last() == (q[j].0, q[j].1)
            && open[k].cost <= cc[(c.0, c.1)] + 1;
        assert(open[k].route@.last() == q[j] && open[k].cost <= j);
    }
}

/// A* search over the maze's open walls from `start` to `goal` (positions
/// are `(x, y)`): unit step cost, Manhattan-distance heuristic, and a closed
/// set so that each cell is expanded once. It finds a route exactly when
/// one exists; a route it returns starts at `start`, ends at `goal`, and
/// only steps through open walls.
#[verifier::rlimit(100)]
pub fn astar(maze: &Maze, start: (usize, usize), goal: (usize, usize)) -> (r: Option<Vec<(usize, usize)>>)
    requires
        maze.wf(),
        maze.in_bounds(start.1 as int, start.0 as int),
        maze.in_bounds(goal.1 as int, goal.0 as int),
        maze.width * maze.height + maze.width + maze.height <= usize::MAX,
    ensures
        r matches Some(p) ==> is_route(*maze, p@, start, goal),
        r matches Some(p) ==> forall|q: Seq<(usize, usize)>| #[trigger] is_route(*maze, q, start, goal) ==> p@.len() <= q.len(),
        r is None ==> forall|p: Seq<(usize, usize)>| !is_route(*maze, p, start, goal),
        start == goal ==> (r matches Some(p) && p@ == seq![start]),
{
    let w = maze.width;
    let h = maze.height;
    let mut closed = fresh_table(h, w);
    let mut open: Vec<Node> = Vec::new();
    let est = manhattan(start.0, start.1, goal.0, goal.1);
    let first = vec![start];
    proof {
        assert(is_route(*maze, first@, start, start));
        lemma_table_bound(closed@, h as int, w as int);
        assert(w * h == h * w) by (nonlinear_arith);
    }
    let ghost mut cc: Map<(usize, usize), int> = Map::empty();
    open.push(Node { total: est, cost: 0, route: first });
    proof {
        assert(open@[0].route@.last() == start);
    }
    while open.len() > 0
        invariant
            maze.wf(),
            w == maze.width,
            h == maze.height,
            w + h <= usize::MAX,
            w * h + w + h <= usize::MAX,
            maze.in_bounds(start.1 as int, start.0 as int),
            maze.in_bounds(goal.1 as int, goal.0 as int),
            table_shape(closed@, h as int, w as int),
            forall|k: int| 0 <= k < open@.len() ==> {
                &&& (#[trigger] open@[k]).route@.len() > 0
                &&& is_route(*maze, open@[k].route@, start, open@[k].route@.last())
                &&& open@[k].cost + unvisited(closed@) <= w * h
            },
            start == goal ==> open@.len() == 1 && open@[0].route@ == seq![start]
                && !closed@[start.1 as int]@[start.0 as int],
            !closed@[goal.1 as int]@[goal.0 as int],
            closed@[start.1 as int]@[start.0 as int] || in_open(open@, start, 0),
            frontier_closed(*maze, closed@, open@, cc),
            forall|k: int| 0 <= k < open@.len() ==> {
                &&& (#[trigger] open@[k]).cost == open@[k].route@.len() - 1
                &&& open@[k].total == open@[k].cost + spec_manhattan(open@[k].route@.last().0 as int,
                    open@[k].route@.last().1 as int, goal.0 as int, goal.1 as int)
            },
            forall|cx: int, cy: int| 0 <= cx < w && 0 <= cy < h && #[trigger] closed@[cy]@[cx]
                ==> shortest_to(*maze, start, (cx as usize, cy as usize), cc[(cx as usize, cy as usize)]),
        decreases unvisited(closed@), open@.len(),
    {
        let k = cheapest(&open);
        let ghost open0 = open@;
        let node = open.remove(k);
        let pos = node.route[node.route.len() - 1];
        let (x, y) = pos;
        proof {
            assert(open0[k as int] == node);
            assert forall|q: (usize, usize), b: int| in_open(open0, q, b) && q != pos implies in_open(open@, q, b) by {
                let j = choose|j: int| 0 <= j < open0.len() && (#[trigger] open0[j]).route@.last() == q && open0[j].cost <= b;
                if j < k {
                    assert(open@[j] == open0[j]);
                } else {
                    assert(j != k);
                    assert(open@[j - 1] == open0[j]);
                }
            }
            assert forall|j: int| 0 <= j < open@.len() implies {
                &&& (#[trigger] open@[j]).route@.len() > 0
                &&& is_route(*maze, open@[j].route@, start, open@[j].route@.last())
                &&& open@[j].cost + unvisited(closed@) <= w * h
                &&& open@[j].cost == open@[j].route@.len() - 1
                &&& open@[j].total == open@[j].cost + spec_manhattan(open@[j].route@.last().0 as int,
                    open@[j].route@.last().1 as int, goal.0 as int, goal.1 as int)
            } by {
                if j < k {
                    assert(open@[j] == open0[j]);
                } else {
                    assert(open@[j] == open0[j + 1]);
                }
            }
        }
        proof {
            assert(maze.in_bounds(y as int, x as int));
            if !closed@[y as int]@[x as int] {
                assert forall|q: Seq<(usize, usize)>| #[trigger] is_route(*maze, q, start, pos)
                    implies node.cost <= q.len() - 1 by {
                    lemma_frontier(*maze, closed@, cc, open0, start, q, pos, 0);
                    let (k2, t) = choose|k2: int, t: int| #![trigger open0[k2], q[t]] 0 <= k2 < open0.len() && 0 <= t < q.len()
                        && open0[k2].route@.last() == q[t] && open0[k2].cost <= t;
                    lemma_estimate(*maze, q, start, pos, t, goal);
                    assert(open0[k as int].total <= open0[k2].total);
                }
            }
        }
        if x == goal.0 && y == goal.1 {
            return Some(node.route);
        }
        if closed[y][x] {
            continue;
        }
        let ghost closed0 = closed@;
        let ghost open1 = open@;
        closed[y][x] = true;
        proof {
            lemma_table_mark(closed0, y as int, closed@[y as int], x as int);
            assert(closed@ == closed0.update(y as int, closed@[y as int]));
            lemma_table_bound(closed@, h as int, w as int);
            assert(w * h == h * w) by (nonlinear_arith);
            cc = cc.insert(pos, node.cost as int);
        }
        let cost = node.cost + 1;
        let mut d: usize = 0;
        while d < 4
            invariant
                maze.wf(),
                w == maze.width,
                h == maze.height,
                w + h <= usize::MAX,
                w * h + w + h <= usize::MAX,
                maze.in_bounds(y as int, x as int),
                maze.in_bounds(goal.1 as int, goal.0 as int),
                is_route(*maze, node.route@, start, (x, y)),
                cost + unvisited(closed@) <= w * h,
                d <= 4,
                unvisited(closed@) < unvisited(closed0),
                table_shape(closed@, h as int, w as int),
                forall|k: int| 0 <= k < open@.len() ==> {
                    &&& (#[trigger] open@[k]).route@.len() > 0
                    &&& is_route(*maze, open@[k].route@, start, open@[k].route@.last())
                    &&& open@[k].cost + unvisited(closed@) <= w * h
                },
                forall|q: (usize, usize), b: int| in_open(open1, q, b) ==> in_open(open@, q, b),
                cost == cc[(x, y)] + 1,
                cost == node.cost + 1,
                forall|k: int| 0 <= k < open@.len() ==> {
                    &&& (#[trigger] open@[k]).cost == open@[k].route@.len() - 1
                    &&& open@[k].total == open@[k].cost + spec_manhattan(open@[k].route@.last().0 as int,
                        open@[k].route@.last().1 as int, goal.0 as int, goal.1 as int)
                },
                node.cost == node.route@.len() - 1,
                forall|e: int| 0 <= e < d ==> {
                    let (nx, ny) = #[trigger] candidate(x as int, y as int, e);
                    0 <= nx < w && 0 <= ny < h && spec_adjacent(x as int, y as int, nx, ny, *maze)
                        ==> closed@[ny]@[nx] || in_open(open@, (nx as usize, ny as usize), cost as int)
                },
            decreases 4 - d,
        {
            let ghost open2 = open@;
            let next: Option<(usize, usize)> = if d == 0 && y > 0 {
                Some((x, y - 1))
            } else if d == 1 && x + 1 < w {
                Some((x + 1, y))
            } else if d == 2 && y + 1 < h {
                Some((x, y + 1))
            } else if d == 3 && x > 0 {
                Some((x - 1, y))
            } else {
                None
            };
            if let Some((nx, ny)) = next {
                if is_adjacent(x, y, nx, ny, maze) && !closed[ny][nx] {
                    let route = extend(&node.route, (nx, ny));
                    proof {
                        let p = node.route@;
                        assert forall|i: int| 0 <= i < route@.len() - 1 implies
                            spec_adjacent((#[trigger] route@[i]).0 as int, route@[i].1 as int,
                                route@[i + 1].0 as int, route@[i + 1].1 as int, *maze) by {
                            if i < p.len() - 1 {
                                assert(route@[i] == p[i] && route@[i + 1] == p[i + 1]);
                            }
                        }
                        assert forall|i: int| 0 <= i < route@.len() implies
                            maze.in_bounds((#[trigger] route@[i]).1 as int, route@[i].0 as int) by {
                            if i < p.len() {
                                assert(route@[i] == p[i]);
                            }
                        }
                    }
                    let est = manhattan(nx, ny, goal.0, goal.1);
                    open.push(Node { total: cost + est, cost, route });
                    proof {
                        let last = open@.len() - 1;
                        assert(open@[last].route@.last() == (nx, ny));
                        assert forall|k: int| 0 <= k < open@.len() implies {
                            &&& (#[trigger] open@[k]).cost == open@[k].route@.len() - 1
                            &&& open@[k].total == open@[k].cost + spec_manhattan(open@[k].route@.last().0 as int,
                                open@[k].route@.last().1 as int, goal.0 as int, goal.1 as int)
                        } by {
                            if k < open2.len() {
                                assert(open@[k] == open2[k]);
                            } else {
                                assert(open@[k].cost == cost);
                                assert(open@[k].route@.len() == node.route@.len() + 1);
                                assert(open@[k].total == cost + est);
                            }
                        }
                        assert forall|q: (usize, usize), b: int| in_open(open2, q, b) implies in_open(open@, q, b) by {
                            let j = choose|j: int| 0 <= j < open2.len() && (#[trigger] open2[j]).route@.last() == q && open2[j].cost <= b;
                            assert(open@[j] == open2[j]);
                        }
                    }
                }
            }
            proof {
                assert forall|e: int| 0 <= e < d + 1 implies {
                    let (nx, ny) = #[trigger] candidate(x as int, y as int, e);
                    0 <= nx < w && 0 <= ny < h && spec_adjacent(x as int, y as int, nx, ny, *maze)
                        ==> closed@[ny]@[nx] || in_open(open@, (nx as usize, ny as usize), cost as int)
                } by {
                    if e == d {
                        let (nx, ny) = candidate(x as int, y as int, e);
                        if 0 <= nx < w && 0 <= ny < h && spec_adjacent(x as int, y as int, nx, ny, *maze) {
                            assert(next == Some((nx as usize, ny as usize)));
                        }
                    }
                }
            }
            d = d + 1;
        }
        proof {
            assert forall|cx: int, cy: int, nx: int, ny: int|
                #![trigger closed@[cy]@[cx], spec_adjacent(cx, cy, nx, ny, *maze)]
                0 <= cx < w && 0 <= cy < h && 0 <= nx < w && 0 <= ny < h
                && closed@[cy]@[cx] && spec_adjacent(cx, cy, nx, ny, *maze)
                implies closed@[ny]@[nx] || in_open(open@, (nx as usize, ny as usize), cc[(cx as usize, cy as usize)] + 1) by {
                if cx == x && cy == y {
                    lemma_candidate(x as int, y as int, nx, ny, *maze);
                    let e = choose|e: int| 0 <= e < 4 && candidate(x as int, y as int, e) == (nx, ny);
                    assert(candidate(x as int, y as int, e) == (nx, ny));
                } else {
                    assert(closed0[cy]@[cx]);
                    if closed0[ny]@[nx] {
                    } else if (nx as usize, ny as usize) != pos {
                        assert(in_open(open0, (nx as usize, ny as usize), cc[(cx as usize, cy as usize)] + 1));
                    }
                }
            }
            if !closed0[start.1 as int]@[start.0 as int] && start != pos {
                assert(in_open(open0, start, 0));
            }
        }
    }
    proof {
        assert(open@ =~= Seq::<Node>::empty());
        if exists|p: Seq<(usize, usize)>| is_route(*maze, p, start, goal) {
            let p = choose|p: Seq<(usize, usize)>| is_route(*maze, p, start, goal);
            lemma_route_closed(*maze, closed@, cc, p, start, goal);
        }
    }
    None
}

/// The `e`-th candidate neighbour of `(x, y)`: above, right, below, left.
spec fn candidate(x: int, y: int, e: int) -> (int, int) {
    if e == 0 {
        (x, y - 1)
    } else if e == 1 {
        (x + 1, y)
    } else if e == 2 {
        (x, y + 1)
    } else {
        (x - 1, y)
    }
}

proof fn lemma_candidate(x: int, y: int, nx: int, ny: int, maze: Maze)
    requires
        spec_adjacent(x, y, nx, ny, maze),
    ensures
        exists|e: int| 0 <= e < 4 && candidate(x, y, e) == (nx, ny),
{
    if nx == x && ny == y - 1 {
        assert(candidate(x, y, 0) == (nx, ny));
    } else if nx == x + 1 && ny == y {
        assert(candidate(x, y, 1) == (nx, ny));
    } else if nx == x && ny == y + 1 {
        assert(candidate(x, y, 2) == (nx, ny));
    } else {
        assert(candidate(x, y, 3) == (nx, ny));
    }
}

} // verus!
