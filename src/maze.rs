use vstd::prelude::*;
use rand::rngs::StdRng;
use crate::cell::{Cell, Direction};
use crate::error::GameError;
use crate::rng::choose_step;
use crate::text::text_eq;

verus! {

/// A rectangular maze of cells, stored row-major: `grid[row][col]`.
#[derive(Clone, Debug)]
pub struct Maze {
    pub width: usize,
    pub height: usize,
    pub grid: Vec<Vec<Cell>>,
}

/// The cell one step from `(r, c)` across side `d`.
pub open spec fn step(r: int, c: int, d: Direction) -> (int, int) {
    match d {
        Direction::Top => (r - 1, c),
        Direction::Right => (r, c + 1),
        Direction::Bottom => (r + 1, c),
        Direction::Left => (r, c - 1),
    }
}

/// The direction that an exit name denotes.
pub open spec fn exit_dir(name: Seq<char>) -> Option<Direction> {
    if name == "top"@ {
        Some(Direction::Top)
    } else if name == "bottom"@ {
        Some(Direction::Bottom)
    } else if name == "left"@ {
        Some(Direction::Left)
    } else if name == "right"@ {
        Some(Direction::Right)
    } else {
        None
    }
}

/// Every name in the list denotes an exit.
pub open spec fn exit_names_valid(names: Seq<String>) -> bool {
    forall|i: int| 0 <= i < names.len() ==> (#[trigger] exit_dir(names[i]@)) is Some
}

/// Some name in the list denotes the exit `d`.
pub open spec fn requests_exit(names: Seq<String>, d: Direction) -> bool {
    exists|i: int| 0 <= i < names.len() && #[trigger] exit_dir(names[i]@) == Some(d)
}

impl Maze {
    /// The grid has `height` rows of `width` cells each.
    pub open spec fn wf(&self) -> bool {
        &&& self.grid@.len() == self.height
        &&& forall|r: int| 0 <= r < self.height ==> (#[trigger] self.grid@[r])@.len() == self.width
    }

    pub open spec fn cell(&self, r: int, c: int) -> Cell {
        self.grid@[r]@[c]
    }

    pub open spec fn in_bounds(&self, r: int, c: int) -> bool {
        0 <= r < self.height && 0 <= c < self.width
    }

    /// The wall on side `d` of cell `(r, c)` is open.
    pub open spec fn is_open(&self, r: int, c: int, d: Direction) -> bool {
        !self.cell(r, c).walls[d.spec_index() as int]
    }

    /// One can step from `a` across side `d` into `b`.
    pub open spec fn linked_by(&self, a: (int, int), b: (int, int), d: Direction) -> bool {
        &&& self.in_bounds(a.0, a.1)
        &&& self.in_bounds(b.0, b.1)
        &&& step(a.0, a.1, d) == b
        &&& self.is_open(a.0, a.1, d)
    }

    /// One can step from `a` into `b` through an open wall.
    pub open spec fn linked(&self, a: (int, int), b: (int, int)) -> bool {
        ||| self.linked_by(a, b, Direction::Top)
        ||| self.linked_by(a, b, Direction::Right)
        ||| self.linked_by(a, b, Direction::Bottom)
        ||| self.linked_by(a, b, Direction::Left)
    }

    /// `p` is a walk through open walls, from cell `p[0]` to cell `p.last()`.
    pub open spec fn is_walk(&self, p: Seq<(int, int)>) -> bool {
        &&& p.len() > 0
        &&& self.in_bounds(p[0].0, p[0].1)
        &&& forall|i: int| 0 <= i < p.len() - 1 ==> self.linked(#[trigger] p[i], p[i + 1])
    }

    #[verifier::opaque]
    pub open spec fn reachable(&self, from: (int, int), to: (int, int)) -> bool {
        exists|p: Seq<(int, int)>| #[trigger] self.is_walk(p) && p[0] == from && p.last() == to
    }

    /// Every cell can be reached from `(0, 0)` through open walls.
    pub open spec fn connected(&self) -> bool {
        forall|r: int, c: int| #![trigger self.in_bounds(r, c)]
            self.in_bounds(r, c) ==> self.reachable((0, 0), (r, c))
    }

    /// Each wall between two neighbouring cells reads the same from both sides.
    pub open spec fn walls_symmetric(&self) -> bool {
        &&& forall|r: int, c: int| #![trigger self.cell(r, c), self.cell(r, c + 1)]
            self.in_bounds(r, c) && self.in_bounds(r, c + 1) ==>
                self.cell(r, c).walls[1] == self.cell(r, c + 1).walls[3]
        &&& forall|r: int, c: int| #![trigger self.cell(r, c), self.cell(r + 1, c)]
            self.in_bounds(r, c) && self.in_bounds(r + 1, c) ==>
                self.cell(r, c).walls[2] == self.cell(r + 1, c).walls[0]
    }

    /// The cell whose boundary wall on side `d` an exit opens: the midpoint of
    /// that edge.
    pub open spec fn exit_cell(&self, d: Direction) -> (int, int) {
        match d {
            Direction::Top => (0, self.width as int / 2),
            Direction::Bottom => (self.height - 1, self.width as int / 2),
            Direction::Left => (self.height as int / 2, 0),
            Direction::Right => (self.height as int / 2, self.width - 1),
        }
    }

    /// `self` and `m` have the same shape, and every wall open in `self` is
    /// open in `m`.
    pub open spec fn opens_into(&self, m: Maze) -> bool {
        &&& self.wf()
        &&& m.wf()
        &&& m.width == self.width
        &&& m.height == self.height
        &&& forall|r: int, c: int, i: int| #![trigger m.cell(r, c).walls[i]]
            self.in_bounds(r, c) && 0 <= i < 4 && !self.cell(r, c).walls[i]
                ==> !m.cell(r, c).walls[i]
    }

    /// `m` is `self` with cell `(r, c)` replaced by `x`.
    pub open spec fn same_but_cell(&self, m: Maze, r: int, c: int, x: Cell) -> bool {
        &&& self.same_elsewhere(m, r, c)
        &&& m.cell(r, c) == x
    }

    /// `m` has the shape of `self` and differs from it at most in cell `(r, c)`.
    pub open spec fn same_elsewhere(&self, m: Maze, r: int, c: int) -> bool {
        &&& m.wf()
        &&& m.width == self.width
        &&& m.height == self.height
        &&& forall|r2: int, c2: int| #![trigger m.cell(r2, c2)]
            self.in_bounds(r2, c2) && (r2 != r || c2 != c) ==> m.cell(r2, c2) == self.cell(r2, c2)
    }

    /// A maze of the given size with every wall standing.
    pub fn new(width: usize, height: usize) -> (r: Maze)
        ensures
            r.wf(),
            r.width == width,
            r.height == height,
            r.walls_symmetric(),
            forall|row: int, col: int, i: int| #![trigger r.cell(row, col).walls[i]]
                r.in_bounds(row, col) && 0 <= i < 4 ==> r.cell(row, col).walls[i],
            forall|row: int, col: int| #![trigger r.cell(row, col)]
                r.in_bounds(row, col) ==> !r.cell(row, col).visited,
    {
        let mut grid: Vec<Vec<Cell>> = Vec::new();
        let mut i: usize = 0;
        while i < height
            invariant
                i <= height,
                grid@.len() == i,
                forall|row: int| 0 <= row < i ==> (#[trigger] grid@[row])@.len() == width,
                forall|row: int, col: int, k: int| #![trigger grid@[row]@[col].walls[k]]
                    0 <= row < i && 0 <= col < width && 0 <= k < 4 ==> grid@[row]@[col].walls[k],
                forall|row: int, col: int| #![trigger grid@[row]@[col]]
                    0 <= row < i && 0 <= col < width ==> !grid@[row]@[col].visited,
            decreases height - i,
        {
            let mut line: Vec<Cell> = Vec::new();
            let mut j: usize = 0;
            while j < width
                invariant
                    j <= width,
                    line@.len() == j,
                    forall|col: int, k: int| #![trigger line@[col].walls[k]]
                        0 <= col < j && 0 <= k < 4 ==> line@[col].walls[k],
                    forall|col: int| #![trigger line@[col]] 0 <= col < j ==> !line@[col].visited,
                decreases width - j,
            {
                line.push(Cell::new());
                j = j + 1;
            }
            grid.push(line);
            i = i + 1;
        }
        Maze { width, height, grid }
    }

    /// The four wall flags of a cell, in the order Top, Right, Bottom, Left.
    pub fn get_cell_walls(&self, row: usize, col: usize) -> (r: Result<(bool, bool, bool, bool), GameError>)
        requires
            self.wf(),
        ensures
            !self.in_bounds(row as int, col as int) <==> r == Err::<(bool, bool, bool, bool), GameError>(GameError::OutOfRange),
            self.in_bounds(row as int, col as int) ==> r == Ok::<(bool, bool, bool, bool), GameError>((
                self.cell(row as int, col as int).walls[0],
                self.cell(row as int, col as int).walls[1],
                self.cell(row as int, col as int).walls[2],
                self.cell(row as int, col as int).walls[3],
            )),
    {
        if row >= self.height || col >= self.width {
            return Err(GameError::OutOfRange);
        }
        let cell = &self.grid[row][col];
        Ok((cell.walls[0], cell.walls[1], cell.walls[2], cell.walls[3]))
    }

    /// Marks a cell visited.
    pub fn set_cell_visited(&mut self, row: usize, col: usize) -> (r: Result<(), GameError>)
        requires
            old(self).wf(),
        ensures
            final(self).wf(),
            final(self).width == old(self).width,
            final(self).height == old(self).height,
            !old(self).in_bounds(row as int, col as int) <==> r is Err,
            r is Err ==> r == Err::<(), GameError>(GameError::OutOfRange) && *final(self) == *old(self),
            r is Ok ==> old(self).same_but_cell(*final(self), row as int, col as int, Cell {
                walls: old(self).cell(row as int, col as int).walls,
                visited: true,
            }),
    {
        if row >= self.height || col >= self.width {
            return Err(GameError::OutOfRange);
        }
        self.grid[row][col].set_visited();
        Ok(())
    }

    /// Opens the wall on side `dir` of one cell (the neighbour's side is
    /// kept). `dir` is a wall index: 0 Top, 1 Right, 2 Bottom, 3 Left.
    pub fn remove_wall(&mut self, row: usize, col: usize, dir: usize) -> (r: Result<(), GameError>)
        requires
            old(self).wf(),
        ensures
            !old(self).in_bounds(row as int, col as int) ==> r == Err::<(), GameError>(GameError::OutOfRange),
            old(self).in_bounds(row as int, col as int) && dir >= 4 ==> r == Err::<(), GameError>(GameError::InvalidArgument),
            r is Err ==> *final(self) == *old(self),
            old(self).in_bounds(row as int, col as int) && dir < 4 ==> r is Ok,
            r is Ok ==> old(self).same_elsewhere(*final(self), row as int, col as int),
            r is Ok ==> final(self).cell(row as int, col as int).walls@
                == old(self).cell(row as int, col as int).walls@.update(dir as int, false),
            r is Ok ==> final(self).cell(row as int, col as int).visited
                == old(self).cell(row as int, col as int).visited,
    {
        if row >= self.height || col >= self.width {
            return Err(GameError::OutOfRange);
        }
        match Direction::from_index(dir) {
            Some(d) => {
                self.grid[row][col].remove_wall(d);
                Ok(())
            },
            None => Err(GameError::InvalidArgument),
        }
    }

    /// Whether one can leave cell `(row, col)` across side `dir` (a wall
    /// index); false for a cell outside the maze or an index above 3.
    pub fn can_move(&self, row: usize, col: usize, dir: usize) -> (r: bool)
        requires
            self.wf(),
        ensures
            r == (self.in_bounds(row as int, col as int) && dir < 4
                && !self.cell(row as int, col as int).walls[dir as int]),
    {
        if row >= self.height || col >= self.width {
            return false;
        }
        match Direction::from_index(dir) {
            Some(d) => !self.grid[row][col].has_wall(d),
            None => false,
        }
    }
}

/// Open wall pairs counted at cell `(r, c)`: with its right neighbour and
/// with the one below, when both sides of the wall are open.
pub open spec fn pairs_at(m: Maze, r: int, c: int) -> int {
    (if c + 1 < m.width && !m.cell(r, c).walls[1] && !m.cell(r, c + 1).walls[3] { 1int } else { 0int })
    + (if r + 1 < m.height && !m.cell(r, c).walls[2] && !m.cell(r + 1, c).walls[0] { 1int } else { 0int })
}

pub open spec fn pairs_in_row(m: Maze, r: int, n: int) -> int
    decreases n,
{
    if n <= 0 {
        0
    } else {
        pairs_in_row(m, r, n - 1) + pairs_at(m, r, n - 1)
    }
}

pub open spec fn pairs_upto(m: Maze, k: int) -> int
    decreases k,
{
    if k <= 0 {
        0
    } else {
        pairs_upto(m, k - 1) + pairs_in_row(m, k - 1, m.width as int)
    }
}

/// The number of pairs of neighbouring cells joined by an open wall.
pub open spec fn open_pairs(m: Maze) -> int {
    pairs_upto(m, m.height as int)
}

/// Every wall of every cell stands.
pub open spec fn all_closed(m: Maze) -> bool {
    forall|r: int, c: int, i: int| #![trigger m.cell(r, c).walls[i]]
        m.in_bounds(r, c) && 0 <= i < 4 ==> m.cell(r, c).walls[i]
}

proof fn lemma_row_delta(m1: Maze, m2: Maze, r: int, n: int, c0: int, delta: int)
    requires
        0 <= n <= m1.width,
        forall|c: int| 0 <= c < m1.width ==> #[trigger] pairs_at(m2, r, c) == pairs_at(m1, r, c) + if c == c0 { delta } else { 0 },
    ensures
        pairs_in_row(m2, r, n) == pairs_in_row(m1, r, n) + if 0 <= c0 < n { delta } else { 0 },
    decreases n,
{
    if n > 0 {
        lemma_row_delta(m1, m2, r, n - 1, c0, delta);
        assert(pairs_at(m2, r, n - 1) == pairs_at(m1, r, n - 1) + if n - 1 == c0 { delta } else { 0 });
    }
}

/// When the count at one cell `(r0, c0)` changes by `delta` and nowhere
/// else, the total changes by `delta`.
proof fn lemma_pairs_delta(m1: Maze, m2: Maze, k: int, r0: int, c0: int, delta: int)
    requires
        m1.width == m2.width,
        m1.height == m2.height,
        0 <= k <= m1.height,
        0 <= c0 < m1.width,
        forall|r: int, c: int| 0 <= r < m1.height && 0 <= c < m1.width ==>
            #[trigger] pairs_at(m2, r, c) == pairs_at(m1, r, c) + if r == r0 && c == c0 { delta } else { 0 },
    ensures
        pairs_upto(m2, k) == pairs_upto(m1, k) + if 0 <= r0 < k { delta } else { 0 },
    decreases k,
{
    if k > 0 {
        lemma_pairs_delta(m1, m2, k - 1, r0, c0, delta);
        let r = k - 1;
        assert forall|c: int| 0 <= c < m1.width implies #[trigger] pairs_at(m2, r, c) == pairs_at(m1, r, c)
            + if c == (if r == r0 { c0 } else { -1 }) { delta } else { 0 } by {
            assert(pairs_at(m2, r, c) == pairs_at(m1, r, c) + if r == r0 && c == c0 { delta } else { 0 });
        }
        lemma_row_delta(m1, m2, r, m1.width as int, if r == r0 { c0 } else { -1 }, delta);
    }
}

proof fn lemma_closed_no_pairs(m: Maze, k: int)
    requires
        m.wf(),
        all_closed(m),
        0 <= k <= m.height,
    ensures
        pairs_upto(m, k) == 0,
    decreases k,
{
    if k > 0 {
        lemma_closed_no_pairs(m, k - 1);
        lemma_closed_row(m, k - 1, m.width as int);
    }
}

proof fn lemma_closed_row(m: Maze, r: int, n: int)
    requires
        m.wf(),
        all_closed(m),
        0 <= r < m.height,
        0 <= n <= m.width,
    ensures
        pairs_in_row(m, r, n) == 0,
    decreases n,
{
    if n > 0 {
        lemma_closed_row(m, r, n - 1);
        assert(m.cell(r, n - 1).walls[1] && m.cell(r, n - 1).walls[2]);
    }
}

/// Opening the wall pair between `a` and a neighbour `b` whose walls all
/// stood adds exactly one open pair.
proof fn lemma_open_pair_count(m1: Maze, m2: Maze, row: int, col: int, d: Direction, nrow: int, ncol: int)
    requires
        m1.wf(),
        m2.wf(),
        m2.width == m1.width,
        m2.height == m1.height,
        m1.in_bounds(row, col),
        m1.in_bounds(nrow, ncol),
        step(row, col, d) == (nrow, ncol),
        m2.is_open(row, col, d),
        m2.is_open(nrow, ncol, d.spec_opposite()),
        forall|i: int| 0 <= i < 4 ==> m1.cell(nrow, ncol).walls[i],
        forall|r: int, c: int, i: int| #![trigger m2.cell(r, c).walls[i]]
            m1.in_bounds(r, c) && 0 <= i < 4
            && !(r == row && c == col && i == d.spec_index())
            && !(r == nrow && c == ncol && i == d.spec_opposite().spec_index())
            ==> m2.cell(r, c).walls[i] == m1.cell(r, c).walls[i],
    ensures
        open_pairs(m2) == open_pairs(m1) + 1,
{
    let p = match d {
        Direction::Right => (row, col),
        Direction::Bottom => (row, col),
        _ => (nrow, ncol),
    };
    assert forall|r: int, c: int| 0 <= r < m1.height && 0 <= c < m1.width implies
        #[trigger] pairs_at(m2, r, c) == pairs_at(m1, r, c) + if r == p.0 && c == p.1 { 1int } else { 0int } by {
        assert(m2.cell(r, c).walls[1] == m1.cell(r, c).walls[1] || (r == row && c == col) || (r == nrow && c == ncol));
        if c + 1 < m1.width {
            assert(m2.cell(r, c + 1).walls[3] == m1.cell(r, c + 1).walls[3] || (r == row && c + 1 == col) || (r == nrow && c + 1 == ncol));
        }
        if r + 1 < m1.height {
            assert(m2.cell(r + 1, c).walls[0] == m1.cell(r + 1, c).walls[0] || (r + 1 == row && c == col) || (r + 1 == nrow && c == ncol));
        }
        assert(m2.cell(r, c).walls[2] == m1.cell(r, c).walls[2] || (r == row && c == col) || (r == nrow && c == ncol));
    }
    lemma_pairs_delta(m1, m2, m1.height as int, p.0, p.1, 1);
}

proof fn lemma_row_count(s: Seq<bool>, v: bool)
    requires
        forall|i: int| 0 <= i < s.len() ==> s[i] == v,
    ensures
        unvisited_in_row(s) == if v { 0 } else { s.len() },
    decreases s.len(),
{
    if s.len() > 0 {
        lemma_row_count(s.drop_last(), v);
    }
}

/// A table whose entries all equal `v` has no unvisited cell when `v`
/// holds, and `h * w` of them otherwise.
proof fn lemma_table_count(g: Seq<Vec<bool>>, h: int, w: int, v: bool)
    requires
        table_shape(g, h, w),
        w >= 0,
        forall|r: int, c: int| 0 <= r < h && 0 <= c < w ==> #[trigger] g[r]@[c] == v,
    ensures
        unvisited(g) == if v { 0 } else { h * w },
    decreases g.len(),
{
    if g.len() > 0 {
        let t = g.drop_last();
        assert(table_shape(t, h - 1, w)) by {
            assert forall|r: int| 0 <= r < h - 1 implies (#[trigger] t[r])@.len() == w by {
                assert(t[r] == g[r]);
            }
        }
        assert forall|r: int, c: int| 0 <= r < h - 1 && 0 <= c < w implies #[trigger] t[r]@[c] == v by {
            assert(t[r] == g[r]);
        }
        lemma_table_count(t, h - 1, w, v);
        assert forall|i: int| 0 <= i < g.last()@.len() implies g.last()@[i] == v by {
            assert(g[h - 1]@[i] == v);
        }
        lemma_row_count(g.last()@, v);
        assert((h - 1) * w + w == h * w) by (nonlinear_arith);
    }
}

/// The number of unvisited cells in one row of a visitation table.
pub open spec fn unvisited_in_row(s: Seq<bool>) -> nat
    decreases s.len(),
{
    if s.len() == 0 {
        0
    } else {
        unvisited_in_row(s.drop_last()) + if s.last() { 0nat } else { 1nat }
    }
}

/// The number of unvisited cells in a visitation table.
pub open spec fn unvisited(g: Seq<Vec<bool>>) -> nat
    decreases g.len(),
{
    if g.len() == 0 {
        0
    } else {
        unvisited(g.drop_last()) + unvisited_in_row(g.last()@)
    }
}

proof fn lemma_row_mark(s: Seq<bool>, i: int)
    requires
        0 <= i < s.len(),
        !s[i],
    ensures
        unvisited_in_row(s.update(i, true)) + 1 == unvisited_in_row(s),
    decreases s.len(),
{
    let t = s.update(i, true);
    if i == s.len() - 1 {
        assert(t.drop_last() =~= s.drop_last());
    } else {
        lemma_row_mark(s.drop_last(), i);
        assert(t.drop_last() =~= s.drop_last().update(i, true));
    }
}

pub proof fn lemma_table_mark(g: Seq<Vec<bool>>, r: int, line: Vec<bool>, c: int)
    requires
        0 <= r < g.len(),
        0 <= c < g[r]@.len(),
        !g[r]@[c],
        line@ == g[r]@.update(c, true),
    ensures
        unvisited(g.update(r, line)) + 1 == unvisited(g),
    decreases g.len(),
{
    let t = g.update(r, line);
    if r == g.len() - 1 {
        assert(t.drop_last() =~= g.drop_last());
        lemma_row_mark(g[r]@, c);
    } else {
        lemma_table_mark(g.drop_last(), r, line, c);
        assert(t.drop_last() =~= g.drop_last().update(r, line));
    }
}

/// The visitation table has `h` rows of `w` entries.
pub open spec fn table_shape(vis: Seq<Vec<bool>>, h: int, w: int) -> bool {
    &&& vis.len() == h
    &&& forall|r: int| 0 <= r < h ==> (#[trigger] vis[r])@.len() == w
}

/// Every grid neighbour of `(r, c)` is marked in the table.
pub open spec fn neighbours_visited(vis: Seq<Vec<bool>>, h: int, w: int, r: int, c: int) -> bool {
    &&& r > 0 ==> vis[r - 1]@[c]
    &&& c + 1 < w ==> vis[r]@[c + 1]
    &&& r + 1 < h ==> vis[r + 1]@[c]
    &&& c > 0 ==> vis[r]@[c - 1]
}

proof fn lemma_visited_at(vis: Seq<Vec<bool>>, h: int, w: int, r: int, c: int)
    requires
        table_shape(vis, h, w),
        h >= 1 && w >= 1,
        vis[0]@[0],
        forall|r2: int, c2: int| 0 <= r2 < h && 0 <= c2 < w && #[trigger] vis[r2]@[c2]
            ==> neighbours_visited(vis, h, w, r2, c2),
        0 <= r < h && 0 <= c < w,
    ensures
        vis[r]@[c],
    decreases r + c,
{
    if c > 0 {
        lemma_visited_at(vis, h, w, r, c - 1);
    } else if r > 0 {
        lemma_visited_at(vis, h, w, r - 1, c);
    }
}

impl Maze {
    /// Walks through open walls remain walks when walls are only opened.
    pub proof fn lemma_walk_opens(&self, m: Maze, p: Seq<(int, int)>)
        requires
            self.opens_into(m),
            self.is_walk(p),
        ensures
            m.is_walk(p),
    {
        assert forall|i: int| 0 <= i < p.len() - 1 implies m.linked(#[trigger] p[i], p[i + 1]) by {
            assert(self.linked(p[i], p[i + 1]));
            let a = p[i];
            if self.linked_by(a, p[i + 1], Direction::Top) {
                assert(m.linked_by(a, p[i + 1], Direction::Top));
            } else if self.linked_by(a, p[i + 1], Direction::Right) {
                assert(m.linked_by(a, p[i + 1], Direction::Right));
            } else if self.linked_by(a, p[i + 1], Direction::Bottom) {
                assert(m.linked_by(a, p[i + 1], Direction::Bottom));
            } else {
                assert(m.linked_by(a, p[i + 1], Direction::Left));
            }
        }
    }

    pub proof fn lemma_reach_opens(&self, m: Maze, from: (int, int), to: (int, int))
        requires
            self.opens_into(m),
            self.reachable(from, to),
        ensures
            m.reachable(from, to),
    {
        reveal(Maze::reachable);
        let p = choose|p: Seq<(int, int)>| #[trigger] self.is_walk(p) && p[0] == from && p.last() == to;
        self.lemma_walk_opens(m, p);
    }

    pub proof fn lemma_reach_step(&self, from: (int, int), a: (int, int), b: (int, int))
        requires
            self.reachable(from, a),
            self.linked(a, b),
        ensures
            self.reachable(from, b),
    {
        reveal(Maze::reachable);
        let p = choose|p: Seq<(int, int)>| #[trigger] self.is_walk(p) && p[0] == from && p.last() == a;
        let q = p.push(b);
        assert forall|i: int| 0 <= i < q.len() - 1 implies self.linked(#[trigger] q[i], q[i + 1]) by {
            if i < p.len() - 1 {
                assert(q[i] == p[i] && q[i + 1] == p[i + 1]);
            }
        }
        assert(self.is_walk(q));
    }

    pub proof fn lemma_opens_trans(&self, m1: Maze, m2: Maze)
        requires
            self.opens_into(m1),
            m1.opens_into(m2),
        ensures
            self.opens_into(m2),
    {
        assert forall|r: int, c: int, i: int| #![trigger m2.cell(r, c).walls[i]]
            self.in_bounds(r, c) && 0 <= i < 4 && !self.cell(r, c).walls[i]
                implies !m2.cell(r, c).walls[i] by {
            assert(!m1.cell(r, c).walls[i]);
        }
    }

    /// Opens the wall between `(row, col)` and its neighbour across `d`, on
    /// both sides.
    fn open_between(&mut self, row: usize, col: usize, d: Direction, nrow: usize, ncol: usize)
        requires
            old(self).wf(),
            old(self).in_bounds(row as int, col as int),
            old(self).in_bounds(nrow as int, ncol as int),
            step(row as int, col as int, d) == (nrow as int, ncol as int),
        ensures
            final(self).wf(),
            final(self).width == old(self).width,
            final(self).height == old(self).height,
            final(self).is_open(row as int, col as int, d),
            final(self).is_open(nrow as int, ncol as int, d.spec_opposite()),
            forall|r: int, c: int, i: int| #![trigger final(self).cell(r, c).walls[i]]
                old(self).in_bounds(r, c) && 0 <= i < 4
                && !(r == row && c == col && i == d.spec_index())
                && !(r == nrow && c == ncol && i == d.spec_opposite().spec_index())
                ==> final(self).cell(r, c).walls[i] == old(self).cell(r, c).walls[i],
    {
        self.grid[row][col].remove_wall(d);
        self.grid[nrow][ncol].remove_wall(d.opposite());
    }

    /// Opening a wall pair between neighbours keeps the walls symmetric.
    proof fn lemma_open_pair_symmetric(&self, m: Maze, row: int, col: int, d: Direction, nrow: int, ncol: int)
        requires
            self.wf(),
            m.wf(),
            m.width == self.width,
            m.height == self.height,
            self.walls_symmetric(),
            self.in_bounds(row, col),
            self.in_bounds(nrow, ncol),
            step(row, col, d) == (nrow, ncol),
            m.is_open(row, col, d),
            m.is_open(nrow, ncol, d.spec_opposite()),
            forall|r: int, c: int, i: int| #![trigger m.cell(r, c).walls[i]]
                self.in_bounds(r, c) && 0 <= i < 4
                && !(r == row && c == col && i == d.spec_index())
                && !(r == nrow && c == ncol && i == d.spec_opposite().spec_index())
                ==> m.cell(r, c).walls[i] == self.cell(r, c).walls[i],
        ensures
            m.walls_symmetric(),
    {
        assert forall|r: int, c: int| #![trigger m.cell(r, c), m.cell(r, c + 1)]
            m.in_bounds(r, c) && m.in_bounds(r, c + 1) implies
                m.cell(r, c).walls[1] == m.cell(r, c + 1).walls[3] by {
            assert(self.cell(r, c).walls[1] == self.cell(r, c + 1).walls[3]);
            assert(m.cell(r, c).walls[1] == self.cell(r, c).walls[1] || (r == row && c == col) || (r == nrow && c == ncol));
        }
        assert forall|r: int, c: int| #![trigger m.cell(r, c), m.cell(r + 1, c)]
            m.in_bounds(r, c) && m.in_bounds(r + 1, c) implies
                m.cell(r, c).walls[2] == m.cell(r + 1, c).walls[0] by {
            assert(self.cell(r, c).walls[2] == self.cell(r + 1, c).walls[0]);
        }
    }

    /// What holds between steps of the backtracker, started on `start`.
    #[verifier::opaque]
    pub open spec fn carve_inv(&self, start: Maze, vis: Seq<Vec<bool>>, stack: Seq<(usize, usize)>) -> bool {
        let h = self.height;
        let w = self.width;
        &&& self.wf()
        &&& w >= 1
        &&& h >= 1
        &&& start.opens_into(*self)
        &&& start.walls_symmetric() ==> self.walls_symmetric()
        &&& forall|r: int, c: int, d: Direction| #![trigger self.is_open(r, c, d)]
            start.in_bounds(r, c) && !start.in_bounds(step(r, c, d).0, step(r, c, d).1)
            ==> (self.is_open(r, c, d) == start.is_open(r, c, d))
        &&& table_shape(vis, h as int, w as int)
        &&& vis[0]@[0]
        &&& forall|k: int| 0 <= k < stack.len() ==> {
            &&& (#[trigger] stack[k]).0 < h
            &&& stack[k].1 < w
            &&& vis[stack[k].0 as int]@[stack[k].1 as int]
        }
        &&& forall|r: int, c: int| 0 <= r < h && 0 <= c < w && #[trigger] vis[r]@[c]
            ==> self.reachable((0, 0), (r, c))
        &&& forall|r: int, c: int| 0 <= r < h && 0 <= c < w && #[trigger] vis[r]@[c]
            ==> stack.contains((r as usize, c as usize))
                || neighbours_visited(vis, h as int, w as int, r, c)
        &&& all_closed(start) ==> open_pairs(*self) + unvisited(vis) == w * h - 1
        &&& all_closed(start) ==> forall|r: int, c: int, i: int| #![trigger self.cell(r, c).walls[i]] 0 <= r < h && 0 <= c < w && 0 <= i < 4
            && !vis[r]@[c] ==> self.cell(r, c).walls[i]
    }

    /// One step of the backtracker: pops the top cell and, if it has an
    /// unvisited neighbour, opens the way to a random one and pushes both.
    #[verifier::rlimit(80)]
    fn carve_step(&mut self, rng: &mut StdRng, visited: &mut Vec<Vec<bool>>, stack: &mut Vec<(usize, usize)>, Ghost(start): Ghost<Maze>)
        requires
            old(self).carve_inv(start, old(visited)@, old(stack)@),
            old(stack)@.len() > 0,
        ensures
            final(self).carve_inv(start, final(visited)@, final(stack)@),
            final(self).width == old(self).width,
            final(self).height == old(self).height,
            unvisited(final(visited)@) < unvisited(old(visited)@)
                || (unvisited(final(visited)@) == unvisited(old(visited)@)
                    && final(stack)@.len() < old(stack)@.len()),
    {
        reveal(Maze::carve_inv);
        let h = self.height;
        let w = self.width;
        let ghost stack0 = stack@;
        let (row, col) = stack.pop().unwrap();
        assert(stack@ =~= stack0.drop_last());
        assert(stack0[stack0.len() - 1] == (row, col));
        let neighbours = unvisited_neighbours(visited, row, col, h, w);
        if neighbours.len() > 0 {
            let picked = choose_step(rng, &neighbours);
            let ghost k = choose|k: int| 0 <= k < neighbours@.len() && neighbours@[k] == picked;
            let (nrow, ncol, d) = picked;
            let ghost before = *self;
            let ghost vis0 = visited@;
            self.open_between(row, col, d, nrow, ncol);
            proof {
                assert(before.opens_into(*self));
                start.lemma_opens_trans(before, *self);
                assert(self.linked_by((row as int, col as int), (nrow as int, ncol as int), d));
                before.lemma_reach_opens(*self, (0, 0), (row as int, col as int));
                self.lemma_reach_step((0, 0), (row as int, col as int), (nrow as int, ncol as int));
                assert forall|r: int, c: int| 0 <= r < h && 0 <= c < w && #[trigger] vis0[r]@[c]
                    implies self.reachable((0, 0), (r, c)) by {
                    before.lemma_reach_opens(*self, (0, 0), (r, c));
                }
                if start.walls_symmetric() {
                    before.lemma_open_pair_symmetric(*self, row as int, col as int, d, nrow as int, ncol as int);
                }
            }
            visited[nrow][ncol] = true;
            proof {
                lemma_table_mark(vis0, nrow as int, visited@[nrow as int], ncol as int);
                assert(visited@ == vis0.update(nrow as int, visited@[nrow as int]));
                if all_closed(start) {
                    assert(!vis0[nrow as int]@[ncol as int]);
                    assert(forall|i: int| 0 <= i < 4 ==> before.cell(nrow as int, ncol as int).walls[i]);
                    lemma_open_pair_count(before, *self, row as int, col as int, d, nrow as int, ncol as int);
                    assert forall|r: int, c: int, i: int| #![trigger self.cell(r, c).walls[i]] 0 <= r < h && 0 <= c < w && 0 <= i < 4
                        && !visited@[r]@[c] implies self.cell(r, c).walls[i] by {
                        assert(!vis0[r]@[c]);
                        assert(before.cell(r, c).walls[i]);
                        if r == row && c == col {
                            assert(vis0[row as int]@[col as int]);
                        }
                    }
                }
            }
            stack.push((row, col));
            stack.push((nrow, ncol));
            proof {
                let n = stack@.len();
                assert(stack@[n - 2] == (row, col));
                assert(stack@[n - 1] == (nrow, ncol));
                assert forall|r: int, c: int| 0 <= r < h && 0 <= c < w && #[trigger] visited@[r]@[c]
                    implies stack@.contains((r as usize, c as usize))
                        || neighbours_visited(visited@, h as int, w as int, r, c) by {
                    if r == nrow && c == ncol {
                    } else {
                        assert(vis0[r]@[c]);
                        if stack0.contains((r as usize, c as usize)) {
                            let j = choose|j: int| 0 <= j < stack0.len() && stack0[j] == (r as usize, c as usize);
                            if j < stack0.len() - 1 {
                                assert(stack@[j] == (r as usize, c as usize));
                            }
                        }
                    }
                }
            }
        } else {
            proof {
                assert forall|r: int, c: int| 0 <= r < h && 0 <= c < w && #[trigger] visited@[r]@[c]
                    implies stack@.contains((r as usize, c as usize))
                        || neighbours_visited(visited@, h as int, w as int, r, c) by {
                    if r == row && c == col {
                    } else if stack0.contains((r as usize, c as usize)) {
                        let j = choose|j: int| 0 <= j < stack0.len() && stack0[j] == (r as usize, c as usize);
                        assert(stack@[j] == (r as usize, c as usize));
                    }
                }
            }
        }
        proof {
            assert forall|r: int, c: int, d: Direction| #![trigger self.is_open(r, c, d)]
                start.in_bounds(r, c) && !start.in_bounds(step(r, c, d).0, step(r, c, d).1)
                implies (self.is_open(r, c, d) == start.is_open(r, c, d)) by {
                assert(old(self).is_open(r, c, d) == start.is_open(r, c, d));
            }
        }
    }

    /// Randomized depth-first backtracking from `(0, 0)`: each step opens the
    /// wall pair to a randomly chosen unvisited neighbour of the cell on top
    /// of the stack. Only interior walls are opened.
    #[verifier::rlimit(100)]
    fn carve(&mut self, rng: &mut StdRng)
        requires
            old(self).wf(),
            old(self).width >= 1,
            old(self).height >= 1,
        ensures
            old(self).opens_into(*final(self)),
            final(self).connected(),
            old(self).walls_symmetric() ==> final(self).walls_symmetric(),
            forall|r: int, c: int, d: Direction| #![trigger final(self).is_open(r, c, d)]
                old(self).in_bounds(r, c) && !old(self).in_bounds(step(r, c, d).0, step(r, c, d).1)
                ==> (final(self).is_open(r, c, d) == old(self).is_open(r, c, d)),
            all_closed(*old(self)) ==> open_pairs(*final(self)) == old(self).width * old(self).height - 1,
    {
        let h = self.height;
        let w = self.width;
        let mut visited = fresh_table(h, w);
        let mut stack: Vec<(usize, usize)> = Vec::new();
        stack.push((0, 0));
        let ghost vis_init = visited@;
        let ghost start = *self;
        visited[0][0] = true;
        proof {
            assert(visited@ == vis_init.update(0, visited@[0]));
            self.lemma_carve_init(vis_init, visited@, stack@);
        }
        while stack.len() > 0
            invariant
                self.carve_inv(start, visited@, stack@),
                self.width == w,
                self.height == h,
                start == *old(self),
            decreases unvisited(visited@), stack@.len(),
        {
            self.carve_step(rng, &mut visited, &mut stack, Ghost(start));
        }
        proof {
            self.lemma_carve_done(start, visited@, stack@);
        }
    }

    proof fn lemma_carve_init(&self, vis_init: Seq<Vec<bool>>, vis: Seq<Vec<bool>>, stack: Seq<(usize, usize)>)
        requires
            self.wf(),
            self.width >= 1,
            self.height >= 1,
            table_shape(vis_init, self.height as int, self.width as int),
            forall|i: int, j: int| 0 <= i < self.height && 0 <= j < self.width ==> !(#[trigger] vis_init[i]@[j]),
            vis == vis_init.update(0, vis[0]),
            vis[0]@ == vis_init[0]@.update(0, true),
            stack == seq![(0usize, 0usize)],
        ensures
            self.carve_inv(*self, vis, stack),
    {
        reveal(Maze::carve_inv);
        reveal(Maze::reachable);
        let h = self.height;
        let w = self.width;
        let p = seq![(0int, 0int)];
        assert(self.is_walk(p));
        assert(self.reachable((0, 0), (0, 0)));
        assert(stack[0] == (0usize, 0usize));
        if all_closed(*self) {
            lemma_closed_no_pairs(*self, h as int);
            lemma_table_count(vis_init, h as int, w as int, false);
            lemma_table_mark(vis_init, 0, vis[0], 0);
            assert(h * w == w * h) by (nonlinear_arith);
            assert forall|r: int, c: int, i: int| #![trigger self.cell(r, c).walls[i]] 0 <= r < h && 0 <= c < w && 0 <= i < 4
                && !vis[r]@[c] implies self.cell(r, c).walls[i] by {
            }
        }
        assert forall|r: int, c: int| 0 <= r < h && 0 <= c < w && #[trigger] vis[r]@[c]
            implies r == 0 && c == 0 by {
            if r != 0 {
                assert(vis[r] == vis_init[r]);
            }
        }
        assert(self.opens_into(*self));
    }

    proof fn lemma_carve_done(&self, start: Maze, vis: Seq<Vec<bool>>, stack: Seq<(usize, usize)>)
        requires
            self.carve_inv(start, vis, stack),
            stack.len() == 0,
        ensures
            start.opens_into(*self),
            self.connected(),
            start.walls_symmetric() ==> self.walls_symmetric(),
            forall|r: int, c: int, d: Direction| #![trigger self.is_open(r, c, d)]
                start.in_bounds(r, c) && !start.in_bounds(step(r, c, d).0, step(r, c, d).1)
                ==> (self.is_open(r, c, d) == start.is_open(r, c, d)),
            all_closed(start) ==> open_pairs(*self) == self.width * self.height - 1,
    {
        reveal(Maze::carve_inv);
        let h = self.height as int;
        let w = self.width as int;
        assert forall|r2: int, c2: int| 0 <= r2 < h && 0 <= c2 < w && #[trigger] vis[r2]@[c2]
            implies neighbours_visited(vis, h, w, r2, c2) by {
            assert(!stack.contains((r2 as usize, c2 as usize)));
        }
        lemma_visited_at_all(vis, h, w);
        lemma_table_count(vis, h, w, true);
        assert forall|r: int, c: int| #![trigger self.in_bounds(r, c)]
            self.in_bounds(r, c) implies self.reachable((0, 0), (r, c)) by {
            assert(vis[r]@[c]);
        }
    }
}

/// A visitation table of `h` rows of `w` entries, none marked.
pub(crate) fn fresh_table(h: usize, w: usize) -> (r: Vec<Vec<bool>>)
    ensures
        table_shape(r@, h as int, w as int),
        forall|i: int, j: int| 0 <= i < h && 0 <= j < w ==> !(#[trigger] r@[i]@[j]),
{
    let mut visited: Vec<Vec<bool>> = Vec::new();
    let mut i: usize = 0;
    while i < h
        invariant
            i <= h,
            visited@.len() == i,
            forall|r: int| 0 <= r < i ==> (#[trigger] visited@[r])@.len() == w,
            forall|r: int, c: int| 0 <= r < i && 0 <= c < w ==> !(#[trigger] visited@[r]@[c]),
        decreases h - i,
    {
        let mut line: Vec<bool> = Vec::new();
        let mut j: usize = 0;
        while j < w
            invariant
                j <= w,
                line@.len() == j,
                forall|c: int| 0 <= c < j ==> !(#[trigger] line@[c]),
            decreases w - j,
        {
            line.push(false);
            j = j + 1;
        }
        visited.push(line);
        i = i + 1;
    }
    visited
}

/// The unmarked grid neighbours of `(row, col)`, each with the side that
/// leads to it.
fn unvisited_neighbours(visited: &Vec<Vec<bool>>, row: usize, col: usize, h: usize, w: usize)
    -> (r: Vec<(usize, usize, Direction)>)
    requires
        table_shape(visited@, h as int, w as int),
        row < h && col < w,
    ensures
        forall|k: int| 0 <= k < r@.len() ==> {
            let (nr, nc, d) = #[trigger] r@[k];
            &&& nr < h && nc < w
            &&& step(row as int, col as int, d) == (nr as int, nc as int)
            &&& !visited@[nr as int]@[nc as int]
        },
        r@.len() == 0 ==> neighbours_visited(visited@, h as int, w as int, row as int, col as int),
{
    let mut neighbours: Vec<(usize, usize, Direction)> = Vec::new();
    if row > 0 && !visited[row - 1][col] {
        neighbours.push((row - 1, col, Direction::Top));
    }
    if col + 1 < w && !visited[row][col + 1] {
        neighbours.push((row, col + 1, Direction::Right));
    }
    if row + 1 < h && !visited[row + 1][col] {
        neighbours.push((row + 1, col, Direction::Bottom));
    }
    if col > 0 && !visited[row][col - 1] {
        neighbours.push((row, col - 1, Direction::Left));
    }
    neighbours
}

proof fn lemma_visited_at_all(vis: Seq<Vec<bool>>, h: int, w: int)
    requires
        table_shape(vis, h, w),
        h >= 1 && w >= 1,
        vis[0]@[0],
        forall|r2: int, c2: int| 0 <= r2 < h && 0 <= c2 < w && #[trigger] vis[r2]@[c2]
            ==> neighbours_visited(vis, h, w, r2, c2),
    ensures
        forall|r: int, c: int| 0 <= r < h && 0 <= c < w ==> #[trigger] vis[r]@[c],
{
    assert forall|r: int, c: int| 0 <= r < h && 0 <= c < w implies #[trigger] vis[r]@[c] by {
        lemma_visited_at(vis, h, w, r, c);
    }
}

/// Whether an exit on side `d` is asked for: every side when no list is given.
pub open spec fn exit_requested(exits: Option<Vec<String>>, d: Direction) -> bool {
    match exits {
        None => true,
        Some(names) => requests_exit(names@, d),
    }
}

/// The direction that an exit name denotes, if any.
pub fn exit_from_name(name: &str) -> (r: Option<Direction>)
    ensures
        r == exit_dir(name@),
{
    if text_eq(name, "top") {
        Some(Direction::Top)
    } else if text_eq(name, "bottom") {
        Some(Direction::Bottom)
    } else if text_eq(name, "left") {
        Some(Direction::Left)
    } else if text_eq(name, "right") {
        Some(Direction::Right)
    } else {
        None
    }
}

/// The exit directions that a list of names denotes, or `None` if some
/// name is not an exit.
fn parse_exits(names: &Vec<String>) -> (r: Option<Vec<Direction>>)
    ensures
        r is Some <==> exit_names_valid(names@),
        r matches Some(ds) ==> forall|d: Direction| ds@.contains(d) <==> requests_exit(names@, d),
{
    let mut ds: Vec<Direction> = Vec::new();
    let mut i: usize = 0;
    while i < names.len()
        invariant
            i <= names@.len(),
            forall|k: int| 0 <= k < i ==> (#[trigger] exit_dir(names@[k]@)) is Some,
            forall|d: Direction| ds@.contains(d) <==>
                exists|k: int| 0 <= k < i && #[trigger] exit_dir(names@[k]@) == Some(d),
        decreases names@.len() - i,
    {
        match exit_from_name(names[i].as_str()) {
            Some(d) => {
                let ghost ds0 = ds@;
                ds.push(d);
                proof {
                    assert forall|e: Direction| ds@.contains(e) <==>
                        exists|k: int| 0 <= k < i + 1 && #[trigger] exit_dir(names@[k]@) == Some(e) by {
                        if ds@.contains(e) {
                            let j = choose|j: int| 0 <= j < ds@.len() && ds@[j] == e;
                            if j < ds0.len() {
                                assert(ds0.contains(e));
                            } else {
                                assert(exit_dir(names@[i as int]@) == Some(e));
                            }
                        }
                        if exists|k: int| 0 <= k < i + 1 && #[trigger] exit_dir(names@[k]@) == Some(e) {
                            let k = choose|k: int| 0 <= k < i + 1 && #[trigger] exit_dir(names@[k]@) == Some(e);
                            if k < i {
                                assert(ds0.contains(e));
                                let j = choose|j: int| 0 <= j < ds0.len() && ds0[j] == e;
                                assert(ds@[j] == e);
                            } else {
                                assert(ds@[ds0.len() as int] == e);
                            }
                        }
                    }
                }
            },
            None => {
                return None;
            },
        }
        i = i + 1;
    }
    Some(ds)
}

impl Maze {
    /// Opens the boundary wall at the midpoint of each edge named in `dirs`.
    fn add_exits(&mut self, dirs: &Vec<Direction>)
        requires
            old(self).wf(),
            old(self).width >= 1,
            old(self).height >= 1,
        ensures
            old(self).opens_into(*final(self)),
            forall|r: int, c: int, i: int| #![trigger final(self).cell(r, c).walls[i]]
                old(self).in_bounds(r, c) && 0 <= i < 4
                && !(exists|d: Direction| dirs@.contains(d) && d.spec_index() == i
                    && #[trigger] old(self).exit_cell(d) == (r, c))
                ==> final(self).cell(r, c).walls[i] == old(self).cell(r, c).walls[i],
            forall|d: Direction| #[trigger] dirs@.contains(d)
                ==> final(self).is_open(old(self).exit_cell(d).0, old(self).exit_cell(d).1, d),
    {
        let mid_row = self.height / 2;
        let mid_col = self.width / 2;
        let mut k: usize = 0;
        let ghost start = *self;
        proof {
            assert(start.opens_into(*self));
        }
        while k < dirs.len()
            invariant
                k <= dirs@.len(),
                self.wf(),
                self.width == start.width,
                self.height == start.height,
                start.width >= 1,
                start.height >= 1,
                mid_row == start.height / 2,
                mid_col == start.width / 2,
                start.opens_into(*self),
                forall|r: int, c: int, i: int| #![trigger self.cell(r, c).walls[i]]
                    start.in_bounds(r, c) && 0 <= i < 4
                    && !(exists|j: int| 0 <= j < k && dirs@[j].spec_index() == i
                        && #[trigger] start.exit_cell(dirs@[j]) == (r, c))
                    ==> self.cell(r, c).walls[i] == start.cell(r, c).walls[i],
                forall|j: int| 0 <= j < k
                    ==> self.is_open(start.exit_cell(#[trigger] dirs@[j]).0, start.exit_cell(dirs@[j]).1, dirs@[j]),
            decreases dirs@.len() - k,
        {
            let d = dirs[k];
            let ghost before = *self;
            let (row, col) = match d {
                Direction::Top => (0, mid_col),
                Direction::Bottom => (self.height - 1, mid_col),
                Direction::Left => (mid_row, 0),
                Direction::Right => (mid_row, self.width - 1),
            };
            assert(start.exit_cell(d) == (row as int, col as int));
            self.grid[row][col].remove_wall(d);
            proof {
                assert(self.cell(row as int, col as int).walls@ == before.cell(row as int, col as int).walls@.update(d.spec_index() as int, false));
                assert forall|r: int, c: int, i: int| #![trigger self.cell(r, c).walls[i]]
                    start.in_bounds(r, c) && 0 <= i < 4 && !start.cell(r, c).walls[i]
                    implies !self.cell(r, c).walls[i] by {
                    assert(!before.cell(r, c).walls[i]);
                }
                assert forall|r: int, c: int, i: int| #![trigger self.cell(r, c).walls[i]]
                    start.in_bounds(r, c) && 0 <= i < 4
                    && !(exists|j: int| 0 <= j < k + 1 && dirs@[j].spec_index() == i
                        && #[trigger] start.exit_cell(dirs@[j]) == (r, c))
                    implies self.cell(r, c).walls[i] == start.cell(r, c).walls[i] by {
                    assert(!(exists|j: int| 0 <= j < k && dirs@[j].spec_index() == i
                        && #[trigger] start.exit_cell(dirs@[j]) == (r, c)));
                    if r == row && c == col && i == d.spec_index() {
                        assert(dirs@[k as int].spec_index() == i && start.exit_cell(dirs@[k as int]) == (r, c));
                    }
                    assert(self.cell(r, c).walls[i] == before.cell(r, c).walls[i]);
                }
                assert forall|j: int| 0 <= j < k + 1
                    implies self.is_open(start.exit_cell(#[trigger] dirs@[j]).0, start.exit_cell(dirs@[j]).1, dirs@[j]) by {
                    if j < k {
                        assert(before.is_open(start.exit_cell(dirs@[j]).0, start.exit_cell(dirs@[j]).1, dirs@[j]));
                    }
                }
            }
            k = k + 1;
        }
        proof {
            assert forall|r: int, c: int, i: int| #![trigger self.cell(r, c).walls[i]]
                start.in_bounds(r, c) && 0 <= i < 4
                && !(exists|d: Direction| dirs@.contains(d) && d.spec_index() == i
                    && #[trigger] start.exit_cell(d) == (r, c))
                implies self.cell(r, c).walls[i] == start.cell(r, c).walls[i] by {
                if exists|j: int| 0 <= j < k && dirs@[j].spec_index() == i
                        && #[trigger] start.exit_cell(dirs@[j]) == (r, c) {
                    let j = choose|j: int| 0 <= j < k && dirs@[j].spec_index() == i
                        && #[trigger] start.exit_cell(dirs@[j]) == (r, c);
                    assert(dirs@.contains(dirs@[j]));
                }
            }
            assert forall|d: Direction| #[trigger] dirs@.contains(d)
                implies self.is_open(start.exit_cell(d).0, start.exit_cell(d).1, d) by {
                let j = choose|j: int| 0 <= j < dirs@.len() && dirs@[j] == d;
                assert(self.is_open(start.exit_cell(dirs@[j]).0, start.exit_cell(dirs@[j]).1, dirs@[j]));
            }
        }
    }
}

impl Maze {
    /// Every wall open in `self` is open in `m`, so `m` stays connected.
    pub proof fn lemma_connected_opens(&self, m: Maze)
        requires
            self.opens_into(m),
            self.connected(),
        ensures
            m.connected(),
    {
        assert forall|r: int, c: int| #![trigger m.in_bounds(r, c)]
            m.in_bounds(r, c) implies m.reachable((0, 0), (r, c)) by {
            assert(self.in_bounds(r, c));
            self.lemma_reach_opens(m, (0, 0), (r, c));
        }
    }

    /// Carves a spanning-tree maze by randomized depth-first backtracking from
    /// `(0, 0)`, then opens the boundary wall at the midpoint of each edge
    /// named in `exits` ("top", "bottom", "left", "right"; all four when
    /// `exits` is `None`). An unknown name fails with `InvalidArgument` before
    /// anything is changed.
    pub fn generate_maze(&mut self, rng: &mut StdRng, exits: Option<Vec<String>>) -> (r: Result<(), GameError>)
        requires
            old(self).wf(),
            old(self).width >= 1,
            old(self).height >= 1,
        ensures
            r is Ok <==> (exits matches Some(names) ==> exit_names_valid(names@)),
            r is Err ==> r == Err::<(), GameError>(GameError::InvalidArgument) && *final(self) == *old(self),
            r is Ok ==> old(self).opens_into(*final(self)),
            r is Ok ==> final(self).connected(),
            r is Ok ==> (old(self).walls_symmetric() ==> final(self).walls_symmetric()),
            r is Ok && all_closed(*old(self)) ==> open_pairs(*final(self)) == old(self).width * old(self).height - 1,
            r is Ok ==> forall|row: int, col: int, d: Direction| #![trigger final(self).is_open(row, col, d)]
                old(self).in_bounds(row, col) && !old(self).in_bounds(step(row, col, d).0, step(row, col, d).1)
                ==> (final(self).is_open(row, col, d) <==> (old(self).is_open(row, col, d)
                    || (exit_requested(exits, d) && old(self).exit_cell(d) == (row, col)))),
    {
        let dirs = match exits {
            Some(names) => match parse_exits(&names) {
                Some(ds) => ds,
                None => {
                    return Err(GameError::InvalidArgument);
                },
            },
            None => vec![Direction::Top, Direction::Right, Direction::Bottom, Direction::Left],
        };
        proof {
            if exits is None {
                assert forall|d: Direction| dirs@.contains(d) by {
                    match d {
                        Direction::Top => assert(dirs@[0] == d),
                        Direction::Right => assert(dirs@[1] == d),
                        Direction::Bottom => assert(dirs@[2] == d),
                        Direction::Left => assert(dirs@[3] == d),
                    }
                }
            }
            assert(forall|d: Direction| dirs@.contains(d) <==> exit_requested(exits, d));
        }
        let ghost start = *self;
        self.carve(rng);
        let ghost carved = *self;
        self.add_exits(&dirs);
        proof {
            start.lemma_opens_trans(carved, *self);
            carved.lemma_connected_opens(*self);
            assert forall|r: int, c: int, i: int|
                self.in_bounds(r, c) && 0 <= i < 4 && #[trigger] self.cell(r, c).walls[i] != carved.cell(r, c).walls[i]
                implies (i == 0 && r == 0) || (i == 1 && c == self.width - 1) || (i == 2 && r == self.height - 1)
                    || (i == 3 && c == 0) by {
                let e = choose|e: Direction| dirs@.contains(e) && e.spec_index() == i
                    && #[trigger] carved.exit_cell(e) == (r, c);
            }
            assert forall|r: int, c: int| 0 <= r < self.height && 0 <= c < self.width implies
                #[trigger] pairs_at(*self, r, c) == pairs_at(carved, r, c) + if r == 0 && c == 0 { 0int } else { 0int } by {
                assert(self.cell(r, c).walls[1] == carved.cell(r, c).walls[1] || c == self.width - 1);
                assert(self.cell(r, c).walls[2] == carved.cell(r, c).walls[2] || r == self.height - 1);
                if c + 1 < self.width {
                    assert(self.cell(r, c + 1).walls[3] == carved.cell(r, c + 1).walls[3]);
                }
                if r + 1 < self.height {
                    assert(self.cell(r + 1, c).walls[0] == carved.cell(r + 1, c).walls[0]);
                }
            }
            lemma_pairs_delta(carved, *self, self.height as int, 0, 0, 0);
            assert forall|row: int, col: int, d: Direction| #![trigger self.is_open(row, col, d)]
                start.in_bounds(row, col) && !start.in_bounds(step(row, col, d).0, step(row, col, d).1)
                implies (self.is_open(row, col, d) <==> (start.is_open(row, col, d)
                    || (exit_requested(exits, d) && start.exit_cell(d) == (row, col)))) by {
                assert(carved.is_open(row, col, d) == start.is_open(row, col, d));
                if exit_requested(exits, d) && start.exit_cell(d) == (row, col) {
                    assert(dirs@.contains(d));
                } else {
                    if exists|e: Direction| dirs@.contains(e) && e.spec_index() == d.spec_index()
                            && #[trigger] carved.exit_cell(e) == (row, col) {
                        let e = choose|e: Direction| dirs@.contains(e) && e.spec_index() == d.spec_index()
                            && #[trigger] carved.exit_cell(e) == (row, col);
                        assert(e == d);
                    }
                    assert(self.cell(row, col).walls[d.spec_index() as int] == carved.cell(row, col).walls[d.spec_index() as int]);
                }
            }
            if start.walls_symmetric() {
                assert(carved.walls_symmetric());
                let h = self.height as int;
                let w = self.width as int;
                assert forall|r: int, c: int, i: int|
                    self.in_bounds(r, c) && 0 <= i < 4 && #[trigger] self.cell(r, c).walls[i] != carved.cell(r, c).walls[i]
                    implies (i == 0 && r == 0) || (i == 1 && c == w - 1) || (i == 2 && r == h - 1) || (i == 3 && c == 0) by {
                    let e = choose|e: Direction| dirs@.contains(e) && e.spec_index() == i
                        && #[trigger] carved.exit_cell(e) == (r, c);
                }
                assert forall|r: int, c: int| #![trigger self.cell(r, c), self.cell(r, c + 1)]
                    self.in_bounds(r, c) && self.in_bounds(r, c + 1) implies
                        self.cell(r, c).walls[1] == self.cell(r, c + 1).walls[3] by {
                    assert(carved.cell(r, c).walls[1] == carved.cell(r, c + 1).walls[3]);
                    assert(self.cell(r, c).walls[1] == carved.cell(r, c).walls[1]);
                    assert(self.cell(r, c + 1).walls[3] == carved.cell(r, c + 1).walls[3]);
                }
                assert forall|r: int, c: int| #![trigger self.cell(r, c), self.cell(r + 1, c)]
                    self.in_bounds(r, c) && self.in_bounds(r + 1, c) implies
                        self.cell(r, c).walls[2] == self.cell(r + 1, c).walls[0] by {
                    assert(carved.cell(r, c).walls[2] == carved.cell(r + 1, c).walls[0]);
                    assert(self.cell(r, c).walls[2] == carved.cell(r, c).walls[2]);
                    assert(self.cell(r + 1, c).walls[0] == carved.cell(r + 1, c).walls[0]);
                }
            }
        }
        Ok(())
    }
}

} // verus!
