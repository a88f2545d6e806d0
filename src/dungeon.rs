use vstd::prelude::*;
use rand::rngs::StdRng;
use crate::cell::Direction;
use crate::entity::{Entity, health_after};
use crate::maze::{Maze, all_closed, exit_dir, exit_requested, open_pairs, requests_exit, step};
use crate::rng::pick_below;
use crate::pathfinding::{astar, is_route};
use crate::error::GameError;
use crate::text::text_eq;
use vstd::arithmetic::div_mod::lemma_fundamental_div_mod_converse;

verus! {

broadcast use vstd::string::group_string_axioms;

/// Bound on `rows + cols` that keeps the scaled enemy stats inside `i32`.
pub const MAX_GRID_SPAN: usize = 2_000_000_000;

/// How many enemies are spawned when the player enters a room.
pub const ROOM_ENEMY_COUNT: usize = 3;

/// The exits of the room at `(r, c)` in a `rows` by `cols` grid, in the order
/// they are opened.
pub open spec fn exit_table(r: int, c: int, rows: int, cols: int) -> Seq<Direction> {
    let top = r == 0;
    let bottom = r == rows - 1;
    let left = c == 0;
    let right = c == cols - 1;
    if top && left {
        seq![Direction::Left, Direction::Bottom, Direction::Right]
    } else if top && right {
        seq![Direction::Right, Direction::Bottom, Direction::Left]
    } else if bottom && left {
        seq![Direction::Left, Direction::Top, Direction::Right]
    } else if bottom && right {
        seq![Direction::Right, Direction::Top, Direction::Left]
    } else if top {
        seq![Direction::Left, Direction::Right, Direction::Bottom]
    } else if bottom {
        seq![Direction::Left, Direction::Right, Direction::Top]
    } else if left {
        seq![Direction::Top, Direction::Bottom, Direction::Right]
    } else if right {
        seq![Direction::Top, Direction::Bottom, Direction::Left]
    } else {
        seq![Direction::Top, Direction::Bottom, Direction::Left, Direction::Right]
    }
}

/// The exit directions of the room at `(r, c)`, as [`exit_table`] gives them.
pub fn room_exit_dirs(r: usize, c: usize, rows: usize, cols: usize) -> (ds: Vec<Direction>)
    requires
        r < rows,
        c < cols,
    ensures
        ds@ == exit_table(r as int, c as int, rows as int, cols as int),
{
    let top = r == 0;
    let bottom = r == rows - 1;
    let left = c == 0;
    let right = c == cols - 1;
    let ds = if top && left {
        vec![Direction::Left, Direction::Bottom, Direction::Right]
    } else if top && right {
        vec![Direction::Right, Direction::Bottom, Direction::Left]
    } else if bottom && left {
        vec![Direction::Left, Direction::Top, Direction::Right]
    } else if bottom && right {
        vec![Direction::Right, Direction::Top, Direction::Left]
    } else if top {
        vec![Direction::Left, Direction::Right, Direction::Bottom]
    } else if bottom {
        vec![Direction::Left, Direction::Right, Direction::Top]
    } else if left {
        vec![Direction::Top, Direction::Bottom, Direction::Right]
    } else if right {
        vec![Direction::Top, Direction::Bottom, Direction::Left]
    } else {
        vec![Direction::Top, Direction::Bottom, Direction::Left, Direction::Right]
    };
    assert(ds@ =~= exit_table(r as int, c as int, rows as int, cols as int));
    ds
}

/// The name of an exit direction.
pub fn exit_name(d: Direction) -> (s: String)
    ensures
        exit_dir(s@) == Some(d),
{
    proof {
        reveal_strlit("top");
        reveal_strlit("bottom");
        reveal_strlit("left");
        reveal_strlit("right");
    }
    match d {
        Direction::Top => {
            let s = "top".to_string();
            assert(s@ == "top"@);
            s
        },
        Direction::Bottom => {
            let s = "bottom".to_string();
            assert(s@ == "bottom"@);
            s
        },
        Direction::Left => {
            let s = "left".to_string();
            assert(s@ == "left"@);
            s
        },
        Direction::Right => {
            let s = "right".to_string();
            assert(s@ == "right"@);
            s
        },
    }
}

/// The exit names of the room at `(r, c)`, in table order.
pub fn room_exits(r: usize, c: usize, rows: usize, cols: usize) -> (names: Vec<String>)
    requires
        r < rows,
        c < cols,
    ensures
        names@.len() == exit_table(r as int, c as int, rows as int, cols as int).len(),
        forall|i: int| 0 <= i < names@.len() ==>
            exit_dir(#[trigger] names@[i]@) == Some(exit_table(r as int, c as int, rows as int, cols as int)[i]),
{
    let ds = room_exit_dirs(r, c, rows, cols);
    let mut names: Vec<String> = Vec::new();
    let mut i: usize = 0;
    while i < ds.len()
        invariant
            i <= ds@.len(),
            names@.len() == i,
            forall|k: int| 0 <= k < i ==> exit_dir(#[trigger] names@[k]@) == Some(ds@[k]),
        decreases ds@.len() - i,
    {
        names.push(exit_name(ds[i]));
        i = i + 1;
    }
    names
}

/// Manhattan distance between `(x1, y1)` and `(x2, y2)`.
pub open spec fn spec_manhattan(x1: int, y1: int, x2: int, y2: int) -> int {
    (if x1 >= x2 { x1 - x2 } else { x2 - x1 }) + (if y1 >= y2 { y1 - y2 } else { y2 - y1 })
}

pub fn manhattan(x1: usize, y1: usize, x2: usize, y2: usize) -> (r: usize)
    requires
        spec_manhattan(x1 as int, y1 as int, x2 as int, y2 as int) <= usize::MAX,
    ensures
        r == spec_manhattan(x1 as int, y1 as int, x2 as int, y2 as int),
{
    let dx = if x1 >= x2 { x1 - x2 } else { x2 - x1 };
    let dy = if y1 >= y2 { y1 - y2 } else { y2 - y1 };
    dx + dy
}

/// The player's health after the first `n` enemies of `enemies` have each
/// hit it once if they stand in melee range of it.
pub open spec fn retaliation(enemies: Seq<Entity>, player: Entity, maze: Maze, n: int) -> int
    decreases n,
{
    if n <= 0 {
        player.health as int
    } else {
        let h = retaliation(enemies, player, maze, n - 1);
        let e = enemies[n - 1];
        if spec_adjacent(e.x as int, e.y as int, player.x as int, player.y as int, maze) {
            health_after(h, e.attack as int, player.armor as int)
        } else {
            h
        }
    }
}

/// Retaliation never raises the player's health.
pub proof fn lemma_retaliation_never_heals(enemies: Seq<Entity>, player: Entity, maze: Maze, n: int)
    ensures
        retaliation(enemies, player, maze, n) <= player.health,
    decreases n,
{
    if n > 0 {
        lemma_retaliation_never_heals(enemies, player, maze, n - 1);
    }
}

/// The side of cell `(x1, y1)` that faces `(x2, y2)`, when the two cells are
/// one orthogonal step apart.
pub open spec fn side_towards(x1: int, y1: int, x2: int, y2: int) -> Option<Direction> {
    if x2 == x1 && y2 == y1 - 1 {
        Some(Direction::Top)
    } else if x2 == x1 + 1 && y2 == y1 {
        Some(Direction::Right)
    } else if x2 == x1 && y2 == y1 + 1 {
        Some(Direction::Bottom)
    } else if x2 == x1 - 1 && y2 == y1 {
        Some(Direction::Left)
    } else {
        None
    }
}

/// Positions `(x1, y1)` and `(x2, y2)` (column, row) are one orthogonal step
/// apart and the wall of the first cell towards the second is open.
pub open spec fn spec_adjacent(x1: int, y1: int, x2: int, y2: int, maze: Maze) -> bool {
    match side_towards(x1, y1, x2, y2) {
        Some(d) => maze.in_bounds(y1, x1) && maze.is_open(y1, x1, d),
        None => false,
    }
}

/// Whether two positions are in melee range: one orthogonal step apart with
/// the wall between them open. Diagonal or wall-blocked pairs never count.
pub fn is_adjacent(x1: usize, y1: usize, x2: usize, y2: usize, maze: &Maze) -> (r: bool)
    requires
        maze.wf(),
    ensures
        r == spec_adjacent(x1 as int, y1 as int, x2 as int, y2 as int, *maze),
{
    let d = if x2 == x1 && y1 > 0 && y2 == y1 - 1 {
        Direction::Top
    } else if x1 < usize::MAX && x2 == x1 + 1 && y2 == y1 {
        Direction::Right
    } else if x2 == x1 && y1 < usize::MAX && y2 == y1 + 1 {
        Direction::Bottom
    } else if x1 > 0 && x2 == x1 - 1 && y2 == y1 {
        Direction::Left
    } else {
        return false;
    };
    maze.can_move(y1, x1, d.index())
}

/// Health of an enemy spawned `floor` rooms away from the centre.
pub open spec fn spawn_health(floor: int) -> int {
    3 + floor
}

/// Attack of an enemy spawned `floor` rooms away from the centre.
pub open spec fn spawn_attack(floor: int) -> int {
    1 + floor / 2
}

/// The dungeon: a grid of rooms, the player, and the enemies of the current
/// room.
#[derive(Clone, Debug)]
pub struct Dungeon {
    pub mazes: Vec<Vec<Maze>>,
    pub player: Entity,
    pub current_room_row: usize,
    pub current_room_col: usize,
    pub enemies: Vec<Entity>,
}

impl Dungeon {
    pub open spec fn rows(&self) -> int {
        self.mazes@.len() as int
    }

    pub open spec fn cols(&self) -> int {
        self.mazes@[0]@.len() as int
    }

    pub open spec fn room(&self, i: int, j: int) -> Maze {
        self.mazes@[i]@[j]
    }

    pub open spec fn room_width(&self) -> int {
        self.room(0, 0).width as int
    }

    pub open spec fn room_height(&self) -> int {
        self.room(0, 0).height as int
    }

    pub open spec fn current(&self) -> Maze {
        self.room(self.current_room_row as int, self.current_room_col as int)
    }

    /// The position lies inside a room.
    pub open spec fn inside(&self, x: int, y: int) -> bool {
        0 <= x < self.room_width() && 0 <= y < self.room_height()
    }

    /// The grid is a non-empty rectangle of rooms of one size, the current
    /// room is in it, and every entity stands inside the room.
    pub open spec fn wf(&self) -> bool {
        &&& self.rows() >= 1
        &&& self.cols() >= 1
        &&& self.rows() + self.cols() <= MAX_GRID_SPAN
        &&& forall|i: int| 0 <= i < self.rows() ==> (#[trigger] self.mazes@[i])@.len() == self.cols()
        &&& forall|i: int, j: int| 0 <= i < self.rows() && 0 <= j < self.cols() ==> {
            &&& (#[trigger] self.mazes@[i]@[j]).wf()
            &&& self.mazes@[i]@[j].width == self.room_width()
            &&& self.mazes@[i]@[j].height == self.room_height()
        }
        &&& self.room_width() >= 1
        &&& self.room_height() >= 1
        &&& self.room_width() * self.room_height() + self.room_width() + self.room_height() <= usize::MAX
        &&& self.current_room_row < self.rows()
        &&& self.current_room_col < self.cols()
        &&& self.inside(self.player.x as int, self.player.y as int)
        &&& forall|k: int| 0 <= k < self.enemies@.len()
            ==> self.inside((#[trigger] self.enemies@[k]).x as int, self.enemies@[k].y as int)
    }

    /// Manhattan distance, in rooms, from the current room to the centre room.
    pub open spec fn floor(&self) -> int {
        spec_manhattan(self.current_room_col as int, self.current_room_row as int,
            self.cols() / 2, self.rows() / 2)
    }

    /// Builds a `rows` by `cols` grid of freshly carved rooms, each with the
    /// exits that its position calls for, and starts in the centre room.
    pub fn new(rng: &mut StdRng, rows: usize, cols: usize, maze_width: usize, maze_height: usize, player: Entity) -> (d: Dungeon)
        requires
            rows >= 1,
            cols >= 1,
            rows + cols <= MAX_GRID_SPAN,
            maze_width >= 1,
            maze_height >= 1,
            maze_width * maze_height + maze_width + maze_height <= usize::MAX,
            player.x < maze_width,
            player.y < maze_height,
        ensures
            d.wf(),
            d.rows() == rows,
            d.cols() == cols,
            d.room_width() == maze_width,
            d.room_height() == maze_height,
            d.player == player,
            d.current_room_row == rows / 2,
            d.current_room_col == cols / 2,
            d.enemies@.len() == 0,
            forall|i: int, j: int| 0 <= i < rows && 0 <= j < cols ==> {
                &&& (#[trigger] d.room(i, j)).connected()
                &&& d.room(i, j).walls_symmetric()
                &&& open_pairs(d.room(i, j)) == maze_width * maze_height - 1
                &&& forall|r: int, c: int, e: Direction| #![trigger d.room(i, j).is_open(r, c, e)]
                    d.room(i, j).in_bounds(r, c) && !d.room(i, j).in_bounds(step(r, c, e).0, step(r, c, e).1)
                    ==> (d.room(i, j).is_open(r, c, e) <==> (exit_table(i, j, rows as int, cols as int).contains(e)
                        && d.room(i, j).exit_cell(e) == (r, c)))
            },
    {
        let mut mazes: Vec<Vec<Maze>> = Vec::new();
        let mut i: usize = 0;
        while i < rows
            invariant
                i <= rows,
                maze_width >= 1,
                maze_height >= 1,
                mazes@.len() == i,
                forall|a: int| 0 <= a < i ==> (#[trigger] mazes@[a])@.len() == cols,
                forall|a: int, b: int| 0 <= a < i && 0 <= b < cols ==> {
                    &&& (#[trigger] mazes@[a]@[b]).wf()
                    &&& mazes@[a]@[b].width == maze_width
                    &&& mazes@[a]@[b].height == maze_height
                    &&& mazes@[a]@[b].connected()
                    &&& mazes@[a]@[b].walls_symmetric()
                    &&& open_pairs(mazes@[a]@[b]) == maze_width * maze_height - 1
                    &&& forall|r: int, c: int, e: Direction| #![trigger mazes@[a]@[b].is_open(r, c, e)]
                        mazes@[a]@[b].in_bounds(r, c) && !mazes@[a]@[b].in_bounds(step(r, c, e).0, step(r, c, e).1)
                        ==> (mazes@[a]@[b].is_open(r, c, e) <==> (exit_table(a, b, rows as int, cols as int).contains(e)
                            && mazes@[a]@[b].exit_cell(e) == (r, c)))
                },
            decreases rows - i,
        {
            let mut line: Vec<Maze> = Vec::new();
            let mut j: usize = 0;
            while j < cols
                invariant
                    i < rows,
                    j <= cols,
                    maze_width >= 1,
                    maze_height >= 1,
                    line@.len() == j,
                    forall|b: int| 0 <= b < j ==> {
                        &&& (#[trigger] line@[b]).wf()
                        &&& line@[b].width == maze_width
                        &&& line@[b].height == maze_height
                        &&& line@[b].connected()
                        &&& line@[b].walls_symmetric()
                        &&& open_pairs(line@[b]) == maze_width * maze_height - 1
                        &&& forall|r: int, c: int, e: Direction| #![trigger line@[b].is_open(r, c, e)]
                            line@[b].in_bounds(r, c) && !line@[b].in_bounds(step(r, c, e).0, step(r, c, e).1)
                            ==> (line@[b].is_open(r, c, e) <==> (exit_table(i as int, b, rows as int, cols as int).contains(e)
                                && line@[b].exit_cell(e) == (r, c)))
                    },
                decreases cols - j,
            {
                let maze = Self::build_room(rng, i, j, rows, cols, maze_width, maze_height);
                line.push(maze);
                j = j + 1;
            }
            mazes.push(line);
            i = i + 1;
        }
        Dungeon {
            mazes,
            player,
            current_room_row: rows / 2,
            current_room_col: cols / 2,
            enemies: Vec::new(),
        }
    }

    /// One freshly carved room for grid position `(i, j)`.
    fn build_room(rng: &mut StdRng, i: usize, j: usize, rows: usize, cols: usize, maze_width: usize, maze_height: usize) -> (m: Maze)
        requires
            i < rows,
            j < cols,
            maze_width >= 1,
            maze_height >= 1,
        ensures
            m.wf(),
            m.width == maze_width,
            m.height == maze_height,
            m.connected(),
            m.walls_symmetric(),
            open_pairs(m) == maze_width * maze_height - 1,
            forall|r: int, c: int, e: Direction| #![trigger m.is_open(r, c, e)]
                m.in_bounds(r, c) && !m.in_bounds(step(r, c, e).0, step(r, c, e).1)
                ==> (m.is_open(r, c, e) <==> (exit_table(i as int, j as int, rows as int, cols as int).contains(e)
                    && m.exit_cell(e) == (r, c))),
    {
        let names = room_exits(i, j, rows, cols);
        let ghost table = exit_table(i as int, j as int, rows as int, cols as int);
        let mut maze = Maze::new(maze_width, maze_height);
        let ghost fresh = maze;
        proof {
            assert forall|k: int| 0 <= k < names@.len() implies (#[trigger] exit_dir(names@[k]@)) is Some by {
                assert(exit_dir(names@[k]@) == Some(table[k]));
            }
            assert forall|e: Direction| requests_exit(names@, e) <==> table.contains(e) by {
                if requests_exit(names@, e) {
                    let k = choose|k: int| 0 <= k < names@.len() && #[trigger] exit_dir(names@[k]@) == Some(e);
                    assert(table[k] == e);
                }
                if table.contains(e) {
                    let k = choose|k: int| 0 <= k < table.len() && table[k] == e;
                    assert(exit_dir(names@[k]@) == Some(e));
                }
            }
            assert(fresh.walls_symmetric());
            assert(all_closed(fresh));
        }
        let ghost opt = Some(names);
        let res = maze.generate_maze(rng, Some(names));
        proof {
            assert(res is Ok);
            assert forall|r: int, c: int, e: Direction| #![trigger maze.is_open(r, c, e)]
                maze.in_bounds(r, c) && !maze.in_bounds(step(r, c, e).0, step(r, c, e).1)
                implies (maze.is_open(r, c, e) <==> (table.contains(e) && maze.exit_cell(e) == (r, c))) by {
                assert(!fresh.is_open(r, c, e));
                assert(exit_requested(opt, e) == table.contains(e));
            }
        }
        maze
    }

    pub proof fn lemma_current(&self)
        requires
            self.wf(),
        ensures
            self.current().wf(),
            self.current().width == self.room_width(),
            self.current().height == self.room_height(),
            self.mazes@[self.current_room_row as int]@[self.current_room_col as int] == self.current(),
    {
        assert(self.room(self.current_room_row as int, self.current_room_col as int).wf());
    }

    /// The room the player is in.
    pub fn current_maze(&self) -> (m: &Maze)
        requires
            self.wf(),
        ensures
            *m == self.current(),
    {
        &self.mazes[self.current_room_row][self.current_room_col]
    }

    /// A uniformly drawn cell of the current room other than the player's,
    /// or `None` when the room has no other cell.
    fn free_cell(&self, rng: &mut StdRng) -> (r: Option<(usize, usize)>)
        requires
            self.wf(),
        ensures
            r is None <==> self.room_width() * self.room_height() == 1,
            r matches Some(p) ==> self.inside(p.0 as int, p.1 as int)
                && (p.0 != self.player.x || p.1 != self.player.y),
    {
        proof {
            self.lemma_current();
        }
        let maze = &self.mazes[self.current_room_row][self.current_room_col];
        let w = maze.width;
        let h = maze.height;
        let cells = w * h;
        if cells <= 1 {
            proof {
                assert(w * h >= 1) by (nonlinear_arith)
                    requires w >= 1, h >= 1;
            }
            return None;
        }
        let px = self.player.x;
        let py = self.player.y;
        proof {
            assert(py * w + px < w * h) by (nonlinear_arith)
                requires py < h, px < w;
        }
        let taken = py * w + px;
        let k = pick_below(rng, cells - 1);
        let idx = if k >= taken { k + 1 } else { k };
        let x = idx % w;
        let y = idx / w;
        proof {
            assert(y < h) by (nonlinear_arith)
                requires idx < w * h, y == idx / w, w >= 1;
            if x == px && y == py {
                lemma_fundamental_div_mod_converse(taken as int, w as int, py as int, px as int);
                assert(idx == w * (idx / w) + idx % w) by (nonlinear_arith)
                    requires w >= 1;
                assert(idx as int == taken) by (nonlinear_arith)
                    requires idx == w * y + x, taken == py * w + px, x == px, y == py;
            }
        }
        Some((x, y))
    }

    /// Replaces the enemies of the current room with `count` new ones, each
    /// on a random cell other than the player's, with health `3 + floor`,
    /// attack `1 + floor / 2`, no armor and no gold. A room whose only cell
    /// is the player's gets none.
    pub fn spawn_enemies(&mut self, rng: &mut StdRng, count: usize)
        requires
            old(self).wf(),
        ensures
            final(self).wf(),
            final(self).mazes == old(self).mazes,
            final(self).player == old(self).player,
            final(self).current_room_row == old(self).current_room_row,
            final(self).current_room_col == old(self).current_room_col,
            final(self).enemies@.len() == if old(self).room_width() * old(self).room_height() == 1 { 0 } else { count as int },
            forall|k: int| 0 <= k < final(self).enemies@.len() ==> {
                let e = #[trigger] final(self).enemies@[k];
                &&& (e.x != old(self).player.x || e.y != old(self).player.y)
                &&& e.health == spawn_health(old(self).floor())
                &&& e.attack == spawn_attack(old(self).floor())
                &&& e.armor == 0
                &&& e.gold == 0
                &&& !e.is_player
            },
    {
        self.enemies.clear();
        proof {
            assert(self.wf());
        }
        let spawn_row = self.mazes.len() / 2;
        let spawn_col = self.mazes[0].len() / 2;
        let floor = manhattan(self.current_room_col, self.current_room_row, spawn_col, spawn_row);
        let health: i32 = 3 + floor as i32;
        let attack: i32 = 1 + (floor / 2) as i32;
        let mut n: usize = 0;
        while n < count
            invariant
                self.wf(),
                self.mazes == old(self).mazes,
                self.player == old(self).player,
                self.current_room_row == old(self).current_room_row,
                self.current_room_col == old(self).current_room_col,
                n <= count,
                self.enemies@.len() == if old(self).room_width() * old(self).room_height() == 1 { 0 } else { n as int },
                health == spawn_health(old(self).floor()),
                attack == spawn_attack(old(self).floor()),
                forall|k: int| 0 <= k < self.enemies@.len() ==> {
                    let e = #[trigger] self.enemies@[k];
                    &&& (e.x != old(self).player.x || e.y != old(self).player.y)
                    &&& e.health == health
                    &&& e.attack == attack
                    &&& e.armor == 0
                    &&& e.gold == 0
                    &&& !e.is_player
                },
            decreases count - n,
        {
            match self.free_cell(rng) {
                Some((x, y)) => {
                    let ghost e0 = self.enemies@;
                    self.enemies.push(Entity { x, y, health, armor: 0, attack, gold: 0, is_player: false });
                    proof {
                        assert forall|k: int| 0 <= k < self.enemies@.len()
                            implies self.inside((#[trigger] self.enemies@[k]).x as int, self.enemies@[k].y as int) by {
                            if k < e0.len() {
                                assert(self.enemies@[k] == e0[k]);
                            }
                        }
                    }
                },
                None => {},
            }
            n = n + 1;
        }
    }

    /// Every enemy in melee range of the player hits the player once.
    fn enemy_attack_player(&mut self)
        requires
            old(self).wf(),
        ensures
            final(self).wf(),
            final(self).mazes == old(self).mazes,
            final(self).enemies == old(self).enemies,
            final(self).current_room_row == old(self).current_room_row,
            final(self).current_room_col == old(self).current_room_col,
            final(self).player.health == retaliation(old(self).enemies@, old(self).player, old(self).current(),
                old(self).enemies@.len() as int),
            final(self).player.health <= old(self).player.health,
            *final(self) == (Dungeon { player: Entity { health: final(self).player.health, ..old(self).player }, ..*old(self) }),
    {
        let mut k: usize = 0;
        while k < self.enemies.len()
            invariant
                self.wf(),
                self.mazes == old(self).mazes,
                self.enemies == old(self).enemies,
                self.current_room_row == old(self).current_room_row,
                self.current_room_col == old(self).current_room_col,
                k <= self.enemies@.len(),
                self.player.health == retaliation(old(self).enemies@, old(self).player, old(self).current(), k as int),
                self.player == (Entity { health: self.player.health, ..old(self).player }),
                *self == (Dungeon { player: self.player, ..*old(self) }),
            decreases self.enemies@.len() - k,
        {
            proof {
                self.lemma_current();
            }
            let adjacent = is_adjacent(self.enemies[k].x, self.enemies[k].y, self.player.x, self.player.y,
                &self.mazes[self.current_room_row][self.current_room_col]);
            if adjacent {
                let a = self.enemies[k].attack;
                self.player.take_damage(a);
            }
            k = k + 1;
        }
        proof {
            lemma_retaliation_never_heals(old(self).enemies@, old(self).player, old(self).current(), k as int);
        }
    }

    /// The enemy-movement phase. In list order, each enemy in melee range of
    /// the player holds its cell; else one next to another living enemy
    /// (positions as at the start of the phase) hits the first such enemy and
    /// holds; else it takes the first step of an A* route to the player,
    /// unless an enemy processed earlier has claimed that cell. Enemies left
    /// with no health are removed at the end.
    pub fn move_enemies(&mut self)
        requires
            old(self).wf(),
        ensures
            final(self).wf(),
            final(self).mazes == old(self).mazes,
            final(self).player == old(self).player,
            final(self).current_room_row == old(self).current_room_row,
            final(self).current_room_col == old(self).current_room_col,
            exists|mid: Seq<Entity>| #[trigger] phase_moves(old(self).enemies@, mid, old(self).current(),
                old(self).player.x, old(self).player.y)
                && final(self).enemies@ == mid.filter(|e: Entity| e.health > 0),
            final(self).enemies@.len() <= old(self).enemies@.len(),
            forall|k: int| 0 <= k < final(self).enemies@.len() ==> (#[trigger] final(self).enemies@[k]).health > 0,
            cells_distinct(old(self).enemies@, false) ==> cells_distinct(final(self).enemies@, false),
    {
        self.advance_enemies();
        let ghost mid = self.enemies@;
        proof {
            if cells_distinct(old(self).enemies@, false) {
                lemma_no_double_occupancy(old(self).enemies@, mid, old(self).current(), old(self).player.x, old(self).player.y);
            }
        }
        self.remove_dead();
        assert(phase_moves(old(self).enemies@, mid, old(self).current(), old(self).player.x, old(self).player.y));
    }

    /// The moves and fights of the enemy-movement phase, before the dead are
    /// removed (see [`Dungeon::move_enemies`]).
    #[verifier::rlimit(100)]
    pub fn advance_enemies(&mut self)
        requires
            old(self).wf(),
        ensures
            final(self).wf(),
            final(self).mazes == old(self).mazes,
            final(self).player == old(self).player,
            final(self).current_room_row == old(self).current_room_row,
            final(self).current_room_col == old(self).current_room_col,
            phase_moves(old(self).enemies@, final(self).enemies@, old(self).current(), old(self).player.x, old(self).player.y),
    {
        proof {
            self.lemma_current();
        }
        let ghost room = self.current();
        let px = self.player.x;
        let py = self.player.y;
        let n = self.enemies.len();
        let mut snapshot: Vec<Entity> = Vec::new();
        let mut i: usize = 0;
        while i < n
            invariant
                i <= n,
                n == self.enemies@.len(),
                snapshot@ == self.enemies@.subrange(0, i as int),
            decreases n - i,
        {
            snapshot.push(self.enemies[i]);
            i = i + 1;
            assert(snapshot@ =~= self.enemies@.subrange(0, i as int));
        }
        assert(snapshot@ =~= old(self).enemies@);
        let mut planned: Vec<(usize, usize)> = Vec::new();
        i = 0;
        while i < n
            invariant
                self.wf(),
                self.mazes == old(self).mazes,
                self.player == old(self).player,
                self.current_room_row == old(self).current_room_row,
                self.current_room_col == old(self).current_room_col,
                room == old(self).current(),
                room.wf(),
                room.width == self.room_width(),
                room.height == self.room_height(),
                px == self.player.x,
                py == self.player.y,
                i <= n,
                n == self.enemies@.len(),
                snapshot@ == old(self).enemies@,
                snapshot@.len() == n,
                planned@.len() == i,
                forall|k: int| 0 <= k < n ==> self.inside((#[trigger] snapshot@[k]).x as int, snapshot@[k].y as int),
                forall|k: int| 0 <= k < n ==> same_but_place(#[trigger] self.enemies@[k], snapshot@[k]),
                forall|k: int| 0 <= k < n ==> (#[trigger] self.enemies@[k]).health
                    == phase_health(snapshot@, k, px as int, py as int, room, i as int),
                forall|k: int| i <= k < n ==> at_same_cell(#[trigger] self.enemies@[k], snapshot@[k]),
                forall|k: int| 0 <= k < i ==> (#[trigger] planned@[k]) == (self.enemies@[k].x, self.enemies@[k].y),
                forall|k: int| 0 <= k < i ==> step_ok(snapshot@, k, #[trigger] planned@[k], planned@.subrange(0, k), px, py, room),
            decreases n - i,
        {
            proof {
                self.lemma_current();
            }
            let maze = &self.mazes[self.current_room_row][self.current_room_col];
            assert(*maze == room);
            let e = self.enemies[i];
            assert(at_same_cell(self.enemies@[i as int], snapshot@[i as int]));
            let ghost planned0 = planned@;
            let ghost before = self.enemies@;
            if is_adjacent(e.x, e.y, px, py, maze) {
                planned.push((e.x, e.y));
                proof {
                    assert(target_of(snapshot@, i as int, px as int, py as int, room) is None);
                }
            } else {
                let mut found = false;
                let mut t: usize = 0;
                let mut j: usize = 0;
                while j < n && !found
                    invariant
                        j <= n,
                        i < n,
                        snapshot@.len() == n,
                        *maze == room,
                        room.wf(),
                        !found ==> forall|j2: int| 0 <= j2 < j ==> !can_hit(snapshot@, i as int, j2, room),
                        found ==> t < n && can_hit(snapshot@, i as int, t as int, room)
                            && forall|j2: int| 0 <= j2 < t ==> !can_hit(snapshot@, i as int, j2, room),
                    decreases n - j,
                {
                    if j != i && snapshot[j].health > 0
                        && is_adjacent(snapshot[i].x, snapshot[i].y, snapshot[j].x, snapshot[j].y, maze) {
                        found = true;
                        t = j;
                    }
                    j = j + 1;
                }
                proof {
                    if found {
                        lemma_first_target(snapshot@, i as int, room, 0, t as int);
                    } else {
                        lemma_first_target(snapshot@, i as int, room, 0, n as int);
                    }
                }
                if found {
                    let mut victim = self.enemies[t];
                    victim.take_damage(snapshot[i].attack);
                    self.enemies.set(t, victim);
                    planned.push((e.x, e.y));
                    proof {
                        assert(target_of(snapshot@, i as int, px as int, py as int, room) == Some(t as int));
                        assert forall|k: int| 0 <= k < self.enemies@.len()
                            implies self.inside((#[trigger] self.enemies@[k]).x as int, self.enemies@[k].y as int) by {
                            assert(self.inside(before[k].x as int, before[k].y as int));
                        }
                    }
                } else {
                    proof {
                        assert(target_of(snapshot@, i as int, px as int, py as int, room) is None);
                    }
                    let route = astar(maze, (e.x, e.y), (px, py));
                    let mut moved = false;
                    if let Some(p) = route {
                        if p.len() > 1 {
                            let next = p[1];
                            if !is_claimed(&planned, next) {
                                let mut mover = self.enemies[i];
                                mover.move_to(next.0, next.1);
                                self.enemies.set(i, mover);
                                planned.push(next);
                                proof {
                                    assert(p@[0] == (e.x, e.y));
                                    assert(spec_adjacent(p@[0].0 as int, p@[0].1 as int, p@[1].0 as int, p@[1].1 as int, room));
                                    assert(room.in_bounds(p@[1].1 as int, p@[1].0 as int));
                                    assert forall|k: int| 0 <= k < self.enemies@.len()
                                        implies self.inside((#[trigger] self.enemies@[k]).x as int, self.enemies@[k].y as int) by {
                                        if k != i {
                                            assert(self.inside(before[k].x as int, before[k].y as int));
                                        }
                                    }
                                    assert(planned0 == planned@.subrange(0, i as int));
                                    assert forall|j2: int| 0 <= j2 < snapshot@.len() && j2 != i
                                        && (#[trigger] snapshot@[j2]).x == next.0 && snapshot@[j2].y == next.1
                                        implies snapshot@[j2].health <= 0 by {
                                        assert(!can_hit(snapshot@, i as int, j2, room));
                                    }
                                    assert(is_route(room, p@, (snapshot@[i as int].x, snapshot@[i as int].y), (px, py)));
                                }
                                moved = true;
                            }
                        }
                    }
                    if !moved {
                        planned.push((e.x, e.y));
                        proof {
                            assert(planned0 == planned@.subrange(0, i as int));
                            if e.x != px || e.y != py {
                                if reaches(room, (e.x, e.y), px, py) {
                                    let q = choose|q: Seq<(usize, usize)>| #[trigger] is_route(room, q, (e.x, e.y), (px, py));
                                    assert(route is Some);
                                    let pp = route.unwrap()@;
                                    assert(pp.len() > 1);
                                    assert(planned0.contains(pp[1]));
                                    let m = choose|m: int| 0 <= m < planned0.len() && planned0[m] == pp[1];
                                    assert(spec_adjacent(pp[0].0 as int, pp[0].1 as int, pp[1].0 as int, pp[1].1 as int, room));
                                    assert(spec_adjacent(e.x as int, e.y as int, planned0[m].0 as int, planned0[m].1 as int, room));
                                }
                            }
                        }
                    }
                }
            }
            proof {
                assert forall|k: int| 0 <= k < i implies planned@.subrange(0, k) =~= planned0.subrange(0, k) && planned@[k] == planned0[k] by {}
                assert(planned@.subrange(0, i as int) =~= planned0);
                assert forall|k: int| 0 <= k < n implies same_but_place(#[trigger] self.enemies@[k], snapshot@[k]) by {
                    assert(same_but_place(before[k], snapshot@[k]));
                }
                assert forall|k: int| 0 <= k < n implies (#[trigger] self.enemies@[k]).health
                    == phase_health(snapshot@, k, px as int, py as int, room, i as int + 1) by {
                    assert(before[k].health == phase_health(snapshot@, k, px as int, py as int, room, i as int));
                    assert(same_but_place(before[k], snapshot@[k]));
                }
                assert forall|k: int| i + 1 <= k < n implies at_same_cell(#[trigger] self.enemies@[k], snapshot@[k]) by {
                    assert(at_same_cell(before[k], snapshot@[k]));
                }
                assert forall|k: int| 0 <= k < i + 1 implies (#[trigger] planned@[k]) == (self.enemies@[k].x, self.enemies@[k].y) by {
                    if k < i {
                        assert(planned0[k] == (before[k].x, before[k].y));
                    }
                }
                assert forall|k: int| 0 <= k < i + 1 implies step_ok(snapshot@, k, #[trigger] planned@[k], planned@.subrange(0, k), px, py, room) by {
                    if k < i {
                        assert(step_ok(snapshot@, k, planned0[k], planned0.subrange(0, k), px, py, room));
                    }
                }
            }
            i = i + 1;
        }
        proof {
            let mid = self.enemies@;
            assert(planned@ =~= cells_of(mid, n as int));
            assert forall|k: int| 0 <= k < mid.len() implies
                step_ok(old(self).enemies@, k, ((#[trigger] mid[k]).x, mid[k].y), cells_of(mid, k), px, py, old(self).current()) by {
                assert(planned@.subrange(0, k) =~= cells_of(mid, k));
                assert(step_ok(snapshot@, k, planned@[k], planned@.subrange(0, k), px, py, room));
            }
        }
    }

    /// Drops every enemy whose health is not positive, keeping the order of
    /// the others.
    fn remove_dead(&mut self)
        requires
            old(self).wf(),
        ensures
            final(self).wf(),
            final(self).mazes == old(self).mazes,
            final(self).player == old(self).player,
            final(self).current_room_row == old(self).current_room_row,
            final(self).current_room_col == old(self).current_room_col,
            final(self).enemies@ == old(self).enemies@.filter(|e: Entity| e.health > 0),
            final(self).enemies@.len() <= old(self).enemies@.len(),
            forall|k: int| 0 <= k < final(self).enemies@.len() ==> (#[trigger] final(self).enemies@[k]).health > 0,
            cells_distinct(old(self).enemies@, true) ==> cells_distinct(final(self).enemies@, false),
    {
        let mut kept: Vec<Entity> = Vec::new();
        let mut i: usize = 0;
        let ghost all = self.enemies@;
        while i < self.enemies.len()
            invariant
                self.wf(),
                *self == *old(self),
                all == self.enemies@,
                i <= all.len(),
                kept@ == all.subrange(0, i as int).filter(|e: Entity| e.health > 0),
                kept@.len() <= i,
                forall|k: int| 0 <= k < kept@.len() ==> (#[trigger] kept@[k]).health > 0
                    && self.inside(kept@[k].x as int, kept@[k].y as int),
                forall|k: int| #![trigger kept@[k]] 0 <= k < kept@.len() ==> exists|m: int| 0 <= m < i && #[trigger] all[m] == kept@[k],
                cells_distinct(all, true) ==> cells_distinct(kept@, false),
            decreases all.len() - i,
        {
            let e = self.enemies[i];
            proof {
                assert(all.subrange(0, i as int + 1).drop_last() =~= all.subrange(0, i as int));
                reveal(Seq::filter);
                assert(self.inside(all[i as int].x as int, all[i as int].y as int));
            }
            let ghost kept0 = kept@;
            if e.health > 0 {
                kept.push(e);
                proof {
                    if cells_distinct(all, true) {
                        assert forall|k: int, j: int| 0 <= k < j < kept@.len()
                            implies !(#[trigger] kept@[k]).same_cell(#[trigger] kept@[j]) by {
                            if j == kept@.len() - 1 {
                                let m = choose|m: int| 0 <= m < i && #[trigger] all[m] == kept0[k];
                                assert(kept@[k] == all[m]);
                                assert(!all[m].same_cell(all[i as int]));
                            } else {
                                assert(kept@[k] == kept0[k] && kept@[j] == kept0[j]);
                            }
                        }
                    }
                }
            }
            proof {
                assert forall|k: int| #![trigger kept@[k]] 0 <= k < kept@.len() implies exists|m: int| 0 <= m < i + 1 && #[trigger] all[m] == kept@[k] by {
                    if k < kept0.len() {
                        assert(kept@[k] == kept0[k]);
                        let m = choose|m: int| 0 <= m < i && #[trigger] all[m] == kept0[k];
                        assert(all[m] == kept@[k]);
                    } else {
                        assert(all[i as int] == kept@[k]);
                    }
                }
            }
            i = i + 1;
        }
        assert(all.subrange(0, all.len() as int) =~= all);
        self.enemies = kept;
    }
}

/// The two records differ at most in their position.
pub open spec fn same_but_place(a: Entity, b: Entity) -> bool {
    a == (Entity { x: a.x, y: a.y, health: a.health, ..b }) && a.health <= b.health
}

/// The two records differ at most in health, which did not rise.
pub open spec fn same_but_health(a: Entity, b: Entity) -> bool {
    a == (Entity { health: a.health, ..b }) && a.health <= b.health
}

pub open spec fn at_same_cell(a: Entity, b: Entity) -> bool {
    a.x == b.x && a.y == b.y
}

proof fn lemma_first_target(snap: Seq<Entity>, i: int, maze: Maze, from: int, j: int)
    requires
        0 <= from <= j <= snap.len(),
        forall|j2: int| from <= j2 < j ==> !can_hit(snap, i, j2, maze),
        j < snap.len() ==> can_hit(snap, i, j, maze),
    ensures
        first_target(snap, i, maze, from) == if j < snap.len() { Some(j) } else { None::<int> },
    decreases j - from,
{
    if from < j {
        lemma_first_target(snap, i, maze, from + 1, j);
    }
}

/// The enemy stands in melee range of the player at `(px, py)`.
pub open spec fn near_player(e: Entity, px: int, py: int, maze: Maze) -> bool {
    spec_adjacent(e.x as int, e.y as int, px, py, maze)
}

/// Enemy `j` is one that enemy `i` may hit: another enemy, alive at the
/// start of the phase, in melee range of `i`.
pub open spec fn can_hit(snap: Seq<Entity>, i: int, j: int, maze: Maze) -> bool {
    &&& j != i
    &&& snap[j].health > 0
    &&& spec_adjacent(snap[i].x as int, snap[i].y as int, snap[j].x as int, snap[j].y as int, maze)
}

/// The first enemy from index `from` on that enemy `i` may hit.
pub open spec fn first_target(snap: Seq<Entity>, i: int, maze: Maze, from: int) -> Option<int>
    decreases snap.len() - from,
{
    if from < 0 || from >= snap.len() {
        None
    } else if can_hit(snap, i, from, maze) {
        Some(from)
    } else {
        first_target(snap, i, maze, from + 1)
    }
}

/// Whom enemy `i` hits in the phase: nobody when it is next to the player,
/// else the first enemy in list order that it may hit.
pub open spec fn target_of(snap: Seq<Entity>, i: int, px: int, py: int, maze: Maze) -> Option<int> {
    if near_player(snap[i], px, py, maze) {
        None
    } else {
        first_target(snap, i, maze, 0)
    }
}

/// Health of enemy `j` after the hits of the first `n` enemies of the phase.
pub open spec fn phase_health(snap: Seq<Entity>, j: int, px: int, py: int, maze: Maze, n: int) -> int
    decreases n,
{
    if n <= 0 {
        snap[j].health as int
    } else {
        let h = phase_health(snap, j, px, py, maze, n - 1);
        if target_of(snap, n - 1, px, py, maze) == Some(j) {
            health_after(h, snap[n - 1].attack as int, snap[j].armor as int)
        } else {
            h
        }
    }
}

/// The player can be reached from `from` through open walls.
pub open spec fn reaches(maze: Maze, from: (usize, usize), px: usize, py: usize) -> bool {
    exists|p: Seq<(usize, usize)>| #[trigger] is_route(maze, p, from, (px, py))
}

/// Where enemy `k` of the phase ended, `pos`, is what the phase rules allow,
/// given the cells `claimed` by the enemies before it. It holds when next to
/// the player or when it hits another enemy. A step goes through an open
/// wall to the second cell of a shortest route to the player, never onto the player,
/// an enemy alive at the start of the phase, or a claimed cell. An enemy
/// that could walk towards the player and holds was blocked by a claimed
/// cell next to it.
pub open spec fn step_ok(snap: Seq<Entity>, k: int, pos: (usize, usize), claimed: Seq<(usize, usize)>,
    px: usize, py: usize, maze: Maze) -> bool {
    let s = snap[k];
    let held = pos == (s.x, s.y);
    &&& near_player(s, px as int, py as int, maze) ==> held
    &&& target_of(snap, k, px as int, py as int, maze) is Some ==> held
    &&& !held ==> {
        &&& spec_adjacent(s.x as int, s.y as int, pos.0 as int, pos.1 as int, maze)
        &&& pos != (px, py)
        &&& exists|p: Seq<(usize, usize)>| #[trigger] is_route(maze, p, (s.x, s.y), (px, py))
            && p.len() > 1 && p[1] == pos
            && forall|q: Seq<(usize, usize)>| #[trigger] is_route(maze, q, (s.x, s.y), (px, py)) ==> p.len() <= q.len()
        &&& forall|j: int| 0 <= j < snap.len() && j != k && (#[trigger] snap[j]).x == pos.0 && snap[j].y == pos.1
            ==> snap[j].health <= 0
        &&& !claimed.contains(pos)
    }
    &&& (held && !near_player(s, px as int, py as int, maze)
        && target_of(snap, k, px as int, py as int, maze) is None
        && (s.x, s.y) != (px, py) && reaches(maze, (s.x, s.y), px, py))
        ==> exists|m: int| 0 <= m < claimed.len()
            && spec_adjacent(s.x as int, s.y as int, (#[trigger] claimed[m]).0 as int, claimed[m].1 as int, maze)
}

/// The cells of the first `n` entities.
pub open spec fn cells_of(es: Seq<Entity>, n: int) -> Seq<(usize, usize)> {
    Seq::new(n as nat, |m: int| (es[m].x, es[m].y))
}

/// What one enemy-movement phase with the player at `(px, py)` does to the
/// enemy list `start`, giving `mid` before the dead are removed: only
/// positions and health change, each enemy's health is what the hits of the
/// phase leave, and each enemy ends where [`step_ok`] allows, given the
/// cells of the enemies before it.
pub open spec fn phase_moves(start: Seq<Entity>, mid: Seq<Entity>, maze: Maze, px: usize, py: usize) -> bool {
    &&& mid.len() == start.len()
    &&& forall|k: int| 0 <= k < mid.len() ==> same_but_place(#[trigger] mid[k], start[k])
    &&& forall|k: int| 0 <= k < mid.len() ==>
        (#[trigger] mid[k]).health == phase_health(start, k, px as int, py as int, maze, start.len() as int)
    &&& forall|k: int| 0 <= k < mid.len() ==>
        step_ok(start, k, ((#[trigger] mid[k]).x, mid[k].y), cells_of(mid, k), px, py, maze)
}

/// Entities on pairwise distinct cells, counting only those with health
/// above zero when `alive_only` holds.
pub open spec fn cells_distinct(es: Seq<Entity>, alive_only: bool) -> bool {
    forall|k: int, j: int| 0 <= k < j < es.len() && (!alive_only || (es[k].health > 0 && es[j].health > 0))
        ==> !(#[trigger] es[k]).same_cell(#[trigger] es[j])
}

/// No two live enemies share a cell after the moves of a phase that
/// started with the enemies on distinct cells.
pub proof fn lemma_no_double_occupancy(start: Seq<Entity>, mid: Seq<Entity>, maze: Maze, px: usize, py: usize)
    requires
        phase_moves(start, mid, maze, px, py),
        cells_distinct(start, false),
    ensures
        cells_distinct(mid, true),
{
    assert forall|k: int, j: int| 0 <= k < j < mid.len() && (mid[k].health > 0 && mid[j].health > 0)
        implies !(#[trigger] mid[k]).same_cell(#[trigger] mid[j]) by {
        assert(same_but_place(mid[k], start[k]));
        assert(same_but_place(mid[j], start[j]));
        assert(step_ok(start, k, (mid[k].x, mid[k].y), cells_of(mid, k), px, py, maze));
        assert(step_ok(start, j, (mid[j].x, mid[j].y), cells_of(mid, j), px, py, maze));
        if (mid[j].x, mid[j].y) != (start[j].x, start[j].y) {
            assert(cells_of(mid, j)[k] == (mid[k].x, mid[k].y));
        } else if (mid[k].x, mid[k].y) != (start[k].x, start[k].y) {
            if mid[k].same_cell(mid[j]) {
                assert(start[j].health <= 0);
            }
        } else {
            assert(!start[k].same_cell(start[j]));
        }
    }
}

/// Whether a cell is among those claimed so far.
fn is_claimed(planned: &Vec<(usize, usize)>, pos: (usize, usize)) -> (r: bool)
    ensures
        r == planned@.contains(pos),
{
    let mut i: usize = 0;
    while i < planned.len()
        invariant
            i <= planned@.len(),
            forall|k: int| 0 <= k < i ==> planned@[k] != pos,
        decreases planned@.len() - i,
    {
        if planned[i].0 == pos.0 && planned[i].1 == pos.1 {
            assert(planned@[i as int] == pos);
            return true;
        }
        i = i + 1;
    }
    false
}

/// The index of the first entity at `(x, y)` from index `from` on.
pub open spec fn first_enemy_at(es: Seq<Entity>, x: int, y: int, from: int) -> Option<int>
    decreases es.len() - from,
{
    if from < 0 || from >= es.len() {
        None
    } else if es[from].x == x && es[from].y == y {
        Some(from)
    } else {
        first_enemy_at(es, x, y, from + 1)
    }
}

proof fn lemma_first_enemy_at(es: Seq<Entity>, x: int, y: int, from: int, j: int)
    requires
        0 <= from <= j <= es.len(),
        forall|j2: int| from <= j2 < j ==> !(es[j2].x == x && es[j2].y == y),
        j < es.len() ==> es[j].x == x && es[j].y == y,
    ensures
        first_enemy_at(es, x, y, from) == if j < es.len() { Some(j) } else { None::<int> },
    decreases j - from,
{
    if from < j {
        lemma_first_enemy_at(es, x, y, from + 1, j);
    }
}

/// The enemy list after the player hits enemy `k` with `attack`: its health
/// drops, and if that kills it the dead are removed.
pub open spec fn after_hit(es: Seq<Entity>, k: int, attack: int) -> Seq<Entity> {
    let v = Entity { health: health_after(es[k].health as int, attack, es[k].armor as int) as i32, ..es[k] };
    let s = es.update(k, v);
    if v.health <= 0 {
        s.filter(|e: Entity| e.health > 0)
    } else {
        s
    }
}

/// How a turn ends once the player, now `player`, has acted and the enemies
/// are `pre`: every enemy in melee range hits the player, then one
/// enemy-movement phase runs and the dead are removed.
pub open spec fn turn_end(pre: Seq<Entity>, player: Entity, maze: Maze, fin: Dungeon) -> bool {
    &&& fin.player.health == retaliation(pre, player, maze, pre.len() as int)
    &&& exists|mid: Seq<Entity>| #[trigger] phase_moves(pre, mid, maze, player.x, player.y)
        && fin.enemies@ == mid.filter(|e: Entity| e.health > 0)
}

/// The side that a movement token denotes.
pub open spec fn move_dir(token: Seq<char>) -> Option<Direction> {
    if token == "up"@ {
        Some(Direction::Top)
    } else if token == "right"@ {
        Some(Direction::Right)
    } else if token == "down"@ {
        Some(Direction::Bottom)
    } else if token == "left"@ {
        Some(Direction::Left)
    } else {
        None
    }
}

fn parse_move(token: &str) -> (r: Option<Direction>)
    ensures
        r == move_dir(token@),
{
    if text_eq(token, "up") {
        Some(Direction::Top)
    } else if text_eq(token, "right") {
        Some(Direction::Right)
    } else if text_eq(token, "down") {
        Some(Direction::Bottom)
    } else if text_eq(token, "left") {
        Some(Direction::Left)
    } else {
        None
    }
}

impl Dungeon {
    /// Some enemy stands at `(x, y)`.
    pub open spec fn enemy_at(&self, x: int, y: int) -> bool {
        exists|k: int| 0 <= k < self.enemies@.len() && (#[trigger] self.enemies@[k]).x == x && self.enemies@[k].y == y
    }

    /// The room and position the player reaches by leaving the current room
    /// across side `d`, when a room lies that way.
    pub open spec fn entry_after(&self, d: Direction) -> Option<(int, int, int, int)> {
        let r = self.current_room_row as int;
        let c = self.current_room_col as int;
        let x = self.player.x as int;
        let y = self.player.y as int;
        match d {
            Direction::Top => if y == 0 && r > 0 { Some((r - 1, c, x, self.room_height() - 1)) } else { None },
            Direction::Bottom => if y + 1 == self.room_height() && r + 1 < self.rows() { Some((r + 1, c, x, 0)) } else { None },
            Direction::Left => if x == 0 && c > 0 { Some((r, c - 1, self.room_width() - 1, y)) } else { None },
            Direction::Right => if x + 1 == self.room_width() && c + 1 < self.cols() { Some((r, c + 1, 0, y)) } else { None },
        }
    }

    /// One player turn in direction `direction` ("up", "right", "down",
    /// "left"). Into an enemy: attack it, remove it if it died, and stay.
    /// Into an open cell of the room: step there. Either way the adjacent
    /// enemies then hit back and the enemies move. Against a wall: nothing
    /// happens. Past the room's edge through an open exit into a neighbouring
    /// room: move there, entering at the facing edge, and spawn three
    /// enemies. Returns whether anything happened.
    pub fn move_player(&mut self, rng: &mut StdRng, direction: &str) -> (r: Result<bool, GameError>)
        requires
            old(self).wf(),
        ensures
            final(self).wf(),
            final(self).mazes == old(self).mazes,
            move_dir(direction@) is None <==> r is Err,
            r is Err ==> r == Err::<bool, GameError>(GameError::InvalidArgument) && *final(self) == *old(self),
            r == Ok::<bool, GameError>(false) ==> *final(self) == *old(self),
            // Only the player's position and health change, and health never rises.
            same_but_place(final(self).player, old(self).player),
            move_dir(direction@) matches Some(d) ==> {
                let (tr, tc) = step(old(self).player.y as int, old(self).player.x as int, d);
                let target_in = old(self).inside(tc, tr);
                // A closed wall towards a free cell of the room blocks the move.
                &&& (target_in && !old(self).enemy_at(tc, tr)
                    && !old(self).current().is_open(old(self).player.y as int, old(self).player.x as int, d))
                    ==> r == Ok::<bool, GameError>(false)
                // An open wall towards a free cell of the room moves the player.
                &&& (target_in && !old(self).enemy_at(tc, tr)
                    && old(self).current().is_open(old(self).player.y as int, old(self).player.x as int, d))
                    ==> r == Ok::<bool, GameError>(true) && final(self).player.x == tc && final(self).player.y == tr
                        && final(self).current_room_row == old(self).current_room_row
                        && final(self).current_room_col == old(self).current_room_col
                        && turn_end(old(self).enemies@, Entity { x: tc as usize, y: tr as usize, ..old(self).player },
                            old(self).current(), *final(self))
                // An enemy on the target cell is attacked and the player stays.
                &&& (target_in && old(self).enemy_at(tc, tr))
                    ==> r == Ok::<bool, GameError>(true) && final(self).player.x == old(self).player.x
                        && final(self).player.y == old(self).player.y
                        && final(self).current_room_row == old(self).current_room_row
                        && final(self).current_room_col == old(self).current_room_col
                        && match first_enemy_at(old(self).enemies@, tc, tr, 0) {
                            Some(k) => turn_end(after_hit(old(self).enemies@, k, old(self).player.attack as int),
                                old(self).player, old(self).current(), *final(self)),
                            None => false,
                        }
                // Leaving the room.
                &&& !target_in ==> match old(self).entry_after(d) {
                    Some((nr, nc, nx, ny)) => if old(self).current().is_open(old(self).player.y as int, old(self).player.x as int, d) {
                        &&& r == Ok::<bool, GameError>(true)
                        &&& final(self).current_room_row == nr
                        &&& final(self).current_room_col == nc
                        &&& final(self).player == (Entity { x: nx as usize, y: ny as usize, ..old(self).player })
                        // The room is repopulated with enemies scaled to its floor.
                        &&& final(self).enemies@.len() == if old(self).room_width() * old(self).room_height() == 1 { 0int } else { 3int }
                        &&& forall|k: int| 0 <= k < final(self).enemies@.len() ==> {
                            let e = #[trigger] final(self).enemies@[k];
                            &&& e.health == spawn_health(final(self).floor())
                            &&& e.attack == spawn_attack(final(self).floor())
                            &&& e.armor == 0
                            &&& e.gold == 0
                            &&& !e.is_player
                            &&& (e.x != nx || e.y != ny)
                        }
                    } else {
                        r == Ok::<bool, GameError>(false)
                    },
                    None => r == Ok::<bool, GameError>(false),
                }
            },
    {
        let d = match parse_move(direction) {
            Some(d) => d,
            None => {
                return Err(GameError::InvalidArgument);
            },
        };
        proof {
            self.lemma_current();
        }
        let w = self.mazes[self.current_room_row][self.current_room_col].width;
        let h = self.mazes[self.current_room_row][self.current_room_col].height;
        let px = self.player.x;
        let py = self.player.y;
        let target: Option<(usize, usize)> = match d {
            Direction::Top => if py > 0 { Some((px, py - 1)) } else { None },
            Direction::Right => if px + 1 < w { Some((px + 1, py)) } else { None },
            Direction::Bottom => if py + 1 < h { Some((px, py + 1)) } else { None },
            Direction::Left => if px > 0 { Some((px - 1, py)) } else { None },
        };
        if let Some((tx, ty)) = target {
            match self.enemy_index_at(tx, ty) {
                Some(k) => {
                    let mut victim = self.enemies[k];
                    victim.take_damage(self.player.attack);
                    let ghost e0 = self.enemies@;
                    self.enemies.set(k, victim);
                    proof {
                        assert forall|j: int| 0 <= j < self.enemies@.len()
                            implies self.inside((#[trigger] self.enemies@[j]).x as int, self.enemies@[j].y as int) by {
                            assert(self.inside(e0[j].x as int, e0[j].y as int));
                        }
                    }
                    if victim.health <= 0 {
                        self.remove_dead();
                    }
                    proof {
                        assert(self.enemies@ == after_hit(old(self).enemies@, k as int, old(self).player.attack as int));
                    }
                    self.enemy_attack_player();
                    self.move_enemies();
                    return Ok(true);
                },
                None => {},
            }
            if self.mazes[self.current_room_row][self.current_room_col].can_move(py, px, d.index()) {
                self.player.x = tx;
                self.player.y = ty;
                self.enemy_attack_player();
                self.move_enemies();
                return Ok(true);
            } else {
                return Ok(false);
            }
        }
        let rows = self.mazes.len();
        let cols = self.mazes[0].len();
        let row = self.current_room_row;
        let col = self.current_room_col;
        let next: Option<(usize, usize, usize, usize)> = match d {
            Direction::Top => if py == 0 && row > 0 { Some((row - 1, col, px, h - 1)) } else { None },
            Direction::Bottom => if py + 1 == h && row + 1 < rows { Some((row + 1, col, px, 0)) } else { None },
            Direction::Left => if px == 0 && col > 0 { Some((row, col - 1, w - 1, py)) } else { None },
            Direction::Right => if px + 1 == w && col + 1 < cols { Some((row, col + 1, 0, py)) } else { None },
        };
        match next {
            Some((nr, nc, nx, ny)) => {
                if self.mazes[row][col].can_move(py, px, d.index()) {
                    self.current_room_row = nr;
                    self.current_room_col = nc;
                    self.player.x = nx;
                    self.player.y = ny;
                    self.enemies.clear();
                    self.spawn_enemies(rng, ROOM_ENEMY_COUNT);
                    Ok(true)
                } else {
                    Ok(false)
                }
            },
            None => Ok(false),
        }
    }

    /// Moves the player to room `(row, col)`, keeping the position inside the
    /// room, and repopulates it with enemies. Coordinates outside the grid
    /// fail with `OutOfRange` and change nothing.
    pub fn move_to_room(&mut self, rng: &mut StdRng, row: usize, col: usize) -> (r: Result<(), GameError>)
        requires
            old(self).wf(),
        ensures
            final(self).wf(),
            final(self).mazes == old(self).mazes,
            final(self).player == old(self).player,
            r is Err <==> !(row < old(self).rows() && col < old(self).cols()),
            r is Err ==> r == Err::<(), GameError>(GameError::OutOfRange) && *final(self) == *old(self),
            r is Ok ==> final(self).current_room_row == row && final(self).current_room_col == col,
            r is Ok ==> final(self).enemies@.len() == if old(self).room_width() * old(self).room_height() == 1 { 0int } else { ROOM_ENEMY_COUNT as int },
            r is Ok ==> forall|k: int| 0 <= k < final(self).enemies@.len() ==> {
                &&& (#[trigger] final(self).enemies@[k]).health == spawn_health(final(self).floor())
                &&& final(self).enemies@[k].attack == spawn_attack(final(self).floor())
            },
    {
        if row >= self.mazes.len() || col >= self.mazes[0].len() {
            return Err(GameError::OutOfRange);
        }
        self.current_room_row = row;
        self.current_room_col = col;
        self.spawn_enemies(rng, ROOM_ENEMY_COUNT);
        Ok(())
    }

    /// The index of the first enemy at `(x, y)`, if any.
    fn enemy_index_at(&self, x: usize, y: usize) -> (r: Option<usize>)
        ensures
            r is None <==> !self.enemy_at(x as int, y as int),
            r matches Some(k) ==> k < self.enemies@.len() && self.enemies@[k as int].x == x && self.enemies@[k as int].y == y
                && first_enemy_at(self.enemies@, x as int, y as int, 0) == Some(k as int),
            r is None ==> first_enemy_at(self.enemies@, x as int, y as int, 0) is None,
    {
        let mut k: usize = 0;
        while k < self.enemies.len()
            invariant
                k <= self.enemies@.len(),
                forall|j: int| 0 <= j < k ==> !((#[trigger] self.enemies@[j]).x == x && self.enemies@[j].y == y),
            decreases self.enemies@.len() - k,
        {
            if self.enemies[k].x == x && self.enemies[k].y == y {
                proof {
                    lemma_first_enemy_at(self.enemies@, x as int, y as int, 0, k as int);
                }
                return Some(k);
            }
            k = k + 1;
        }
        proof {
            lemma_first_enemy_at(self.enemies@, x as int, y as int, 0, k as int);
        }
        None
    }
}

} // verus!
