use vstd::prelude::*;

verus! {

/// One of the four sides of a cell.
#[derive(Debug, Clone, Copy, PartialEq, Eq, Structural)]
pub enum Direction {
    Top,
    Right,
    Bottom,
    Left,
}

impl Direction {
    /// The index of this side in a cell's wall array.
    pub open spec fn spec_index(self) -> nat {
        match self {
            Direction::Top => 0,
            Direction::Right => 1,
            Direction::Bottom => 2,
            Direction::Left => 3,
        }
    }

    /// The side that faces this one from the neighbouring cell.
    pub open spec fn spec_opposite(self) -> Direction {
        match self {
            Direction::Top => Direction::Bottom,
            Direction::Right => Direction::Left,
            Direction::Bottom => Direction::Top,
            Direction::Left => Direction::Right,
        }
    }

    pub fn index(self) -> (r: usize)
        ensures
            r == self.spec_index(),
    {
        match self {
            Direction::Top => 0,
            Direction::Right => 1,
            Direction::Bottom => 2,
            Direction::Left => 3,
        }
    }

    pub fn opposite(self) -> (r: Direction)
        ensures
            r == self.spec_opposite(),
    {
        match self {
            Direction::Top => Direction::Bottom,
            Direction::Right => Direction::Left,
            Direction::Bottom => Direction::Top,
            Direction::Left => Direction::Right,
        }
    }

    /// The direction with the given wall index, if there is one.
    pub fn from_index(i: usize) -> (r: Option<Direction>)
        ensures
            i < 4 <==> r is Some,
            r matches Some(d) ==> d.spec_index() == i,
    {
        match i {
            0 => Some(Direction::Top),
            1 => Some(Direction::Right),
            2 => Some(Direction::Bottom),
            3 => Some(Direction::Left),
            _ => None,
        }
    }
}

/// A grid cell: four wall flags, indexed Top, Right, Bottom, Left, and a
/// visitation flag.
#[derive(Debug, Clone, Copy, PartialEq, Eq)]
pub struct Cell {
    pub walls: [bool; 4],
    pub visited: bool,
}

impl Cell {
    /// A cell with all four walls standing, not yet visited.
    pub fn new() -> (r: Cell)
        ensures
            forall|i: int| 0 <= i < 4 ==> r.walls[i],
            !r.visited,
    {
        Cell { walls: [true, true, true, true], visited: false }
    }

    pub fn has_wall(&self, dir: Direction) -> (r: bool)
        ensures
            r == self.walls[dir.spec_index() as int],
    {
        self.walls[dir.index()]
    }

    /// Opens the wall on side `dir`; the other walls are kept.
    pub fn remove_wall(&mut self, dir: Direction)
        ensures
            final(self).walls@ == old(self).walls@.update(dir.spec_index() as int, false),
            final(self).visited == old(self).visited,
    {
        let i = dir.index();
        self.walls[i] = false;
    }

    pub fn set_visited(&mut self)
        ensures
            final(self).walls == old(self).walls,
            final(self).visited,
    {
        self.visited = true;
    }
}

} // verus!
