use vstd::prelude::*;

verus! {

/// A bare player record: a position and health.
#[derive(Debug, Clone, Copy, PartialEq, Eq)]
pub struct Player {
    pub x: usize,
    pub y: usize,
    pub health: i32,
}

impl Player {
    pub fn new(x: usize, y: usize, health: i32) -> (r: Player)
        ensures
            r == (Player { x, y, health }),
    {
        Player { x, y, health }
    }

    pub fn move_to(&mut self, x: usize, y: usize)
        ensures
            *final(self) == (Player { x, y, health: old(self).health }),
    {
        self.x = x;
        self.y = y;
    }
}

} // verus!
