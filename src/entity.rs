use vstd::prelude::*;

verus! {

/// The damage that a hit of `amount` does through `armor`: never negative.
pub open spec fn damage_through(amount: int, armor: int) -> int {
    if amount - armor > 0 {
        amount - armor
    } else {
        0
    }
}

/// Health after a hit; it saturates at the least `i32` rather than wrap.
pub open spec fn health_after(health: int, amount: int, armor: int) -> int {
    if health - damage_through(amount, armor) < i32::MIN {
        i32::MIN as int
    } else {
        health - damage_through(amount, armor)
    }
}

/// A player or an enemy: a position in room coordinates and combat stats.
#[derive(Debug, Clone, Copy, PartialEq, Eq)]
pub struct Entity {
    pub x: usize,
    pub y: usize,
    pub health: i32,
    pub armor: i32,
    pub attack: i32,
    pub gold: i32,
    pub is_player: bool,
}

impl Entity {
    /// Both stand on the same cell.
    pub open spec fn same_cell(self, o: Entity) -> bool {
        self.x == o.x && self.y == o.y
    }

    pub fn new(x: usize, y: usize, health: i32, armor: i32, attack: i32, gold: i32, is_player: bool) -> (r: Entity)
        ensures
            r == (Entity { x, y, health, armor, attack, gold, is_player }),
    {
        Entity { x, y, health, armor, attack, gold, is_player }
    }

    pub fn move_to(&mut self, x: usize, y: usize)
        ensures
            *final(self) == (Entity { x, y, ..*old(self) }),
    {
        self.x = x;
        self.y = y;
    }

    pub fn set_position(&mut self, x: usize, y: usize)
        ensures
            *final(self) == (Entity { x, y, ..*old(self) }),
    {
        self.x = x;
        self.y = y;
    }

    /// Loses `max(0, amount - armor)` health; nothing else changes.
    pub fn take_damage(&mut self, amount: i32)
        ensures
            final(self).health == health_after(old(self).health as int, amount as int, old(self).armor as int),
            *final(self) == (Entity { health: final(self).health, ..*old(self) }),
    {
        let through: i64 = amount as i64 - self.armor as i64;
        let reduced: i64 = if through > 0 { through } else { 0 };
        let left: i64 = self.health as i64 - reduced;
        if left < i32::MIN as i64 {
            self.health = i32::MIN;
        } else {
            self.health = left as i32;
        }
    }
}

/// Combat never raises health, and armor at least as large as the hit stops
/// it entirely.
pub proof fn lemma_damage_never_heals(health: i32, amount: i32, armor: i32)
    ensures
        health_after(health as int, amount as int, armor as int) <= health,
        amount <= armor ==> health_after(health as int, amount as int, armor as int) == health,
{
}

} // verus!
