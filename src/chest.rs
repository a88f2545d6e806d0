use vstd::prelude::*;

verus! {

/// What a chest may hold.
#[derive(Debug, Clone, Copy, PartialEq, Eq, Structural)]
pub enum ChestContent {
    Gold { amount: u32 },
    Sword {},
    Shield {},
    Potion {},
    Key {},
}

impl ChestContent {
    pub fn gold(amount: u32) -> (r: ChestContent)
        ensures
            r == (ChestContent::Gold { amount }),
    {
        ChestContent::Gold { amount }
    }

    pub fn sword() -> (r: ChestContent)
        ensures
            r == (ChestContent::Sword {}),
    {
        ChestContent::Sword {}
    }

    pub fn shield() -> (r: ChestContent)
        ensures
            r == (ChestContent::Shield {}),
    {
        ChestContent::Shield {}
    }

    pub fn potion() -> (r: ChestContent)
        ensures
            r == (ChestContent::Potion {}),
    {
        ChestContent::Potion {}
    }

    pub fn key() -> (r: ChestContent)
        ensures
            r == (ChestContent::Key {}),
    {
        ChestContent::Key {}
    }
}

/// A chest at a cell of a room; it can be opened once.
#[derive(Debug, Clone, Copy, PartialEq, Eq)]
pub struct Chest {
    pub row: usize,
    pub col: usize,
    pub is_open: bool,
    pub contents: Option<ChestContent>,
}

impl Chest {
    /// A closed chest.
    pub fn new(row: usize, col: usize, contents: Option<ChestContent>) -> (r: Chest)
        ensures
            r == (Chest { row, col, is_open: false, contents }),
    {
        Chest { row, col, is_open: false, contents }
    }

    /// Opens the chest and hands out its contents; a second call yields
    /// nothing.
    pub fn open(&mut self) -> (r: Option<ChestContent>)
        ensures
            !old(self).is_open ==> r == old(self).contents && final(self).contents is None,
            old(self).is_open ==> r is None && final(self).contents == old(self).contents,
            final(self).is_open,
            final(self).row == old(self).row,
            final(self).col == old(self).col,
    {
        if !self.is_open {
            self.is_open = true;
            let c = self.contents;
            self.contents = None;
            c
        } else {
            None
        }
    }

    pub fn is_empty(&self) -> (r: bool)
        ensures
            r == self.contents is None,
    {
        self.contents.is_none()
    }
}

} // verus!
