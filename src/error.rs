use vstd::prelude::*;

verus! {

/// The two kinds of failure that operations report to their caller.
#[derive(Debug, Clone, Copy, PartialEq, Eq, Structural)]
pub enum GameError {
    /// An unrecognised direction, exit name or direction index.
    InvalidArgument,
    /// Room or cell coordinates outside the grid.
    OutOfRange,
}

} // verus!
