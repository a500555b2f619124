//! One square of the board.

use vstd::prelude::*;

verus! {

/// What stands on a square.
#[derive(Clone, Copy, PartialEq, Eq, Structural, Debug)]
pub enum Mark {
    /// Nothing.
    Blank,
    /// The player has ruled the square out; of no weight in any rule.
    Flagged,
    /// A queen.
    Occupied,
}

/// A square: the region it belongs to and what stands on it.
#[derive(Clone, Copy, PartialEq, Eq, Structural, Debug)]
pub struct Cell {
    pub region: usize,
    pub mark: Mark,
}

/// The place of a square: column `x`, row `y`.
#[derive(Clone, Copy, PartialEq, Eq, Structural, Debug)]
pub struct Coord {
    pub x: usize,
    pub y: usize,
}

} // verus!
