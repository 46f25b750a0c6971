//! A move: the cell where a dropped piece lands.
use vstd::prelude::*;
use crate::position::Position;

verus! {

/// A move into column `col`, landing in row `row`.
#[derive(Clone, Copy, Debug, PartialEq, Eq, Hash, Structural)]
pub struct Move {
    pub col: u8,
    pub row: u8,
}

impl Move {
    pub fn new(col: u8, row: u8) -> (r: Move)
        ensures
            r.col == col,
            r.row == row,
    {
        Move { col, row }
    }

    /// The cell where the piece lands.
    pub fn position(&self) -> (r: Position)
        ensures
            r.col == self.col,
            r.row == self.row,
    {
        Position::new(self.col, self.row)
    }
}

} // verus!
