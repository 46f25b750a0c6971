//! A cell of the board by column and row.
use vstd::prelude::*;

verus! {

/// A cell: column `col` (from the left) and row `row` (from the bottom).
#[derive(Clone, Copy, Debug, PartialEq, Eq, Hash, Structural)]
pub struct Position {
    pub col: u8,
    pub row: u8,
}

impl Position {
    pub fn new(col: u8, row: u8) -> (r: Position)
        ensures
            r.col == col,
            r.row == row,
    {
        Position { col, row }
    }

    /// Whether the cell lies on a `width × height` board.
    pub fn is_valid(&self, width: u8, height: u8) -> (r: bool)
        ensures
            r == (self.col < width && self.row < height),
    {
        self.col < width && self.row < height
    }

    /// The cell's index in the row-by-row layout.
    pub open spec fn index_of(self, width: int) -> int {
        self.row * width + self.col
    }

    /// The cell's index in the row-by-row layout of a board `width` wide.
    pub fn to_index(&self, width: u8) -> (r: usize)
        ensures
            r == self.index_of(width as int),
    {
        proof {
            assert(self.row as int * width as int <= 255 * 255) by (nonlinear_arith)
                requires
                    self.row <= 255,
                    width <= 255,
            ;
        }
        self.row as usize * width as usize + self.col as usize
    }
}

} // verus!
