use vstd::prelude::*;

verus! {

/// A board intersection, 0-based; `row` counts from the top.
///
/// A position is not tied to a board size: bounds are checked against a
/// concrete [`crate::model::Board`].
#[derive(Debug, Clone, Copy, PartialEq, Eq, Structural, Hash)]
pub struct Position {
    pub row: u8,
    pub col: u8,
}

impl Position {
    pub fn new(row: u8, col: u8) -> (r: Self)
        ensures
            r.row == row,
            r.col == col,
    {
        Self { row, col }
    }
}

} // verus!
