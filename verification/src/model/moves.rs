use vstd::prelude::*;

use super::position::Position;

verus! {

/// A move. Gomoku has a single kind: placing a stone.
#[derive(Debug, Clone, Copy, PartialEq, Eq, Structural)]
pub enum Move {
    Place(Position),
}

impl Move {
    /// The point a move places its stone on.
    pub open spec fn pos(self) -> Position {
        match self {
            Move::Place(p) => p,
        }
    }

    pub fn position(self) -> (r: Position)
        ensures
            r == self.pos(),
    {
        match self {
            Move::Place(pos) => pos,
        }
    }
}

} // verus!
