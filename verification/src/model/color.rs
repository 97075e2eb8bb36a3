use vstd::prelude::*;

verus! {

/// The two sides of a game. Black moves first.
#[derive(Debug, Clone, Copy, PartialEq, Eq, Structural, Hash)]
pub enum Color {
    Black,
    White,
}

/// The other side.
pub open spec fn other(c: Color) -> Color {
    match c {
        Color::Black => Color::White,
        Color::White => Color::Black,
    }
}

impl Color {
    /// The other side.
    pub fn opposite(self) -> (r: Color)
        ensures
            r == other(self),
            r != self,
    {
        match self {
            Color::Black => Color::White,
            Color::White => Color::Black,
        }
    }
}

/// Taking the other side twice gives back the side one started with.
pub proof fn lemma_other_involutive(c: Color)
    ensures
        other(other(c)) == c,
        other(c) != c,
{
}

} // verus!
