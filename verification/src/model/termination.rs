use vstd::prelude::*;

use super::color::Color;

verus! {

/// A natural result that has a winner.
#[derive(Debug, Clone, Copy, PartialEq, Eq, Structural)]
pub enum Win {
    BlackWin,
    WhiteWin,
}

impl Win {
    pub open spec fn color(self) -> Color {
        match self {
            Win::BlackWin => Color::Black,
            Win::WhiteWin => Color::White,
        }
    }

    pub fn winner(self) -> (r: Color)
        ensures
            r == self.color(),
    {
        match self {
            Win::BlackWin => Color::Black,
            Win::WhiteWin => Color::White,
        }
    }

    pub fn for_color(color: Color) -> (r: Self)
        ensures
            r.color() == color,
    {
        match color {
            Color::Black => Win::BlackWin,
            Color::White => Win::WhiteWin,
        }
    }
}

/// `for_color` and `winner` undo each other, in both orders.
pub proof fn lemma_win_color_bijective(w: Win, c: Color)
    ensures
        (w.color() == c) <==> (w == (match c {
            Color::Black => Win::BlackWin,
            Color::White => Win::WhiteWin,
        })),
{
}

/// A natural result, possibly a draw.
#[derive(Debug, Clone, Copy, PartialEq, Eq, Structural)]
pub enum GameResult {
    Win(Win),
    Draw,
}

/// Why one side lost by a fault of its own.
#[derive(Debug, Clone, Copy, PartialEq, Eq, Structural)]
pub enum ForfeitCause {
    Resign,
    Timeout,
    IllegalMove,
    Disconnect,
    Malformed,
    Crash,
}

/// Why a game stopped without a result.
#[derive(Debug, Clone, Copy, PartialEq, Eq, Structural)]
pub enum AbortCause {
    Timeout,
    Disconnect,
    Malformed,
    Crash,
    UserAbort,
}

/// How a player was lost.
#[derive(Debug, Clone, Copy, PartialEq, Eq, Structural)]
pub enum PlayerLostKind {
    Disconnect,
    Malformed,
    Timeout,
    Crash,
}

/// How and why a game ended. A forfeit's faulting side is the opposite of
/// its winner.
#[derive(Debug, Clone, Copy, PartialEq, Eq, Structural)]
pub enum Termination {
    /// Five in a row, a renju foul by black, or a draw.
    Completed { result: GameResult },
    /// One side faulted and the other wins.
    Forfeit { winner: Color, cause: ForfeitCause },
    /// Stopped without a result; `faulted_color` names a culprit if any.
    Aborted { cause: AbortCause, faulted_color: Option<Color> },
}

} // verus!
