//! A series of text-match games between two players: who takes black in
//! each game, and the running score.

use vstd::prelude::*;

use crate::model::Color;

verus! {

/// A text match is played by exactly two players.
pub fn players_ok(n: usize) -> (b: bool)
    ensures
        b == (n == 2),
{
    n == 2
}

/// Whether the first player takes black in game `game` (counting from
/// zero): always when colours are not swapped, else in the even games.
pub fn first_plays_black(game: u32, no_swap: bool) -> (b: bool)
    ensures
        b == (no_swap || game % 2 == 0),
{
    no_swap || game % 2 == 0
}

/// The score of a series: wins of the first and second player, and draws.
#[derive(Debug, Clone, Copy, PartialEq, Eq, Structural)]
pub struct Tally {
    pub first: u32,
    pub second: u32,
    pub draws: u32,
}

impl Tally {
    /// No game played yet.
    pub fn new() -> (t: Self)
        ensures
            t.first == 0 && t.second == 0 && t.draws == 0,
    {
        Tally { first: 0, second: 0, draws: 0 }
    }

    /// The games counted so far.
    pub open spec fn games(&self) -> int {
        self.first + self.second + self.draws
    }

    /// Counts one game: `winner` is the colour that won (none for a draw)
    /// and `first_black` whether the first player had black.
    pub fn record(&mut self, winner: Option<Color>, first_black: bool)
        requires
            old(self).games() < u32::MAX,
        ensures
            final(self).games() == old(self).games() + 1,
            final(self).first == old(self).first + (if winner == Some(if first_black {
                Color::Black
            } else {
                Color::White
            }) {
                1int
            } else {
                0int
            }),
            final(self).second == old(self).second + (if winner == Some(if first_black {
                Color::White
            } else {
                Color::Black
            }) {
                1int
            } else {
                0int
            }),
            final(self).draws == old(self).draws + (if winner is None {
                1int
            } else {
                0int
            }),
    {
        match winner {
            Some(Color::Black) => {
                if first_black {
                    self.first = self.first + 1;
                } else {
                    self.second = self.second + 1;
                }
            },
            Some(Color::White) => {
                if first_black {
                    self.second = self.second + 1;
                } else {
                    self.first = self.first + 1;
                }
            },
            None => {
                self.draws = self.draws + 1;
            },
        }
    }
}

} // verus!
