//! The player port: the conductor hands a player the position with
//! `request` and then polls for the move. Humans, built-in bots and
//! external programs all take this shape.

use vstd::prelude::*;

use crate::model::{PlayerLostKind, Position, TurnContext};

verus! {

/// What a player produced for its turn.
#[derive(Debug, Clone, Copy, PartialEq, Eq, Structural)]
pub enum PlayerOutput {
    Move(Position),
    Resign,
    Lost(PlayerLostKind),
}

/// The answer of a `poll`.
#[derive(Debug, Clone, Copy, PartialEq, Eq, Structural)]
pub enum Poll {
    /// Not ready yet.
    Pending,
    /// Ready.
    Ready(PlayerOutput),
}

/// The player port.
pub trait Player: Send {
    /// The player's turn: the position to answer, with its time budget.
    fn request(&mut self, ctx: &TurnContext);

    /// Asks, without waiting, whether the move is ready.
    fn poll(&mut self) -> Poll;

    /// Cancels the turn (on a timeout or an abort); the player stops as
    /// soon as it can.
    fn stop(&mut self) {
    }

    /// A move fed by the front end on a human turn (others ignore it).
    fn supply(&mut self, _pos: Position) {
    }
}

/// A human: relays the move the front end supplies.
#[derive(Debug, Default)]
pub struct HumanPlayer {
    pending: Option<Position>,
}

impl HumanPlayer {
    /// The move supplied and not yet polled, if any.
    pub closed spec fn pending_spec(&self) -> Option<Position> {
        self.pending
    }
}

impl Player for HumanPlayer {
    fn request(&mut self, _ctx: &TurnContext)
        ensures
            final(self).pending_spec() is None,
    {
        self.pending = None;
    }

    fn poll(&mut self) -> (p: Poll)
        ensures
            final(self).pending_spec() is None,
            p == (match old(self).pending_spec() {
                Some(pos) => Poll::Ready(PlayerOutput::Move(pos)),
                None => Poll::Pending,
            }),
    {
        match self.pending.take() {
            Some(pos) => Poll::Ready(PlayerOutput::Move(pos)),
            None => Poll::Pending,
        }
    }

    fn supply(&mut self, pos: Position)
        ensures
            final(self).pending_spec() == Some(pos),
    {
        self.pending = Some(pos);
    }
}

} // verus!
