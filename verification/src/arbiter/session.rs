//! The messages between the conductor and an in-process bot's worker.

use vstd::prelude::*;

use crate::model::{Move, PlayerLostKind, TurnContext};

verus! {

/// Conductor to worker: an event for the player.
#[derive(Debug, Clone)]
pub enum PlayerEvent {
    YourTurn { context: TurnContext },
}

/// A player's own action.
#[derive(Debug, Clone, Copy, PartialEq, Eq, Structural)]
pub enum PlayerAction {
    SubmitMove(Move),
    Resign,
}

/// Worker to conductor: an action, or the player was lost.
#[derive(Debug, Clone, Copy, PartialEq, Eq, Structural)]
pub enum PlayerSignal {
    Action(PlayerAction),
    Lost(PlayerLostKind),
}

} // verus!
