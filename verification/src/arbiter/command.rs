//! Commands to the arbiter, all from the conductor, and their refusals.

use vstd::prelude::*;

use super::failure::FailurePolicy;
use crate::model::{Move, PlayerLostKind, Position};

verus! {

/// The conductor's identifier of a participant.
pub type ParticipantId = u32;

/// A seat bound to a player.
#[derive(Debug)]
pub struct PlayerSeat {
    pub participant_id: ParticipantId,
    pub display_name: String,
    pub failure_policy: FailurePolicy,
}

impl Clone for PlayerSeat {
    fn clone(&self) -> (r: Self)
        ensures
            r == *self,
    {
        PlayerSeat {
            participant_id: self.participant_id,
            display_name: self.display_name.clone(),
            failure_policy: self.failure_policy,
        }
    }
}

/// A command to the arbiter. One arbiter hosts one game, so commands
/// carry no game identifier.
#[derive(Debug, Clone)]
pub enum Command {
    /// Start the game. The board size is a parameter of its own, beside
    /// the rule set; `opening` lists points laid before play, black first
    /// and alternating (empty for a plain opening).
    StartMatch {
        rule_set_id: String,
        board_size: u8,
        opening: Vec<Position>,
        black: PlayerSeat,
        white: PlayerSeat,
    },
    SubmitMove { participant_id: ParticipantId, mv: Move },
    Resign { participant_id: ParticipantId },
    PlayerLost { participant_id: ParticipantId, kind: PlayerLostKind },
    /// Take the position back to the one after `to_ply` moves (by the
    /// operator, not a player); allowed after the end too, which resumes
    /// the game.
    Rewind { to_ply: usize },
    /// The user stops the game.
    AbortMatch,
}

/// Why a command was refused (answered to the conductor, not a player).
#[derive(Debug, Clone, Copy, PartialEq, Eq, Structural)]
pub enum CommandRejected {
    /// The `ruleSetId` is unknown.
    UnknownRuleSet,
    /// A game was already started.
    DuplicateMatch,
    /// No game was started.
    NoActiveMatch,
    /// The game has ended.
    MatchNotActive,
    /// The participant holds neither seat.
    UnknownParticipant,
    /// The rewind target lies beyond the moves played.
    InvalidRewindTarget,
    /// An opening point is off the board or repeated.
    InvalidOpening,
}

} // verus!
