//! Events from the arbiter to the conductor.

use std::time::Duration;

use vstd::prelude::*;

use super::command::ParticipantId;
use crate::game::{is_initial, legal_at};
use crate::model::state::{same_board, same_state};
use crate::model::{Color, GameState, Move, RuleSet, Termination, TurnContext};

verus! {

/// The seat details announced at the start and kept in the record.
#[derive(Debug, Clone)]
pub struct SeatInfo {
    pub participant_id: ParticipantId,
    pub display_name: String,
}

/// The kind of a player error, sent to the player concerned.
#[derive(Debug, Clone, Copy, PartialEq, Eq, Structural)]
pub enum PlayerErrorCode {
    /// An illegal move on the player's own turn.
    IllegalMove,
    /// A move out of turn.
    Unauthorized,
}

/// What the arbiter reports. One arbiter hosts one game, so events carry
/// no game identifier.
#[derive(Debug)]
pub enum Event {
    MatchStarted { rule_set_id: String, black: SeatInfo, white: SeatInfo, initial_state: GameState },
    /// To the player to move.
    MoveRequested { color: Color, context: TurnContext },
    /// `elapsed` is the thinking time of the move (zero for opening stones
    /// and as placed by the arbiter; the conductor fills in a bot's time).
    MoveApplied { color: Color, mv: Move, new_state: GameState, elapsed: Duration },
    MatchFinished { termination: Termination, final_state: GameState },
    /// The game was taken back to an earlier position.
    MatchRewound { new_state: GameState },
    /// To the participant concerned.
    PlayerError { participant_id: ParticipantId, code: PlayerErrorCode, retryable: bool },
}

impl Clone for Event {
    fn clone(&self) -> (e: Self) {
        match self {
            Event::MatchStarted { rule_set_id, black, white, initial_state } => Event::MatchStarted {
                rule_set_id: rule_set_id.clone(),
                black: black.clone(),
                white: white.clone(),
                initial_state: initial_state.clone(),
            },
            Event::MoveRequested { color, context } => Event::MoveRequested { color: *color, context: context.clone() },
            Event::MoveApplied { color, mv, new_state, elapsed } => Event::MoveApplied {
                color: *color,
                mv: *mv,
                new_state: new_state.clone(),
                elapsed: *elapsed,
            },
            Event::MatchFinished { termination, final_state } => Event::MatchFinished {
                termination: *termination,
                final_state: final_state.clone(),
            },
            Event::MatchRewound { new_state } => Event::MatchRewound { new_state: new_state.clone() },
            Event::PlayerError { participant_id, code, retryable } => Event::PlayerError {
                participant_id: *participant_id,
                code: *code,
                retryable: *retryable,
            },
        }
    }
}

/// `e` asks the side to move of `s` for a move, with a view of `s`: its
/// board, history and legal moves under `rules`, and no time limits.
pub open spec fn is_request(e: Event, s: GameState, rules: RuleSet) -> bool {
    match e {
        Event::MoveRequested { color, context } => {
            &&& color == s.side_to_move
            &&& context.side_to_move == color
            &&& same_board(context.board, s.board)
            &&& context.move_history@ == s.move_history@
            &&& forall|mv: Move|
                context.legal_moves@.contains(mv) <==> legal_at(s, rules, mv.pos())
            &&& context.rule_set == rules
            &&& context.timeout_turn is None
            &&& context.time_left is None
        },
        _ => false,
    }
}

/// `e` ends the game by `t`, with final position `s`.
pub open spec fn is_finish(e: Event, t: Termination, s: GameState) -> bool {
    match e {
        Event::MatchFinished { termination, final_state } => termination == t && same_state(final_state, s),
        _ => false,
    }
}

/// `e` reports that `color` played `mv`, giving position `s`.
pub open spec fn is_applied(e: Event, color: Color, mv: Move, s: GameState) -> bool {
    match e {
        Event::MoveApplied { color: c, mv: m, new_state, .. } => c == color && m == mv && same_state(new_state, s),
        _ => false,
    }
}

/// `e` is a player error for `participant_id`.
pub open spec fn is_player_error(e: Event, participant_id: ParticipantId, code: PlayerErrorCode, retryable: bool) -> bool {
    match e {
        Event::PlayerError { participant_id: p, code: k, retryable: r } => p == participant_id && k == code && r
            == retryable,
        _ => false,
    }
}

/// `e` reports a rewind to position `s`.
pub open spec fn is_rewound(e: Event, s: GameState) -> bool {
    match e {
        Event::MatchRewound { new_state } => same_state(new_state, s),
        _ => false,
    }
}

/// `e` announces the start under `id` from the empty `size` board.
pub open spec fn is_started(e: Event, id: Seq<char>, size: int) -> bool {
    match e {
        Event::MatchStarted { rule_set_id, initial_state, .. } => rule_set_id@ == id && is_initial(initial_state, size),
        _ => false,
    }
}

/// `e` reports that `color` played `mv`.
pub open spec fn is_applied_move(e: Event, color: Color, mv: Move) -> bool {
    match e {
        Event::MoveApplied { color: c, mv: m, .. } => c == color && m == mv,
        _ => false,
    }
}

} // verus!
