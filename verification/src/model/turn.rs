use std::time::Duration;

use vstd::prelude::*;

use super::board::Board;
use super::color::Color;
use super::moves::Move;
use super::ruleset::RuleSet;

verus! {

/// The self-describing view of a position handed to the side to move: a
/// bot computes a move from it alone. `legal_moves`, `rule_set`,
/// `timeout_turn` and `time_left` are filled in by the caller.
#[derive(Debug, Clone)]
pub struct TurnContext {
    pub board: Board,
    pub side_to_move: Color,
    pub move_history: Vec<Move>,
    pub legal_moves: Vec<Move>,
    /// The rules of this game.
    pub rule_set: RuleSet,
    /// Thinking time for this move; `None` for no limit.
    pub timeout_turn: Option<Duration>,
    /// Time left on the game clock; `None` for no limit.
    pub time_left: Option<Duration>,
}

} // verus!
