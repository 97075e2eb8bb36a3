//! The decisions of the match conductor, which runs one game between two
//! player ports: where the game goes after the arbiter's events, the
//! command a human's input or a player's output becomes, and the time a
//! bot gets for its turn. Each turn's budget is `min(timeout_turn, time
//! left on the game clock)`; a clock that has run out loses on time.

use vstd::prelude::*;

use super::command::{Command, CommandRejected, ParticipantId};
use super::event::Event;
use super::player::PlayerOutput;
use crate::game::{parse_rule_set, rule_set_of};
use crate::model::ruleset::rule_code_spec;
use crate::model::{Color, Move, PlayerLostKind, Position};

verus! {

/// The front end's input on a human turn.
#[derive(Debug, Clone, Copy, PartialEq, Eq, Structural)]
pub enum HumanInput {
    Move(Position),
    Resign,
    /// Take the game back to the position after `to_ply` moves.
    Rewind { to_ply: usize },
}

/// Why the conductor stopped.
#[derive(Debug, Clone, Copy, PartialEq, Eq, Structural)]
pub enum ConductorError {
    /// The arbiter refused the start (typically an unknown `ruleSetId`).
    Start(CommandRejected),
    /// The arbiter refused a command during play.
    Drive(CommandRejected),
}

/// What the game waits for after a step.
#[derive(Debug, Clone, Copy, PartialEq, Eq, Structural)]
pub enum Waiting {
    /// A human's move, for this color.
    Human(Color),
    /// A bot still thinking, for this color.
    Bot(Color),
    /// Nothing: the game is over (or stopped on an error).
    Done,
}

/// Where the game goes after a batch of events.
#[derive(Debug, Clone, Copy, PartialEq, Eq, Structural)]
pub enum Station {
    /// The game has ended.
    Finished,
    /// A human of this color is to move; the request is event `index`.
    Human { color: Color, index: usize },
    /// A bot of this color is to move; the request is event `index`.
    Bot { color: Color, index: usize },
    /// Neither: the game stays where it was.
    Stay,
}

/// `e` ends the game.
pub open spec fn is_finished_event(e: Event) -> bool {
    e is MatchFinished
}

/// The color asked for a move by `e`, if `e` is a request.
pub open spec fn requested_color(e: Event) -> Option<Color> {
    match e {
        Event::MoveRequested { color, .. } => Some(color),
        _ => None,
    }
}

/// The station after the events `events`: finished if any event ends the
/// game; otherwise the last move request decides, by whether its color is
/// seated by a human.
pub fn next_station(events: &Vec<Event>, black_human: bool, white_human: bool) -> (st: Station)
    ensures
        (exists|k: int| 0 <= k < events@.len() && is_finished_event(#[trigger] events@[k])) ==> st == Station::Finished,
        !(exists|k: int| 0 <= k < events@.len() && is_finished_event(#[trigger] events@[k])) ==> match st {
            Station::Finished => false,
            Station::Stay => forall|k: int| 0 <= k < events@.len() ==> requested_color(#[trigger] events@[k]) is None,
            Station::Human { color, index } => index < events@.len() && requested_color(events@[index as int])
                == Some(color) && (forall|k: int|
                index < k < events@.len() ==> requested_color(#[trigger] events@[k]) is None) && (if color
                == Color::Black {
                black_human
            } else {
                white_human
            }),
            Station::Bot { color, index } => index < events@.len() && requested_color(events@[index as int])
                == Some(color) && (forall|k: int|
                index < k < events@.len() ==> requested_color(#[trigger] events@[k]) is None) && !(if color
                == Color::Black {
                black_human
            } else {
                white_human
            }),
        },
{
    let mut k: usize = 0;
    while k < events.len()
        invariant
            k <= events@.len(),
            forall|j: int| 0 <= j < k ==> !is_finished_event(#[trigger] events@[j]),
        decreases events@.len() - k,
    {
        if let Event::MatchFinished { .. } = &events[k] {
            return Station::Finished;
        }
        k = k + 1;
    }
    let mut j: usize = events.len();
    while j > 0
        invariant
            j <= events@.len(),
            forall|i: int| 0 <= i < events@.len() ==> !is_finished_event(#[trigger] events@[i]),
            forall|i: int| j <= i < events@.len() ==> requested_color(#[trigger] events@[i]) is None,
        decreases j,
    {
        j = j - 1;
        if let Event::MoveRequested { color, .. } = &events[j] {
            let c = *color;
            let human = match c {
                Color::Black => black_human,
                Color::White => white_human,
            };
            if human {
                return Station::Human { color: c, index: j };
            } else {
                return Station::Bot { color: c, index: j };
            }
        }
    }
    Station::Stay
}

/// The command a human's input becomes.
pub fn human_command(participant_id: ParticipantId, input: HumanInput) -> (c: Command)
    ensures
        match input {
            HumanInput::Move(pos) => c matches Command::SubmitMove { participant_id: p, mv } && p == participant_id
                && mv == Move::Place(pos),
            HumanInput::Resign => c matches Command::Resign { participant_id: p } && p == participant_id,
            HumanInput::Rewind { to_ply } => c matches Command::Rewind { to_ply: t } && t == to_ply,
        },
{
    match input {
        HumanInput::Move(pos) => Command::SubmitMove { participant_id, mv: Move::Place(pos) },
        HumanInput::Resign => Command::Resign { participant_id },
        HumanInput::Rewind { to_ply } => Command::Rewind { to_ply },
    }
}

/// The command a player's output becomes.
pub fn output_command(participant_id: ParticipantId, output: PlayerOutput) -> (c: Command)
    ensures
        match output {
            PlayerOutput::Move(pos) => c matches Command::SubmitMove { participant_id: p, mv } && p == participant_id
                && mv == Move::Place(pos),
            PlayerOutput::Resign => c matches Command::Resign { participant_id: p } && p == participant_id,
            PlayerOutput::Lost(kind) => c matches Command::PlayerLost { participant_id: p, kind: k } && p
                == participant_id && k == kind,
        },
{
    match output {
        PlayerOutput::Move(pos) => Command::SubmitMove { participant_id, mv: Move::Place(pos) },
        PlayerOutput::Resign => Command::Resign { participant_id },
        PlayerOutput::Lost(kind) => Command::PlayerLost { participant_id, kind },
    }
}

/// The time a bot gets for a turn, in nanoseconds.
#[derive(Debug, Clone, Copy, PartialEq, Eq, Structural)]
pub enum TurnBudget {
    /// The game clock has run out: the turn is lost on time.
    Timeout,
    /// Think for `budget`; `time_left` is what the game clock shows.
    Go { budget: u128, time_left: Option<u128> },
}

/// The budget of a turn: with a game clock of `timeout_match` of which
/// `time_used` is spent, the time left is their difference (at least
/// zero); no time left loses on time; otherwise the budget is
/// `min(timeout_turn, time left)`. Without a game clock it is
/// `timeout_turn`.
pub fn turn_budget(timeout_turn: u128, timeout_match: Option<u128>, time_used: u128) -> (b: TurnBudget)
    ensures
        match timeout_match {
            None => b == TurnBudget::Go { budget: timeout_turn, time_left: None },
            Some(total) => if total <= time_used {
                b == TurnBudget::Timeout
            } else {
                b == TurnBudget::Go {
                    budget: if timeout_turn < total - time_used {
                        timeout_turn
                    } else {
                        (total - time_used) as u128
                    },
                    time_left: Some((total - time_used) as u128),
                }
            },
        },
{
    match timeout_match {
        None => TurnBudget::Go { budget: timeout_turn, time_left: None },
        Some(total) => {
            let left = total.saturating_sub(time_used);
            if left == 0 {
                TurnBudget::Timeout
            } else {
                let budget = if timeout_turn < left {
                    timeout_turn
                } else {
                    left
                };
                TurnBudget::Go { budget, time_left: Some(left) }
            }
        },
    }
}

/// The Gomocup `INFO rule` code of a `ruleSetId`, 0 (freestyle) when the
/// id names no preset.
pub fn rule_code_of(rule_set_id: &str) -> (code: u8)
    ensures
        code == (match rule_set_of(rule_set_id@) {
            Some(r) => match rule_code_spec(r) {
                Some(c) => c,
                None => 0u8,
            },
            None => 0u8,
        }),
{
    match parse_rule_set(rule_set_id) {
        Some(r) => match r.gomocup_rule_code() {
            Some(c) => c,
            None => 0,
        },
        None => 0,
    }
}

} // verus!
