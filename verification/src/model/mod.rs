//! Plain game data: colors, positions, boards, moves, rule sets, results.
//!
//! The model holds no game rules: legality and results are computed from
//! these types elsewhere. The board carries its own size.

pub mod board;
pub mod color;
pub mod position;

pub use board::{Board, Cell};
pub use color::Color;
pub use position::Position;
pub mod coord;
pub mod moves;
pub mod notation;
pub mod ruleset;
pub mod state;
pub mod termination;
pub mod turn;

pub use moves::Move;
pub use ruleset::{RuleSet, WinRule};
pub use state::GameState;
pub use termination::{AbortCause, ForfeitCause, GameResult, PlayerLostKind, Termination, Win};
pub use turn::TurnContext;
