//! Match arbitration: the authoritative single-game state machine
//! ([`match_run::Arbiter`], driven by [`command::Command`]s and answering
//! with [`event::Event`]s), the per-player failure policies, the player
//! port and its messages, and the decisions of the match conductor.

pub mod command;
pub mod conductor;
pub mod event;
pub mod failure;
pub mod match_run;
pub mod player;
pub mod series;
pub mod session;

pub use command::{Command, CommandRejected, ParticipantId, PlayerSeat};
pub use conductor::{ConductorError, HumanInput, Station, TurnBudget, Waiting};
pub use event::{Event, PlayerErrorCode, SeatInfo};
pub use failure::{FailurePolicy, IllegalAction, LostAction};
pub use match_run::Arbiter;
pub use player::{HumanPlayer, Player, PlayerOutput, Poll};
pub use series::{first_plays_black, players_ok, Tally};
pub use session::{PlayerAction, PlayerEvent, PlayerSignal};
