//! What happens when a player faults: per-seat policies for an illegal
//! move and for each way a player can be lost.

use vstd::prelude::*;

use crate::model::{AbortCause, ForfeitCause, PlayerLostKind};

verus! {

/// How an illegal move is handled.
#[derive(Debug, Clone, Copy, PartialEq, Eq, Structural)]
pub enum IllegalAction {
    /// The opponent wins.
    ForfeitOpponent,
    /// The player is asked again, without limit.
    Retry,
}

/// How a lost player (timeout, disconnect, garbage, crash) is handled.
#[derive(Debug, Clone, Copy, PartialEq, Eq, Structural)]
pub enum LostAction {
    /// The opponent wins.
    ForfeitOpponent,
    /// The game stops without a result.
    Abort,
}

/// The failure policy of one seat, given with the seat at the start.
#[derive(Debug, Clone, Copy, PartialEq, Eq, Structural)]
pub struct FailurePolicy {
    pub illegal_move: IllegalAction,
    pub timeout: LostAction,
    pub transport_loss: LostAction,
    pub malformed: LostAction,
    pub crash: LostAction,
}

/// The policy's answer to a lost player of kind `kind`.
pub open spec fn action_spec(p: FailurePolicy, kind: PlayerLostKind) -> LostAction {
    match kind {
        PlayerLostKind::Timeout => p.timeout,
        PlayerLostKind::Disconnect => p.transport_loss,
        PlayerLostKind::Malformed => p.malformed,
        PlayerLostKind::Crash => p.crash,
    }
}

impl FailurePolicy {
    /// The bot default: every fault forfeits to the opponent.
    pub fn bot() -> (p: Self)
        ensures
            p.illegal_move == IllegalAction::ForfeitOpponent,
            p.timeout == LostAction::ForfeitOpponent,
            p.transport_loss == LostAction::ForfeitOpponent,
            p.malformed == LostAction::ForfeitOpponent,
            p.crash == LostAction::ForfeitOpponent,
    {
        FailurePolicy {
            illegal_move: IllegalAction::ForfeitOpponent,
            timeout: LostAction::ForfeitOpponent,
            transport_loss: LostAction::ForfeitOpponent,
            malformed: LostAction::ForfeitOpponent,
            crash: LostAction::ForfeitOpponent,
        }
    }

    /// The human default: an illegal move is retried, anything else aborts.
    pub fn human() -> (p: Self)
        ensures
            p.illegal_move == IllegalAction::Retry,
            p.timeout == LostAction::Abort,
            p.transport_loss == LostAction::Abort,
            p.malformed == LostAction::Abort,
            p.crash == LostAction::Abort,
    {
        FailurePolicy {
            illegal_move: IllegalAction::Retry,
            timeout: LostAction::Abort,
            transport_loss: LostAction::Abort,
            malformed: LostAction::Abort,
            crash: LostAction::Abort,
        }
    }

    /// The action for a lost player of kind `kind`.
    pub fn action_for(self, kind: PlayerLostKind) -> (a: LostAction)
        ensures
            a == action_spec(self, kind),
    {
        match kind {
            PlayerLostKind::Timeout => self.timeout,
            PlayerLostKind::Disconnect => self.transport_loss,
            PlayerLostKind::Malformed => self.malformed,
            PlayerLostKind::Crash => self.crash,
        }
    }
}

/// The forfeit cause of a lost player of kind `kind`.
pub open spec fn forfeit_spec(kind: PlayerLostKind) -> ForfeitCause {
    match kind {
        PlayerLostKind::Timeout => ForfeitCause::Timeout,
        PlayerLostKind::Disconnect => ForfeitCause::Disconnect,
        PlayerLostKind::Malformed => ForfeitCause::Malformed,
        PlayerLostKind::Crash => ForfeitCause::Crash,
    }
}

/// The abort cause of a lost player of kind `kind`.
pub open spec fn abort_spec(kind: PlayerLostKind) -> AbortCause {
    match kind {
        PlayerLostKind::Timeout => AbortCause::Timeout,
        PlayerLostKind::Disconnect => AbortCause::Disconnect,
        PlayerLostKind::Malformed => AbortCause::Malformed,
        PlayerLostKind::Crash => AbortCause::Crash,
    }
}

/// Lost-player kind to forfeit cause.
pub fn forfeit_cause(kind: PlayerLostKind) -> (c: ForfeitCause)
    ensures
        c == forfeit_spec(kind),
{
    match kind {
        PlayerLostKind::Timeout => ForfeitCause::Timeout,
        PlayerLostKind::Disconnect => ForfeitCause::Disconnect,
        PlayerLostKind::Malformed => ForfeitCause::Malformed,
        PlayerLostKind::Crash => ForfeitCause::Crash,
    }
}

/// Lost-player kind to abort cause.
pub fn abort_cause(kind: PlayerLostKind) -> (c: AbortCause)
    ensures
        c == abort_spec(kind),
{
    match kind {
        PlayerLostKind::Timeout => AbortCause::Timeout,
        PlayerLostKind::Disconnect => AbortCause::Disconnect,
        PlayerLostKind::Malformed => AbortCause::Malformed,
        PlayerLostKind::Crash => AbortCause::Crash,
    }
}

/// Distinct lost-player kinds give distinct forfeit causes and distinct
/// abort causes, and neither is ever the user's own abort or a resignation.
pub proof fn lemma_causes_injective(a: PlayerLostKind, b: PlayerLostKind)
    ensures
        forfeit_spec(a) == forfeit_spec(b) ==> a == b,
        abort_spec(a) == abort_spec(b) ==> a == b,
        abort_spec(a) != AbortCause::UserAbort,
        forfeit_spec(a) != ForfeitCause::Resign,
        forfeit_spec(a) != ForfeitCause::IllegalMove,
{
}

} // verus!
