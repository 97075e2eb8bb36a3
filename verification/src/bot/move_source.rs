use vstd::prelude::*;

use super::stop::StopFlag;
use crate::model::{Move, TurnContext};

verus! {

/// The bot interface: compute one move from a [`TurnContext`].
///
/// The caller guarantees that a legal move exists. The move returned
/// should come from `ctx.legal_moves`; an illegal one is handled by the
/// arbiter as an illegal move. `stop` lets searching bots cancel
/// cooperatively; instant bots ignore it.
pub trait MoveSource: Send {
    fn next_move(&mut self, ctx: &TurnContext, stop: &StopFlag) -> (m: Move)
        requires
            ctx.legal_moves@.len() > 0,
    ;
}

} // verus!
