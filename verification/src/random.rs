//! Random: a uniformly random legal move near the stones.
//!
//! The candidates are the legal moves within Chebyshev distance two of a
//! stone, which keeps random games together. With no candidate (an empty
//! board) it plays the centre if legal, else any legal move.

use vstd::prelude::*;

use crate::bot::rng::{pick_index, fresh_rng, rng_from_seed};
use crate::bot::{MoveSource, StopFlag};
use crate::model::{Move, Position, TurnContext};
use crate::rules::{board_model, near_stone};
use crate::titan::bitboard::near_stones;
use rand::rngs::StdRng;

verus! {

/// `mv` is a legal move within two of a stone.
pub open spec fn near_legal(ctx: TurnContext, mv: Move) -> bool {
    ctx.legal_moves@.contains(mv) && near_stones(board_model(ctx.board), mv.pos().row as int, mv.pos().col as int) > 0
}

/// The random bot.
pub struct RandomBot {
    rng: StdRng,
}

impl RandomBot {
    /// Seeded by [`crate::bot::rng::fresh_rng`]: every bot differs, unless the
    /// operating system supplies no randomness.
    pub fn new() -> Self {
        RandomBot { rng: fresh_rng() }
    }

    /// Seeded from `seed`, for reproducible games.
    pub fn from_seed(seed: u64) -> Self {
        RandomBot { rng: rng_from_seed(seed) }
    }
}

impl Default for RandomBot {
    fn default() -> Self {
        Self::new()
    }
}

impl MoveSource for RandomBot {
    fn next_move(&mut self, ctx: &TurnContext, _stop: &StopFlag) -> (mv: Move)
        ensures
            ctx.legal_moves@.contains(mv),
            (exists|c: Move| #[trigger] near_legal(*ctx, c)) ==> near_legal(*ctx, mv),
            !(exists|c: Move| #[trigger] near_legal(*ctx, c)) && ctx.legal_moves@.contains(
                Move::Place(Position { row: (ctx.board.h() / 2) as u8, col: (ctx.board.w() / 2) as u8 }),
            ) ==> mv == Move::Place(Position { row: (ctx.board.h() / 2) as u8, col: (ctx.board.w() / 2) as u8 }),
    {
        let mut cands: Vec<Move> = Vec::new();
        let mut i: usize = 0;
        while i < ctx.legal_moves.len()
            invariant
                i <= ctx.legal_moves@.len(),
                forall|k: int| 0 <= k < cands@.len() ==> near_legal(*ctx, #[trigger] cands@[k]),
                forall|k: int| 0 <= k < i && near_legal(*ctx, #[trigger] ctx.legal_moves@[k]) ==> cands@.len() > 0,
            decreases ctx.legal_moves@.len() - i,
        {
            let mv = ctx.legal_moves[i];
            if near_stone(&ctx.board, mv.position()) {
                let ghost o0 = cands@;
                cands.push(mv);
                proof {
                    assert(ctx.legal_moves@.contains(ctx.legal_moves@[i as int]));
                    assert forall|k: int| 0 <= k < cands@.len() implies near_legal(*ctx, #[trigger] cands@[k]) by {
                        if k < o0.len() {
                            assert(cands@[k] == o0[k]);
                        }
                    }
                }
            }
            i = i + 1;
        }
        if cands.len() > 0 {
            let k = pick_index(&mut self.rng, cands.len());
            proof {
                assert(near_legal(*ctx, cands@[k as int]));
            }
            return cands[k];
        }
        proof {
            assert forall|c: Move| !#[trigger] near_legal(*ctx, c) by {
                if near_legal(*ctx, c) {
                    let k = choose|k: int| 0 <= k < ctx.legal_moves@.len() && ctx.legal_moves@[k] == c;
                    assert(near_legal(*ctx, ctx.legal_moves@[k]));
                }
            }
        }
        let center = crate::sage::bot::center_or_first(ctx);
        if ctx.legal_moves.len() > 0 && center.position().row == ctx.board.height() / 2 && center.position().col == ctx.board.width() / 2 {
            return center;
        }
        let k = pick_index(&mut self.rng, ctx.legal_moves.len());
        proof {
            assert(ctx.legal_moves@.contains(ctx.legal_moves@[k as int]));
        }
        ctx.legal_moves[k]
    }
}

} // verus!
