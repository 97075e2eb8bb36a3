//! Greedy: a one-ply heuristic. For each legal move it takes the longest
//! run it would make for itself (doubled) plus the longest the opponent
//! would make there, and plays the best; the first best on ties.

use vstd::prelude::*;

use crate::bot::{MoveSource, StopFlag};
use crate::model::color::other;
use crate::model::{Move, TurnContext};
use crate::onyx::grid::color_code;
use crate::rules::{board_model, longest_run_if_placed, longest_run_spec};

verus! {

/// The greedy score of `mv`: own longest run doubled plus the opponent's.
pub open spec fn greedy_score(ctx: TurnContext, mv: Move) -> int {
    let m = board_model(ctx.board);
    let p = mv.pos();
    longest_run_spec(m, p.row as int, p.col as int, color_code(ctx.side_to_move)) * 2 + longest_run_spec(
        m,
        p.row as int,
        p.col as int,
        color_code(other(ctx.side_to_move)),
    )
}

/// The greedy score grows with both runs a move makes, its own and the
/// one it blocks, and its own run weighs more: a move whose own run is one
/// longer beats a move whose blocked run is one longer.
pub proof fn lemma_greedy_prefers_own_lines(ctx: TurnContext, a: Move, b: Move)
    ensures
        ({
            let m = board_model(ctx.board);
            let me = color_code(ctx.side_to_move);
            let opp = color_code(other(ctx.side_to_move));
            let own_a = longest_run_spec(m, a.pos().row as int, a.pos().col as int, me);
            let own_b = longest_run_spec(m, b.pos().row as int, b.pos().col as int, me);
            let blk_a = longest_run_spec(m, a.pos().row as int, a.pos().col as int, opp);
            let blk_b = longest_run_spec(m, b.pos().row as int, b.pos().col as int, opp);
            &&& own_a >= own_b && blk_a >= blk_b ==> greedy_score(ctx, a) >= greedy_score(ctx, b)
            &&& own_a > own_b && blk_a >= blk_b ==> greedy_score(ctx, a) > greedy_score(ctx, b)
            &&& own_a >= own_b && blk_a > blk_b ==> greedy_score(ctx, a) > greedy_score(ctx, b)
            &&& own_a == own_b + 1 && blk_a + 1 == blk_b ==> greedy_score(ctx, a) > greedy_score(ctx, b)
        }),
{
}

/// The greedy bot.
#[derive(Debug, Default, Clone, Copy)]
pub struct GreedyBot;

impl GreedyBot {
    pub fn new() -> (b: Self) {
        GreedyBot
    }
}

impl MoveSource for GreedyBot {
    fn next_move(&mut self, ctx: &TurnContext, _stop: &StopFlag) -> (mv: Move)
        ensures
            (forall|k: int| 0 <= k < ctx.legal_moves@.len() ==> ctx.board.has(
                (#[trigger] ctx.legal_moves@[k]).pos().row as int,
                ctx.legal_moves@[k].pos().col as int,
            )) ==> exists|i: int|
                0 <= i < ctx.legal_moves@.len() && ctx.legal_moves@[i] == mv && (forall|j: int|
                    0 <= j < ctx.legal_moves@.len() ==> greedy_score(*ctx, #[trigger] ctx.legal_moves@[j])
                        <= greedy_score(*ctx, mv)) && (forall|j: int|
                    0 <= j < i ==> greedy_score(*ctx, #[trigger] ctx.legal_moves@[j]) < greedy_score(*ctx, mv)),
            ctx.legal_moves@.contains(mv),
    {
        let me = ctx.side_to_move;
        let opponent = me.opposite();
        let mut best = ctx.legal_moves[0];
        let mut bi: usize = 0;
        let mut best_score: u32 = 0;
        let mut i: usize = 0;
        let ghost all_on = forall|k: int| 0 <= k < ctx.legal_moves@.len() ==> ctx.board.has(
            (#[trigger] ctx.legal_moves@[k]).pos().row as int,
            ctx.legal_moves@[k].pos().col as int,
        );
        while i < ctx.legal_moves.len()
            invariant
                i <= ctx.legal_moves@.len(),
                ctx.legal_moves@.len() > 0,
                opponent == other(me),
                me == ctx.side_to_move,
                bi < ctx.legal_moves@.len(),
                best == ctx.legal_moves@[bi as int],
                bi <= i,
                all_on == (forall|k: int| 0 <= k < ctx.legal_moves@.len() ==> ctx.board.has(
                    (#[trigger] ctx.legal_moves@[k]).pos().row as int,
                    ctx.legal_moves@[k].pos().col as int,
                )),
                all_on && i > 0 ==> best_score == greedy_score(*ctx, best),
                all_on && i == 0 ==> best_score == 0 && bi == 0,
                all_on ==> forall|j: int| 0 <= j < i ==> greedy_score(*ctx, #[trigger] ctx.legal_moves@[j]) <= best_score,
                all_on ==> forall|j: int| 0 <= j < bi ==> greedy_score(*ctx, #[trigger] ctx.legal_moves@[j]) < best_score,
                all_on && i > 0 ==> bi < i,
            decreases ctx.legal_moves@.len() - i,
        {
            let mv = ctx.legal_moves[i];
            let pos = mv.position();
            if ctx.board.in_bounds(pos) {
                let offense = longest_run_if_placed(&ctx.board, pos, me);
                let defense = longest_run_if_placed(&ctx.board, pos, opponent);
                let score = offense * 2 + defense;
                if score > best_score {
                    best_score = score;
                    best = mv;
                    bi = i;
                } else if i == 0 {
                    proof {
                        assert(score > 0);
                    }
                }
            } else {
                proof {
                    assert(!all_on) by {
                        if all_on {
                            assert(ctx.board.has(ctx.legal_moves@[i as int].pos().row as int, ctx.legal_moves@[i as int].pos().col as int));
                        }
                    }
                }
            }
            i = i + 1;
        }
        proof {
            assert(ctx.legal_moves@.contains(ctx.legal_moves@[bi as int]));
        }
        best
    }
}

} // verus!
