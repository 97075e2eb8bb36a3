//! The Aegis bot: the shared opening steps of every engine, then a choice.
//!
//! Each move: on a board with no candidate (no legal point within two of a
//! stone) play the centre if legal, else the first legal move; win at once
//! with the first winning candidate; else block one of the opponent's five
//! points at random; else [`AegisBot::pick_best`] takes a candidate of best
//! greedy score (own longest run doubled plus the opponent's), ties at
//! random.

use vstd::prelude::*;

use crate::bot::rng::{pick_index, fresh_rng};
use crate::bot::{MoveSource, StopFlag};
use crate::greedy::greedy_score;
use crate::model::color::other;
use crate::model::{Color, Move, Position, TurnContext};
use crate::rules::{longest_run_if_placed, near_stone, wins_at};
use crate::sage::bot::{candidates, center_or_first, is_candidate, winning, wins_by};
use rand::rngs::StdRng;

verus! {

/// The index of the first legal move that is a candidate winning at once
/// for `color`, if there is one.
pub fn first_win(ctx: &TurnContext, color: Color) -> (r: Option<usize>)
    ensures
        match r {
            Some(i) => i < ctx.legal_moves@.len() && is_candidate(*ctx, ctx.legal_moves@[i as int]) && wins_by(
                *ctx,
                ctx.legal_moves@[i as int],
                color,
            ) && forall|j: int|
                0 <= j < i ==> !(is_candidate(*ctx, #[trigger] ctx.legal_moves@[j]) && wins_by(
                    *ctx,
                    ctx.legal_moves@[j],
                    color,
                )),
            None => forall|c: Move| #[trigger] is_candidate(*ctx, c) ==> !wins_by(*ctx, c, color),
        },
{
    let mut i: usize = 0;
    while i < ctx.legal_moves.len()
        invariant
            i <= ctx.legal_moves@.len(),
            forall|j: int|
                0 <= j < i ==> !(is_candidate(*ctx, #[trigger] ctx.legal_moves@[j]) && wins_by(
                    *ctx,
                    ctx.legal_moves@[j],
                    color,
                )),
        decreases ctx.legal_moves@.len() - i,
    {
        let mv = ctx.legal_moves[i];
        let pos = mv.position();
        proof {
            assert(ctx.legal_moves@.contains(ctx.legal_moves@[i as int]));
        }
        if ctx.board.in_bounds(pos) && near_stone(&ctx.board, pos) {
            if wins_at(&ctx.board, pos, color, ctx.rule_set) {
                return Some(i);
            }
        }
        i = i + 1;
    }
    proof {
        assert forall|c: Move| #[trigger] is_candidate(*ctx, c) implies !wins_by(*ctx, c, color) by {
            let k = choose|k: int| 0 <= k < ctx.legal_moves@.len() && ctx.legal_moves@[k] == c;
            assert(!(is_candidate(*ctx, ctx.legal_moves@[k]) && wins_by(*ctx, ctx.legal_moves@[k], color)));
        }
    }
    None
}

/// The Aegis bot.
pub struct AegisBot {
    rng: StdRng,
}

impl AegisBot {
    /// A bot seeded by [`crate::bot::rng::fresh_rng`] (ties are broken at random).
    pub fn new() -> Self {
        AegisBot { rng: fresh_rng() }
    }

    /// A random move of a non-empty list.
    fn pick(&mut self, moves: &Vec<Move>) -> (mv: Move)
        requires
            moves@.len() > 0,
        ensures
            moves@.contains(mv),
    {
        let i = pick_index(&mut self.rng, moves.len());
        proof {
            assert(moves@.contains(moves@[i as int]));
        }
        moves[i]
    }

    /// The choice among the candidates once no side can win at once: a
    /// candidate of best greedy score, ties broken at random.
    pub fn pick_best(&mut self, ctx: &TurnContext, cands: &Vec<Move>) -> (mv: Move)
        requires
            cands@.len() > 0,
            forall|k: int| 0 <= k < cands@.len() ==> is_candidate(*ctx, #[trigger] cands@[k]),
        ensures
            cands@.contains(mv),
            forall|k: int| 0 <= k < cands@.len() ==> greedy_score(*ctx, #[trigger] cands@[k]) <= greedy_score(*ctx, mv),
    {
        let me = ctx.side_to_move;
        let opponent = me.opposite();
        let mut best_score: u32 = 0;
        let mut best: Vec<Move> = Vec::new();
        best.push(cands[0]);
        let mut i: usize = 0;
        while i < cands.len()
            invariant
                i <= cands@.len(),
                cands@.len() > 0,
                opponent == other(me),
                me == ctx.side_to_move,
                forall|k: int| 0 <= k < cands@.len() ==> is_candidate(*ctx, #[trigger] cands@[k]),
                best@.len() > 0,
                forall|k: int| 0 <= k < best@.len() ==> cands@.contains(#[trigger] best@[k]),
                i > 0 ==> forall|k: int| 0 <= k < best@.len() ==> greedy_score(*ctx, #[trigger] best@[k]) == best_score,
                i == 0 ==> best_score == 0 && best@ == seq![cands@[0]],
                forall|k: int| 0 <= k < i ==> greedy_score(*ctx, #[trigger] cands@[k]) <= best_score,
            decreases cands@.len() - i,
        {
            let mv = cands[i];
            proof {
                assert(is_candidate(*ctx, cands@[i as int]));
                assert(cands@.contains(cands@[i as int]));
            }
            let pos = mv.position();
            let score = longest_run_if_placed(&ctx.board, pos, me) * 2 + longest_run_if_placed(&ctx.board, pos, opponent);
            if score > best_score {
                best_score = score;
                best.clear();
                best.push(mv);
            } else if score == best_score {
                let ghost o0 = best@;
                best.push(mv);
                proof {
                    assert forall|k: int| 0 <= k < best@.len() implies cands@.contains(#[trigger] best@[k]) by {
                        if k < o0.len() {
                            assert(best@[k] == o0[k]);
                        }
                    }
                    assert forall|k: int| 0 <= k < best@.len() implies greedy_score(*ctx, #[trigger] best@[k]) == best_score by {
                        if k < o0.len() {
                            assert(best@[k] == o0[k]);
                        }
                    }
                }
            }
            i = i + 1;
        }
        let mv = self.pick(&best);
        proof {
            let t = choose|t: int| 0 <= t < best@.len() && best@[t] == mv;
            assert(cands@.contains(best@[t]));
            assert(greedy_score(*ctx, best@[t]) == best_score);
        }
        mv
    }
}

impl Default for AegisBot {
    fn default() -> Self {
        Self::new()
    }
}

impl MoveSource for AegisBot {
    fn next_move(&mut self, ctx: &TurnContext, _stop: &StopFlag) -> (mv: Move)
        ensures
            ctx.legal_moves@.contains(mv),
            (exists|c: Move| #[trigger] is_candidate(*ctx, c)) ==> is_candidate(*ctx, mv),
            !(exists|c: Move| #[trigger] is_candidate(*ctx, c)) ==> mv == center_spec(*ctx) || (
            !ctx.legal_moves@.contains(center_spec(*ctx)) && mv == ctx.legal_moves@[0]),
            (exists|c: Move| #[trigger] is_candidate(*ctx, c) && wins_by(*ctx, c, ctx.side_to_move)) ==> exists|i: int|
                0 <= i < ctx.legal_moves@.len() && ctx.legal_moves@[i] == mv && wins_by(*ctx, mv, ctx.side_to_move)
                    && forall|j: int|
                    0 <= j < i ==> !(is_candidate(*ctx, #[trigger] ctx.legal_moves@[j]) && wins_by(
                        *ctx,
                        ctx.legal_moves@[j],
                        ctx.side_to_move,
                    )),
            !(exists|c: Move| #[trigger] is_candidate(*ctx, c) && wins_by(*ctx, c, ctx.side_to_move)) && (exists|c: Move|
                #[trigger] is_candidate(*ctx, c) && wins_by(*ctx, c, other(ctx.side_to_move))) ==> wins_by(
                *ctx,
                mv,
                other(ctx.side_to_move),
            ),
            !(exists|c: Move| #[trigger] is_candidate(*ctx, c) && (wins_by(*ctx, c, ctx.side_to_move) || wins_by(
                *ctx,
                c,
                other(ctx.side_to_move),
            ))) ==> forall|c: Move| #[trigger] is_candidate(*ctx, c) ==> greedy_score(*ctx, c) <= greedy_score(*ctx, mv),
    {
        let me = ctx.side_to_move;
        let opponent = me.opposite();
        let cands = candidates(ctx);
        if cands.len() == 0 {
            proof {
                assert forall|c: Move| !#[trigger] is_candidate(*ctx, c) by {
                    if is_candidate(*ctx, c) {
                        assert(cands@.contains(c));
                    }
                }
            }
            return center_or_first(ctx);
        }
        proof {
            assert(is_candidate(*ctx, cands@[0]));
        }
        match first_win(ctx, me) {
            Some(i) => {
                proof {
                    assert(ctx.legal_moves@.contains(ctx.legal_moves@[i as int]));
                }
                return ctx.legal_moves[i];
            },
            None => {},
        }
        let blocks = winning(ctx, &cands, opponent);
        if blocks.len() > 0 {
            let mv = self.pick(&blocks);
            proof {
                let t = choose|t: int| 0 <= t < blocks@.len() && blocks@[t] == mv;
                assert(cands@.contains(blocks@[t]));
            }
            return mv;
        }
        proof {
            assert forall|c: Move| #[trigger] is_candidate(*ctx, c) implies !wins_by(*ctx, c, opponent) by {
                assert(cands@.contains(c));
                let k = choose|k: int| 0 <= k < cands@.len() && cands@[k] == c;
                if wins_by(*ctx, cands@[k], opponent) {
                    assert(blocks@.contains(cands@[k]));
                }
            }
        }
        let mv = self.pick_best(ctx, &cands);
        proof {
            let t = choose|t: int| 0 <= t < cands@.len() && cands@[t] == mv;
            assert(is_candidate(*ctx, cands@[t]));
            assert forall|c: Move| #[trigger] is_candidate(*ctx, c) implies greedy_score(*ctx, c) <= greedy_score(*ctx, mv) by {
                assert(cands@.contains(c));
                let k = choose|k: int| 0 <= k < cands@.len() && cands@[k] == c;
                assert(greedy_score(*ctx, cands@[k]) <= greedy_score(*ctx, mv));
            }
        }
        mv
    }
}

/// The centre move of the turn's board.
pub open spec fn center_spec(ctx: TurnContext) -> Move {
    Move::Place(Position { row: (ctx.board.h() / 2) as u8, col: (ctx.board.w() / 2) as u8 })
}

} // verus!
