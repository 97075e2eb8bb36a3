//! The Sage bot: a one-ply choice by shape score.
//!
//! Each move: the candidates are the legal points within two of a stone
//! (the centre on an empty board); win at once if possible; else block the
//! opponent's five point; else take the best of `own shape x 10 +
//! opponent shape x 8`, ties broken at random.

use vstd::prelude::*;

use super::eval::{shape_score, shape_spec};
use crate::bot::rng::{pick_index, fresh_rng};
use crate::bot::{MoveSource, StopFlag};
use crate::model::color::other;
use crate::model::{Board, Color, Move, Position, TurnContext};
use crate::onyx::grid::color_code;
use crate::rules::{board_model, near_stone, wins_at};
use crate::titan::bitboard::{near_stones, wins_under};
use rand::rngs::StdRng;

verus! {

/// The weight of the own shape score.
pub const OFFENSE_WEIGHT: i64 = 10;
/// The weight of the opponent's shape score.
pub const DEFENSE_WEIGHT: i64 = 8;

/// `mv` is a candidate: a legal move on a board point within two of a stone.
pub open spec fn is_candidate(ctx: TurnContext, mv: Move) -> bool {
    &&& ctx.legal_moves@.contains(mv)
    &&& ctx.board.has(mv.pos().row as int, mv.pos().col as int)
    &&& near_stones(board_model(ctx.board), mv.pos().row as int, mv.pos().col as int) > 0
}

/// Playing `mv` wins at once for `color`.
pub open spec fn wins_by(ctx: TurnContext, mv: Move, color: Color) -> bool {
    wins_under(
        board_model(ctx.board),
        mv.pos().row as int,
        mv.pos().col as int,
        color_code(color),
        ctx.rule_set.win_rule,
    )
}

/// The score Sage gives `mv`.
#[verifier::opaque]
pub open spec fn sage_score(ctx: TurnContext, mv: Move) -> int {
    let m = board_model(ctx.board);
    let p = mv.pos();
    shape_spec(m, p.row as int, p.col as int, color_code(ctx.side_to_move)) * OFFENSE_WEIGHT + shape_spec(
        m,
        p.row as int,
        p.col as int,
        color_code(other(ctx.side_to_move)),
    ) * DEFENSE_WEIGHT
}

/// The score of the move `mv` on an on-board point.
fn score_of(ctx: &TurnContext, mv: Move) -> (s: i64)
    ensures
        s == sage_score(*ctx, mv),
        0 <= s <= 7_200_000,
{
    proof {
        reveal(sage_score);
    }
    let pos = mv.position();
    let offense = shape_score(&ctx.board, pos, ctx.side_to_move);
    let defense = shape_score(&ctx.board, pos, ctx.side_to_move.opposite());
    offense * OFFENSE_WEIGHT + defense * DEFENSE_WEIGHT
}

/// The candidates of a turn, in the order of the legal moves.
pub fn candidates(ctx: &TurnContext) -> (out: Vec<Move>)
    ensures
        forall|k: int| 0 <= k < out@.len() ==> is_candidate(*ctx, #[trigger] out@[k]),
        forall|mv: Move| #[trigger] is_candidate(*ctx, mv) ==> out@.contains(mv),
{
    let mut out: Vec<Move> = Vec::new();
    let mut i: usize = 0;
    while i < ctx.legal_moves.len()
        invariant
            i <= ctx.legal_moves@.len(),
            forall|k: int| 0 <= k < out@.len() ==> is_candidate(*ctx, #[trigger] out@[k]),
            forall|k: int| 0 <= k < i && is_candidate(*ctx, #[trigger] ctx.legal_moves@[k]) ==> out@.contains(ctx.legal_moves@[k]),
        decreases ctx.legal_moves@.len() - i,
    {
        let mv = ctx.legal_moves[i];
        let pos = mv.position();
        if ctx.board.in_bounds(pos) && near_stone(&ctx.board, pos) {
            let ghost o0 = out@;
            out.push(mv);
            proof {
                assert(ctx.legal_moves@.contains(ctx.legal_moves@[i as int]));
                assert forall|k: int| 0 <= k < out@.len() implies is_candidate(*ctx, #[trigger] out@[k]) by {
                    if k < o0.len() {
                        assert(out@[k] == o0[k]);
                    }
                }
                assert forall|k: int| 0 <= k < i + 1 && is_candidate(*ctx, #[trigger] ctx.legal_moves@[k]) implies out@.contains(ctx.legal_moves@[k]) by {
                    if k < i {
                        let t = choose|t: int| 0 <= t < o0.len() && o0[t] == ctx.legal_moves@[k];
                        assert(out@[t] == o0[t]);
                    } else {
                        assert(out@[out@.len() - 1] == mv);
                    }
                }
            }
        }
        i = i + 1;
    }
    proof {
        assert forall|mv: Move| #[trigger] is_candidate(*ctx, mv) implies out@.contains(mv) by {
            let k = choose|k: int| 0 <= k < ctx.legal_moves@.len() && ctx.legal_moves@[k] == mv;
            assert(is_candidate(*ctx, ctx.legal_moves@[k]));
        }
    }
    out
}

/// The candidates that win at once for `color`, in order.
pub fn winning(ctx: &TurnContext, cands: &Vec<Move>, color: Color) -> (out: Vec<Move>)
    requires
        forall|k: int| 0 <= k < cands@.len() ==> is_candidate(*ctx, #[trigger] cands@[k]),
    ensures
        forall|k: int| 0 <= k < out@.len() ==> cands@.contains(#[trigger] out@[k]) && wins_by(*ctx, out@[k], color),
        forall|k: int| 0 <= k < cands@.len() && wins_by(*ctx, #[trigger] cands@[k], color) ==> out@.contains(cands@[k]),
{
    let mut out: Vec<Move> = Vec::new();
    let mut i: usize = 0;
    while i < cands.len()
        invariant
            i <= cands@.len(),
            forall|k: int| 0 <= k < cands@.len() ==> is_candidate(*ctx, #[trigger] cands@[k]),
            forall|k: int| 0 <= k < out@.len() ==> cands@.contains(#[trigger] out@[k]) && wins_by(*ctx, out@[k], color),
            forall|k: int| 0 <= k < i && wins_by(*ctx, #[trigger] cands@[k], color) ==> out@.contains(cands@[k]),
        decreases cands@.len() - i,
    {
        let mv = cands[i];
        proof {
            assert(is_candidate(*ctx, cands@[i as int]));
        }
        if wins_at(&ctx.board, mv.position(), color, ctx.rule_set) {
            let ghost o0 = out@;
            out.push(mv);
            proof {
                assert(cands@.contains(cands@[i as int]));
                assert forall|k: int| 0 <= k < out@.len() implies cands@.contains(#[trigger] out@[k]) && wins_by(*ctx, out@[k], color) by {
                    if k < o0.len() {
                        assert(out@[k] == o0[k]);
                    }
                }
                assert forall|k: int| 0 <= k < i + 1 && wins_by(*ctx, #[trigger] cands@[k], color) implies out@.contains(cands@[k]) by {
                    if k < i {
                        let t = choose|t: int| 0 <= t < o0.len() && o0[t] == cands@[k];
                        assert(out@[t] == o0[t]);
                    } else {
                        assert(out@[out@.len() - 1] == mv);
                    }
                }
            }
        }
        i = i + 1;
    }
    out
}

/// The centre of the board if it is a legal move, else the first legal move.
pub fn center_or_first(ctx: &TurnContext) -> (mv: Move)
    requires
        ctx.legal_moves@.len() > 0,
    ensures
        ctx.legal_moves@.contains(mv),
        ctx.legal_moves@.contains(Move::Place(Position { row: (ctx.board.h() / 2) as u8, col: (ctx.board.w() / 2) as u8 }))
            ==> mv == Move::Place(Position { row: (ctx.board.h() / 2) as u8, col: (ctx.board.w() / 2) as u8 }),
        !ctx.legal_moves@.contains(Move::Place(Position { row: (ctx.board.h() / 2) as u8, col: (ctx.board.w() / 2) as u8 }))
            ==> mv == ctx.legal_moves@[0],
{
    proof {
        ctx.board.lemma_dims();
    }
    let center = Move::Place(Position::new(ctx.board.height() / 2, ctx.board.width() / 2));
    let mut i: usize = 0;
    while i < ctx.legal_moves.len()
        invariant
            i <= ctx.legal_moves@.len(),
            center == Move::Place(Position { row: (ctx.board.h() / 2) as u8, col: (ctx.board.w() / 2) as u8 }),
            forall|k: int| 0 <= k < i ==> ctx.legal_moves@[k] != center,
        decreases ctx.legal_moves@.len() - i,
    {
        let lm = ctx.legal_moves[i];
        if lm.position().row == center.position().row && lm.position().col == center.position().col {
            proof {
                assert(lm == center);
                assert(ctx.legal_moves@.contains(ctx.legal_moves@[i as int]));
            }
            return center;
        }
        i = i + 1;
    }
    proof {
        assert(ctx.legal_moves@.contains(ctx.legal_moves@[0]));
    }
    ctx.legal_moves[0]
}

/// The shape-heuristic bot.
pub struct SageBot {
    rng: StdRng,
}

impl SageBot {
    /// A bot seeded by [`crate::bot::rng::fresh_rng`] (ties are broken at random).
    pub fn new() -> Self {
        SageBot { rng: fresh_rng() }
    }

    /// A random move of a non-empty list.
    fn pick(&mut self, moves: &Vec<Move>) -> (mv: Move)
        requires
            moves@.len() > 0,
        ensures
            moves@.contains(mv),
    {
        let i = pick_index(&mut self.rng, moves.len());
        proof {
            assert(moves@.contains(moves@[i as int]));
        }
        moves[i]
    }
}

impl Default for SageBot {
    fn default() -> Self {
        Self::new()
    }
}

impl MoveSource for SageBot {
    fn next_move(&mut self, ctx: &TurnContext, _stop: &StopFlag) -> (mv: Move)
        ensures
            ctx.legal_moves@.contains(mv),
            (exists|c: Move| #[trigger] is_candidate(*ctx, c)) ==> is_candidate(*ctx, mv),
            (exists|c: Move| #[trigger] is_candidate(*ctx, c) && wins_by(*ctx, c, ctx.side_to_move)) ==> wins_by(
                *ctx,
                mv,
                ctx.side_to_move,
            ),
            !(exists|c: Move| #[trigger] is_candidate(*ctx, c) && wins_by(*ctx, c, ctx.side_to_move)) && (exists|c: Move|
                #[trigger] is_candidate(*ctx, c) && wins_by(*ctx, c, other(ctx.side_to_move))) ==> wins_by(
                *ctx,
                mv,
                other(ctx.side_to_move),
            ),
            !(exists|c: Move| #[trigger] is_candidate(*ctx, c) && (wins_by(*ctx, c, ctx.side_to_move) || wins_by(
                *ctx,
                c,
                other(ctx.side_to_move),
            ))) ==> forall|c: Move| #[trigger] is_candidate(*ctx, c) ==> sage_score(*ctx, c) <= sage_score(*ctx, mv),
    {
        let me = ctx.side_to_move;
        let opponent = me.opposite();
        let cands = candidates(ctx);
        if cands.len() == 0 {
            proof {
                assert forall|c: Move| !#[trigger] is_candidate(*ctx, c) by {
                    if is_candidate(*ctx, c) {
                        assert(cands@.contains(c));
                    }
                }
            }
            return center_or_first(ctx);
        }
        let wins = winning(ctx, &cands, me);
        if wins.len() > 0 {
            let mv = self.pick(&wins);
            proof {
                let t = choose|t: int| 0 <= t < wins@.len() && wins@[t] == mv;
                assert(cands@.contains(wins@[t]));
            }
            return mv;
        }
        proof {
            assert forall|c: Move| #[trigger] is_candidate(*ctx, c) implies !wins_by(*ctx, c, me) by {
                assert(cands@.contains(c));
                let k = choose|k: int| 0 <= k < cands@.len() && cands@[k] == c;
                if wins_by(*ctx, cands@[k], me) {
                    assert(wins@.contains(cands@[k]));
                }
            }
        }
        let blocks = winning(ctx, &cands, opponent);
        if blocks.len() > 0 {
            let mv = self.pick(&blocks);
            proof {
                let t = choose|t: int| 0 <= t < blocks@.len() && blocks@[t] == mv;
                assert(cands@.contains(blocks@[t]));
            }
            return mv;
        }
        proof {
            assert forall|c: Move| #[trigger] is_candidate(*ctx, c) implies !wins_by(*ctx, c, opponent) by {
                assert(cands@.contains(c));
                let k = choose|k: int| 0 <= k < cands@.len() && cands@[k] == c;
                if wins_by(*ctx, cands@[k], opponent) {
                    assert(blocks@.contains(cands@[k]));
                }
            }
        }
        let mut best_score: i64 = i64::MIN;
        let mut best: Vec<Move> = Vec::new();
        let mut i: usize = 0;
        while i < cands.len()
            invariant
                i <= cands@.len(),
                cands@.len() > 0,
                opponent == other(me),
                me == ctx.side_to_move,
                forall|k: int| 0 <= k < cands@.len() ==> is_candidate(*ctx, #[trigger] cands@[k]),
                forall|k: int| 0 <= k < best@.len() ==> cands@.contains(#[trigger] best@[k]) && sage_score(*ctx, best@[k]) == best_score,
                forall|k: int| 0 <= k < i ==> sage_score(*ctx, #[trigger] cands@[k]) <= best_score,
                i > 0 ==> best@.len() > 0,
                best@.len() == 0 ==> best_score == i64::MIN,
            decreases cands@.len() - i,
        {
            let mv = cands[i];
            let score = score_of(ctx, mv);
            proof {
                assert(cands@.contains(cands@[i as int]));
            }
            if score > best_score {
                best_score = score;
                best.clear();
                best.push(mv);
            } else if score == best_score {
                let ghost o0 = best@;
                best.push(mv);
                proof {
                    assert forall|k: int| 0 <= k < best@.len() implies cands@.contains(#[trigger] best@[k]) && sage_score(*ctx, best@[k]) == best_score by {
                        if k < o0.len() {
                            assert(best@[k] == o0[k]);
                        }
                    }
                }
            }
            i = i + 1;
        }
        let mv = self.pick(&best);
        proof {
            let t = choose|t: int| 0 <= t < best@.len() && best@[t] == mv;
            assert(cands@.contains(best@[t]));
            assert forall|c: Move| #[trigger] is_candidate(*ctx, c) implies sage_score(*ctx, c) <= sage_score(*ctx, mv) by {
                assert(cands@.contains(c));
                let k = choose|k: int| 0 <= k < cands@.len() && cands@[k] == c;
                assert(sage_score(*ctx, cands@[k]) <= best_score);
            }
        }
        mv
    }
}

} // verus!
