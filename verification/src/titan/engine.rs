//! The Titan bot.
//!
//! Each move: the candidates are the best empty points within two of a
//! stone (the centre on an empty board); win at once if a candidate allows
//! it, block the opponent's five point, play a VCF win, keep the candidates
//! after which the opponent has no VCF, and search those by iterative
//! deepening, ties broken at random. Its bit lines hold 32 points, so on a
//! wider or higher board it plays the first legal move.

use std::time::{Duration, Instant};

use vstd::prelude::*;

use super::bitboard::{lemma_no_stones_near, wins_under, Bits};
use super::search::{five_point, five_shapes_at_most, gen_candidates, lemma_five_listed, search_best, TOP_K};
use super::vcf::{has_vcf, vcf_win_move};
use crate::bot::clock::{as_nanos, at_or_after, earlier, from_millis, from_nanos_u128, later, now};
use crate::bot::rng::{pick_index, fresh_rng};
use crate::bot::{MoveSource, StopFlag};
use crate::model::color::other;
use crate::model::{Cell, Color, Move, Position, TurnContext};
use crate::rules::{board_model, lemma_mirror_model};
use crate::onyx::grid::{cell_code, color_code, lemma_make_unmake, lemma_place_code, GridModel, BLACK, EMPTY, WHITE};
use rand::rngs::StdRng;

verus! {

/// The budget when nothing sets one, in milliseconds.
pub const DEFAULT_BUDGET_MS: u64 = 1000;
/// The budget when only a depth is set and the protocol gives no time:
/// a day, so that the depth decides.
pub const UNBOUNDED_BUDGET_MS: u64 = 86_400_000;
/// The time cap of the VCF attack, in milliseconds.
pub const VCF_BUDGET_MS: u64 = 100;
/// The time cap of the whole defence filter, in milliseconds.
pub const DEFENSE_BUDGET_MS: u64 = 200;

/// Nanoseconds in a millisecond.
pub const NANOS_PER_MILLI: u128 = 1_000_000;

/// `a`, lowered to `cap` when there is a smaller cap.
pub open spec fn capped(a: int, cap: Option<u128>) -> int {
    match cap {
        Some(b) => if (b as int) < a {
            b as int
        } else {
            a
        },
        None => a,
    }
}

/// The base budget of a move in nanoseconds: the bot's own budget capped by
/// the protocol's `timeout_turn`; else the protocol's; else a day when a
/// depth is set, else the default.
pub open spec fn base_budget(own: Option<u128>, turn: Option<u128>, has_depth: bool) -> int {
    match own {
        Some(a) => capped(a as int, turn),
        None => match turn {
            Some(b) => b as int,
            None => if has_depth {
                UNBOUNDED_BUDGET_MS * NANOS_PER_MILLI
            } else {
                DEFAULT_BUDGET_MS * NANOS_PER_MILLI
            },
        },
    }
}

/// The budget of a move in nanoseconds: the base budget, at most a quarter
/// of the time left.
pub open spec fn budget_spec(own: Option<u128>, turn: Option<u128>, has_depth: bool, left: Option<u128>) -> int {
    capped(
        base_budget(own, turn, has_depth),
        match left {
            Some(l) => Some(l / 4),
            None => None,
        },
    )
}

/// The budget of a move in nanoseconds; see [`budget_spec`].
pub fn budget_nanos(own: Option<u128>, turn: Option<u128>, has_depth: bool, left: Option<u128>) -> (n: u128)
    ensures
        n == budget_spec(own, turn, has_depth, left),
{
    let base: u128 = match (own, turn) {
        (Some(a), Some(b)) => if b < a {
            b
        } else {
            a
        },
        (Some(a), None) => a,
        (None, Some(b)) => b,
        (None, None) => if has_depth {
            UNBOUNDED_BUDGET_MS as u128 * NANOS_PER_MILLI
        } else {
            DEFAULT_BUDGET_MS as u128 * NANOS_PER_MILLI
        },
    };
    match left {
        Some(l) => if l / 4 < base {
            l / 4
        } else {
            base
        },
        None => base,
    }
}

/// `start` plus `d`; `start` itself when the sum would not fit an `Instant`.
fn deadline_in(start: Instant, d: Duration) -> Instant {
    match later(start, d) {
        Some(t) => t,
        None => start,
    }
}

/// `start` plus `ms` milliseconds; `start` itself when the sum would not
/// fit an `Instant`.
fn deadline_after(start: Instant, ms: u64) -> Instant {
    match later(start, from_millis(ms)) {
        Some(t) => t,
        None => start,
    }
}

/// The nanoseconds of an optional duration.
fn opt_nanos(d: &Option<Duration>) -> (r: Option<u128>)
    ensures
        r is Some <==> d is Some,
        r matches Some(n) ==> n / 1_000_000_000 <= u64::MAX,
{
    match d {
        Some(x) => Some(as_nanos(x)),
        None => None,
    }
}

/// The bitboard searching bot.
pub struct TitanBot {
    rng: StdRng,
    /// The budget per move; `None` when unset. The protocol's
    /// `timeout_turn` and the time left still bound it.
    budget: Option<Duration>,
    /// The deepening cap; `None` when unset (time decides).
    max_depth: Option<i32>,
}

impl TitanBot {
    /// The bot's own budget, if set.
    pub closed spec fn own_budget(&self) -> Option<Duration> {
        self.budget
    }

    /// The bot's depth cap, if set.
    pub closed spec fn depth_cap(&self) -> Option<i32> {
        self.max_depth
    }

    /// A bot seeded by [`crate::bot::rng::fresh_rng`], with no budget or depth set.
    pub fn new() -> (b: Self)
        ensures
            b.own_budget() is None,
            b.depth_cap() is None,
    {
        TitanBot { rng: fresh_rng(), budget: None, max_depth: None }
    }

    /// Sets the budget per move (an upper bound).
    pub fn with_budget(self, budget: Duration) -> (b: Self)
        ensures
            b.own_budget() == Some(budget),
            b.depth_cap() == self.depth_cap(),
    {
        TitanBot { rng: self.rng, budget: Some(budget), max_depth: self.max_depth }
    }

    /// Sets the deepening cap (at least 1).
    pub fn with_max_depth(self, depth: i32) -> (b: Self)
        ensures
            b.depth_cap() == Some(if depth >= 1 {
                depth
            } else {
                1i32
            }),
            b.own_budget() == self.own_budget(),
    {
        let d = if depth >= 1 {
            depth
        } else {
            1
        };
        TitanBot { rng: self.rng, budget: self.budget, max_depth: Some(d) }
    }

    /// The budget of this move: see [`budget_spec`].
    pub fn budget(&self, ctx: &TurnContext) -> Duration {
        let own = opt_nanos(&self.budget);
        let turn = opt_nanos(&ctx.timeout_turn);
        let left = opt_nanos(&ctx.time_left);
        let n = budget_nanos(own, turn, self.max_depth.is_some(), left);
        from_nanos_u128(n)
    }

    /// A random point of a non-empty list.
    fn pick(&mut self, points: &Vec<Position>) -> (p: Position)
        requires
            points@.len() > 0,
        ensures
            points@.contains(p),
    {
        let i = pick_index(&mut self.rng, points.len());
        proof {
            assert(points@[i as int] == points@[i as int]);
        }
        points[i]
    }
}

impl Default for TitanBot {
    fn default() -> (b: Self)
        ensures
            b.own_budget() is None,
            b.depth_cap() is None,
    {
        Self::new()
    }
}

/// The centre point of a `w x h` board.
pub open spec fn centre(w: int, h: int) -> Position {
    Position { row: (h / 2) as u8, col: (w / 2) as u8 }
}

/// The candidates filtered by `wins_under` for `color`./// The candidates filtered by `wins_under` for `color`.
fn winning_among(bits: &Bits, cands: &Vec<Position>, color: Color, ctx: &TurnContext) -> (out: Vec<Position>)
    requires
        bits.wf(),
        forall|k: int| 0 <= k < cands@.len() ==> bits.view().empty((#[trigger] cands@[k]).row as int, cands@[k].col as int),
    ensures
        forall|k: int|
            0 <= k < out@.len() ==> cands@.contains(#[trigger] out@[k]) && wins_under(
                bits.view(),
                out@[k].row as int,
                out@[k].col as int,
                color_code(color),
                ctx.rule_set.win_rule,
            ),
        (exists|k: int|
            0 <= k < cands@.len() && wins_under(
                bits.view(),
                cands@[k].row as int,
                cands@[k].col as int,
                color_code(color),
                ctx.rule_set.win_rule,
            )) ==> out@.len() > 0,
{
    let mut out: Vec<Position> = Vec::new();
    let mut i: usize = 0;
    while i < cands.len()
        invariant
            bits.wf(),
            i <= cands@.len(),
            forall|k: int| 0 <= k < cands@.len() ==> bits.view().empty((#[trigger] cands@[k]).row as int, cands@[k].col as int),
            forall|k: int|
                0 <= k < out@.len() ==> cands@.contains(#[trigger] out@[k]) && wins_under(
                    bits.view(),
                    out@[k].row as int,
                    out@[k].col as int,
                    color_code(color),
                    ctx.rule_set.win_rule,
                ),
            (exists|k: int|
                0 <= k < i && wins_under(
                    bits.view(),
                    cands@[k].row as int,
                    cands@[k].col as int,
                    color_code(color),
                    ctx.rule_set.win_rule,
                )) ==> out@.len() > 0,
        decreases cands@.len() - i,
    {
        let p = cands[i];
        proof {
            assert(bits.view().empty(cands@[i as int].row as int, cands@[i as int].col as int));
        }
        if bits.would_win(color, p, ctx.rule_set) {
            let ghost o0 = out@;
            out.push(p);
            proof {
                assert(cands@.contains(cands@[i as int]));
                assert forall|k: int|
                    0 <= k < out@.len() implies cands@.contains(#[trigger] out@[k]) && wins_under(
                        bits.view(),
                        out@[k].row as int,
                        out@[k].col as int,
                        color_code(color),
                        ctx.rule_set.win_rule,
                    ) by {
                    if k < o0.len() {
                        assert(out@[k] == o0[k]);
                    }
                }
            }
        }
        i = i + 1;
    }
    out
}

impl MoveSource for TitanBot {
    #[verifier::rlimit(100)]
    fn next_move(&mut self, ctx: &TurnContext, stop: &StopFlag) -> (mv: Move)
        ensures
            ctx.board.empty_at(mv.pos().row as int, mv.pos().col as int) || ctx.legal_moves@.contains(mv),
            1 <= ctx.board.w() <= 32 && 1 <= ctx.board.h() <= 32 && (exists|p: Position|
                five_point(board_model(ctx.board), p, color_code(ctx.side_to_move), ctx.rule_set.win_rule))
                && five_shapes_at_most(board_model(ctx.board), TOP_K as int) ==> five_point(
                board_model(ctx.board),
                mv.pos(),
                color_code(ctx.side_to_move),
                ctx.rule_set.win_rule,
            ),
            1 <= ctx.board.w() <= 32 && 1 <= ctx.board.h() <= 32 && !(exists|p: Position|
                five_point(board_model(ctx.board), p, color_code(ctx.side_to_move), ctx.rule_set.win_rule))
                && (exists|p: Position|
                five_point(board_model(ctx.board), p, color_code(other(ctx.side_to_move)), ctx.rule_set.win_rule))
                && five_shapes_at_most(board_model(ctx.board), TOP_K as int) ==> five_point(
                board_model(ctx.board),
                mv.pos(),
                color_code(other(ctx.side_to_move)),
                ctx.rule_set.win_rule,
            ),
            1 <= ctx.board.w() <= 32 && 1 <= ctx.board.h() <= 32 && (forall|r: int, c: int|
                ctx.board.has(r, c) ==> ctx.board.at(r, c) == Cell::Empty) && ctx.legal_moves@.contains(
                Move::Place(centre(ctx.board.w(), ctx.board.h())),
            ) ==> mv == Move::Place(centre(ctx.board.w(), ctx.board.h())),
    {
        let start = now();
        let me = ctx.side_to_move;
        let opponent = me.opposite();
        let rule_set = ctx.rule_set;
        if ctx.board.width() == 0 || ctx.board.height() == 0 || ctx.board.width() > 32 || ctx.board.height() > 32 {
            return ctx.legal_moves[0];
        }
        let mut bits = Bits::from_board(&ctx.board);
        let ghost m = bits.view();
        let ghost me_code = color_code(me);
        let ghost op_code = color_code(opponent);
        let ghost rule = rule_set.win_rule;
        proof {
            bits.lemma_wf();
            lemma_mirror_model(m, ctx.board);
        }
        let candidates = gen_candidates(&bits, me);
        proof {
            if five_shapes_at_most(m, TOP_K as int) {
                if exists|p: Position| five_point(m, p, me_code, rule) {
                    let p = choose|p: Position| five_point(m, p, me_code, rule);
                    lemma_five_listed(m, candidates@, p, me_code, me_code, rule);
                }
                if exists|p: Position| five_point(m, p, op_code, rule) {
                    let p = choose|p: Position| five_point(m, p, op_code, rule);
                    lemma_five_listed(m, candidates@, p, me_code, op_code, rule);
                }
            }
            if forall|r: int, c: int| ctx.board.has(r, c) ==> ctx.board.at(r, c) == Cell::Empty {
                assert forall|x: int, y: int| m.has(x, y) implies m.code(x, y) == EMPTY by {
                    assert(ctx.board.at(x, y) == Cell::Empty);
                }
                if candidates@.len() > 0 {
                    lemma_no_stones_near(m, candidates@[0].row as int, candidates@[0].col as int);
                }
            }
        }
        if candidates.len() == 0 {
            let center = Move::Place(Position::new(ctx.board.height() / 2, ctx.board.width() / 2));
            let mut i: usize = 0;
            while i < ctx.legal_moves.len()
                invariant
                    i <= ctx.legal_moves@.len(),
                    center == Move::Place(centre(ctx.board.w(), ctx.board.h())),
                    m == board_model(ctx.board),
                    me_code == color_code(ctx.side_to_move),
                    op_code == color_code(other(ctx.side_to_move)),
                    rule == ctx.rule_set.win_rule,
                    !(five_shapes_at_most(m, TOP_K as int) && exists|p: Position| five_point(m, p, me_code, rule)),
                    !(five_shapes_at_most(m, TOP_K as int) && exists|p: Position| five_point(m, p, op_code, rule)),
                    forall|k: int| 0 <= k < i ==> ctx.legal_moves@[k] != center,
                decreases ctx.legal_moves@.len() - i,
            {
                let lm = ctx.legal_moves[i];
                if lm.position().row == center.position().row && lm.position().col == center.position().col {
                    proof {
                        assert(lm == center);
                        assert(ctx.legal_moves@.contains(ctx.legal_moves@[i as int]));
                    }
                    return center;
                }
                i = i + 1;
            }
            proof {
                assert(ctx.legal_moves@.contains(ctx.legal_moves@[0]));
            }
            return ctx.legal_moves[0];
        }
        proof {
            assert forall|k: int| 0 <= k < candidates@.len() implies ctx.board.empty_at(
                (#[trigger] candidates@[k]).row as int,
                candidates@[k].col as int,
            ) by {
                let p = candidates@[k];
                assert(m.empty(p.row as int, p.col as int));
                assert(ctx.board.has(p.row as int, p.col as int));
                assert(m.code(p.row as int, p.col as int) == cell_code(ctx.board.at(p.row as int, p.col as int)));
            }
        }
        let wins = winning_among(&bits, &candidates, me, ctx);
        if wins.len() > 0 {
            let p = self.pick(&wins);
            proof {
                let t = choose|t: int| 0 <= t < wins@.len() && wins@[t] == p;
                assert(candidates@.contains(wins@[t]));
            }
            return Move::Place(p);
        }
        let blocks = winning_among(&bits, &candidates, opponent, ctx);
        if blocks.len() > 0 {
            let p = self.pick(&blocks);
            proof {
                let t = choose|t: int| 0 <= t < blocks@.len() && blocks@[t] == p;
                assert(candidates@.contains(blocks@[t]));
            }
            return Move::Place(p);
        }
        let total = self.budget(ctx);
        let deadline = deadline_in(start, total);
        let vcf_deadline = earlier(deadline_after(start, VCF_BUDGET_MS), deadline);
        match vcf_win_move(&mut bits, me, rule_set, stop, vcf_deadline) {
            Some(p) => {
                proof {
                    assert(ctx.board.has(p.row as int, p.col as int));
                    assert(m.code(p.row as int, p.col as int) == cell_code(ctx.board.at(p.row as int, p.col as int)));
                }
                return Move::Place(p);
            },
            None => {},
        }
        let def_deadline = earlier(deadline_after(now(), DEFENSE_BUDGET_MS), deadline);
        let mut safe: Vec<Position> = Vec::new();
        let mut i: usize = 0;
        while i < candidates.len()
            invariant
                bits.wf(),
                bits.view() == m,
                i <= candidates@.len(),
                forall|k: int| 0 <= k < candidates@.len() ==> m.empty((#[trigger] candidates@[k]).row as int, candidates@[k].col as int),
                forall|k: int| 0 <= k < safe@.len() ==> candidates@.contains(#[trigger] safe@[k]),
            decreases candidates@.len() - i,
        {
            let t = now();
            if at_or_after(&t, &def_deadline) {
                break;
            }
            let p = candidates[i];
            let r = p.row as i32;
            let c = p.col as i32;
            proof {
                assert(m.empty(candidates@[i as int].row as int, candidates@[i as int].col as int));
                bits.lemma_wf();
                lemma_make_unmake(bits.zkeys(), m, r as int, c as int, color_code(me));
                lemma_place_code(m, r as int, c as int, color_code(me));
            }
            bits.toggle(me, r, c);
            let opponent_mates = has_vcf(&mut bits, opponent, rule_set, stop, def_deadline);
            proof {
                lemma_place_code(m.place(r as int, c as int, color_code(me)), r as int, c as int, EMPTY);
            }
            bits.toggle(me, r, c);
            if !opponent_mates {
                let ghost o0 = safe@;
                safe.push(p);
                proof {
                    assert(candidates@.contains(candidates@[i as int]));
                    assert forall|k: int| 0 <= k < safe@.len() implies candidates@.contains(#[trigger] safe@[k]) by {
                        if k < o0.len() {
                            assert(safe@[k] == o0[k]);
                        }
                    }
                }
            }
            i = i + 1;
        }
        let mut search_candidates: Vec<Position> = Vec::new();
        if safe.len() == 0 {
            let threat_deadline = earlier(deadline_after(now(), VCF_BUDGET_MS), deadline);
            match vcf_win_move(&mut bits, opponent, rule_set, stop, threat_deadline) {
                Some(threat) => {
                    search_candidates.push(threat);
                },
                None => {
                    search_candidates = candidates;
                },
            }
        } else {
            search_candidates = safe;
            proof {
                assert forall|k: int| 0 <= k < search_candidates@.len() implies m.empty(
                    (#[trigger] search_candidates@[k]).row as int,
                    search_candidates@[k].col as int,
                ) by {
                    let t = choose|t: int| 0 <= t < candidates@.len() && candidates@[t] == search_candidates@[k];
                    assert(m.empty(candidates@[t].row as int, candidates@[t].col as int));
                }
            }
        }
        proof {
            assert(search_candidates@.len() > 0);
        }
        let depth = match self.max_depth {
            Some(d) => d,
            None => 0x7FFF_FFFF,
        };
        let best = search_best(&mut bits, me, rule_set, search_candidates.as_slice(), depth, stop, deadline);
        let p = self.pick(&best);
        proof {
            let t = choose|t: int| 0 <= t < best@.len() && best@[t] == p;
            assert(search_candidates@.contains(best@[t]));
            let u = choose|u: int| 0 <= u < search_candidates@.len() && search_candidates@[u] == p;
            assert(m.empty(search_candidates@[u].row as int, search_candidates@[u].col as int));
            assert(ctx.board.has(p.row as int, p.col as int));
            assert(m.code(p.row as int, p.col as int) == cell_code(ctx.board.at(p.row as int, p.col as int)));
        }
        Move::Place(p)
    }
}

} // verus!
