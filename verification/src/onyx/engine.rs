//! The Onyx bot: an attack-first move choice on top of the grid, the
//! VCF / VCT searches and the alpha-beta.
//!
//! Each move, in order: win at once; block the opponent's five point (the
//! block with the most attacking value); play a VCF win; play a VCT win;
//! drop the candidates after which the opponent wins at once or by VCF;
//! search the rest by iterative deepening. Boards wider or higher than 50
//! points, where the static evaluation could leave an `i32`, skip the last
//! step and take the first remaining move in attack order.

use std::time::{Duration, Instant};

use vstd::prelude::*;

use super::eval::{order_key, order_key_spec};
use super::grid::{
    cell_code, code_of, color_code, is_stone, lemma_make_unmake, lemma_place_code, other_code,
    mirrors, Grid, GridModel, Win, EMPTY, OFF, dir_c, dir_r, hit, lemma_count_mask, win_of,
};
use super::search::{has_vcf, search_best, vcf_win_move};
use super::vct::vct_win_move;
use crate::bot::clock::{at_or_after, earlier, from_millis, later, millis_u64, now};
use crate::bot::{MoveSource, StopFlag};
use crate::model::color::other;
use crate::model::{Board, Move, Position, TurnContext};
use crate::sort::sort_desc;

verus! {

/// The thinking budget per move when neither the command line nor the
/// protocol gives one, in milliseconds.
pub const DEFAULT_BUDGET_MS: u64 = 1000;
/// A fixed margin kept back for the protocol round trip, in milliseconds.
pub const SAFETY_MARGIN_MS: u64 = 40;
/// The least budget used, in milliseconds.
pub const MIN_BUDGET_MS: u64 = 20;
/// Share of the budget (percent) the defence filter may use.
pub const DEFENSE_NUM: u32 = 55;
/// Share of the budget (percent) the VCF attack may use.
pub const VCF_NUM: u32 = 35;
/// Share of the budget (percent) the VCT attack may use.
pub const VCT_NUM: u32 = 12;
/// Node cap of the root VCT search.
pub const VCT_NODE_CAP: u64 = 12_000;
/// Time cap of one candidate's VCF refutation in the defence filter, in
/// milliseconds.
pub const PER_DEFENSE_CHECK_MS: u64 = 15;
/// How many root candidates enter the alpha-beta at most.
pub const MAX_ROOTS: usize = 24;
/// Depth cap of the iterative deepening.
pub const MAX_DEPTH: i32 = 32;

/// The smaller of two budgets, where each may be absent; the default
/// when neither is given.
pub open spec fn base_budget(own: Option<u64>, turn: Option<u64>) -> int {
    match (own, turn) {
        (Some(a), Some(b)) => vstd::math::min(a as int, b as int),
        (Some(a), None) => a as int,
        (None, Some(b)) => b as int,
        (None, None) => DEFAULT_BUDGET_MS as int,
    }
}

/// The effective budget in milliseconds: the base budget less the fixed
/// margin, but never under [`MIN_BUDGET_MS`].
pub open spec fn budget_spec(own: Option<u64>, turn: Option<u64>) -> int {
    vstd::math::max(base_budget(own, turn) - SAFETY_MARGIN_MS, MIN_BUDGET_MS as int)
}

/// The effective budget of a move in milliseconds; see [`budget_spec`].
pub fn budget_millis(own: Option<u64>, turn: Option<u64>) -> (ms: u64)
    ensures
        ms == budget_spec(own, turn),
        ms >= MIN_BUDGET_MS,
{
    let base = match (own, turn) {
        (Some(a), Some(b)) => if a <= b {
            a
        } else {
            b
        },
        (Some(a), None) => a,
        (None, Some(b)) => b,
        (None, None) => DEFAULT_BUDGET_MS,
    };
    let left = base.saturating_sub(SAFETY_MARGIN_MS);
    if left > MIN_BUDGET_MS {
        left
    } else {
        MIN_BUDGET_MS
    }
}

/// `num` percent of `ms` (the product saturating), rounded down.
pub fn scale_millis(ms: u64, num: u32) -> (r: u64)
    ensures
        r == (if ms * num > u64::MAX {
            u64::MAX
        } else {
            (ms * num) as u64
        }) / 100,
{
    let n = num as u64;
    let prod: u64 = match ms.checked_mul(n) {
        Some(v) => v,
        None => u64::MAX,
    };
    prod / 100
}

/// `num` percent of the duration `d`, to the millisecond.
pub fn scale(d: &Duration, num: u32) -> Duration {
    from_millis(scale_millis(millis_u64(d), num))
}

/// `start` plus `ms` milliseconds; `start` itself when the sum would not
/// fit an `Instant`.
fn deadline_after(start: Instant, ms: u64) -> Instant {
    match later(start, from_millis(ms)) {
        Some(t) => t,
        None => start,
    }
}

/// The move that places a stone on the on-board grid point `(r, c)`.
pub fn place(r: i32, c: i32) -> (m: Move)
    requires
        0 <= r < 256,
        0 <= c < 256,
    ensures
        m == Move::Place(Position { row: r as u8, col: c as u8 }),
{
    Move::Place(Position::new(r as u8, c as u8))
}

/// The point of `points` with the highest ordering key; among equals the
/// last one. `None` for no points.
pub fn best_by_order(grid: &Grid, points: &Vec<(i32, i32)>, me: u8, opp: u8) -> (best: Option<(i32, i32)>)
    requires
        grid.wf(),
        is_stone(me),
        is_stone(opp),
        forall|k: int| 0 <= k < points@.len() ==> grid.view().has((#[trigger] points@[k]).0 as int, points@[k].1 as int),
    ensures
        best is None <==> points@.len() == 0,
        best matches Some(p) ==> exists|i: int|
            0 <= i < points@.len() && points@[i] == p && (forall|j: int|
                0 <= j < points@.len() ==> order_key_spec(grid.view(), (#[trigger] points@[j]).0 as int, points@[j].1 as int, me, opp)
                    <= order_key_spec(grid.view(), p.0 as int, p.1 as int, me, opp)) && (forall|j: int|
                i < j < points@.len() ==> order_key_spec(grid.view(), (#[trigger] points@[j]).0 as int, points@[j].1 as int, me, opp)
                    < order_key_spec(grid.view(), p.0 as int, p.1 as int, me, opp)),
{
    if points.len() == 0 {
        return None;
    }
    let ghost m = grid.view();
    let mut bi: usize = 0;
    let mut bk = order_key(grid, points[0].0, points[0].1, me, opp);
    let mut i: usize = 1;
    while i < points.len()
        invariant
            grid.wf(),
            m == grid.view(),
            is_stone(me),
            is_stone(opp),
            forall|k: int| 0 <= k < points@.len() ==> m.has((#[trigger] points@[k]).0 as int, points@[k].1 as int),
            1 <= i <= points@.len(),
            bi < i,
            bk == order_key_spec(m, points@[bi as int].0 as int, points@[bi as int].1 as int, me, opp),
            forall|j: int| 0 <= j < i ==> order_key_spec(m, (#[trigger] points@[j]).0 as int, points@[j].1 as int, me, opp) <= bk,
            forall|j: int| bi < j < i ==> order_key_spec(m, (#[trigger] points@[j]).0 as int, points@[j].1 as int, me, opp) < bk,
        decreases points@.len() - i,
    {
        let k = order_key(grid, points[i].0, points[i].1, me, opp);
        if k >= bk {
            bk = k;
            bi = i;
        }
        i = i + 1;
    }
    Some(points[bi])
}

/// The Onyx bot.
pub struct OnyxBot {
    /// A command-line budget per move; `None` takes the protocol's
    /// `timeout_turn`, then the default.
    budget: Option<Duration>,
}

impl OnyxBot {
    /// The bot's own budget per move, if set.
    pub closed spec fn own_budget(&self) -> Option<Duration> {
        self.budget
    }

    /// A bot with no budget of its own.
    pub fn new() -> (b: Self)
        ensures
            b.own_budget() is None,
    {
        OnyxBot { budget: None }
    }

    /// Sets the budget per move (the protocol's `timeout_turn` still caps it).
    pub fn with_budget(self, budget: Duration) -> (b: Self)
        ensures
            b.own_budget() == Some(budget),
    {
        OnyxBot { budget: Some(budget) }
    }

    /// The effective thinking time of this move: the smaller of the bot's
    /// budget and the protocol's `timeout_turn`, less a fixed margin for the
    /// protocol round trip, at least 20 ms.
    pub fn effective_budget(&self, ctx: &TurnContext) -> Duration {
        let own = match &self.budget {
            Some(d) => Some(millis_u64(d)),
            None => None,
        };
        let turn = match &ctx.timeout_turn {
            Some(d) => Some(millis_u64(d)),
            None => None,
        };
        from_millis(budget_millis(own, turn))
    }
}

impl Default for OnyxBot {
    fn default() -> (b: Self)
        ensures
            b.own_budget() is None,
    {
        Self::new()
    }
}

/// Some model of the board has `p` as a five point of `color`.
pub open spec fn five_point_on(b: Board, p: Position, color: u8, win: Win) -> bool {
    exists|m: GridModel| #[trigger] mirrors(m, b) && m.win_point(p.row as int, p.col as int, color, win)
}

/// Some model of the board has a five point of `color`.
pub open spec fn has_five_point(b: Board, color: u8, win: Win) -> bool {
    exists|m: GridModel, p: (i32, i32)|
        #[trigger] mirrors(m, b) && #[trigger] m.win_point(p.0 as int, p.1 as int, color, win)
}

impl MoveSource for OnyxBot {
    #[verifier::rlimit(60)]
    fn next_move(&mut self, ctx: &TurnContext, stop: &StopFlag) -> (mv: Move)
        ensures
            (forall|r: int, c: int| ctx.board.has(r, c) ==> ctx.board.empty_at(r, c)) ==> mv == Move::Place(
                Position { row: (ctx.board.h() / 2) as u8, col: (ctx.board.w() / 2) as u8 },
            ),
            has_five_point(ctx.board, color_code(ctx.side_to_move), win_of(ctx.rule_set.win_rule))
                ==> five_point_on(
                ctx.board,
                mv.pos(),
                color_code(ctx.side_to_move),
                win_of(ctx.rule_set.win_rule),
            ),
            !has_five_point(ctx.board, color_code(ctx.side_to_move), win_of(ctx.rule_set.win_rule))
                && has_five_point(
                ctx.board,
                other_code(color_code(ctx.side_to_move)),
                win_of(ctx.rule_set.win_rule),
            ) ==> five_point_on(
                ctx.board,
                mv.pos(),
                other_code(color_code(ctx.side_to_move)),
                win_of(ctx.rule_set.win_rule),
            ),
            ctx.board.empty_at(mv.pos().row as int, mv.pos().col as int) || mv == ctx.legal_moves@[0]
                || ctx.board.w() == 0 || ctx.board.h() == 0,
    {
        let start = now();
        let me = code_of(ctx.side_to_move);
        let opp = code_of(ctx.side_to_move.opposite());
        let win = Win::from_rule(ctx.rule_set.win_rule);
        let mut grid = Grid::from_board(&ctx.board);
        let ghost m = grid.view();
        proof {
            grid.lemma_wf();
            assert(mirrors(m, ctx.board));
            assert(opp == other_code(me));
        }
        if grid.stone_count() == 0 {
            proof {
                ctx.board.lemma_dims();
                lemma_empty_board(m, ctx.board, me, win);
                lemma_empty_board(m, ctx.board, opp, win);
                let cr = ctx.board.h() / 2;
                let cc = ctx.board.w() / 2;
                if ctx.board.w() > 0 && ctx.board.h() > 0 {
                    assert(m.has(cr, cc));
                    assert(m.code(cr, cc) == cell_code(ctx.board.at(cr, cc)));
                }
            }
            let center = Position::new(ctx.board.height() / 2, ctx.board.width() / 2);
            return Move::Place(center);
        }
        proof {
            assert(!(forall|r: int, c: int| ctx.board.has(r, c) ==> ctx.board.empty_at(r, c))) by {
                let (x, y) = choose|x: int, y: int| #[trigger] m.has(x, y) && m.code(x, y) != EMPTY;
                assert(ctx.board.has(x, y));
                assert(m.code(x, y) == cell_code(ctx.board.at(x, y)));
            }
        }
        let own = match &self.budget {
            Some(d) => Some(millis_u64(d)),
            None => None,
        };
        let turn = match &ctx.timeout_turn {
            Some(d) => Some(millis_u64(d)),
            None => None,
        };
        let budget = budget_millis(own, turn);
        let deadline = deadline_after(start, budget);

        // 1) An immediate five.
        let my_wins = grid.win_points(me, win);
        let ghost f1 = grid.fresh();
        proof {
            assert forall|k: int| 0 <= k < my_wins@.len() implies grid.view().has((#[trigger] my_wins@[k]).0 as int, my_wins@[k].1 as int) by {
                assert(m.win_point(my_wins@[k].0 as int, my_wins@[k].1 as int, me, win));
            }
        }
        match best_by_order(&grid, &my_wins, me, opp) {
            Some((r, c)) => {
                proof {
                    let i = choose|i: int| 0 <= i < my_wins@.len() && my_wins@[i] == (r, c);
                    assert(m.win_point(my_wins@[i].0 as int, my_wins@[i].1 as int, me, win));
                    lemma_five_point(m, ctx.board, r as int, c as int, me, win);
                }
                return place(r, c);
            },
            None => {},
        }
        proof {
            // The grid is fresh: two scans since it was built.
            assert(f1);
            lemma_no_five_point(m, ctx.board, me, win, my_wins@);
        }

        // 2) Block the opponent's five point.
        let opp_wins = grid.win_points(opp, win);
        proof {
            assert forall|k: int| 0 <= k < opp_wins@.len() implies grid.view().has((#[trigger] opp_wins@[k]).0 as int, opp_wins@[k].1 as int) by {
                assert(m.win_point(opp_wins@[k].0 as int, opp_wins@[k].1 as int, opp, win));
            }
        }
        match best_by_order(&grid, &opp_wins, me, opp) {
            Some((r, c)) => {
                proof {
                    let i = choose|i: int| 0 <= i < opp_wins@.len() && opp_wins@[i] == (r, c);
                    assert(m.win_point(opp_wins@[i].0 as int, opp_wins@[i].1 as int, opp, win));
                    lemma_five_point(m, ctx.board, r as int, c as int, opp, win);
                }
                return place(r, c);
            },
            None => {},
        }
        proof {
            assert(grid.fresh());
            lemma_no_five_point(m, ctx.board, opp, win, opp_wins@);
        }

        // 3) A VCF win.
        let vcf_deadline = earlier(deadline_after(start, scale_millis(budget, VCF_NUM)), deadline);
        match vcf_win_move(&mut grid, me, win, stop, vcf_deadline, 0xFFFF_FFFF_FFFF_FFFFu64) {
            Some((r, c)) => {
                proof {
                    lemma_empty_on_board(m, ctx.board, r as int, c as int);
                }
                return place(r, c);
            },
            None => {},
        }

        // 3b) A VCT win.
        let threat_deadline = earlier(deadline_after(start, scale_millis(budget, VCT_NUM)), deadline);
        match vct_win_move(&mut grid, me, win, stop, threat_deadline, VCT_NODE_CAP) {
            Some((r, c)) => {
                proof {
                    lemma_empty_on_board(m, ctx.board, r as int, c as int);
                }
                return place(r, c);
            },
            None => {},
        }

        // Root candidates: empty points within two of any stone, by key.
        let raw = grid.neighborhood_all(2);
        if raw.len() == 0 {
            return ctx.legal_moves[0];
        }
        let mut keyed: Vec<((i32, i32), i64)> = Vec::new();
        let mut i: usize = 0;
        while i < raw.len()
            invariant
                grid.wf(),
                grid.view() == m,
                is_stone(me),
                is_stone(opp),
                i <= raw@.len(),
                keyed@.len() == i,
                forall|k: int| 0 <= k < raw@.len() ==> m.empty((#[trigger] raw@[k]).0 as int, raw@[k].1 as int),
                forall|k: int| 0 <= k < i ==> (#[trigger] keyed@[k]).0 == raw@[k],
            decreases raw@.len() - i,
        {
            let (r, c) = raw[i];
            let key = order_key(&grid, r, c, me, opp);
            keyed.push(((r, c), key as i64));
            i = i + 1;
        }
        let sorted = sort_desc(keyed);
        let mut roots: Vec<(i32, i32)> = Vec::new();
        let mut j: usize = 0;
        while j < sorted.len() && j < MAX_ROOTS
            invariant
                j <= sorted@.len(),
                roots@.len() == j,
                forall|k: int| 0 <= k < keyed@.len() ==> (#[trigger] keyed@[k]).0 == raw@[k],
                keyed@.len() == raw@.len(),
                forall|x: ((i32, i32), i64)| #[trigger] sorted@.contains(x) <==> keyed@.contains(x),
                forall|k: int| 0 <= k < raw@.len() ==> m.empty((#[trigger] raw@[k]).0 as int, raw@[k].1 as int),
                forall|k: int| 0 <= k < roots@.len() ==> m.empty((#[trigger] roots@[k]).0 as int, roots@[k].1 as int),
            decreases sorted@.len() - j,
        {
            let e = sorted[j];
            proof {
                assert(sorted@.contains(sorted@[j as int]));
                let t = choose|t: int| 0 <= t < keyed@.len() && keyed@[t] == sorted@[j as int];
                assert(raw@[t] == e.0);
            }
            let ghost o0 = roots@;
            roots.push(e.0);
            proof {
                assert forall|k: int| 0 <= k < roots@.len() implies m.empty((#[trigger] roots@[k]).0 as int, roots@[k].1 as int) by {
                    if k < o0.len() {
                        assert(roots@[k] == o0[k]);
                    }
                }
            }
            j = j + 1;
        }
        proof {
            assert(sorted@.len() == raw@.len());
        }

        // 4) Defence filter: drop the moves after which the opponent wins
        // at once or by VCF.
        let defense_deadline = earlier(deadline_after(start, scale_millis(budget, DEFENSE_NUM)), deadline);
        let mut safe: Vec<(i32, i32)> = Vec::new();
        let mut t: usize = 0;
        while t < roots.len()
            invariant
                grid.wf(),
                grid.view() == m,
                m.w >= 0,
                m.cells.len() == m.w * m.h,
                is_stone(me),
                is_stone(opp),
                opp == other_code(me),
                t <= roots@.len(),
                roots@.len() > 0,
                forall|k: int| 0 <= k < roots@.len() ==> m.empty((#[trigger] roots@[k]).0 as int, roots@[k].1 as int),
                forall|k: int| 0 <= k < safe@.len() ==> m.empty((#[trigger] safe@[k]).0 as int, safe@[k].1 as int),
            decreases roots@.len() - t,
        {
            let (r, c) = roots[t];
            proof {
                assert(m.empty(roots@[t as int].0 as int, roots@[t as int].1 as int));
            }
            let now_t = now();
            if at_or_after(&now_t, &defense_deadline) {
                let ghost o0 = safe@;
                safe.push((r, c));
                proof {
                    assert forall|k: int| 0 <= k < safe@.len() implies m.empty((#[trigger] safe@[k]).0 as int, safe@[k].1 as int) by {
                        if k < o0.len() {
                            assert(safe@[k] == o0[k]);
                        }
                    }
                }
            } else {
                proof {
                    lemma_make_unmake(grid.zkeys(), m, r as int, c as int, me);
                    lemma_place_code(m, r as int, c as int, me);
                }
                grid.place(r, c, me);
                let loses = if grid.has_immediate_win(opp, win) {
                    true
                } else {
                    let check = earlier(deadline_after(now(), PER_DEFENSE_CHECK_MS), defense_deadline);
                    has_vcf(&mut grid, opp, win, stop, check, 0xFFFF_FFFF_FFFF_FFFFu64)
                };
                grid.unplace(r, c, me);
                if !loses {
                    let ghost o0 = safe@;
                    safe.push((r, c));
                    proof {
                        assert forall|k: int| 0 <= k < safe@.len() implies m.empty((#[trigger] safe@[k]).0 as int, safe@[k].1 as int) by {
                            if k < o0.len() {
                                assert(safe@[k] == o0[k]);
                            }
                        }
                    }
                }
            }
            t = t + 1;
        }
        let root_moves = if safe.len() == 0 {
            roots
        } else {
            safe
        };

        // 5) Iterative-deepening alpha-beta.
        let first = root_moves[0];
        proof {
            assert(m.empty(root_moves@[0].0 as int, root_moves@[0].1 as int));
        }
        if grid.width() > 50 || grid.height() > 50 {
            proof {
                lemma_empty_on_board(m, ctx.board, first.0 as int, first.1 as int);
            }
            return place(first.0, first.1);
        }
        match search_best(&mut grid, me, win, root_moves.as_slice(), stop, deadline, MAX_DEPTH) {
            Some((r, c)) => {
                proof {
                    let k = choose|k: int| 0 <= k < root_moves@.len() && root_moves@[k] == (r, c);
                    assert(m.empty(root_moves@[k].0 as int, root_moves@[k].1 as int));
                    lemma_empty_on_board(m, ctx.board, r as int, c as int);
                }
                place(r, c)
            },
            None => {
                proof {
                    lemma_empty_on_board(m, ctx.board, first.0 as int, first.1 as int);
                }
                place(first.0, first.1)
            },
        }
    }
}

/// A five point of a model of the board is one for every model.
proof fn lemma_five_point(m: GridModel, b: Board, r: int, c: int, color: u8, win: Win)
    requires
        mirrors(m, b),
        m.win_point(r, c, color, win),
        0 <= r < 256,
        0 <= c < 256,
    ensures
        five_point_on(b, Position { row: r as u8, col: c as u8 }, color, win),
        b.empty_at(r, c),
{
    assert(b.has(r, c));
    assert(m.code(r, c) == cell_code(b.at(r, c)));
    assert(m.win_point((r as u8) as int, (c as u8) as int, color, win));
}

/// Two models of one board agree on every point, hence on every five point.
proof fn lemma_mirrors_agree(m1: GridModel, m2: GridModel, b: Board, r: int, c: int, color: u8, win: Win)
    requires
        mirrors(m1, b),
        mirrors(m2, b),
    ensures
        m1.win_point(r, c, color, win) == m2.win_point(r, c, color, win),
{
    assert forall|x: int, y: int| #[trigger] m1.code(x, y) == m2.code(x, y) by {
        if b.has(x, y) {
            assert(m1.code(x, y) == cell_code(b.at(x, y)));
            assert(m2.code(x, y) == cell_code(b.at(x, y)));
        }
    }
    let f = m1.fuel();
    assert forall|k: int| 0 <= k < 4 implies m1.run(r, c, k, color) == m2.run(r, c, k, color) by {
        lemma_count_mask(m1, m2, r, c, dir_r(k), dir_c(k), color, f);
        lemma_count_mask(m1, m2, r, c, -dir_r(k), -dir_c(k), color, f);
    }
    assert(m1.run(r, c, 0, color) == m2.run(r, c, 0, color));
    assert(m1.run(r, c, 1, color) == m2.run(r, c, 1, color));
    assert(m1.run(r, c, 2, color) == m2.run(r, c, 2, color));
    assert(m1.run(r, c, 3, color) == m2.run(r, c, 3, color));
}

/// With every five point of `m` listed and the list empty, no model of the
/// board has a five point.
proof fn lemma_no_five_point(m: GridModel, b: Board, color: u8, win: Win, list: Seq<(i32, i32)>)
    requires
        mirrors(m, b),
        list.len() == 0,
        forall|p: (i32, i32)| m.win_point(p.0 as int, p.1 as int, color, win) ==> #[trigger] list.contains(p),
    ensures
        !has_five_point(b, color, win),
{
    if has_five_point(b, color, win) {
        let (m2, p) = choose|m2: GridModel, p: (i32, i32)|
            #[trigger] mirrors(m2, b) && #[trigger] m2.win_point(p.0 as int, p.1 as int, color, win);
        lemma_mirrors_agree(m, m2, b, p.0 as int, p.1 as int, color, win);
        assert(list.contains(p));
    }
}

/// An empty board has no five point.
proof fn lemma_empty_board(m: GridModel, b: Board, color: u8, win: Win)
    requires
        mirrors(m, b),
        is_stone(color),
        forall|x: int, y: int| #[trigger] m.has(x, y) ==> m.code(x, y) == EMPTY,
    ensures
        !has_five_point(b, color, win),
{
    if has_five_point(b, color, win) {
        let (m2, p) = choose|m2: GridModel, p: (i32, i32)|
            #[trigger] mirrors(m2, b) && #[trigger] m2.win_point(p.0 as int, p.1 as int, color, win);
        lemma_mirrors_agree(m, m2, b, p.0 as int, p.1 as int, color, win);
        let r = p.0 as int;
        let c = p.1 as int;
        let f = m.fuel();
        assert forall|k: int| 0 <= k < 4 implies m.run(r, c, k, color) == 1 by {
            let dr = dir_r(k);
            let dc = dir_c(k);
            assert(m.has(r + dr, c + dc) ==> m.code(r + dr, c + dc) == EMPTY);
            assert(m.has(r - dr, c - dc) ==> m.code(r - dr, c - dc) == EMPTY);
            assert(m.count(r, c, dr, dc, color, f) == 0);
            assert(m.count(r, c, -dr, -dc, color, f) == 0);
        }
        assert(m.run(r, c, 0, color) == 1);
        assert(m.run(r, c, 1, color) == 1);
        assert(m.run(r, c, 2, color) == 1);
        assert(m.run(r, c, 3, color) == 1);
    }
}

/// An empty point of a model of the board is empty on the board.
proof fn lemma_empty_on_board(m: GridModel, b: Board, r: int, c: int)
    requires
        mirrors(m, b),
        m.empty(r, c),
    ensures
        b.empty_at(r, c),
{
    assert(b.has(r, c));
    assert(m.code(r, c) == cell_code(b.at(r, c)));
}

} // verus!
