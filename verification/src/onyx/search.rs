//! Search: continuous-four wins (VCF) and the time-boxed iterative
//! deepening alpha-beta.
//!
//! - [`vcf_win_move`] / [`has_vcf`]: the attacker plays only fours, each
//!   forcing the one block, to prove a forced win. A claimed win does not
//!   assume the defender's cooperation: the defender either blocks the one
//!   five point or, if it can already make five itself, refutes the line.
//! - [`search_best`]: the fallback for quiet positions, a negamax alpha-beta
//!   with iterative deepening, bounded by a deadline and the stop flag.

use std::time::Instant;

use vstd::prelude::*;

use super::eval::{evaluate, evaluation, lemma_evaluation_bounds, order_key};
use super::grid::{
    counted, is_stone, lemma_counted_two, lemma_make_unmake, lemma_place_code, lemma_place_other, new_five, other_code, Grid,
    GridModel, Win, BLACK, EMPTY, WHITE,
};
use crate::bot::clock::{at_or_after, now};
use crate::bot::StopFlag;
use crate::sort::sort_desc;

verus! {

broadcast use super::grid::lemma_wf_fresh;

/// The score of a win (far above any static evaluation in play).
pub const WIN: i32 = 10_000_000;
/// The deepest iteration searched: a board of at most 50 points a side has
/// no more than 2500 moves, so deeper iterations reach no new position.
pub const MAX_SEARCH_DEPTH: i32 = 2500;
/// The threshold from which a score means a forced win.
pub const MATE: i32 = WIN - 10_000;
/// How many candidates an inner node expands at most.
const TOP_K: usize = 16;
/// How many attacking fours a VCF may chain (time still comes first).
pub const VCF_MAX_DEPTH: i32 = 40;
/// The node cap of the VCF extension at leaves after a forcing move.
const QUIESCENCE_VCF_NODES: u64 = 800;
/// How often (in nodes) negamax reads the clock; the first node of each
/// iteration reads it too.
const TIME_CHECK_MASK: u64 = 63;
/// The side key xored into the probe key when White is to move.
const SIDE_KEY: u64 = 0x9E37_79B9_7F4A_7C15;
/// How often (in nodes) the VCF reads the clock: its nodes are heavy.
const VCF_TIME_MASK: u64 = 31;
/// The number of transposition table slots, a power of two.
const TT_SLOTS: usize = 524_288;
/// A bound on every score the search handles: wins and static evaluations
/// of boards up to 50 points a side.
pub const SCORE_BOUND: i32 = 2_000_000_000;

// ---------------------------------------------------------------------
// What a VCF proves.
// ---------------------------------------------------------------------

/// `atk`, to move on `g`, wins by continuous fours: some move of it is a
/// [`winning_move`] with at most `n` more fours after the first.
pub open spec fn vcf_wins(g: GridModel, atk: u8, win: Win, n: nat) -> bool
    decreases n, 3nat,
{
    exists|p: (i32, i32)| #[trigger] g.empty(p.0 as int, p.1 as int) && winning_move(g, p, atk, win, n)
}

/// Playing `p` wins for `atk`: it makes five at once, or it is a four that
/// [`four_holds`].
pub open spec fn winning_move(g: GridModel, p: (i32, i32), atk: u8, win: Win, n: nat) -> bool
    decreases n, 2nat,
{
    ||| g.win_point(p.0 as int, p.1 as int, atk, win)
    ||| (g.empty(p.0 as int, p.1 as int) && four_holds(
        g.place(p.0 as int, p.1 as int, atk),
        atk,
        win,
        n,
    ))
}

/// With the defender to move on `g`: `atk` threatens five, the defender
/// cannot make five itself, and every reply leaves `atk` a win
/// ([`after_reply`]).
pub open spec fn four_holds(g: GridModel, atk: u8, win: Win, n: nat) -> bool
    decreases n, 1nat,
{
    let def = other_code(atk);
    &&& exists|p: (i32, i32)| #[trigger] g.win_point(p.0 as int, p.1 as int, atk, win)
    &&& forall|p: (i32, i32)| !#[trigger] g.win_point(p.0 as int, p.1 as int, def, win)
    &&& forall|p: (i32, i32)|
        #[trigger] g.empty(p.0 as int, p.1 as int) ==> after_reply(
            g.place(p.0 as int, p.1 as int, def),
            atk,
            win,
            n,
        )
}

/// After the defender's reply, `atk` makes five at once, or wins by
/// continuous fours with one four fewer.
pub open spec fn after_reply(g: GridModel, atk: u8, win: Win, n: nat) -> bool
    decreases n, 0nat,
{
    ||| exists|p: (i32, i32)| #[trigger] g.win_point(p.0 as int, p.1 as int, atk, win)
    ||| (n > 0 && vcf_wins(g, atk, win, (n - 1) as nat))
}

/// A four of `color` as `four_moves` reports it: the point is empty and,
/// once played, `color` has (at least, or exactly when `complete`) the
/// reported number of win points.
pub open spec fn four_fact(m: GridModel, color: u8, win: Win, e: ((i32, i32), u32), complete: bool) -> bool {
    &&& m.empty(e.0.0 as int, e.0.1 as int)
    &&& e.1 >= 1
    &&& counted(m.place(e.0.0 as int, e.0.1 as int, color), color, win, e.1 as int, complete)
}

/// No point of `g` is a win point of `color`.
pub open spec fn no_win_point(g: GridModel, color: u8, win: Win) -> bool {
    forall|p: (i32, i32)| !#[trigger] g.win_point(p.0 as int, p.1 as int, color, win)
}

/// A four with two win points holds: one reply cannot block both.
proof fn lemma_double_four(g1: GridModel, atk: u8, win: Win, wins: int, complete: bool, n: nat)
    requires
        g1.w >= 0,
        g1.cells.len() == g1.w * g1.h,
        is_stone(atk),
        counted(g1, atk, win, wins, complete),
        wins >= 2,
        no_win_point(g1, other_code(atk), win),
    ensures
        four_holds(g1, atk, win, n),
{
    let def = other_code(atk);
    let pq = lemma_counted_two(g1, atk, win, wins, complete);
    assert(g1.win_point(pq.0.0 as int, pq.0.1 as int, atk, win));
    assert forall|p: (i32, i32)| #[trigger] g1.empty(p.0 as int, p.1 as int) implies after_reply(
        g1.place(p.0 as int, p.1 as int, def),
        atk,
        win,
        n,
    ) by {
        let q = if p != pq.0 {
            pq.0
        } else {
            pq.1
        };
        lemma_place_other(g1, p.0 as int, p.1 as int, def, atk, q.0 as int, q.1 as int, win);
        assert(g1.place(p.0 as int, p.1 as int, def).win_point(q.0 as int, q.1 as int, atk, win));
    }
}

/// A four whose five point `b` is its only block holds when blocking `b`
/// still loses for the defender.
proof fn lemma_single_four(g1: GridModel, atk: u8, win: Win, b: (i32, i32), n: nat)
    requires
        g1.w >= 0,
        g1.cells.len() == g1.w * g1.h,
        is_stone(atk),
        g1.win_point(b.0 as int, b.1 as int, atk, win),
        no_win_point(g1, other_code(atk), win),
        n > 0,
        vcf_wins(g1.place(b.0 as int, b.1 as int, other_code(atk)), atk, win, (n - 1) as nat),
    ensures
        four_holds(g1, atk, win, n),
{
    let def = other_code(atk);
    assert forall|p: (i32, i32)| #[trigger] g1.empty(p.0 as int, p.1 as int) implies after_reply(
        g1.place(p.0 as int, p.1 as int, def),
        atk,
        win,
        n,
    ) by {
        if p != b {
            lemma_place_other(g1, p.0 as int, p.1 as int, def, atk, b.0 as int, b.1 as int, win);
            assert(g1.place(p.0 as int, p.1 as int, def).win_point(b.0 as int, b.1 as int, atk, win));
        }
    }
}

/// The other stone code.
pub fn other(color: u8) -> (r: u8)
    ensures
        r == other_code(color),
{
    if color == BLACK {
        WHITE
    } else {
        BLACK
    }
}

/// Orders the fours by descending number of win points (double fours and
/// open fours first).
fn order_fours(moves: &Vec<((i32, i32), u32)>) -> (out: Vec<((i32, i32), u32)>)
    ensures
        out@.len() == moves@.len(),
        forall|k: int| 0 <= k < out@.len() ==> moves@.contains(#[trigger] out@[k]),
        forall|k: int| 0 <= k < moves@.len() ==> out@.contains(#[trigger] moves@[k]),
        forall|a: int, b: int| 0 <= a < b < out@.len() ==> out@[a].1 >= out@[b].1,
{
    let mut keyed: Vec<(((i32, i32), u32), i64)> = Vec::new();
    let mut i: usize = 0;
    while i < moves.len()
        invariant
            i <= moves@.len(),
            keyed@.len() == i,
            forall|k: int| 0 <= k < i ==> #[trigger] keyed@[k] == (moves@[k], moves@[k].1 as i64),
        decreases moves@.len() - i,
    {
        keyed.push((moves[i], moves[i].1 as i64));
        i = i + 1;
    }
    let sorted = sort_desc(keyed);
    let mut out: Vec<((i32, i32), u32)> = Vec::new();
    let mut j: usize = 0;
    while j < sorted.len()
        invariant
            j <= sorted@.len(),
            sorted@.len() == moves@.len(),
            out@.len() == j,
            forall|k: int| 0 <= k < j ==> #[trigger] out@[k] == sorted@[k].0,
            forall|k: int| 0 <= k < keyed@.len() ==> #[trigger] keyed@[k] == (moves@[k], moves@[k].1 as i64),
            forall|x: (((i32, i32), u32), i64)| #[trigger] sorted@.contains(x) <==> keyed@.contains(x),
            forall|a: int, b: int| 0 <= a < b < sorted@.len() ==> sorted@[a].1 >= sorted@[b].1,
            keyed@.len() == moves@.len(),
        decreases sorted@.len() - j,
    {
        let e = sorted[j];
        proof {
            assert(sorted@.contains(sorted@[j as int]));
            let t = choose|t: int| 0 <= t < keyed@.len() && keyed@[t] == sorted@[j as int];
            assert(keyed@[t] == (moves@[t], moves@[t].1 as i64));
            assert(e.1 == e.0.1 as i64);
        }
        out.push(e.0);
        j = j + 1;
    }
    proof {
        assert forall|k: int| 0 <= k < out@.len() implies moves@.contains(#[trigger] out@[k]) by {
            assert(sorted@.contains(sorted@[k]));
            let t = choose|t: int| 0 <= t < keyed@.len() && keyed@[t] == sorted@[k];
            assert(keyed@[t] == (moves@[t], moves@[t].1 as i64));
            assert(moves@[t] == out@[k]);
        }
        assert forall|a: int, b: int| 0 <= a < b < out@.len() implies out@[a].1 >= out@[b].1 by {
            assert(sorted@.contains(sorted@[a]));
            assert(sorted@.contains(sorted@[b]));
            let ta = choose|t: int| 0 <= t < keyed@.len() && keyed@[t] == sorted@[a];
            let tb = choose|t: int| 0 <= t < keyed@.len() && keyed@[t] == sorted@[b];
            assert(keyed@[ta] == (moves@[ta], moves@[ta].1 as i64));
            assert(keyed@[tb] == (moves@[tb], moves@[tb].1 as i64));
        }
        assert forall|k: int| 0 <= k < moves@.len() implies out@.contains(#[trigger] moves@[k]) by {
            assert(keyed@[k] == (moves@[k], moves@[k].1 as i64));
            assert(keyed@.contains(keyed@[k]));
            assert(sorted@.contains(keyed@[k]));
            let q = choose|q: int| 0 <= q < sorted@.len() && sorted@[q] == keyed@[k];
            assert(out@[q] == sorted@[q].0);
        }
    }
    out
}

/// A double four is owed to `atk`: it has no five point yet, some point
/// within two of its stones, no five itself, leaves it two five points, and
/// no empty point, once `atk` has played there, leaves the defender a five
/// point.
pub open spec fn double_four_owed(m: GridModel, atk: u8, win: Win) -> bool {
    &&& no_win_point(m, atk, win)
    &&& exists|p: (i32, i32), q1: (i32, i32), q2: (i32, i32)|
        m.empty(p.0 as int, p.1 as int) && m.near_color(p.0 as int, p.1 as int, atk, 2) && !m.wins_at(
            p.0 as int,
            p.1 as int,
            atk,
            win,
        ) && q1 != q2 && #[trigger] m.place(p.0 as int, p.1 as int, atk).win_point(q1.0 as int, q1.1 as int, atk, win)
            && #[trigger] m.place(p.0 as int, p.1 as int, atk).win_point(q2.0 as int, q2.1 as int, atk, win)
    &&& forall|p: (i32, i32)|
        #[trigger] m.empty(p.0 as int, p.1 as int) ==> no_win_point(m.place(p.0 as int, p.1 as int, atk), other_code(atk), win)
}

/// The VCF searcher's budget.
struct Vcf {
    win: Win,
    deadline: Instant,
    nodes: u64,
    /// Node cap: the root search passes `u64::MAX`, leaf extensions a small cap.
    node_cap: u64,
    aborted: bool,
}

impl Vcf {
    /// Counts a node; aborts once over the node cap, past the deadline or
    /// stopped. The clock is read on the first node and then every
    /// [`VCF_TIME_MASK`] + 1 nodes.
    /// The node count after one more node.
    spec fn next_nodes(&self) -> u64 {
        if self.nodes < u64::MAX {
            (self.nodes + 1) as u64
        } else {
            self.nodes
        }
    }

    /// The next node neither reads the clock nor passes the node cap, and
    /// nothing has aborted yet: it cannot abort.
    spec fn node_free(&self) -> bool {
        &&& !self.aborted
        &&& self.next_nodes() <= self.node_cap
        &&& self.next_nodes() != 1
        &&& self.next_nodes() & VCF_TIME_MASK != 0
    }

    fn out_of_time(&mut self, stop: &StopFlag) -> (b: bool)
        ensures
            final(self).win == old(self).win,
            b == final(self).aborted,
            old(self).aborted ==> b,
            final(self).nodes == old(self).next_nodes(),
            final(self).node_cap == old(self).node_cap,
            final(self).nodes > final(self).node_cap ==> b,
            old(self).node_free() ==> !b,
    {
        self.nodes = self.nodes.saturating_add(1);
        let check = self.nodes == 1 || self.nodes & VCF_TIME_MASK == 0;
        let timed = if check {
            let t = now();
            at_or_after(&t, &self.deadline) || stop.should_stop()
        } else {
            false
        };
        if self.nodes > self.node_cap || timed {
            self.aborted = true;
        }
        self.aborted
    }

    /// The attacker to move: whether it has a forced win by fours, with at
    /// most `depth` more fours after the first.
    fn attack(&mut self, grid: &mut Grid, atk: u8, def: u8, depth: i32, stop: &StopFlag) -> (res: bool)
        requires
            old(grid).wf(),
            is_stone(atk),
            def == other_code(atk),
            depth >= 0,
        ensures
            final(grid).wf(),
            final(grid).view() == old(grid).view(),
            final(grid).zkeys() == old(grid).zkeys(),
            final(grid).hash_value() == old(grid).hash_value(),
            final(grid).fresh() ==> old(grid).fresh(),
            final(self).win == old(self).win,
            res && final(grid).fresh() ==> vcf_wins(old(grid).view(), atk, old(self).win, depth as nat),
            old(self).node_free() && final(grid).fresh() && double_four_owed(old(grid).view(), atk, old(self).win) ==> res,
        decreases depth,
    {
        if self.out_of_time(stop) {
            return false;
        }
        let win = self.win;
        let ghost m = grid.view();
        let ghost g0 = *grid;
        proof {
            grid.lemma_wf();
        }
        let moves = grid.four_moves(atk, win);
        let ghost f4 = grid.fresh();
        proof {
            assert forall|k: int| 0 <= k < moves@.len() implies four_fact(m, atk, win, #[trigger] moves@[k], f4) by {
                let p = moves@[k].0;
                assert(m.empty(p.0 as int, p.1 as int));
            }
        }
        let sorted = order_fours(&moves);
        let n = sorted.len();
        proof {
            if f4 && double_four_owed(m, atk, win) {
                let (p, q1, q2) = choose|p: (i32, i32), q1: (i32, i32), q2: (i32, i32)|
                    m.empty(p.0 as int, p.1 as int) && m.near_color(p.0 as int, p.1 as int, atk, 2) && !m.wins_at(
                        p.0 as int,
                        p.1 as int,
                        atk,
                        win,
                    ) && q1 != q2 && #[trigger] m.place(p.0 as int, p.1 as int, atk).win_point(
                        q1.0 as int,
                        q1.1 as int,
                        atk,
                        win,
                    ) && #[trigger] m.place(p.0 as int, p.1 as int, atk).win_point(q2.0 as int, q2.1 as int, atk, win);
                assert(!m.win_point(q1.0 as int, q1.1 as int, atk, win));
                assert(new_five(m, p, atk, win));
                let kk = choose|kk: int| 0 <= kk < moves@.len() && (#[trigger] moves@[kk]).0 == p;
                let g1 = m.place(p.0 as int, p.1 as int, atk);
                assert(four_fact(m, atk, win, moves@[kk], f4));
                let ws = choose|ws: Seq<(i32, i32)>|
                    #![trigger ws.len()]
                    ws.len() == moves@[kk].1 as int && ws.no_duplicates() && (forall|t: int|
                        0 <= t < ws.len() ==> g1.win_point((#[trigger] ws[t]).0 as int, ws[t].1 as int, atk, win))
                        && (f4 ==> forall|x: (i32, i32)| g1.win_point(x.0 as int, x.1 as int, atk, win) ==> #[trigger] ws.contains(x));
                assert(ws.contains(q1));
                assert(ws.contains(q2));
                let t1 = choose|t: int| 0 <= t < ws.len() && ws[t] == q1;
                let t2 = choose|t: int| 0 <= t < ws.len() && ws[t] == q2;
                assert(t1 != t2);
                assert(moves@[kk].1 >= 2);
                assert(sorted@.contains(moves@[kk]));
                let j = choose|j: int| 0 <= j < sorted@.len() && sorted@[j] == moves@[kk];
                if j > 0 {
                    assert(sorted@[0].1 >= sorted@[j].1);
                }
            }
        }
        let mut i: usize = 0;
        while i < n
            invariant
                grid.wf(),
                grid.view() == m,
                grid.zkeys() == g0.zkeys(),
                grid.hash_value() == g0.hash_value(),
                grid.fresh() ==> f4,
                f4 ==> g0.fresh(),
                m == g0.view(),
                g0 == *old(grid),
                m.w >= 0,
                m.cells.len() == m.w * m.h,
                self.win == win,
                win == old(self).win,
                is_stone(atk),
                def == other_code(atk),
                depth >= 0,
                n == sorted@.len(),
                i <= n,
                forall|k: int| 0 <= k < moves@.len() ==> four_fact(m, atk, win, #[trigger] moves@[k], f4),
                forall|k: int| 0 <= k < sorted@.len() ==> moves@.contains(#[trigger] sorted@[k]),
                grid.fresh() && double_four_owed(m, atk, win) ==> i == 0 && n > 0 && sorted@[0].1 >= 2,
            decreases n - i,
        {
            let e = sorted[i];
            let (r, c) = e.0;
            let wins = e.1;
            proof {
                assert(moves@.contains(sorted@[i as int]));
                let t = choose|t: int| 0 <= t < moves@.len() && moves@[t] == sorted@[i as int];
                assert(four_fact(m, atk, win, moves@[t], f4));
                lemma_make_unmake(g0.zkeys(), m, r as int, c as int, atk);
                lemma_place_code(m, r as int, c as int, atk);
            }
            let ghost g1 = m.place(r as int, c as int, atk);
            grid.place(r, c, atk);
            if wins >= 2 {
                let opp_wins = grid.has_immediate_win(def, win);
                grid.unplace(r, c, atk);
                if !opp_wins {
                    proof {
                        if grid.fresh() {
                            lemma_double_four(g1, atk, win, wins as int, f4, depth as nat);
                            assert(winning_move(m, (r, c), atk, win, depth as nat));
                            assert(vcf_wins(m, atk, win, depth as nat));
                        }
                    }
                    return true;
                }
                i = i + 1;
                continue;
            }
            if grid.has_immediate_win(def, win) {
                grid.unplace(r, c, atk);
                i = i + 1;
                continue;
            }
            let ghost no_def = grid.fresh();
            let wp = grid.win_points(atk, win);
            if wp.len() != 1 {
                grid.unplace(r, c, atk);
                i = i + 1;
                continue;
            }
            let (br, bc) = wp[0];
            proof {
                assert(g1.win_point(br as int, bc as int, atk, win));
                lemma_make_unmake(g0.zkeys(), g1, br as int, bc as int, def);
                lemma_place_code(g1, br as int, bc as int, def);
            }
            grid.place(br, bc, def);
            let res = if depth > 0 {
                self.attack(grid, atk, def, depth - 1, stop)
            } else {
                false
            };
            grid.unplace(br, bc, def);
            grid.unplace(r, c, atk);
            if res {
                proof {
                    if grid.fresh() {
                        lemma_single_four(g1, atk, win, (br, bc), depth as nat);
                        assert(winning_move(m, (r, c), atk, win, depth as nat));
                        assert(vcf_wins(m, atk, win, depth as nat));
                    }
                }
                return true;
            }
            if self.aborted {
                return false;
            }
            i = i + 1;
        }
        false
    }
}

/// A VCF winning move of `atk`, or `None`. An immediate five point is
/// returned first. Otherwise every four is tried, strongest first; a double
/// four wins unless the defender can make five at once, a single four makes
/// the defender block and the search goes on. `deadline`, `stop` and
/// `node_cap` bound the work; when they run out the answer is `None`.
pub fn vcf_win_move(
    grid: &mut Grid,
    atk: u8,
    win: Win,
    stop: &StopFlag,
    deadline: Instant,
    node_cap: u64,
) -> (res: Option<(i32, i32)>)
    requires
        old(grid).wf(),
        is_stone(atk),
    ensures
        final(grid).wf(),
        final(grid).view() == old(grid).view(),
        final(grid).zkeys() == old(grid).zkeys(),
        final(grid).hash_value() == old(grid).hash_value(),
        final(grid).fresh(),
        res matches Some(p) ==> old(grid).view().empty(p.0 as int, p.1 as int),
        res matches Some(p) ==> winning_move(old(grid).view(), p, atk, win, (VCF_MAX_DEPTH + 1) as nat),
        (exists|p: (i32, i32)|
            #[trigger] old(grid).view().win_point(p.0 as int, p.1 as int, atk, win)) ==> res is Some
            && old(grid).view().win_point(res.unwrap().0 as int, res.unwrap().1 as int, atk, win),
        double_four_owed(old(grid).view(), atk, win) ==> res is Some,
{
    let ghost m = grid.view();
    let ghost g0 = *grid;
    proof {
        grid.lemma_wf();
    }
    let wins_now = grid.win_points(atk, win);
    if wins_now.len() > 0 {
        return Some(wins_now[0]);
    }
    let ghost fw = grid.fresh();
    proof {
        if fw {
            assert forall|p: (i32, i32)| !#[trigger] m.win_point(p.0 as int, p.1 as int, atk, win) by {
                if m.win_point(p.0 as int, p.1 as int, atk, win) {
                    assert(wins_now@.contains(p));
                }
            }
        }
    }
    let def = other(atk);
    let mut vcf = Vcf { win, deadline, nodes: 0, node_cap, aborted: false };
    let moves = grid.four_moves(atk, win);
    let ghost f4 = grid.fresh();
    proof {
        assert forall|k: int| 0 <= k < moves@.len() implies four_fact(m, atk, win, #[trigger] moves@[k], f4) by {
            let p = moves@[k].0;
            assert(m.empty(p.0 as int, p.1 as int));
        }
    }
    let sorted = order_fours(&moves);
    let n = sorted.len();
    proof {
        if f4 && double_four_owed(m, atk, win) {
            let (p, q1, q2) = choose|p: (i32, i32), q1: (i32, i32), q2: (i32, i32)|
                m.empty(p.0 as int, p.1 as int) && m.near_color(p.0 as int, p.1 as int, atk, 2) && !m.wins_at(
                    p.0 as int,
                    p.1 as int,
                    atk,
                    win,
                ) && q1 != q2 && #[trigger] m.place(p.0 as int, p.1 as int, atk).win_point(
                    q1.0 as int,
                    q1.1 as int,
                    atk,
                    win,
                ) && #[trigger] m.place(p.0 as int, p.1 as int, atk).win_point(q2.0 as int, q2.1 as int, atk, win);
            assert(!m.win_point(q1.0 as int, q1.1 as int, atk, win));
            assert(new_five(m, p, atk, win));
            let kk = choose|kk: int| 0 <= kk < moves@.len() && (#[trigger] moves@[kk]).0 == p;
            let g1 = m.place(p.0 as int, p.1 as int, atk);
            assert(four_fact(m, atk, win, moves@[kk], f4));
            let ws = choose|ws: Seq<(i32, i32)>|
                #![trigger ws.len()]
                ws.len() == moves@[kk].1 as int && ws.no_duplicates() && (forall|t: int|
                    0 <= t < ws.len() ==> g1.win_point((#[trigger] ws[t]).0 as int, ws[t].1 as int, atk, win))
                    && (f4 ==> forall|x: (i32, i32)| g1.win_point(x.0 as int, x.1 as int, atk, win) ==> #[trigger] ws.contains(x));
            assert(ws.contains(q1));
            assert(ws.contains(q2));
            let t1 = choose|t: int| 0 <= t < ws.len() && ws[t] == q1;
            let t2 = choose|t: int| 0 <= t < ws.len() && ws[t] == q2;
            assert(t1 != t2);
            assert(moves@[kk].1 >= 2);
            assert(sorted@.contains(moves@[kk]));
            let j = choose|j: int| 0 <= j < sorted@.len() && sorted@[j] == moves@[kk];
            if j > 0 {
                assert(sorted@[0].1 >= sorted@[j].1);
            }
        }
    }
    let mut i: usize = 0;
    while i < n
        invariant
            grid.fresh() && double_four_owed(m, atk, win) ==> i == 0 && n > 0 && sorted@[0].1 >= 2,
            grid.wf(),
            grid.view() == m,
            grid.zkeys() == g0.zkeys(),
            grid.hash_value() == g0.hash_value(),
            grid.fresh() ==> f4,
            f4 ==> g0.fresh(),
            m == g0.view(),
            g0 == *old(grid),
            m.w >= 0,
            m.cells.len() == m.w * m.h,
            vcf.win == win,
            is_stone(atk),
            def == other_code(atk),
            n == sorted@.len(),
            i <= n,
            grid.fresh() ==> !(exists|p: (i32, i32)| #[trigger] m.win_point(p.0 as int, p.1 as int, atk, win)),
            forall|k: int| 0 <= k < moves@.len() ==> four_fact(m, atk, win, #[trigger] moves@[k], f4),
            forall|k: int| 0 <= k < sorted@.len() ==> moves@.contains(#[trigger] sorted@[k]),
        decreases n - i,
    {
        let e = sorted[i];
        let (r, c) = e.0;
        let wins = e.1;
        proof {
            assert(moves@.contains(sorted@[i as int]));
            let t = choose|t: int| 0 <= t < moves@.len() && moves@[t] == sorted@[i as int];
            assert(four_fact(m, atk, win, moves@[t], f4));
            lemma_make_unmake(g0.zkeys(), m, r as int, c as int, atk);
            lemma_place_code(m, r as int, c as int, atk);
        }
        let ghost g1 = m.place(r as int, c as int, atk);
        grid.place(r, c, atk);
        let res = if wins >= 2 {
            proof {
                if double_four_owed(m, atk, win) {
                    assert(m.empty(r as int, c as int));
                    assert(no_win_point(g1, def, win));
                }
            }
            !grid.has_immediate_win(def, win)
        } else if grid.has_immediate_win(def, win) {
            false
        } else {
            let wp = grid.win_points(atk, win);
            if wp.len() > 0 {
                let (br, bc) = wp[0];
                proof {
                    assert(g1.win_point(br as int, bc as int, atk, win));
                    lemma_make_unmake(g0.zkeys(), g1, br as int, bc as int, def);
                    lemma_place_code(g1, br as int, bc as int, def);
                }
                let ghost g2 = *grid;
                grid.place(br, bc, def);
                let won = vcf.attack(grid, atk, def, VCF_MAX_DEPTH, stop);
                grid.unplace(br, bc, def);
                proof {
                    if won && grid.fresh() {
                        lemma_single_four(g1, atk, win, (br, bc), (VCF_MAX_DEPTH + 1) as nat);
                    }
                }
                won
            } else {
                false
            }
        };
        grid.unplace(r, c, atk);
        if res {
            proof {
                if grid.fresh() {
                    if wins >= 2 {
                        lemma_double_four(g1, atk, win, wins as int, f4, (VCF_MAX_DEPTH + 1) as nat);
                    }
                    assert(winning_move(m, (r, c), atk, win, (VCF_MAX_DEPTH + 1) as nat));
                }
            }
            return Some((r, c));
        }
        if vcf.aborted {
            return None;
        }
        i = i + 1;
    }
    None
}

/// Whether `atk` has a VCF win (used by the defence filter and the leaf
/// extension); `false` when the budget runs out first.
pub fn has_vcf(
    grid: &mut Grid,
    atk: u8,
    win: Win,
    stop: &StopFlag,
    deadline: Instant,
    node_cap: u64,
) -> (b: bool)
    requires
        old(grid).wf(),
        is_stone(atk),
    ensures
        final(grid).wf(),
        final(grid).view() == old(grid).view(),
        final(grid).zkeys() == old(grid).zkeys(),
        final(grid).hash_value() == old(grid).hash_value(),
        final(grid).fresh(),
        b ==> vcf_wins(old(grid).view(), atk, win, (VCF_MAX_DEPTH + 1) as nat),
        (exists|p: (i32, i32)|
            #[trigger] old(grid).view().win_point(p.0 as int, p.1 as int, atk, win)) ==> b,
{
    match vcf_win_move(grid, atk, win, stop, deadline, node_cap) {
        Some(p) => {
            proof {
                if grid.fresh() {
                    assert(old(grid).view().empty(p.0 as int, p.1 as int));
                }
            }
            true
        },
        None => false,
    }
}

/// The kind of bound a transposition table entry holds.
#[derive(Clone, Copy)]
enum Bound {
    Exact,
    Lower,
    Upper,
}

/// A transposition table entry. `key` is the full Zobrist key, checked on
/// probe so that a slot shared by two keys never answers for the wrong one.
#[derive(Clone, Copy)]
struct TtEntry {
    key: u64,
    depth: i32,
    value: i32,
    bound: Bound,
    best: Option<(i32, i32)>,
}

/// A fixed-size, directly mapped transposition table: the key's low bits
/// pick the slot, the whole key is checked, a collision overwrites.
struct Tt {
    slots: Vec<Option<TtEntry>>,
    mask: usize,
}

/// A score the search can negate and compare without overflow.
pub open spec fn in_bounds(v: int) -> bool {
    -SCORE_BOUND <= v <= SCORE_BOUND
}

impl Tt {
    /// The table has its fixed size and holds only bounded scores.
    spec fn ok(&self) -> bool {
        &&& self.slots@.len() == TT_SLOTS
        &&& self.mask == TT_SLOTS - 1
        &&& forall|i: int|
            0 <= i < self.slots@.len() ==> (#[trigger] self.slots@[i] matches Some(e) ==> in_bounds(
                e.value as int,
            ))
    }

    fn new() -> (t: Self)
        ensures
            t.ok(),
    {
        Tt { slots: vec![None; TT_SLOTS], mask: TT_SLOTS - 1 }
    }

    /// The slot of `key`: its low bits.
    spec fn slot_spec(&self, key: u64) -> int {
        ((key as usize) & self.mask) as int
    }

    fn slot(&self, key: u64) -> (i: usize)
        requires
            self.ok(),
        ensures
            i < self.slots@.len(),
            i == self.slot_spec(key),
    {
        let k = key as usize;
        let m = self.mask;
        assert(k & m <= m) by (bit_vector);
        k & m
    }

    /// The entry stored under `key`, if its slot holds that very key.
    fn probe(&self, key: u64) -> (r: Option<TtEntry>)
        requires
            self.ok(),
        ensures
            r matches Some(e) ==> e.key == key && in_bounds(e.value as int),
            r == (match self.slots@[self.slot_spec(key)] {
                Some(e) => if e.key == key {
                    Some(e)
                } else {
                    None::<TtEntry>
                },
                None => None::<TtEntry>,
            }),
    {
        let i = self.slot(key);
        match self.slots[i] {
            Some(e) => {
                if e.key == key {
                    Some(e)
                } else {
                    None
                }
            },
            None => None,
        }
    }

    /// Stores `entry`, overwriting its slot.
    fn store(&mut self, entry: TtEntry)
        requires
            old(self).ok(),
            in_bounds(entry.value as int),
        ensures
            final(self).ok(),
            final(self).mask == old(self).mask,
            final(self).slots@ == old(self).slots@.update(old(self).slot_spec(entry.key), Some(entry)),
    {
        let i = self.slot(entry.key);
        self.slots.set(i, Some(entry));
    }
}

/// The probe key offset of the side to move.
fn side_key(side: u8) -> (k: u64)
    ensures
        k == (if side == BLACK {
            0
        } else {
            SIDE_KEY
        }),
{
    if side == BLACK {
        0
    } else {
        SIDE_KEY
    }
}

/// Whether `a` holds the move `b`.
fn is_move(a: Option<(i32, i32)>, b: (i32, i32)) -> (r: bool)
    ensures
        r == (a == Some(b)),
{
    match a {
        Some(p) => p.0 == b.0 && p.1 == b.1,
        None => false,
    }
}

/// Whether `v` holds `p` among its first `n` items.
fn holds(v: &Vec<(i32, i32)>, n: usize, p: (i32, i32)) -> (r: bool)
    requires
        n <= v@.len(),
    ensures
        r == v@.take(n as int).contains(p),
{
    let mut i: usize = 0;
    while i < n
        invariant
            n <= v@.len(),
            i <= n,
            forall|k: int| 0 <= k < i ==> v@[k] != p,
        decreases n - i,
    {
        if v[i].0 == p.0 && v[i].1 == p.1 {
            proof {
                assert(v@.take(n as int)[i as int] == p);
            }
            return true;
        }
        i = i + 1;
    }
    proof {
        if v@.take(n as int).contains(p) {
            let k = choose|k: int| 0 <= k < n && v@.take(n as int)[k] == p;
            assert(v@[k] == p);
        }
    }
    false
}

/// The negamax alpha-beta searcher.
struct Searcher {
    win: Win,
    deadline: Instant,
    nodes: u64,
    aborted: bool,
    /// Shared by all iterations of the deepening.
    tt: Tt,
    /// Per ply, the two latest moves that caused a beta cutoff.
    killers: Vec<(Option<(i32, i32)>, Option<(i32, i32)>)>,
}

impl Searcher {
    /// Counts a node and aborts once past the deadline or stopped. The clock
    /// is read on the first node of an iteration and then every
    /// [`TIME_CHECK_MASK`] + 1 nodes.
    fn out_of_time(&mut self, stop: &StopFlag) -> (b: bool)
        ensures
            final(self).win == old(self).win,
            final(self).tt == old(self).tt,
            final(self).killers == old(self).killers,
            b == final(self).aborted,
            old(self).aborted ==> b,
    {
        self.nodes = self.nodes.saturating_add(1);
        if self.nodes == 1 || self.nodes & TIME_CHECK_MASK == 0 {
            let t = now();
            if at_or_after(&t, &self.deadline) || stop.should_stop() {
                self.aborted = true;
            }
        }
        self.aborted
    }

    /// Records a move that caused a beta cutoff at `ply`: it slides into the
    /// first slot and the old first slides into the second, unless it is
    /// already first.
    fn record_killer(&mut self, ply: i32, mv: (i32, i32))
        requires
            ply >= 0,
        ensures
            final(self).win == old(self).win,
            final(self).tt == old(self).tt,
            final(self).aborted == old(self).aborted,
            final(self).killers@.len() == old(self).killers@.len(),
            forall|i: int|
                0 <= i < old(self).killers@.len() ==> #[trigger] final(self).killers@[i] == (if i == ply
                    && old(self).killers@[i].0 != Some(mv) {
                    (Some(mv), old(self).killers@[i].0)
                } else {
                    old(self).killers@[i]
                }),
    {
        let p = ply as usize;
        if p < self.killers.len() {
            let (k0, _k1) = self.killers[p];
            if !is_move(k0, mv) {
                self.killers.set(p, (Some(mv), k0));
            }
        }
    }

    /// Orders the candidates: by descending ordering key, then the
    /// preferred moves (the table move and the two killers) moved to the
    /// front, then cut to [`TOP_K`]. Only candidates are returned.
    fn order_moves(
        &self,
        grid: &Grid,
        cands: Vec<(i32, i32)>,
        side: u8,
        opp: u8,
        ply: i32,
        tt_move: Option<(i32, i32)>,
    ) -> (out: Vec<(i32, i32)>)
        requires
            grid.wf(),
            is_stone(side),
            is_stone(opp),
            ply >= 0,
            forall|k: int| 0 <= k < cands@.len() ==> grid.view().has((#[trigger] cands@[k]).0 as int, cands@[k].1 as int),
        ensures
            out@.len() <= TOP_K,
            cands@.len() > 0 ==> out@.len() > 0,
            forall|k: int| 0 <= k < out@.len() ==> cands@.contains(#[trigger] out@[k]),
            tt_move matches Some(t) ==> (cands@.contains(t) ==> out@[0] == t),
    {
        let mut keyed: Vec<((i32, i32), i64)> = Vec::new();
        let mut i: usize = 0;
        while i < cands.len()
            invariant
                grid.wf(),
                is_stone(side),
                is_stone(opp),
                i <= cands@.len(),
                keyed@.len() == i,
                forall|k: int| 0 <= k < cands@.len() ==> grid.view().has((#[trigger] cands@[k]).0 as int, cands@[k].1 as int),
                forall|k: int| 0 <= k < i ==> (#[trigger] keyed@[k]).0 == cands@[k],
            decreases cands@.len() - i,
        {
            let (r, c) = cands[i];
            let key = order_key(grid, r, c, side, opp);
            keyed.push(((r, c), key as i64));
            i = i + 1;
        }
        let sorted = sort_desc(keyed);
        let mut cs: Vec<(i32, i32)> = Vec::new();
        let mut j: usize = 0;
        while j < sorted.len()
            invariant
                j <= sorted@.len(),
                sorted@.len() == cands@.len(),
                keyed@.len() == cands@.len(),
                cs@.len() == j,
                forall|k: int| 0 <= k < keyed@.len() ==> (#[trigger] keyed@[k]).0 == cands@[k],
                forall|x: ((i32, i32), i64)| #[trigger] sorted@.contains(x) <==> keyed@.contains(x),
                forall|k: int| 0 <= k < j ==> cands@.contains(#[trigger] cs@[k]),
                forall|k: int| 0 <= k < j ==> #[trigger] cs@[k] == sorted@[k].0,
            decreases sorted@.len() - j,
        {
            let e = sorted[j];
            proof {
                assert(sorted@.contains(sorted@[j as int]));
                let t = choose|t: int| 0 <= t < keyed@.len() && keyed@[t] == sorted@[j as int];
                assert(cands@[t] == e.0);
            }
            cs.push(e.0);
            j = j + 1;
        }
        proof {
            assert forall|x: (i32, i32)| cands@.contains(x) implies #[trigger] cs@.contains(x) by {
                let t = choose|t: int| 0 <= t < cands@.len() && cands@[t] == x;
                assert(keyed@.contains(keyed@[t]));
                assert(sorted@.contains(keyed@[t]));
                let s2 = choose|s2: int| 0 <= s2 < sorted@.len() && sorted@[s2] == keyed@[t];
                assert(cs@[s2] == x);
            }
        }
        let (k0, k1) = if (ply as usize) < self.killers.len() {
            self.killers[ply as usize]
        } else {
            (None, None)
        };
        let mut ordered: Vec<(i32, i32)> = Vec::new();
        let pri = [tt_move, k0, k1];
        let mut q: usize = 0;
        while q < 3
            invariant
                q <= 3,
                pri@.len() == 3,
                pri@[0] == tt_move,
                cs@.len() == cands@.len(),
                forall|k: int| 0 <= k < cs@.len() ==> cands@.contains(#[trigger] cs@[k]),
                forall|k: int| 0 <= k < ordered@.len() ==> cands@.contains(#[trigger] ordered@[k]),
                ordered@.len() <= q,
                forall|x: (i32, i32)| cands@.contains(x) ==> #[trigger] cs@.contains(x),
                tt_move matches Some(t) ==> (cands@.contains(t) && q > 0 ==> ordered@.len() > 0 && ordered@[0] == t),
            decreases 3 - q,
        {
            match pri[q] {
                Some(p) => {
                    let in_c = holds(&cs, cs.len(), p);
                    let in_o = holds(&ordered, ordered.len(), p);
                    if in_c && !in_o {
                        proof {
                            assert(cs@.take(cs@.len() as int) =~= cs@);
                            let t = choose|t: int| 0 <= t < cs@.len() && cs@[t] == p;
                            assert(cands@.contains(cs@[t]));
                        }
                        ordered.push(p);
                    }
                    proof {
                        assert(cs@.take(cs@.len() as int) =~= cs@);
                        if q == 0 {
                            if let Some(tm) = tt_move {
                                if cands@.contains(tm) {
                                    assert(cs@.contains(tm));
                                    assert(ordered@.take(0) =~= Seq::<(i32, i32)>::empty());
                                }
                            }
                        }
                    }
                },
                None => {},
            }
            q = q + 1;
        }
        let n_pri = ordered.len();
        let mut t: usize = 0;
        while t < cs.len()
            invariant
                t <= cs@.len(),
                n_pri <= ordered@.len(),
                n_pri <= 3,
                cs@.len() == cands@.len(),
                forall|k: int| 0 <= k < cs@.len() ==> cands@.contains(#[trigger] cs@[k]),
                forall|k: int| 0 <= k < ordered@.len() ==> cands@.contains(#[trigger] ordered@[k]),
                t > 0 ==> ordered@.len() > 0,
                tt_move matches Some(tm) ==> (cands@.contains(tm) ==> ordered@.len() > 0 && ordered@[0] == tm),
            decreases cs@.len() - t,
        {
            let m = cs[t];
            if !holds(&ordered, n_pri, m) {
                ordered.push(m);
            } else {
                proof {
                    assert(ordered@.take(n_pri as int).contains(m));
                }
            }
            t = t + 1;
        }
        ordered.truncate(TOP_K);
        ordered
    }
}

impl Searcher {
    /// What every search call keeps of the searcher.
    spec fn kept(&self, other: &Searcher) -> bool {
        &&& other.win == self.win
        &&& other.tt.ok()
        &&& other.killers@.len() == self.killers@.len()
    }

    /// Negamax alpha-beta from the view of `side`, `depth` plies deep, at
    /// distance `ply` from the root. `forcing` marks a position right after
    /// a threat: at the horizon it is extended by a short VCF search.
    #[verifier::rlimit(40)]
    fn negamax(
        &mut self,
        grid: &mut Grid,
        side: u8,
        depth: i32,
        alpha: i32,
        beta: i32,
        ply: i32,
        forcing: bool,
        stop: &StopFlag,
    ) -> (v: i32)
        requires
            old(grid).wf(),
            old(grid).searching(),
            old(grid).view().w <= 50,
            old(grid).view().h <= 50,
            old(self).tt.ok(),
            is_stone(side),
            depth >= 0,
            ply >= 0,
            ply + depth <= 5000,
            in_bounds(alpha as int),
            in_bounds(beta as int),
        ensures
            final(grid).wf(),
            final(grid).searching(),
            final(grid).view() == old(grid).view(),
            final(grid).zkeys() == old(grid).zkeys(),
            final(grid).fresh() ==> old(grid).fresh(),
            old(self).kept(final(self)),
            in_bounds(v as int),
            depth == 0 && !final(self).aborted ==> v == evaluation(old(grid).view(), side) || (forcing
                && v == WIN - ply && (final(grid).fresh() ==> vcf_wins(
                old(grid).view(),
                side,
                old(self).win,
                (VCF_MAX_DEPTH + 1) as nat,
            ))),
        decreases depth,
    {
        let ghost m = grid.view();
        proof {
            grid.lemma_wf();
            lemma_evaluation_bounds(m, side);
        }
        if self.out_of_time(stop) {
            return 0;
        }
        let win = self.win;
        if depth == 0 {
            if forcing && has_vcf(grid, side, win, stop, self.deadline, QUIESCENCE_VCF_NODES) {
                return WIN - ply;
            }
            proof {
                super::eval::lemma_small_fits(grid.view());
            }
            return evaluate(grid, side, win);
        }
        let mut alpha = alpha;
        let mut beta = beta;
        let key = grid.hash() ^ side_key(side);
        let alpha_orig = alpha;
        let mut tt_move: Option<(i32, i32)> = None;
        match self.tt.probe(key) {
            Some(entry) => {
                tt_move = entry.best;
                if entry.depth >= depth {
                    match entry.bound {
                        Bound::Exact => {
                            return entry.value;
                        },
                        Bound::Lower => {
                            if entry.value > alpha {
                                alpha = entry.value;
                            }
                        },
                        Bound::Upper => {
                            if entry.value < beta {
                                beta = entry.value;
                            }
                        },
                    }
                    if alpha >= beta {
                        return entry.value;
                    }
                }
            },
            None => {},
        }
        let opp = other(side);
        let raw = grid.neighborhood_all(2);
        if raw.len() == 0 {
            proof {
                super::eval::lemma_small_fits(grid.view());
            }
            return evaluate(grid, side, win);
        }
        proof {
            assert forall|k: int| 0 <= k < raw@.len() implies grid.view().has((#[trigger] raw@[k]).0 as int, raw@[k].1 as int) by {
                assert(m.empty(raw@[k].0 as int, raw@[k].1 as int));
            }
        }
        let ordered = self.order_moves(grid, raw, side, opp, ply, tt_move);
        let mut best: i32 = -WIN;
        let mut best_move: Option<(i32, i32)> = None;
        let ghost s0 = *self;
        let ghost gz = *grid;
        let mut i: usize = 0;
        while i < ordered.len()
            invariant
                grid.wf(),
                grid.searching(),
                grid.view() == m,
                grid.zkeys() == gz.zkeys(),
                grid.fresh() ==> gz.fresh(),
                gz.fresh() ==> old(grid).fresh(),
                gz.zkeys() == old(grid).zkeys(),
                m == old(grid).view(),
                win == old(self).win,
                s0.killers@.len() == old(self).killers@.len(),
                m.w <= 50,
                m.h <= 50,
                m.w >= 0,
                m.cells.len() == m.w * m.h,
                self.win == win,
                self.tt.ok(),
                self.killers@.len() == s0.killers@.len(),
                is_stone(side),
                opp == other_code(side),
                depth > 0,
                ply >= 0,
                ply + depth <= 5000,
                in_bounds(alpha as int),
                in_bounds(beta as int),
                in_bounds(best as int),
                i <= ordered@.len(),
                forall|k: int| 0 <= k < ordered@.len() ==> raw@.contains(#[trigger] ordered@[k]),
                forall|k: int| 0 <= k < raw@.len() ==> m.empty((#[trigger] raw@[k]).0 as int, raw@[k].1 as int),
            decreases ordered@.len() - i,
        {
            let (r, c) = ordered[i];
            proof {
                assert(raw@.contains(ordered@[i as int]));
                let t = choose|t: int| 0 <= t < raw@.len() && raw@[t] == ordered@[i as int];
                assert(m.empty(raw@[t].0 as int, raw@[t].1 as int));
            }
            let val = if grid.would_win(r, c, side, win) {
                WIN - ply
            } else {
                proof {
                    lemma_make_unmake(grid.zkeys(), m, r as int, c as int, side);
                    lemma_place_code(m, r as int, c as int, side);
                }
                grid.make(r, c, side);
                let child_forcing = grid.creates_threat(r, c, side);
                let v = self.negamax(grid, opp, depth - 1, -beta, -alpha, ply + 1, child_forcing, stop);
                grid.unmake(r, c, side);
                -v
            };
            if self.aborted {
                return if best > val {
                    best
                } else {
                    val
                };
            }
            if val > best {
                best = val;
                best_move = Some((r, c));
            }
            if best > alpha {
                alpha = best;
            }
            if alpha >= beta {
                self.record_killer(ply, (r, c));
                break;
            }
            i = i + 1;
        }
        let bound = if best <= alpha_orig {
            Bound::Upper
        } else if best >= beta {
            Bound::Lower
        } else {
            Bound::Exact
        };
        self.tt.store(TtEntry { key, depth, value: best, bound, best: best_move });
        best
    }
}

/// Some move of `roots` makes five for `me` at once.
pub open spec fn five_among(m: GridModel, roots: Seq<(i32, i32)>, me: u8, win: Win) -> bool {
    exists|k: int| 0 <= k < roots.len() && #[trigger] m.wins_at(roots[k].0 as int, roots[k].1 as int, me, win)
}

/// After each move of `roots` that is not a five, the static evaluation
/// for the opponent stays above minus the win score, so no such move
/// scores as high as a five.
pub open spec fn roots_below_win(m: GridModel, roots: Seq<(i32, i32)>, me: u8, win: Win) -> bool {
    forall|k: int|
        #![trigger roots[k]]
        0 <= k < roots.len() && !m.wins_at(roots[k].0 as int, roots[k].1 as int, me, win) ==> evaluation(
            m.place(roots[k].0 as int, roots[k].1 as int, me),
            other_code(me),
        ) > -WIN
}

/// Picks the best of `root_moves` by iterative deepening, within
/// `deadline` / `stop`: each completed iteration replaces the choice and
/// moves it to the front; an iteration cut short is discarded, and a found
/// win ends the deepening. `None` exactly when there is no root move.
/// Iterations stop at [`MAX_SEARCH_DEPTH`]. Boards within 50 points a side
/// keep every static evaluation within an `i32`; on larger boards the
/// evaluation of a dense position can leave an `i32`. When some root move
/// is a five and no other root move scores as high (see
/// [`roots_below_win`]), the answer is a five, or the first root move when
/// the first iteration does not complete.
pub fn search_best(
    grid: &mut Grid,
    me: u8,
    win: Win,
    root_moves: &[(i32, i32)],
    stop: &StopFlag,
    deadline: Instant,
    max_depth: i32,
) -> (res: Option<(i32, i32)>)
    requires
        old(grid).wf(),
        old(grid).view().w <= 50,
        old(grid).view().h <= 50,
        is_stone(me),
        0 <= max_depth,
        forall|k: int|
            0 <= k < root_moves@.len() ==> old(grid).view().empty(
                (#[trigger] root_moves@[k]).0 as int,
                root_moves@[k].1 as int,
            ),
    ensures
        final(grid).wf(),
        final(grid).view() == old(grid).view(),
        res is None <==> root_moves@.len() == 0,
        res matches Some(p) ==> root_moves@.contains(p),
        five_among(old(grid).view(), root_moves@, me, win) && roots_below_win(old(grid).view(), root_moves@, me, win)
            ==> res == Some(root_moves@[0]) || old(grid).view().wins_at(res.unwrap().0 as int, res.unwrap().1 as int, me, win),
{
    if root_moves.len() == 0 {
        return None;
    }
    let max_depth = if max_depth > MAX_SEARCH_DEPTH {
        MAX_SEARCH_DEPTH
    } else {
        max_depth
    };
    let ghost m = grid.view();
    proof {
        grid.lemma_wf();
    }
    grid.prepare_search();
    let opp = other(me);
    let mut order: Vec<(i32, i32)> = Vec::new();
    let mut k: usize = 0;
    while k < root_moves.len()
        invariant
            k <= root_moves@.len(),
            order@ == root_moves@.take(k as int),
        decreases root_moves@.len() - k,
    {
        order.push(root_moves[k]);
        proof {
            assert(root_moves@.take(k + 1) =~= root_moves@.take(k as int).push(root_moves@[k as int]));
        }
        k = k + 1;
    }
    proof {
        assert(root_moves@.take(root_moves@.len() as int) =~= root_moves@);
    }
    let mut best = order[0];
    let mut killers: Vec<(Option<(i32, i32)>, Option<(i32, i32)>)> = Vec::new();
    let mut kk: i32 = 0;
    while kk < max_depth + 2
        invariant
            0 <= kk <= max_depth + 2,
            max_depth <= MAX_SEARCH_DEPTH,
        decreases max_depth + 2 - kk,
    {
        killers.push((None, None));
        kk = kk + 1;
    }
    let mut searcher = Searcher { win, deadline, nodes: 0, aborted: false, tt: Tt::new(), killers };
    let mut depth: i32 = 1;
    while depth <= max_depth
        invariant_except_break
            five_among(m, root_moves@, me, win) && roots_below_win(m, root_moves@, me, win) ==> depth == 1 && best
                == root_moves@[0] && order@ == root_moves@,
        invariant
            grid.wf(),
            grid.searching(),
            grid.view() == m,
            m.w <= 50,
            m.h <= 50,
            m.w >= 0,
            m.cells.len() == m.w * m.h,
            searcher.win == win,
            searcher.tt.ok(),
            is_stone(me),
            opp == other_code(me),
            1 <= depth <= max_depth + 1,
            max_depth <= MAX_SEARCH_DEPTH,
            order@.len() == root_moves@.len(),
            order@.len() > 0,
            forall|i: int| 0 <= i < order@.len() ==> root_moves@.contains(#[trigger] order@[i]),
            forall|i: int| 0 <= i < root_moves@.len() ==> m.empty((#[trigger] root_moves@[i]).0 as int, root_moves@[i].1 as int),
            root_moves@.contains(best),
        ensures
            five_among(m, root_moves@, me, win) && roots_below_win(m, root_moves@, me, win) ==> best == root_moves@[0]
                || m.wins_at(best.0 as int, best.1 as int, me, win),
        decreases max_depth + 1 - depth,
    {
        searcher.nodes = 0;
        searcher.aborted = false;
        let mut alpha: i32 = -WIN;
        let beta: i32 = WIN;
        let mut local_best = order[0];
        let mut local_val: i32 = -WIN;
        let mut completed = true;
        let mut i: usize = 0;
        while i < order.len()
            invariant_except_break
                completed,
            invariant
                grid.wf(),
                grid.searching(),
                grid.view() == m,
                m.w <= 50,
                m.h <= 50,
                m.w >= 0,
                m.cells.len() == m.w * m.h,
                searcher.win == win,
                searcher.tt.ok(),
                is_stone(me),
                opp == other_code(me),
                1 <= depth <= max_depth,
                max_depth <= MAX_SEARCH_DEPTH,
                beta == WIN,
                in_bounds(alpha as int),
                in_bounds(local_val as int),
                i <= order@.len(),
                order@.len() > 0,
                forall|j: int| 0 <= j < order@.len() ==> root_moves@.contains(#[trigger] order@[j]),
                forall|j: int| 0 <= j < root_moves@.len() ==> m.empty((#[trigger] root_moves@[j]).0 as int, root_moves@[j].1 as int),
                root_moves@.contains(local_best),
                depth == 1 && roots_below_win(m, root_moves@, me, win) ==> local_val <= WIN && (local_val == WIN
                    ==> m.wins_at(local_best.0 as int, local_best.1 as int, me, win)) && forall|j: int|
                    0 <= j < i && #[trigger] m.wins_at(order@[j].0 as int, order@[j].1 as int, me, win) ==> local_val
                        == WIN,
            ensures
                completed ==> i == order@.len(),
            decreases order@.len() - i,
        {
            let (r, c) = order[i];
            proof {
                assert(root_moves@.contains(order@[i as int]));
                let t = choose|t: int| 0 <= t < root_moves@.len() && root_moves@[t] == order@[i as int];
                assert(m.empty(root_moves@[t].0 as int, root_moves@[t].1 as int));
            }
            let val = if grid.would_win(r, c, me, win) {
                WIN
            } else {
                proof {
                    lemma_make_unmake(grid.zkeys(), m, r as int, c as int, me);
                    lemma_place_code(m, r as int, c as int, me);
                }
                grid.make(r, c, me);
                let child_forcing = grid.creates_threat(r, c, me);
                let v = searcher.negamax(grid, opp, depth - 1, -beta, -alpha, 1, child_forcing, stop);
                grid.unmake(r, c, me);
                -v
            };
            if searcher.aborted {
                completed = false;
                break;
            }
            if val > local_val {
                local_val = val;
                local_best = (r, c);
                proof {
                    assert(root_moves@.contains(order@[i as int]));
                }
            }
            if local_val > alpha {
                alpha = local_val;
            }
            i = i + 1;
        }
        proof {
            if completed && depth == 1 && order@ == root_moves@ && five_among(m, root_moves@, me, win)
                && roots_below_win(m, root_moves@, me, win) {
                let k = choose|k: int|
                    0 <= k < root_moves@.len() && #[trigger] m.wins_at(
                        root_moves@[k].0 as int,
                        root_moves@[k].1 as int,
                        me,
                        win,
                    );
                assert(m.wins_at(order@[k].0 as int, order@[k].1 as int, me, win));
                assert(local_val == WIN);
            }
        }
        if completed {
            best = local_best;
            let mut pos: usize = 0;
            while pos < order.len()
                invariant
                    pos <= order@.len(),
                    forall|j: int| 0 <= j < pos ==> order@[j] != local_best,
                decreases order@.len() - pos,
            {
                if order[pos].0 == local_best.0 && order[pos].1 == local_best.1 {
                    break;
                }
                pos = pos + 1;
            }
            if pos < order.len() {
                let first = order[0];
                let chosen = order[pos];
                order.set(0, chosen);
                order.set(pos, first);
            }
            if local_val >= MATE {
                break;
            }
        } else {
            break;
        }
        depth = depth + 1;
    }
    Some(best)
}

} // verus!
