//! Negamax alpha-beta with iterative deepening and a time budget, on the
//! bit-line board.
//!
//! Candidates are the empty points within two of a stone, ordered by their
//! shape score, the best [`TOP_K`] kept. Leaves use the static score; a move
//! making five ends the line (shallower wins first). The deadline or the
//! stop flag aborts; the root keeps the last completed iteration.

use std::collections::HashMap;
use std::time::Instant;

use vstd::prelude::*;

use super::bitboard::{candidate_spec, five_shape, lemma_candidate_bounds, lemma_win_five_shape, near_stones, wins_under, Bits};
use super::vcf::{lemma_five_point_near, lemma_wins_under_self};
use super::lines::static_score;
use crate::bot::clock::{at_or_after, now};
use crate::bot::StopFlag;
use crate::model::color::other;
use crate::model::{Color, Position, RuleSet, WinRule};
use crate::onyx::grid::{color_code, lemma_make_unmake, lemma_place_code, GridModel, BLACK, EMPTY, WHITE};
use crate::sort::sort_desc;

verus! {

broadcast use vstd::std_specs::hash::group_hash_axioms;

/// The score of a win.
pub const WIN: i64 = 1_000_000;
/// How many candidates a node expands at most.
pub const TOP_K: usize = 12;
/// Plies with killer moves (deeper plies keep none).
pub const MAX_PLY: usize = 64;
/// The side key xored into the table key when White is to move.
const WHITE_KEY: u64 = 0xD1B5_4A32_D192_ED03;
/// The deepest iteration searched (far beyond what any budget reaches).
pub const MAX_SEARCH_DEPTH: i32 = 1000;
/// A bound on every score handled, so that negation never overflows.
pub const BOUND: i64 = 0x4000_0000_0000_0000;

/// A score the search can negate.
pub open spec fn bounded(v: int) -> bool {
    -BOUND <= v <= BOUND
}

/// The kind of bound a table entry holds.
#[derive(Clone, Copy)]
enum Bound {
    Exact,
    /// The true value is at least the entry's (a beta cutoff happened).
    Lower,
    /// The true value is at most the entry's (alpha was never raised).
    Upper,
}

/// A transposition table entry.
#[derive(Clone, Copy)]
struct TtEntry {
    depth: i32,
    value: i64,
    bound: Bound,
    /// The best move found there, for ordering even when too shallow to use.
    best: Option<Position>,
}

/// Moves `m` to place `front` of `cands[front..]` (swapping) and returns
/// the next front; when `m` is absent, nothing moves.
fn bring_front(cands: &mut Vec<Position>, front: usize, m: Option<Position>) -> (next: usize)
    requires
        front <= old(cands)@.len(),
    ensures
        final(cands)@.len() == old(cands)@.len(),
        forall|i: int| 0 <= i < final(cands)@.len() ==> old(cands)@.contains(#[trigger] final(cands)@[i]),
        forall|i: int| 0 <= i < old(cands)@.len() ==> final(cands)@.contains(#[trigger] old(cands)@[i]),
        front <= next <= front + 1,
        next <= final(cands)@.len(),
        next == front + 1 ==> m == Some(final(cands)@[front as int]),
        next == front ==> final(cands)@ == old(cands)@,
        forall|i: int| 0 <= i < front ==> final(cands)@[i] == old(cands)@[i],
        next == front + 1 <==> (m is Some && exists|j: int| front <= j < old(cands)@.len() && old(cands)@[j] == m->Some_0),
        next == front + 1 ==> exists|j: int|
            front <= j < old(cands)@.len() && old(cands)@[j] == m->Some_0 && final(cands)@ == old(cands)@.update(
                front as int,
                old(cands)@[j],
            ).update(j, old(cands)@[front as int]),
{
    match m {
        Some(mv) => {
            assert(m == Some(mv));
            let mut i: usize = front;
            while i < cands.len()
                invariant
                    m == Some(mv),
                    front <= i <= cands@.len(),
                    cands@ == old(cands)@,
                    forall|j: int| front <= j < i ==> cands@[j] != mv,
                decreases cands@.len() - i,
            {
                if cands[i].row == mv.row && cands[i].col == mv.col {
                    let a = cands[front];
                    let b = cands[i];
                    assert(b == mv);
                    let ghost c0 = cands@;
                    cands.set(front, b);
                    cands.set(i, a);
                    assert(cands@ == c0.update(front as int, c0[i as int]).update(i as int, c0[front as int]));
                    assert(cands@[front as int] == mv);
                    assert(m == Some(cands@[front as int]));
                    proof {
                        assert forall|t: int| 0 <= t < cands@.len() implies c0.contains(#[trigger] cands@[t]) by {
                            if t == front as int {
                                assert(c0[i as int] == cands@[t]);
                            } else if t == i as int {
                                assert(c0[front as int] == cands@[t]);
                            } else {
                                assert(c0[t] == cands@[t]);
                            }
                        }
                        assert forall|t: int| 0 <= t < c0.len() implies cands@.contains(#[trigger] c0[t]) by {
                            if t == front as int {
                                assert(cands@[i as int] == c0[t]);
                            } else if t == i as int {
                                assert(cands@[front as int] == c0[t]);
                            } else {
                                assert(cands@[t] == c0[t]);
                            }
                        }
                    }
                    return front + 1;
                }
                i = i + 1;
            }
            front
        },
        None => front,
    }
}

/// A copy of a list of positions.
fn copy_positions(v: &Vec<Position>) -> (out: Vec<Position>)
    ensures
        out@ == v@,
{
    let mut out: Vec<Position> = Vec::new();
    let mut i: usize = 0;
    while i < v.len()
        invariant
            i <= v@.len(),
            out@ == v@.take(i as int),
        decreases v@.len() - i,
    {
        out.push(v[i]);
        proof {
            assert(v@.take(i + 1) =~= v@.take(i as int).push(v@[i as int]));
        }
        i = i + 1;
    }
    proof {
        assert(v@.take(v@.len() as int) =~= v@);
    }
    out
}

/// Every item of `b` is an item of `a`, and the items of `a` are empty
/// points of `m`: so are those of `b`.
proof fn lemma_contained(a: Seq<Position>, b: Seq<Position>, m: GridModel, k: int)
    requires
        0 <= k < b.len(),
        forall|i: int| 0 <= i < b.len() ==> a.contains(#[trigger] b[i]),
        forall|i: int| 0 <= i < a.len() ==> m.empty((#[trigger] a[i]).row as int, a[i].col as int),
    ensures
        m.empty(b[k].row as int, b[k].col as int),
{
    assert(a.contains(b[k]));
    let t = choose|t: int| 0 <= t < a.len() && a[t] == b[k];
    assert(m.empty(a[t].row as int, a[t].col as int));
}

/// The table key of a position with `side` to move.
spec fn table_key(bits: Bits, side: Color) -> u64 {
    match side {
        Color::Black => bits.hash_value(),
        Color::White => bits.hash_value() ^ WHITE_KEY,
    }
}

/// The table key of a position with `side` to move.
fn tt_key(bits: &Bits, side: Color) -> (k: u64)
    ensures
        k == table_key(*bits, side),
{
    match side {
        Color::Black => bits.hash(),
        Color::White => bits.hash() ^ WHITE_KEY,
    }
}

/// No list of distinct empty points with a run of five or more, of
/// either colour, is longer than `n`.
pub open spec fn five_shapes_at_most(m: GridModel, n: int) -> bool {
    forall|s: Seq<Position>|
        #![trigger s.no_duplicates()]
        s.no_duplicates() && (forall|i: int|
            0 <= i < s.len() ==> m.empty((#[trigger] s[i]).row as int, s[i].col as int) && five_shape(
                m,
                s[i].row as int,
                s[i].col as int,
            )) ==> s.len() <= n
}

/// With at most [`TOP_K`] points holding a run of five, such a point near
/// the stones is among the candidates: it outscores every point without one.
pub proof fn lemma_five_shape_listed(m: GridModel, out: Seq<Position>, p: Position, side: u8)
    requires
        side == BLACK || side == WHITE,
        out.no_duplicates(),
        forall|i: int| 0 <= i < out.len() ==> m.empty((#[trigger] out[i]).row as int, out[i].col as int),
        !out.contains(p) ==> out.len() == TOP_K && forall|i: int|
            0 <= i < out.len() ==> candidate_spec(m, (#[trigger] out[i]).row as int, out[i].col as int, side)
                >= candidate_spec(m, p.row as int, p.col as int, side),
        m.empty(p.row as int, p.col as int),
        five_shape(m, p.row as int, p.col as int),
        five_shapes_at_most(m, TOP_K as int),
    ensures
        out.contains(p),
{
    if !out.contains(p) {
        lemma_candidate_bounds(m, p.row as int, p.col as int, side);
        let s = out.push(p);
        assert forall|i: int| 0 <= i < s.len() implies m.empty((#[trigger] s[i]).row as int, s[i].col as int)
            && five_shape(m, s[i].row as int, s[i].col as int) by {
            if i < out.len() {
                assert(s[i] == out[i]);
                lemma_candidate_bounds(m, out[i].row as int, out[i].col as int, side);
            }
        }
        assert forall|a: int, b: int| 0 <= a < b < s.len() implies s[a] != s[b] by {
            if b == out.len() {
                assert(out.contains(out[a]));
            } else {
                assert(s[a] == out[a] && s[b] == out[b]);
            }
        }
        assert(s.no_duplicates());
        assert(s.len() == TOP_K + 1);
    }
}

/// `p` is an empty point where a `col` stone wins under `rule`.
pub open spec fn five_point(m: GridModel, p: Position, col: u8, rule: WinRule) -> bool {
    m.empty(p.row as int, p.col as int) && wins_under(m, p.row as int, p.col as int, col, rule)
}

/// A five point of `col`, with few points holding a run of five, is
/// among the candidates.
pub proof fn lemma_five_listed(m: GridModel, cands: Seq<Position>, p: Position, side: u8, col: u8, rule: WinRule)
    requires
        m.w >= 0,
        m.cells.len() == m.w * m.h,
        side == BLACK || side == WHITE,
        col == BLACK || col == WHITE,
        cands.no_duplicates(),
        forall|i: int| 0 <= i < cands.len() ==> m.empty((#[trigger] cands[i]).row as int, cands[i].col as int),
        m.empty(p.row as int, p.col as int) && near_stones(m, p.row as int, p.col as int) > 0
            && !cands.contains(p) ==> cands.len() == TOP_K && forall|i: int|
            0 <= i < cands.len() ==> candidate_spec(m, (#[trigger] cands[i]).row as int, cands[i].col as int, side)
                >= candidate_spec(m, p.row as int, p.col as int, side),
        five_point(m, p, col, rule),
        five_shapes_at_most(m, TOP_K as int),
    ensures
        cands.contains(p),
        near_stones(m, p.row as int, p.col as int) > 0,
{
    lemma_five_point_near(m, p.row as int, p.col as int, col, rule);
    lemma_win_five_shape(m, p.row as int, p.col as int, col, rule);
    lemma_five_shape_listed(m, cands, p, side);
}

/// The candidates of `side`: the empty points within two of a stone, by/// The candidates of `side`: the empty points within two of a stone, by
/// descending shape score, at most [`TOP_K`].
pub fn gen_candidates(bits: &Bits, side: Color) -> (out: Vec<Position>)
    requires
        bits.wf(),
    ensures
        out@.len() <= TOP_K,
        out@.no_duplicates(),
        forall|i: int|
            0 <= i < out@.len() ==> bits.view().empty((#[trigger] out@[i]).row as int, out@[i].col as int)
                && near_stones(bits.view(), out@[i].row as int, out@[i].col as int) > 0,
        (exists|r: int, c: int| bits.view().empty(r, c) && near_stones(bits.view(), r, c) > 0) ==> out@.len() > 0,
        forall|a: int, b: int|
            0 <= a < b < out@.len() ==> candidate_spec(
                bits.view(),
                out@[a].row as int,
                out@[a].col as int,
                color_code(side),
            ) >= candidate_spec(bits.view(), out@[b].row as int, out@[b].col as int, color_code(side)),
        forall|p: Position|
            #![trigger out@.contains(p)]
            bits.view().empty(p.row as int, p.col as int) && near_stones(bits.view(), p.row as int, p.col as int) > 0
                && !out@.contains(p) ==> out@.len() == TOP_K && forall|i: int|
                0 <= i < out@.len() ==> candidate_spec(
                    bits.view(),
                    (#[trigger] out@[i]).row as int,
                    out@[i].col as int,
                    color_code(side),
                ) >= candidate_spec(bits.view(), p.row as int, p.col as int, color_code(side)),
{
    let ghost m = bits.view();
    let empties = bits.relevant_empties();
    let mut scored: Vec<(Position, i64)> = Vec::new();
    let mut i: usize = 0;
    while i < empties.len()
        invariant
            bits.wf(),
            m == bits.view(),
            i <= empties@.len(),
            scored@.len() == i,
            forall|k: int|
                0 <= k < empties@.len() ==> m.empty((#[trigger] empties@[k]).row as int, empties@[k].col as int)
                    && near_stones(m, empties@[k].row as int, empties@[k].col as int) > 0,
            forall|k: int|
                0 <= k < i ==> (#[trigger] scored@[k]).0 == empties@[k] && scored@[k].1 == candidate_spec(
                    m,
                    empties@[k].row as int,
                    empties@[k].col as int,
                    color_code(side),
                ),
        decreases empties@.len() - i,
    {
        let pos = empties[i];
        let key = bits.candidate_score(side, pos);
        scored.push((pos, key));
        i = i + 1;
    }
    proof {
        assert forall|a: int, b: int| 0 <= a < b < scored@.len() implies scored@[a] != scored@[b] by {
            assert(scored@[a].0 == empties@[a] && scored@[b].0 == empties@[b]);
        }
    }
    let sorted = sort_desc(scored);
    let mut out: Vec<Position> = Vec::new();
    let mut j: usize = 0;
    while j < sorted.len() && j < TOP_K
        invariant
            j <= sorted@.len(),
            j <= TOP_K,
            out@.len() == j,
            sorted@.len() == scored@.len(),
            scored@.len() == empties@.len(),
            forall|k: int| 0 <= k < j ==> #[trigger] out@[k] == sorted@[k].0,
            forall|x: (Position, i64)| #[trigger] sorted@.contains(x) <==> scored@.contains(x),
            forall|k: int|
                0 <= k < scored@.len() ==> (#[trigger] scored@[k]).0 == empties@[k] && scored@[k].1 == candidate_spec(
                    m,
                    empties@[k].row as int,
                    empties@[k].col as int,
                    color_code(side),
                ),
            forall|k: int|
                0 <= k < empties@.len() ==> m.empty((#[trigger] empties@[k]).row as int, empties@[k].col as int)
                    && near_stones(m, empties@[k].row as int, empties@[k].col as int) > 0,
        decreases sorted@.len() - j,
    {
        out.push(sorted[j].0);
        j = j + 1;
    }
    proof {
        assert forall|k: int| 0 <= k < sorted@.len() implies m.empty((#[trigger] sorted@[k]).0.row as int, sorted@[k].0.col as int)
            && near_stones(m, sorted@[k].0.row as int, sorted@[k].0.col as int) > 0 && sorted@[k].1 == candidate_spec(
            m,
            sorted@[k].0.row as int,
            sorted@[k].0.col as int,
            color_code(side),
        ) by {
            assert(sorted@.contains(sorted@[k]));
            let t = choose|t: int| 0 <= t < scored@.len() && scored@[t] == sorted@[k];
            assert(scored@[t].0 == empties@[t]);
        }
        assert forall|a: int, b: int| 0 <= a < b < out@.len() implies out@[a] != out@[b] by {
            assert(out@[a] == sorted@[a].0 && out@[b] == sorted@[b].0);
            assert(sorted@[a] != sorted@[b]);
        }
        if exists|r: int, c: int| m.empty(r, c) && near_stones(m, r, c) > 0 {
            let (r, c) = choose|r: int, c: int| m.empty(r, c) && near_stones(m, r, c) > 0;
            assert(empties@.contains(Position { row: r as u8, col: c as u8 }));
        }
        assert forall|p: Position|
            #![trigger out@.contains(p)]
            m.empty(p.row as int, p.col as int) && near_stones(m, p.row as int, p.col as int) > 0
                && !out@.contains(p) implies out@.len() == TOP_K && forall|i: int|
                0 <= i < out@.len() ==> candidate_spec(
                    m,
                    (#[trigger] out@[i]).row as int,
                    out@[i].col as int,
                    color_code(side),
                ) >= candidate_spec(m, p.row as int, p.col as int, color_code(side)) by {
            assert(m.empty(p.row as int, p.col as int));
            assert(Position { row: (p.row as int) as u8, col: (p.col as int) as u8 } == p);
            assert(empties@.contains(p));
            let t = choose|t: int| 0 <= t < empties@.len() && empties@[t] == p;
            assert(scored@[t].0 == empties@[t]);
            assert(scored@.contains(scored@[t]));
            assert(sorted@.contains(scored@[t]));
            let u = choose|u: int| 0 <= u < sorted@.len() && sorted@[u] == scored@[t];
            if u < out@.len() {
                assert(out@[u] == sorted@[u].0);
                assert(out@.contains(out@[u]));
            }
            assert(j == TOP_K);
            assert forall|i: int| 0 <= i < out@.len() implies candidate_spec(
                m,
                (#[trigger] out@[i]).row as int,
                out@[i].col as int,
                color_code(side),
            ) >= candidate_spec(m, p.row as int, p.col as int, color_code(side)) by {
                assert(out@[i] == sorted@[i].0);
                assert(sorted@[i].1 >= sorted@[u].1);
            }
        }
    }
    out
}

/// The value for `side`, at distance `ply` from the root, of playing `p`
/// and looking no further: a win scores `WIN - ply`, any other move the
/// static score of the position it makes.
pub open spec fn ply_value(m: GridModel, p: Position, side: Color, rule: WinRule, ply: int) -> int {
    if wins_under(m, p.row as int, p.col as int, color_code(side), rule) {
        WIN - ply
    } else {
        let m1 = m.place(p.row as int, p.col as int, color_code(side));
        static_score(m1, color_code(side)) - static_score(m1, color_code(other(side)))
    }
}

/// A counter `k` steps on from `n`, without reaching the next multiple of
/// 1024, is not one.
proof fn lemma_counter_step(n: int, k: int)
    requires
        0 <= n,
        1 <= k,
        n % 1024 + k < 1024,
    ensures
        (n + k) % 1024 == n % 1024 + k,
        (n + k) % 1024 != 0,
{
    vstd::arithmetic::div_mod::lemma_fundamental_div_mod(n, 1024);
    vstd::arithmetic::div_mod::lemma_fundamental_div_mod_converse(n + k, 1024, n / 1024, n % 1024 + k);
}

/// The negamax searcher.
struct Searcher {
    rule_set: RuleSet,
    deadline: Instant,
    aborted: bool,
    nodes: u64,
    tt: HashMap<u64, TtEntry>,
    /// Per ply, the two latest moves that caused a beta cutoff.
    killers: Vec<(Option<Position>, Option<Position>)>,
}

impl Searcher {
    /// Every table entry holds a bounded score.
    spec fn tt_ok(&self) -> bool {
        forall|k: u64| #[trigger] self.tt@.contains_key(k) ==> bounded(self.tt@[k].value as int)
    }

    /// Whether to stop: the clock and the stop flag are read every 1024 nodes.
    fn out_of_time(&mut self, stop: &StopFlag) -> (b: bool)
        ensures
            final(self).rule_set == old(self).rule_set,
            final(self).tt == old(self).tt,
            final(self).killers == old(self).killers,
            b == final(self).aborted,
            old(self).aborted ==> b,
            final(self).nodes == (if old(self).nodes < u64::MAX {
                old(self).nodes + 1
            } else {
                old(self).nodes as int
            }),
            final(self).nodes % 1024 != 0 ==> final(self).aborted == old(self).aborted,
    {
        self.nodes = self.nodes.saturating_add(1);
        if self.nodes % 1024 == 0 {
            let t = now();
            if stop.should_stop() || at_or_after(&t, &self.deadline) {
                self.aborted = true;
            }
        }
        self.aborted
    }

    /// The killer moves of `ply` (none beyond the table).
    fn killers_at(&self, ply: i64) -> (k: (Option<Position>, Option<Position>))
        ensures
            0 <= ply < self.killers@.len() ==> k == self.killers@[ply as int],
            !(0 <= ply < self.killers@.len()) ==> k == (None::<Position>, None::<Position>),
    {
        if 0 <= ply && (ply as u64) < (self.killers.len() as u64) {
            self.killers[ply as usize]
        } else {
            (None, None)
        }
    }

    /// Records a move that caused a beta cutoff at `ply`: it takes the first
    /// slot and the old first moves to the second, unless it is already first.
    fn record_killer(&mut self, ply: i64, m: Position)
        ensures
            final(self).rule_set == old(self).rule_set,
            final(self).tt == old(self).tt,
            final(self).aborted == old(self).aborted,
            final(self).nodes == old(self).nodes,
            final(self).killers@.len() == old(self).killers@.len(),
            (0 <= ply < old(self).killers@.len() && old(self).killers@[ply as int].0 != Some(m))
                ==> final(self).killers@ == old(self).killers@.update(ply as int, (Some(m), old(self).killers@[ply as int].0)),
            !(0 <= ply < old(self).killers@.len() && old(self).killers@[ply as int].0 != Some(m))
                ==> final(self).killers@ == old(self).killers@,
    {
        if 0 <= ply && (ply as u64) < (self.killers.len() as u64) {
            let p = ply as usize;
            let (k0, _k1) = self.killers[p];
            let same = match k0 {
                Some(x) => x.row == m.row && x.col == m.col,
                None => false,
            };
            if !same {
                self.killers.set(p, (Some(m), k0));
            }
        }
    }

    /// The static score of `side`: its score minus the opponent's.
    fn eval(bits: &Bits, side: Color) -> (v: i64)
        requires
            bits.wf(),
        ensures
            v == static_score(bits.view(), color_code(side)) - static_score(bits.view(), color_code(other(side))),
            -800_000_000 <= v <= 800_000_000,
    {
        proof {
            bits.lemma_wf();
            super::lines::lemma_static_score_bounds(bits.view(), color_code(side));
            super::lines::lemma_static_score_bounds(bits.view(), color_code(other(side)));
        }
        bits.position_score(side) - bits.position_score(side.opposite())
    }

    /// Negamax alpha-beta from the view of `side`; `ply` is the distance
    /// from the root (shallower wins score higher).
    #[verifier::rlimit(100)]
    fn negamax(
        &mut self,
        bits: &mut Bits,
        side: Color,
        depth: i32,
        alpha: i64,
        beta: i64,
        ply: i64,
        stop: &StopFlag,
    ) -> (v: i64)
        requires
            old(bits).wf(),
            old(self).tt_ok(),
            depth >= 0,
            0 <= ply,
            ply + depth <= 1_000_000,
            bounded(alpha as int),
            bounded(beta as int),
        ensures
            final(bits).wf(),
            final(bits).view() == old(bits).view(),
            final(bits).zkeys() == old(bits).zkeys(),
            final(self).tt_ok(),
            final(self).rule_set == old(self).rule_set,
            final(self).killers@.len() == old(self).killers@.len(),
            bounded(v as int),
            depth == 0 && !final(self).aborted ==> v == static_score(old(bits).view(), color_code(side))
                - static_score(old(bits).view(), color_code(other(side))),
            depth == 0 ==> final(self).nodes == (if old(self).nodes < u64::MAX {
                old(self).nodes + 1
            } else {
                old(self).nodes as int
            }) && (final(self).nodes % 1024 != 0 ==> final(self).aborted == old(self).aborted),
            depth > 0 && !final(self).aborted && alpha < beta && !old(self).tt@.contains_key(table_key(*old(bits), side))
                && (exists|p: Position| five_point(old(bits).view(), p, color_code(side), old(self).rule_set.win_rule))
                && five_shapes_at_most(old(bits).view(), TOP_K as int) ==> v >= (if WIN - ply <= beta {
                WIN - ply
            } else {
                beta as int
            }),
            depth <= 1 && !old(self).aborted && old(self).nodes % 1024 <= 1010 && old(self).nodes <= u64::MAX - 13
                ==> !final(self).aborted,
            depth == 1 && !final(self).aborted && alpha < beta && WIN - ply <= beta && !old(self).tt@.contains_key(
                table_key(*old(bits), side),
            ) && (exists|p: Position| five_point(old(bits).view(), p, color_code(side), old(self).rule_set.win_rule))
                && five_shapes_at_most(old(bits).view(), TOP_K as int) && (forall|p: Position|
                old(bits).view().empty(p.row as int, p.col as int) ==> #[trigger] ply_value(
                    old(bits).view(),
                    p,
                    side,
                    old(self).rule_set.win_rule,
                    ply as int,
                ) <= WIN - ply) ==> v == WIN - ply,
        decreases depth, 1nat,
    {
        let ghost alpha_in = alpha;
        let ghost beta_in = beta;
        let ghost n0 = self.nodes as int;
        let ghost quiet = depth <= 1 && !self.aborted && self.nodes % 1024 <= 1010 && self.nodes <= u64::MAX - 13;
        if self.out_of_time(stop) {
            proof {
                if quiet {
                    lemma_counter_step(n0, 1);
                }
            }
            return 0;
        }
        proof {
            if quiet {
                lemma_counter_step(n0, 1);
            }
        }
        if depth == 0 {
            return Self::eval(bits, side);
        }
        let ghost m = bits.view();
        let mut alpha = alpha;
        let mut beta = beta;
        let key = tt_key(bits, side);
        let ghost fresh = !self.tt@.contains_key(key);
        let alpha_orig = alpha;
        let mut tt_move: Option<Position> = None;
        let probe = match self.tt.get(&key) {
            Some(e) => Some(*e),
            None => None,
        };
        match probe {
            Some(entry) => {
                proof {
                    assert(self.tt@.contains_key(key));
                    assert(self.tt@[key] == entry);
                }
                tt_move = entry.best;
                if entry.depth >= depth {
                    match entry.bound {
                        Bound::Exact => {
                            return entry.value;
                        },
                        Bound::Lower => {
                            if entry.value > alpha {
                                alpha = entry.value;
                            }
                        },
                        Bound::Upper => {
                            if entry.value < beta {
                                beta = entry.value;
                            }
                        },
                    }
                    if alpha >= beta {
                        return entry.value;
                    }
                }
            },
            None => {},
        }
        let ghost mid = *self;
        let v = self.expand(bits, side, depth, alpha, beta, ply, stop, key, alpha_orig, tt_move);
        proof {
            if quiet {
                assert(mid.nodes == n0 + 1);
                assert(mid.nodes % 1024 <= 1011);
            }
        }
        v
    }

    /// The moves of a node with `depth > 0` left, tried in order (the table
    /// move, the killers, then by shape score): each move making five scores
    /// `WIN - ply`, the others the negated value one ply deeper; a beta
    /// cutoff ends the loop. The node's bound is stored in the table.
    #[verifier::rlimit(100)]
    fn expand(
        &mut self,
        bits: &mut Bits,
        side: Color,
        depth: i32,
        alpha: i64,
        beta: i64,
        ply: i64,
        stop: &StopFlag,
        key: u64,
        alpha_orig: i64,
        tt_move: Option<Position>,
    ) -> (v: i64)
        requires
            old(bits).wf(),
            old(self).tt_ok(),
            depth > 0,
            0 <= ply,
            ply + depth <= 1_000_000,
            bounded(alpha as int),
            bounded(beta as int),
        ensures
            final(bits).wf(),
            final(bits).view() == old(bits).view(),
            final(bits).zkeys() == old(bits).zkeys(),
            final(self).tt_ok(),
            final(self).rule_set == old(self).rule_set,
            final(self).killers@.len() == old(self).killers@.len(),
            bounded(v as int),
            !final(self).aborted && alpha < beta && (exists|p: Position|
                five_point(old(bits).view(), p, color_code(side), old(self).rule_set.win_rule))
                && five_shapes_at_most(old(bits).view(), TOP_K as int) ==> v >= (if WIN - ply <= beta {
                WIN - ply
            } else {
                beta as int
            }),
            depth == 1 && !old(self).aborted && old(self).nodes % 1024 <= 1011 && old(self).nodes <= u64::MAX - 12
                ==> !final(self).aborted,
            depth == 1 && !final(self).aborted && (exists|p: Position|
                five_point(old(bits).view(), p, color_code(side), old(self).rule_set.win_rule))
                && five_shapes_at_most(old(bits).view(), TOP_K as int) && (forall|p: Position|
                old(bits).view().empty(p.row as int, p.col as int) ==> #[trigger] ply_value(
                    old(bits).view(),
                    p,
                    side,
                    old(self).rule_set.win_rule,
                    ply as int,
                ) <= WIN - ply) ==> v <= WIN - ply,
        decreases depth, 0nat,
    {
        let ghost m = bits.view();
        let ghost n0 = self.nodes as int;
        let ghost quiet = depth == 1 && !self.aborted && self.nodes % 1024 <= 1011 && self.nodes <= u64::MAX - 12;
        let mut cands = gen_candidates(bits, side);
        let ghost sc = color_code(side);
        let ghost rule = self.rule_set.win_rule;
        let ghost owed = (exists|p: Position| five_point(m, p, sc, rule)) && five_shapes_at_most(m, TOP_K as int);
        let ghost wp = choose|p: Position| five_point(m, p, sc, rule);
        proof {
            bits.lemma_wf();
            if owed {
                lemma_five_listed(m, cands@, wp, sc, sc, rule);
            }
        }
        if cands.len() == 0 {
            return Self::eval(bits, side);
        }
        let ghost c0 = cands@;
        let killers = self.killers_at(ply);
        let mut front = bring_front(&mut cands, 0, tt_move);
        let ghost c1 = cands@;
        front = bring_front(&mut cands, front, killers.0);
        let ghost c2 = cands@;
        let _ = bring_front(&mut cands, front, killers.1);
        proof {
            assert forall|k: int| 0 <= k < cands@.len() implies c0.contains(#[trigger] cands@[k]) by {
                let t2 = choose|t: int| 0 <= t < c2.len() && c2[t] == cands@[k];
                assert(c1.contains(c2[t2]));
                let t1 = choose|t: int| 0 <= t < c1.len() && c1[t] == c2[t2];
                assert(c0.contains(c1[t1]));
            }
        }
        proof {
            assert forall|k: int| 0 <= k < cands@.len() implies m.empty((#[trigger] cands@[k]).row as int, cands@[k].col as int) by {
                lemma_contained(c0, cands@, m, k);
            }
            if owed {
                let t0 = choose|t: int| 0 <= t < c0.len() && c0[t] == wp;
                assert(c1.contains(c0[t0]));
                let t1 = choose|t: int| 0 <= t < c1.len() && c1[t] == wp;
                assert(c2.contains(c1[t1]));
                let t2 = choose|t: int| 0 <= t < c2.len() && c2[t] == wp;
                assert(cands@.contains(c2[t2]));
            }
        }
        let ghost alpha_start = alpha;
        let mut alpha = alpha;
        let ghost mut cut = false;
        let ghost capped1 = forall|p: Position| m.empty(p.row as int, p.col as int) ==> #[trigger] ply_value(
            m,
            p,
            side,
            rule,
            ply as int,
        ) <= WIN - ply;
        let opponent = side.opposite();
        let mut best: i64 = -BOUND;
        let mut best_move: Option<Position> = None;
        let ghost b0 = *bits;
        let ghost s0 = *self;
        let mut i: usize = 0;
        while i < cands.len()
            invariant_except_break
                !cut,
            invariant
                bits.wf(),
                bits.view() == m,
                bits.zkeys() == b0.zkeys(),
                m == old(bits).view(),
                b0.zkeys() == old(bits).zkeys(),
                self.tt_ok(),
                self.rule_set == old(self).rule_set,
                self.killers@.len() == old(self).killers@.len(),
                depth > 0,
                0 <= ply,
                ply + depth <= 1_000_000,
                bounded(alpha as int),
                bounded(beta as int),
                bounded(best as int),
                opponent == other(side),
                i <= cands@.len(),
                forall|k: int| 0 <= k < cands@.len() ==> m.empty((#[trigger] cands@[k]).row as int, cands@[k].col as int),
                sc == color_code(side),
                rule == self.rule_set.win_rule,
                alpha as int == (if alpha_start >= best {
                    alpha_start as int
                } else {
                    best as int
                }),
                forall|k: int| 0 <= k < i && five_point(m, #[trigger] cands@[k], sc, rule) ==> best >= WIN - ply,
                cut ==> alpha >= beta,
                cands@.len() <= TOP_K,
                quiet == (depth == 1 && !old(self).aborted && n0 % 1024 <= 1011 && n0 <= u64::MAX - 12),
                n0 == old(self).nodes,
                quiet ==> !self.aborted && n0 <= self.nodes <= n0 + i + (if cut {
                    1int
                } else {
                    0int
                }),
                capped1 == (forall|p: Position| m.empty(p.row as int, p.col as int) ==> #[trigger] ply_value(
                    m,
                    p,
                    side,
                    rule,
                    ply as int,
                ) <= WIN - ply),
                depth == 1 && capped1 ==> best <= WIN - ply,
            ensures
                cut || i == cands@.len(),
            decreases cands@.len() - i,
        {
            let pos = cands[i];
            let r = pos.row as i32;
            let c = pos.col as i32;
            proof {
                assert(m.empty(cands@[i as int].row as int, cands@[i as int].col as int));
                bits.lemma_wf();
                lemma_wins_under_self(m, r as int, c as int, sc, sc, rule);
                lemma_make_unmake(bits.zkeys(), m, r as int, c as int, color_code(side));
                lemma_place_code(m, r as int, c as int, color_code(side));
            }
            bits.toggle(side, r, c);
            let ghost nb = self.nodes as int;
            let val = if bits.is_win(side, r, c, self.rule_set) {
                WIN - ply
            } else {
                let v = self.negamax(bits, opponent, depth - 1, -beta, -alpha, ply + 1, stop);
                proof {
                    if quiet {
                        lemma_counter_step(n0, self.nodes - n0);
                    }
                    if depth == 1 {
                        assert(other(opponent) == side) by {
                            match side {
                                Color::Black => {},
                                Color::White => {},
                            }
                        }
                    }
                }
                -v
            };
            proof {
                lemma_place_code(m.place(r as int, c as int, color_code(side)), r as int, c as int, EMPTY);
                if depth == 1 && !self.aborted {
                    assert(val == ply_value(m, pos, side, rule, ply as int));
                }
            }
            bits.toggle(side, r, c);
            if self.aborted {
                return best;
            }
            if val > best {
                best = val;
                best_move = Some(pos);
            }
            if best > alpha {
                alpha = best;
            }
            if alpha >= beta {
                self.record_killer(ply, pos);
                proof {
                    cut = true;
                }
                break;
            }
            i = i + 1;
        }
        proof {
            if owed && !cut {
                let t = choose|t: int| 0 <= t < cands@.len() && cands@[t] == wp;
                assert(five_point(m, cands@[t], sc, rule));
            }
        }
        let bound = if best <= alpha_orig {
            Bound::Upper
        } else if best >= beta {
            Bound::Lower
        } else {
            Bound::Exact
        };
        self.tt.insert(key, TtEntry { depth, value: best, bound, best: best_move });
        best
    }
}

/// The value of root `p` for `side` after one ply: a win, else the static
/// score of the position the move makes.
pub open spec fn root_value(m: GridModel, p: Position, side: Color, rule: WinRule) -> int {
    if wins_under(m, p.row as int, p.col as int, color_code(side), rule) {
        WIN as int
    } else {
        let m1 = m.place(p.row as int, p.col as int, color_code(side));
        static_score(m1, color_code(side)) - static_score(m1, color_code(other(side)))
    }
}

/// Root `k` has the greatest one-ply value of `roots`.
pub open spec fn top_root(m: GridModel, roots: Seq<Position>, k: int, side: Color, rule: WinRule) -> bool {
    forall|j: int| 0 <= j < roots.len() ==> root_value(m, roots[k], side, rule) >= #[trigger] root_value(m, roots[j], side, rule)
}

/// Some root makes five for `side`.
pub open spec fn five_root(m: GridModel, roots: Seq<Position>, side: Color, rule: WinRule) -> bool {
    exists|k: int| 0 <= k < roots.len() && wins_under(m, (#[trigger] roots[k]).row as int, roots[k].col as int, color_code(side), rule)
}

/// `best` holds exactly the roots of greatest one-ply value.
pub open spec fn picks_top(m: GridModel, roots: Seq<Position>, best: Seq<Position>, side: Color, rule: WinRule) -> bool {
    &&& forall|j: int| 0 <= j < best.len() ==> #[trigger] top_point(m, roots, best[j], side, rule)
    &&& forall|k: int| 0 <= k < roots.len() && top_root(m, roots, k, side, rule) ==> best.contains(#[trigger] roots[k])
}

/// `p` is one of the first `i` items of `roots`.
pub open spec fn listed_before(roots: Seq<Position>, i: int, p: Position) -> bool {
    exists|k: int| 0 <= k < i && #[trigger] roots[k] == p
}

/// `p` is a root of greatest one-ply value.
pub open spec fn top_point(m: GridModel, roots: Seq<Position>, p: Position, side: Color, rule: WinRule) -> bool {
    exists|k: int| 0 <= k < roots.len() && roots[k] == p && #[trigger] top_root(m, roots, k, side, rule)
}

/// The list kept at the end of a full one-ply pass holds the top roots.
proof fn lemma_picks_top(m: GridModel, roots: Seq<Position>, best: Seq<Position>, best_val: int, side: Color, rule: WinRule)
    requires
        best.len() > 0,
        forall|k: int| 0 <= k < roots.len() ==> root_value(m, #[trigger] roots[k], side, rule) <= best_val,
        forall|j: int|
            0 <= j < best.len() ==> root_value(m, #[trigger] best[j], side, rule) == best_val && listed_before(roots, roots.len() as int, best[j]),
        forall|k: int|
            0 <= k < roots.len() && root_value(m, #[trigger] roots[k], side, rule) == best_val ==> best.contains(roots[k]),
    ensures
        picks_top(m, roots, best, side, rule),
{
    assert forall|j: int| 0 <= j < best.len() implies #[trigger] top_point(m, roots, best[j], side, rule) by {
        assert(root_value(m, best[j], side, rule) == best_val);
        let k = choose|k: int| 0 <= k < roots.len() && #[trigger] roots[k] == best[j];
        assert(top_root(m, roots, k, side, rule));
    }
    assert forall|k: int| 0 <= k < roots.len() && top_root(m, roots, k, side, rule) implies best.contains(
        #[trigger] roots[k],
    ) by {
        assert(root_value(m, best[0], side, rule) == best_val);
        assert(listed_before(roots, roots.len() as int, best[0]));
        let k0 = choose|k0: int| 0 <= k0 < roots.len() && #[trigger] roots[k0] == best[0];
        assert(root_value(m, roots[k], side, rule) >= root_value(m, roots[k0], side, rule));
        assert(root_value(m, roots[k], side, rule) <= best_val);
        assert(root_value(m, roots[k], side, rule) == best_val);
        assert(best.contains(roots[k]));
    }
}

/// One more root of a one-ply pass keeps the kept list the top of the
/// roots seen so far.
proof fn lemma_pass_step(
    m: GridModel,
    roots: Seq<Position>,
    i: int,
    b0: Seq<Position>,
    b1: Seq<Position>,
    v0: int,
    v1: int,
    val: int,
    side: Color,
    rule: WinRule,
)
    requires
        0 <= i < roots.len(),
        val == root_value(m, roots[i], side, rule),
        b0.len() == 0 ==> v0 < val,
        forall|k: int| 0 <= k < i ==> root_value(m, #[trigger] roots[k], side, rule) <= v0,
        forall|j: int|
            0 <= j < b0.len() ==> root_value(m, #[trigger] b0[j], side, rule) == v0 && listed_before(roots, i, b0[j]),
        forall|k: int| 0 <= k < i && root_value(m, #[trigger] roots[k], side, rule) == v0 ==> b0.contains(roots[k]),
        val > v0 ==> v1 == val && b1 == seq![roots[i]],
        val == v0 ==> v1 == v0 && b1 == b0.push(roots[i]),
        val < v0 ==> v1 == v0 && b1 == b0,
    ensures
        forall|k: int| 0 <= k < i + 1 ==> root_value(m, #[trigger] roots[k], side, rule) <= v1,
        forall|j: int|
            0 <= j < b1.len() ==> root_value(m, #[trigger] b1[j], side, rule) == v1 && listed_before(roots, i + 1, b1[j]),
        forall|k: int| 0 <= k < i + 1 && root_value(m, #[trigger] roots[k], side, rule) == v1 ==> b1.contains(roots[k]),
{
    assert forall|k: int| 0 <= k < i + 1 implies root_value(m, #[trigger] roots[k], side, rule) <= v1 by {
        if k < i {
            assert(root_value(m, roots[k], side, rule) <= v0);
        }
    }
    assert forall|j: int|
        0 <= j < b1.len() implies root_value(m, #[trigger] b1[j], side, rule) == v1 && listed_before(roots, i + 1, b1[j]) by {
        if val > v0 {
            assert(b1[j] == roots[i]);
        } else if j < b0.len() {
            assert(b1[j] == b0[j]);
            assert(root_value(m, b0[j], side, rule) == v0);
            assert(listed_before(roots, i, b0[j]));
            let k = choose|k: int| 0 <= k < i && #[trigger] roots[k] == b0[j];
            assert(roots[k] == b1[j]);
        } else {
            assert(b1[j] == roots[i]);
        }
    }
    assert forall|k: int| 0 <= k < i + 1 && root_value(m, #[trigger] roots[k], side, rule) == v1 implies b1.contains(
        roots[k],
    ) by {
        if k == i {
            assert(b1[b1.len() - 1] == roots[i]);
        } else {
            assert(root_value(m, roots[k], side, rule) <= v0);
            assert(root_value(m, roots[k], side, rule) == v0);
            assert(b0.contains(roots[k]));
            let t = choose|t: int| 0 <= t < b0.len() && b0[t] == roots[k];
            assert(b1[t] == b0[t]);
        }
    }
}

/// Iterative deepening over `roots`: the tied best moves of the deepest
/// iteration taken (even iterations, or any that finds a win), all roots
/// when no iteration was taken or there are fewer than two roots.
#[verifier::rlimit(60)]
pub fn search_best(
    bits: &mut Bits,
    side: Color,
    rule_set: RuleSet,
    roots: &[Position],
    max_depth: i32,
    stop: &StopFlag,
    deadline: Instant,
) -> (best: Vec<Position>)
    requires
        old(bits).wf(),
        forall|k: int| 0 <= k < roots@.len() ==> old(bits).view().empty((#[trigger] roots@[k]).row as int, roots@[k].col as int),
    ensures
        final(bits).wf(),
        final(bits).view() == old(bits).view(),
        roots@.len() <= 1 ==> best@ == roots@,
        roots@.len() > 0 ==> best@.len() > 0,
        forall|k: int| 0 <= k < best@.len() ==> roots@.contains(#[trigger] best@[k]),
        2 <= roots@.len() < 1024 && max_depth >= 1 && five_root(old(bits).view(), roots@, side, rule_set.win_rule)
            ==> picks_top(old(bits).view(), roots@, best@, side, rule_set.win_rule),
{
    let mut all: Vec<Position> = Vec::new();
    let mut k: usize = 0;
    while k < roots.len()
        invariant
            k <= roots@.len(),
            all@ == roots@.take(k as int),
        decreases roots@.len() - k,
    {
        all.push(roots[k]);
        proof {
            assert(roots@.take(k + 1) =~= roots@.take(k as int).push(roots@[k as int]));
        }
        k = k + 1;
    }
    proof {
        assert(roots@.take(roots@.len() as int) =~= roots@);
    }
    if roots.len() <= 1 {
        return all;
    }
    let ghost m = bits.view();
    let mut killers: Vec<(Option<Position>, Option<Position>)> = Vec::new();
    let mut kk: usize = 0;
    while kk < MAX_PLY
        invariant
            kk <= MAX_PLY,
        decreases MAX_PLY - kk,
    {
        killers.push((None, None));
        kk = kk + 1;
    }
    let mut searcher = Searcher {
        rule_set,
        deadline,
        aborted: false,
        nodes: 0,
        tt: HashMap::new(),
        killers,
    };
    let opponent = side.opposite();
    let mut result = copy_positions(&all);
    let mut order = all;
    proof {
        assert(result@ == roots@);
    }
    let ghost rule = rule_set.win_rule;
    let ghost owed1 = roots@.len() < 1024 && max_depth >= 1 && five_root(m, roots@, side, rule);
    let max_depth = if max_depth > MAX_SEARCH_DEPTH {
        MAX_SEARCH_DEPTH
    } else {
        max_depth
    };
    let mut depth: i32 = 1;
    while depth <= max_depth
        invariant_except_break
            !searcher.aborted,
            owed1 ==> depth == 1,
            depth == 1 ==> order@ == roots@ && searcher.nodes == 0,
        invariant
            rule == rule_set.win_rule,
            owed1 ==> max_depth >= 1 && roots@.len() < 1024 && five_root(m, roots@, side, rule),
            max_depth <= MAX_SEARCH_DEPTH,
            depth <= max_depth || max_depth < 1,
            bits.wf(),
            bits.view() == m,
            m == old(bits).view(),
            searcher.tt_ok(),
            searcher.rule_set == rule_set,
            opponent == other(side),
            depth >= 1,
            order@.len() == roots@.len(),
            roots@.len() >= 2,
            forall|j: int| 0 <= j < order@.len() ==> roots@.contains(#[trigger] order@[j]),
            result@.len() > 0,
            forall|j: int| 0 <= j < result@.len() ==> roots@.contains(#[trigger] result@[j]),
            forall|j: int| 0 <= j < roots@.len() ==> m.empty((#[trigger] roots@[j]).row as int, roots@[j].col as int),
        ensures
            owed1 ==> picks_top(m, roots@, result@, side, rule),
        decreases max_depth - depth + 1,
    {
        let mut alpha: i64 = -BOUND;
        let beta: i64 = BOUND;
        let mut best_val: i64 = -BOUND;
        let mut best: Vec<Position> = Vec::new();
        let mut i: usize = 0;
        let mut stopped = false;
        while i < order.len() && !stopped
            invariant
                stopped == searcher.aborted,
                depth <= MAX_SEARCH_DEPTH,
                bits.wf(),
                bits.view() == m,
                searcher.tt_ok(),
                searcher.rule_set == rule_set,
                opponent == other(side),
                depth >= 1,
                bounded(alpha as int),
                bounded(best_val as int),
                beta == BOUND,
                i <= order@.len(),
                order@.len() == roots@.len(),
                forall|j: int| 0 <= j < order@.len() ==> roots@.contains(#[trigger] order@[j]),
                best@.len() <= i,
                i > 0 && !searcher.aborted ==> best@.len() > 0,
                best@.len() == 0 ==> best_val == -BOUND,
                forall|j: int| 0 <= j < best@.len() ==> roots@.contains(#[trigger] best@[j]),
                forall|j: int| 0 <= j < roots@.len() ==> m.empty((#[trigger] roots@[j]).row as int, roots@[j].col as int),
                rule == rule_set.win_rule,
                m == old(bits).view(),
                depth == 1 ==> order@ == roots@ && searcher.nodes <= i + (if stopped {
                    1int
                } else {
                    0int
                }),
                depth == 1 && roots@.len() < 1024 ==> !stopped,
                depth == 1 && !stopped ==> forall|k: int|
                    0 <= k < i ==> root_value(m, #[trigger] roots@[k], side, rule) <= best_val,
                depth == 1 && !stopped ==> forall|j: int|
                    0 <= j < best@.len() ==> root_value(m, #[trigger] best@[j], side, rule) == best_val && listed_before(
                        roots@,
                        i as int,
                        best@[j],
                    ),
                depth == 1 && !stopped ==> forall|k: int|
                    0 <= k < i && root_value(m, #[trigger] roots@[k], side, rule) == best_val ==> best@.contains(roots@[k]),
            decreases order@.len() - i + (if stopped {
                0int
            } else {
                1int
            }),
        {
            let pos = order[i];
            proof {
                assert(roots@.contains(order@[i as int]));
                let t = choose|t: int| 0 <= t < roots@.len() && roots@[t] == pos;
                assert(m.empty(roots@[t].row as int, roots@[t].col as int));
            }
            let r = pos.row as i32;
            let c = pos.col as i32;
            proof {
                bits.lemma_wf();
                lemma_make_unmake(bits.zkeys(), m, r as int, c as int, color_code(side));
                lemma_place_code(m, r as int, c as int, color_code(side));
            }
            proof {
                lemma_wins_under_self(m, r as int, c as int, color_code(side), color_code(side), rule);
            }
            bits.toggle(side, r, c);
            let ghost n0 = searcher.nodes;
            let val = if bits.is_win(side, r, c, rule_set) {
                WIN
            } else {
                let v = searcher.negamax(bits, opponent, depth - 1, -beta, -alpha, 1, stop);
                assert(bounded(v as int));
                -v
            };
            proof {
                if depth == 1 {
                    assert(searcher.nodes <= n0 + 1);
                    if !searcher.aborted {
                        assert(other(opponent) == side) by {
                            match side {
                                Color::Black => {},
                                Color::White => {},
                            }
                        }
                        assert(val == root_value(m, pos, side, rule));
                    }
                }
            }
            proof {
                lemma_place_code(m.place(r as int, c as int, color_code(side)), r as int, c as int, EMPTY);
            }
            bits.toggle(side, r, c);
            if searcher.aborted {
                stopped = true;
            } else {
            let ghost bv0 = best_val;
            let ghost b00 = best@;
            if val > best_val {
                best_val = val;
                best.clear();
                best.push(pos);
            } else if val == best_val {
                let ghost b0 = best@;
                best.push(pos);
                proof {
                    assert forall|j: int| 0 <= j < best@.len() implies roots@.contains(#[trigger] best@[j]) by {
                        if j < b0.len() {
                            assert(best@[j] == b0[j]);
                        }
                    }
                }
            }
            proof {
                if depth == 1 {
                    assert(pos == roots@[i as int]);
                    let m1 = m.place(pos.row as int, pos.col as int, color_code(side));
                    super::lines::lemma_static_score_bounds(m1, color_code(side));
                    super::lines::lemma_static_score_bounds(m1, color_code(other(side)));
                    lemma_pass_step(m, roots@, i as int, b00, best@, bv0 as int, best_val as int, val as int, side, rule);
                }
            }
            if val > alpha {
                alpha = val;
            }
            i = i + 1;
            }
        }
        if stopped {
            break;
        }
        proof {
            if owed1 {
                let k = choose|k: int|
                    0 <= k < roots@.len() && wins_under(m, (#[trigger] roots@[k]).row as int, roots@[k].col as int, color_code(side), rule);
                assert(root_value(m, roots@[k], side, rule) == WIN);
                assert(best_val >= WIN);
            }
        }
        let winning = best_val >= WIN / 2;
        if depth % 2 == 0 || winning {
            result = copy_positions(&best);
            proof {
                assert(best@.len() > 0);
                if owed1 {
                    lemma_picks_top(m, roots@, best@, best_val as int, side, rule);
                }
            }
        }
        if winning {
            break;
        }
        let t = now();
        if stop.should_stop() || at_or_after(&t, &deadline) {
            break;
        }
        let first = if best.len() > 0 {
            Some(best[0])
        } else {
            None
        };
        let ghost o0 = order@;
        bring_front(&mut order, 0, first);
        proof {
            assert forall|j: int| 0 <= j < order@.len() implies roots@.contains(#[trigger] order@[j]) by {
                let t = choose|t: int| 0 <= t < o0.len() && o0[t] == order@[j];
                assert(roots@.contains(o0[t]));
            }
        }
        if depth == max_depth {
            break;
        }
        depth = depth + 1;
    }
    result
}

} // verus!
