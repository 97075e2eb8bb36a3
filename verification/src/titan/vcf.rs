//! VCF (victory by continuous fours) on the bit-line board.
//!
//! The attacker plays only fours, each threatening five so that the
//! defender must take the one five point; an open four or double four (two
//! or more five points) cannot be blocked. The defender's own five points
//! are checked at every step, so a line where it can make five first is
//! dropped. Five points follow `ctx.rule_set`.

use std::time::Instant;

use vstd::prelude::*;

use super::bitboard::{dir_hit, end_kind, near_stones, run_end, run_side, stone_near, wins_under, Bits};
use super::geometry::sdir;
use crate::bot::clock::{at_or_after, now};
use crate::bot::StopFlag;
use crate::model::color::other;
use crate::model::board::{cell_index, lemma_cell_index_bounds};
use crate::model::{Color, Position, RuleSet, WinRule};
use crate::onyx::grid::{
    color_code, dir_c, dir_r, lemma_make_unmake, lemma_place_code, lemma_place_other, lemma_win_point_near, other_code,
    step, win_of, GridModel, Win, BLACK, EMPTY, WHITE,
};
use crate::onyx::search::{after_reply, four_holds, vcf_wins, winning_move};
use crate::rules::lemma_near_positive;
use crate::sort::sort_desc;

verus! {

/// How many attacking fours a VCF may chain.
pub const VCF_DEPTH: i32 = 12;

// ---------------------------------------------------------------------
// What a VCF found proves, for the win rules other than caro (under caro
// a reply next to a five can block it, so a four is no forced threat).
// ---------------------------------------------------------------------

/// Outside caro, a five point by the rule set is a winning line.
proof fn lemma_plain(g: GridModel, r: int, c: int, color: u8, rule: WinRule)
    requires
        rule != WinRule::Caro,
    ensures
        wins_under(g, r, c, color, rule) == g.wins_at(r, c, color, win_of(rule)),
{
}

/// A count walking away from `(qr, qc)` does not see that point.
proof fn lemma_count_away(
    a: GridModel,
    b: GridModel,
    qr: int,
    qc: int,
    x: int,
    y: int,
    dr: int,
    dc: int,
    color: u8,
    fuel: nat,
    t: int,
)
    requires
        forall|u: int, v: int|
            #![trigger a.code(u, v)]
            #![trigger b.code(u, v)]
            (u != qr || v != qc) ==> a.code(u, v) == b.code(u, v),
        -1 <= dr <= 1,
        -1 <= dc <= 1,
        dr != 0 || dc != 0,
        t >= 0,
        step(x, -dr, t) == qr,
        step(y, -dc, t) == qc,
    ensures
        a.count(x, y, dr, dc, color, fuel) == b.count(x, y, dr, dc, color, fuel),
    decreases fuel,
{
    if fuel > 0 {
        assert(x + dr != qr || y + dc != qc);
        assert(a.code(x + dr, y + dc) == b.code(x + dr, y + dc));
        lemma_count_away(a, b, qr, qc, x + dr, y + dc, dr, dc, color, (fuel - 1) as nat, t + 1);
    }
}

/// Whether a stone on `(r, c)` wins does not depend on what `(r, c)` holds.
proof fn lemma_wins_at_self(g: GridModel, r: int, c: int, v: u8, color: u8, win: Win)
    requires
        g.w >= 0,
        g.cells.len() == g.w * g.h,
        g.has(r, c),
    ensures
        g.place(r, c, v).wins_at(r, c, color, win) == g.wins_at(r, c, color, win),
{
    let g1 = g.place(r, c, v);
    lemma_place_code(g, r, c, v);
    assert(g1.fuel() == g.fuel());
    let f = g.fuel();
    assert forall|k: int| 0 <= k < 4 implies g1.run(r, c, k, color) == g.run(r, c, k, color) by {
        lemma_count_away(g1, g, r, c, r, c, dir_r(k), dir_c(k), color, f, 0);
        lemma_count_away(g1, g, r, c, r, c, -dir_r(k), -dir_c(k), color, f, 0);
    }
    assert(g1.run(r, c, 0, color) == g.run(r, c, 0, color));
    assert(g1.run(r, c, 1, color) == g.run(r, c, 1, color));
    assert(g1.run(r, c, 2, color) == g.run(r, c, 2, color));
    assert(g1.run(r, c, 3, color) == g.run(r, c, 3, color));
}

/// Whether a stone on `(r, c)` wins under a rule does not depend on what
/// `(r, c)` holds.
pub(crate) proof fn lemma_wins_under_self(g: GridModel, r: int, c: int, v: u8, color: u8, rule: WinRule)
    requires
        g.w >= 0,
        g.cells.len() == g.w * g.h,
        g.has(r, c),
    ensures
        wins_under(g.place(r, c, v), r, c, color, rule) == wins_under(g, r, c, color, rule),
{
    let g1 = g.place(r, c, v);
    lemma_place_code(g, r, c, v);
    assert(g1.fuel() == g.fuel());
    let f = g.fuel();
    assert forall|k: int| 0 <= k < 4 implies #[trigger] dir_hit(g1, r, c, k, color, rule) == dir_hit(g, r, c, k, color, rule) by {
        lemma_count_away(g1, g, r, c, r, c, dir_r(k), dir_c(k), color, f, 0);
        lemma_count_away(g1, g, r, c, r, c, -dir_r(k), -dir_c(k), color, f, 0);
        assert(run_side(g1, r, c, k, 1, color) == run_side(g, r, c, k, 1, color));
        assert(run_side(g1, r, c, k, -1, color) == run_side(g, r, c, k, -1, color));
        let n1 = run_side(g, r, c, k, 1, color) as int;
        let n2 = run_side(g, r, c, k, -1, color) as int;
        let x1 = step(r, sdir(1, dir_r(k)), n1 + 1);
        let y1 = step(c, sdir(1, dir_c(k)), n1 + 1);
        let x2 = step(r, sdir(-1, dir_r(k)), n2 + 1);
        let y2 = step(c, sdir(-1, dir_c(k)), n2 + 1);
        assert(x1 != r || y1 != c);
        assert(x2 != r || y2 != c);
        assert(g1.code(x1, y1) == g.code(x1, y1));
        assert(g1.code(x2, y2) == g.code(x2, y2));
        assert(run_end(g1, r, c, k, 1, color) == run_end(g, r, c, k, 1, color));
        assert(run_end(g1, r, c, k, -1, color) == run_end(g, r, c, k, -1, color));
    }
    assert(dir_hit(g1, r, c, 0, color, rule) == dir_hit(g, r, c, 0, color, rule));
    assert(dir_hit(g1, r, c, 1, color, rule) == dir_hit(g, r, c, 1, color, rule));
    assert(dir_hit(g1, r, c, 2, color, rule) == dir_hit(g, r, c, 2, color, rule));
    assert(dir_hit(g1, r, c, 3, color, rule) == dir_hit(g, r, c, 3, color, rule));
}

/// After `atk` plays `m`, a five point of the defender lies among the
/// empty points of the earlier board with a stone within two, and is not
/// `m`; so if none of those is one, the defender has none.
proof fn lemma_no_defender_five(
    g: GridModel,
    m: Position,
    atk: u8,
    rule: WinRule,
    empties: Seq<Position>,
    rest: Seq<Position>,
)
    requires
        g.w >= 0,
        g.w <= 32,
        g.h <= 32,
        g.cells.len() == g.w * g.h,
        atk == BLACK || atk == WHITE,
        rule != WinRule::Caro,
        g.empty(m.row as int, m.col as int),
        forall|r: int, c: int|
            #![trigger g.empty(r, c)]
            g.empty(r, c) && near_stones(g, r, c) > 0 ==> empties.contains(Position { row: r as u8, col: c as u8 }),
        forall|j: int| 0 <= j < empties.len() && #[trigger] empties[j] != m ==> rest.contains(empties[j]),
        forall|k: int|
            0 <= k < rest.len() ==> !wins_under(
                g.place(m.row as int, m.col as int, atk),
                (#[trigger] rest[k]).row as int,
                rest[k].col as int,
                other_code(atk),
                rule,
            ),
    ensures
        forall|p: (i32, i32)|
            !#[trigger] g.place(m.row as int, m.col as int, atk).win_point(p.0 as int, p.1 as int, other_code(atk), win_of(rule)),
{
    let g1 = g.place(m.row as int, m.col as int, atk);
    let def = other_code(atk);
    let win = win_of(rule);
    lemma_place_code(g, m.row as int, m.col as int, atk);
    assert forall|p: (i32, i32)| !#[trigger] g1.win_point(p.0 as int, p.1 as int, def, win) by {
        if g1.win_point(p.0 as int, p.1 as int, def, win) {
            let r = p.0 as int;
            let c = p.1 as int;
            assert(g1.empty(r, c));
            assert(r != m.row || c != m.col);
            assert(g.empty(r, c));
            lemma_win_point_near(g1, r, c, def, win);
            let (sr, sc) = choose|sr: int, sc: int|
                #![trigger g1.code(sr, sc)]
                g1.has(sr, sc) && g1.code(sr, sc) == def && GridModel::near(r, c, sr, sc, 1);
            assert(sr != m.row || sc != m.col);
            assert(g.code(sr, sc) == def);
            assert(stone_near(g, r, c, sr - r, sc - c) == 1);
            lemma_near_positive(g, r, c, sr - r, sc - c);
            let q = Position { row: r as u8, col: c as u8 };
            assert(q.row as int == r && q.col as int == c);
            assert(empties.contains(q));
            let j = choose|j: int| 0 <= j < empties.len() && empties[j] == q;
            assert(empties[j] != m);
            assert(rest.contains(q));
            let k = choose|k: int| 0 <= k < rest.len() && rest[k] == q;
            assert(!wins_under(g1, rest[k].row as int, rest[k].col as int, def, rule));
            lemma_plain(g1, r, c, def, rule);
        }
    }
}

/// A five point of `color`, under any win rule, has a stone within two.
pub(crate) proof fn lemma_five_point_near(g: GridModel, r: int, c: int, color: u8, rule: WinRule)
    requires
        g.w >= 0,
        g.cells.len() == g.w * g.h,
        color == BLACK || color == WHITE,
        g.empty(r, c),
        wins_under(g, r, c, color, rule),
    ensures
        near_stones(g, r, c) > 0,
{
    let win = if rule == WinRule::Overline {
        Win::Overline
    } else {
        Win::Exact
    };
    assert(g.wins_at(r, c, color, win));
    lemma_win_point_near(g, r, c, color, win);
    let (sr, sc) = choose|sr: int, sc: int|
        #![trigger g.code(sr, sc)]
        g.has(sr, sc) && g.code(sr, sc) == color && GridModel::near(r, c, sr, sc, 1);
    assert(sr != r || sc != c);
    assert(stone_near(g, r, c, sr - r, sc - c) == 1);
    lemma_near_positive(g, r, c, sr - r, sc - c);
}

/// Two five points: no single reply stops both.
proof fn lemma_two_fives(g1: GridModel, p1: (i32, i32), p2: (i32, i32), atk: u8, win: Win, n: nat)
    requires
        g1.w >= 0,
        g1.cells.len() == g1.w * g1.h,
        atk == BLACK || atk == WHITE,
        p1 != p2,
        g1.win_point(p1.0 as int, p1.1 as int, atk, win),
        g1.win_point(p2.0 as int, p2.1 as int, atk, win),
        forall|p: (i32, i32)| !#[trigger] g1.win_point(p.0 as int, p.1 as int, other_code(atk), win),
    ensures
        four_holds(g1, atk, win, n),
{
    let def = other_code(atk);
    assert forall|q: (i32, i32)| #[trigger] g1.empty(q.0 as int, q.1 as int) implies after_reply(
        g1.place(q.0 as int, q.1 as int, def),
        atk,
        win,
        n,
    ) by {
        let p = if q != p1 {
            p1
        } else {
            p2
        };
        assert((p.0 as int, p.1 as int) != (q.0 as int, q.1 as int));
        lemma_place_other(g1, q.0 as int, q.1 as int, def, atk, p.0 as int, p.1 as int, win);
        assert(g1.place(q.0 as int, q.1 as int, def).win_point(p.0 as int, p.1 as int, atk, win));
    }
}

/// One five point `b`: every other reply leaves it, and the forced reply on
/// it leaves a win by `after`.
proof fn lemma_one_five(g1: GridModel, b: (i32, i32), atk: u8, win: Win, n: nat)
    requires
        g1.w >= 0,
        g1.cells.len() == g1.w * g1.h,
        atk == BLACK || atk == WHITE,
        g1.win_point(b.0 as int, b.1 as int, atk, win),
        forall|p: (i32, i32)| !#[trigger] g1.win_point(p.0 as int, p.1 as int, other_code(atk), win),
        after_reply(g1.place(b.0 as int, b.1 as int, other_code(atk)), atk, win, n),
    ensures
        four_holds(g1, atk, win, n),
{
    let def = other_code(atk);
    assert forall|q: (i32, i32)| #[trigger] g1.empty(q.0 as int, q.1 as int) implies after_reply(
        g1.place(q.0 as int, q.1 as int, def),
        atk,
        win,
        n,
    ) by {
        if (q.0 as int, q.1 as int) != (b.0 as int, b.1 as int) {
            lemma_place_other(g1, q.0 as int, q.1 as int, def, atk, b.0 as int, b.1 as int, win);
            assert(g1.place(q.0 as int, q.1 as int, def).win_point(b.0 as int, b.1 as int, atk, win));
        } else {
            assert(g1.place(q.0 as int, q.1 as int, def) == g1.place(b.0 as int, b.1 as int, def));
        }
    }
}

/// The five points of `side` among `empties`, in their order.
fn five_points(bits: &Bits, empties: &Vec<Position>, side: Color, rule_set: RuleSet) -> (out: Vec<Position>)
    requires
        bits.wf(),
        forall|k: int| 0 <= k < empties@.len() ==> bits.view().empty((#[trigger] empties@[k]).row as int, empties@[k].col as int),
    ensures
        forall|k: int|
            0 <= k < out@.len() ==> empties@.contains(#[trigger] out@[k]) && wins_under(
                bits.view(),
                out@[k].row as int,
                out@[k].col as int,
                color_code(side),
                rule_set.win_rule,
            ),
        forall|k: int|
            0 <= k < empties@.len() && wins_under(
                bits.view(),
                empties@[k].row as int,
                empties@[k].col as int,
                color_code(side),
                rule_set.win_rule,
            ) ==> out@.contains(#[trigger] empties@[k]),
{
    let mut out: Vec<Position> = Vec::new();
    let mut i: usize = 0;
    while i < empties.len()
        invariant
            bits.wf(),
            i <= empties@.len(),
            forall|k: int| 0 <= k < empties@.len() ==> bits.view().empty((#[trigger] empties@[k]).row as int, empties@[k].col as int),
            forall|k: int|
                0 <= k < out@.len() ==> empties@.contains(#[trigger] out@[k]) && wins_under(
                    bits.view(),
                    out@[k].row as int,
                    out@[k].col as int,
                    color_code(side),
                    rule_set.win_rule,
                ),
            forall|k: int|
                0 <= k < i && wins_under(
                    bits.view(),
                    empties@[k].row as int,
                    empties@[k].col as int,
                    color_code(side),
                    rule_set.win_rule,
                ) ==> out@.contains(#[trigger] empties@[k]),
        decreases empties@.len() - i,
    {
        let p = empties[i];
        proof {
            assert(bits.view().empty(empties@[i as int].row as int, empties@[i as int].col as int));
        }
        if bits.would_win(side, p, rule_set) {
            let ghost o0 = out@;
            out.push(p);
            proof {
                assert(empties@.contains(empties@[i as int]));
                assert forall|k: int|
                    0 <= k < out@.len() implies empties@.contains(#[trigger] out@[k]) && wins_under(
                        bits.view(),
                        out@[k].row as int,
                        out@[k].col as int,
                        color_code(side),
                        rule_set.win_rule,
                    ) by {
                    if k < o0.len() {
                        assert(out@[k] == o0[k]);
                    }
                }
                assert forall|k: int|
                    0 <= k < i + 1 && wins_under(
                        bits.view(),
                        empties@[k].row as int,
                        empties@[k].col as int,
                        color_code(side),
                        rule_set.win_rule,
                    ) implies out@.contains(#[trigger] empties@[k]) by {
                    if k < i {
                        let t = choose|t: int| 0 <= t < o0.len() && o0[t] == empties@[k];
                        assert(out@[t] == o0[t]);
                    } else {
                        assert(out@[out@.len() - 1] == p);
                    }
                }
            }
        }
        i = i + 1;
    }
    out
}

/// `m`, played by `color`, makes five itself or makes a four: afterwards
/// `color` has a five point somewhere.
pub open spec fn makes_four(g: GridModel, m: Position, color: u8, rule_set: RuleSet) -> bool {
    let g1 = g.place(m.row as int, m.col as int, color);
    ||| wins_under(g1, m.row as int, m.col as int, color, rule_set.win_rule)
    ||| exists|p: Position|
        g1.empty(p.row as int, p.col as int) && #[trigger] wins_under(
            g1,
            p.row as int,
            p.col as int,
            color,
            rule_set.win_rule,
        )
}

/// After `atk` plays `m` on `g`, `p` is a five point of `color`.
pub open spec fn five_after(g: GridModel, m: Position, atk: u8, p: Position, color: u8, rule: WinRule) -> bool {
    wins_under(g.place(m.row as int, m.col as int, atk), p.row as int, p.col as int, color, rule)
}

/// The five points of `atk` among the first `n` of `empties`, other than
/// `m`, once `atk` has played `m`.
pub open spec fn five_count(g: GridModel, empties: Seq<Position>, m: Position, atk: u8, rule: WinRule, n: int) -> int
    decreases n,
{
    if n <= 0 {
        0
    } else {
        five_count(g, empties, m, atk, rule, n - 1) + if empties[n - 1] != m && five_after(
            g,
            m,
            atk,
            empties[n - 1],
            atk,
            rule,
        ) {
            1int
        } else {
            0int
        }
    }
}

/// A count is at most the number of points looked at.
proof fn lemma_five_count_bounds(g: GridModel, empties: Seq<Position>, m: Position, atk: u8, rule: WinRule, n: int)
    requires
        n >= 0,
    ensures
        0 <= five_count(g, empties, m, atk, rule, n) <= n,
    decreases n,
{
    if n > 0 {
        lemma_five_count_bounds(g, empties, m, atk, rule, n - 1);
    }
}

/// A count of two or more names two five points, other than `m`, at two
/// indices.
proof fn lemma_five_count_two(g: GridModel, empties: Seq<Position>, m: Position, atk: u8, rule: WinRule, n: int) -> (ab: (
    int,
    int,
))
    requires
        0 <= n <= empties.len(),
        five_count(g, empties, m, atk, rule, n) >= 2,
    ensures
        0 <= ab.0 < ab.1 < n,
        empties[ab.0] != m && five_after(g, m, atk, empties[ab.0], atk, rule),
        empties[ab.1] != m && five_after(g, m, atk, empties[ab.1], atk, rule),
    decreases n,
{
    let here = empties[n - 1] != m && five_after(g, m, atk, empties[n - 1], atk, rule);
    if here && five_count(g, empties, m, atk, rule, n - 1) >= 1 {
        let a = lemma_five_count_one(g, empties, m, atk, rule, n - 1);
        (a, n - 1)
    } else {
        lemma_five_count_two(g, empties, m, atk, rule, n - 1)
    }
}

/// A count of one or more names a five point, other than `m`.
proof fn lemma_five_count_one(g: GridModel, empties: Seq<Position>, m: Position, atk: u8, rule: WinRule, n: int) -> (a: int)
    requires
        0 <= n <= empties.len(),
        five_count(g, empties, m, atk, rule, n) >= 1,
    ensures
        0 <= a < n,
        empties[a] != m && five_after(g, m, atk, empties[a], atk, rule),
    decreases n,
{
    if empties[n - 1] != m && five_after(g, m, atk, empties[n - 1], atk, rule) {
        n - 1
    } else {
        lemma_five_count_one(g, empties, m, atk, rule, n - 1)
    }
}

/// Points in strictly increasing row-major order on a board of at most
/// 32 a side are at most 1024.
proof fn lemma_ordered_len(s: Seq<Position>)
    requires
        forall|i: int| 0 <= i < s.len() ==> (#[trigger] s[i]).row < 32 && s[i].col < 32,
        forall|i: int, j: int|
            0 <= i < j < s.len() ==> cell_index(32, s[i].row as int, s[i].col as int) < cell_index(
                32,
                s[j].row as int,
                s[j].col as int,
            ),
    ensures
        s.len() <= 1024,
{
    if s.len() > 0 {
        lemma_ordered_at_least(s, s.len() - 1);
        let l = s[s.len() - 1];
        lemma_cell_index_bounds(32, 32, l.row as int, l.col as int);
    }
}

proof fn lemma_ordered_at_least(s: Seq<Position>, i: int)
    requires
        0 <= i < s.len(),
        forall|i: int, j: int|
            0 <= i < j < s.len() ==> cell_index(32, s[i].row as int, s[i].col as int) < cell_index(
                32,
                s[j].row as int,
                s[j].col as int,
            ),
    ensures
        cell_index(32, s[i].row as int, s[i].col as int) >= i,
    decreases i,
{
    if i > 0 {
        lemma_ordered_at_least(s, i - 1);
    } else {
        assert(cell_index(32, s[0].row as int, s[0].col as int) == s[0].row * 32 + s[0].col);
    }
}

/// The attacking candidates of `me` among `empties`: the points that make
/// a four, by descending number of five points they create (open and
/// double fours first), in their order among equals.
fn ordered_attacks(bits: &mut Bits, me: Color, empties: &Vec<Position>, rule_set: RuleSet) -> (out: Vec<Position>)
    requires
        old(bits).wf(),
        forall|k: int| 0 <= k < empties@.len() ==> old(bits).view().empty((#[trigger] empties@[k]).row as int, empties@[k].col as int),
        empties@.len() <= 1024,
    ensures
        final(bits).wf(),
        final(bits).view() == old(bits).view(),
        final(bits).zkeys() == old(bits).zkeys(),
        forall|k: int|
            0 <= k < out@.len() ==> empties@.contains(#[trigger] out@[k]) && makes_four(
                old(bits).view(),
                out@[k],
                color_code(me),
                rule_set,
            ) && five_count(old(bits).view(), empties@, out@[k], color_code(me), rule_set.win_rule, empties@.len() as int)
                >= 1,
        forall|k: int|
            0 <= k < empties@.len() && five_count(
                old(bits).view(),
                empties@,
                #[trigger] empties@[k],
                color_code(me),
                rule_set.win_rule,
                empties@.len() as int,
            ) >= 1 ==> out@.contains(empties@[k]),
        forall|a: int, b: int|
            0 <= a < b < out@.len() ==> five_count(
                old(bits).view(),
                empties@,
                #[trigger] out@[a],
                color_code(me),
                rule_set.win_rule,
                empties@.len() as int,
            ) >= five_count(
                old(bits).view(),
                empties@,
                #[trigger] out@[b],
                color_code(me),
                rule_set.win_rule,
                empties@.len() as int,
            ),
{
    let ghost g = bits.view();
    let ghost z = bits.zkeys();
    let mut scored: Vec<(Position, i64)> = Vec::new();
    let mut i: usize = 0;
    while i < empties.len()
        invariant
            bits.wf(),
            bits.view() == g,
            bits.zkeys() == z,
            g == old(bits).view(),
            z == old(bits).zkeys(),
            i <= empties@.len(),
            forall|k: int| 0 <= k < empties@.len() ==> g.empty((#[trigger] empties@[k]).row as int, empties@[k].col as int),
            forall|k: int|
                0 <= k < scored@.len() ==> empties@.contains((#[trigger] scored@[k]).0) && makes_four(
                    g,
                    scored@[k].0,
                    color_code(me),
                    rule_set,
                ),
            empties@.len() <= 1024,
            forall|k: int|
                0 <= k < scored@.len() ==> (#[trigger] scored@[k]).1 as int == five_count(
                    g,
                    empties@,
                    scored@[k].0,
                    color_code(me),
                    rule_set.win_rule,
                    empties@.len() as int,
                ) && scored@[k].1 >= 1,
            forall|j: int|
                0 <= j < i && five_count(
                    g,
                    empties@,
                    #[trigger] empties@[j],
                    color_code(me),
                    rule_set.win_rule,
                    empties@.len() as int,
                ) >= 1 ==> scored@.contains(
                    (
                        empties@[j],
                        five_count(g, empties@, empties@[j], color_code(me), rule_set.win_rule, empties@.len() as int) as i64,
                    ),
                ),
        decreases empties@.len() - i,
    {
        let m = empties[i];
        let r = m.row as i32;
        let c = m.col as i32;
        proof {
            assert(g.empty(empties@[i as int].row as int, empties@[i as int].col as int));
            bits.lemma_wf();
            lemma_make_unmake(z, g, r as int, c as int, color_code(me));
            lemma_place_code(g, r as int, c as int, color_code(me));
        }
        let ghost g1 = g.place(r as int, c as int, color_code(me));
        bits.toggle(me, r, c);
        let mut nf: usize = 0;
        let mut j: usize = 0;
        while j < empties.len()
            invariant
                bits.wf(),
                bits.view() == g1,
                g1 == g.place(r as int, c as int, color_code(me)),
                j <= empties@.len(),
                0 <= nf <= j,
                forall|k: int| 0 <= k < empties@.len() ==> g.empty((#[trigger] empties@[k]).row as int, empties@[k].col as int),
                g1.w == g.w,
                g1.h == g.h,
                r == m.row as i32,
                c == m.col as i32,
                forall|x: int, y: int| #[trigger] g1.code(x, y) == (if x == r && y == c {
                    color_code(me)
                } else {
                    g.code(x, y)
                }),
                nf > 0 ==> makes_four(g, m, color_code(me), rule_set),
                nf == five_count(g, empties@, m, color_code(me), rule_set.win_rule, j as int),
            decreases empties@.len() - j,
        {
            let p = empties[j];
            proof {
                assert(g.empty(empties@[j as int].row as int, empties@[j as int].col as int));
                assert(g1 == g.place(m.row as int, m.col as int, color_code(me)));
            }
            if !(p.row == m.row && p.col == m.col) {
                proof {
                    assert(g1.empty(p.row as int, p.col as int));
                }
                if bits.would_win(me, p, rule_set) {
                    nf = nf + 1;
                }
            }
            j = j + 1;
        }
        proof {
            lemma_place_code(g1, r as int, c as int, EMPTY);
        }
        bits.toggle(me, r, c);
        proof {
            lemma_five_count_bounds(g, empties@, m, color_code(me), rule_set.win_rule, empties@.len() as int);
        }
        let ghost s0 = scored@;
        if nf >= 1 {
            let ghost o0 = scored@;
            scored.push((m, nf as i64));
            proof {
                assert(empties@.contains(empties@[i as int]));
                assert forall|k: int|
                    0 <= k < scored@.len() implies empties@.contains((#[trigger] scored@[k]).0) && makes_four(
                        g,
                        scored@[k].0,
                        color_code(me),
                        rule_set,
                    ) by {
                    if k < o0.len() {
                        assert(scored@[k] == o0[k]);
                    }
                }
            }
        }
        proof {
            assert forall|k: int|
                0 <= k < scored@.len() implies (#[trigger] scored@[k]).1 as int == five_count(
                    g,
                    empties@,
                    scored@[k].0,
                    color_code(me),
                    rule_set.win_rule,
                    empties@.len() as int,
                ) && scored@[k].1 >= 1 by {
                if k < s0.len() {
                    assert(scored@[k] == s0[k]);
                }
            }
            assert forall|jj: int|
                0 <= jj < i + 1 && five_count(
                    g,
                    empties@,
                    #[trigger] empties@[jj],
                    color_code(me),
                    rule_set.win_rule,
                    empties@.len() as int,
                ) >= 1 implies scored@.contains(
                (
                    empties@[jj],
                    five_count(g, empties@, empties@[jj], color_code(me), rule_set.win_rule, empties@.len() as int) as i64,
                ),
            ) by {
                if jj < i {
                    let x = (
                        empties@[jj],
                        five_count(g, empties@, empties@[jj], color_code(me), rule_set.win_rule, empties@.len() as int) as i64,
                    );
                    let t = choose|t: int| 0 <= t < s0.len() && s0[t] == x;
                    assert(scored@[t] == s0[t]);
                } else {
                    assert(empties@[jj] == m);
                    assert(scored@[scored@.len() - 1] == (m, nf as i64));
                }
            }
        }
        i = i + 1;
    }
    let sorted = sort_desc(scored);
    let mut out: Vec<Position> = Vec::new();
    let mut t: usize = 0;
    while t < sorted.len()
        invariant
            t <= sorted@.len(),
            forall|x: (Position, i64)| #[trigger] sorted@.contains(x) <==> scored@.contains(x),
            forall|k: int|
                0 <= k < scored@.len() ==> empties@.contains((#[trigger] scored@[k]).0) && makes_four(
                    g,
                    scored@[k].0,
                    color_code(me),
                    rule_set,
                ),
            forall|k: int|
                0 <= k < out@.len() ==> empties@.contains(#[trigger] out@[k]) && makes_four(
                    g,
                    out@[k],
                    color_code(me),
                    rule_set,
                ),
            out@.len() == t,
            forall|k: int| 0 <= k < t ==> #[trigger] out@[k] == sorted@[k].0,
        decreases sorted@.len() - t,
    {
        let e = sorted[t];
        proof {
            assert(sorted@.contains(sorted@[t as int]));
            let q = choose|q: int| 0 <= q < scored@.len() && scored@[q] == sorted@[t as int];
            assert(empties@.contains(scored@[q].0));
        }
        let ghost o0 = out@;
        out.push(e.0);
        proof {
            assert forall|k: int|
                0 <= k < out@.len() implies empties@.contains(#[trigger] out@[k]) && makes_four(
                    g,
                    out@[k],
                    color_code(me),
                    rule_set,
                ) by {
                if k < o0.len() {
                    assert(out@[k] == o0[k]);
                }
            }
        }
        t = t + 1;
    }
    proof {
        let cnt = |p: Position| five_count(g, empties@, p, color_code(me), rule_set.win_rule, empties@.len() as int);
        assert forall|k: int| 0 <= k < sorted@.len() implies (#[trigger] sorted@[k]).1 as int == cnt(sorted@[k].0)
            && sorted@[k].1 >= 1 by {
            assert(sorted@.contains(sorted@[k]));
            let q = choose|q: int| 0 <= q < scored@.len() && scored@[q] == sorted@[k];
            assert(scored@[q].1 as int == cnt(scored@[q].0));
        }
        assert forall|k: int| 0 <= k < out@.len() implies cnt(#[trigger] out@[k]) >= 1 by {
            assert(out@[k] == sorted@[k].0);
        }
        assert forall|k: int| 0 <= k < empties@.len() && cnt(#[trigger] empties@[k]) >= 1 implies out@.contains(
            empties@[k],
        ) by {
            let x = (empties@[k], cnt(empties@[k]) as i64);
            assert(scored@.contains(x));
            assert(sorted@.contains(x));
            let q = choose|q: int| 0 <= q < sorted@.len() && sorted@[q] == x;
            assert(out@[q] == sorted@[q].0);
        }
        assert forall|a: int, b: int| 0 <= a < b < out@.len() implies cnt(#[trigger] out@[a]) >= cnt(#[trigger] out@[b]) by {
            assert(out@[a] == sorted@[a].0);
            assert(out@[b] == sorted@[b].0);
            assert(sorted@[a].1 >= sorted@[b].1);
        }
    }
    out
}

/// How an attack comes out, from its five points and the defender's: no
/// win without a five point or against a defender's five; a win with two
/// five points, or with the attacking point itself a five point.
proof fn lemma_attack_outcome(
    g: GridModel,
    m: Position,
    atk: u8,
    rule: WinRule,
    empties: Seq<Position>,
    fives: Seq<Position>,
    rest: Seq<Position>,
    dw: bool,
    win: bool,
)
    requires
        forall|a: int, b: int| 0 <= a < b < empties.len() ==> empties[a] != empties[b],
        forall|k: int| 0 <= k < fives.len() ==> empties.contains(#[trigger] fives[k]),
        forall|k: int|
            0 <= k < fives.len() ==> five_after(g, m, atk, #[trigger] fives[k], atk, rule),
        forall|j: int|
            0 <= j < empties.len() && five_after(g, m, atk, #[trigger] empties[j], atk, rule) ==> fives.contains(
                empties[j],
            ),
        forall|k: int| 0 <= k < rest.len() ==> (#[trigger] rest[k]) != m && empties.contains(rest[k]),
        forall|j: int| 0 <= j < empties.len() && #[trigger] empties[j] != m ==> rest.contains(empties[j]),
        fives.len() > 0 ==> (dw <==> exists|t: int|
            0 <= t < rest.len() && five_after(g, m, atk, #[trigger] rest[t], other_code(atk), rule)),
        win ==> fives.len() > 0 && !dw,
        fives.len() > 0 && !dw && (fives.len() >= 2 || fives[0] == m) ==> win,
    ensures
        (forall|k: int| 0 <= k < empties.len() ==> !five_after(g, m, atk, #[trigger] empties[k], atk, rule)) ==> !win,
        (exists|k: int|
            0 <= k < empties.len() && #[trigger] empties[k] != m && five_after(g, m, atk, empties[k], other_code(atk), rule))
            ==> !win,
        (forall|k: int|
            0 <= k < empties.len() && #[trigger] empties[k] != m ==> !five_after(g, m, atk, empties[k], other_code(atk), rule))
            && ((exists|a: int, b: int|
            0 <= a < b < empties.len() && five_after(g, m, atk, #[trigger] empties[a], atk, rule) && five_after(
                g,
                m,
                atk,
                #[trigger] empties[b],
                atk,
                rule,
            )) || (empties.contains(m) && five_after(g, m, atk, m, atk, rule))) ==> win,
{
    if fives.len() > 0 {
        let t = choose|t: int| 0 <= t < empties.len() && empties[t] == fives[0];
        assert(five_after(g, m, atk, empties[t], atk, rule));
    }
    if exists|k: int|
        0 <= k < empties.len() && #[trigger] empties[k] != m && five_after(g, m, atk, empties[k], other_code(atk), rule) {
        let k = choose|k: int|
            0 <= k < empties.len() && #[trigger] empties[k] != m && five_after(g, m, atk, empties[k], other_code(atk), rule);
        let t = choose|t: int| 0 <= t < rest.len() && rest[t] == empties[k];
        assert(five_after(g, m, atk, rest[t], other_code(atk), rule));
    }
    if forall|k: int|
        0 <= k < empties.len() && #[trigger] empties[k] != m ==> !five_after(g, m, atk, empties[k], other_code(atk), rule) {
        assert forall|t: int| 0 <= t < rest.len() implies !five_after(g, m, atk, #[trigger] rest[t], other_code(atk), rule) by {
            let k = choose|k: int| 0 <= k < empties.len() && empties[k] == rest[t];
            assert(empties[k] != m);
        }
        if exists|a: int, b: int|
            0 <= a < b < empties.len() && five_after(g, m, atk, #[trigger] empties[a], atk, rule) && five_after(
                g,
                m,
                atk,
                #[trigger] empties[b],
                atk,
                rule,
            ) {
            let (a, b) = choose|a: int, b: int|
                0 <= a < b < empties.len() && five_after(g, m, atk, #[trigger] empties[a], atk, rule) && five_after(
                    g,
                    m,
                    atk,
                    #[trigger] empties[b],
                    atk,
                    rule,
                );
            assert(fives.contains(empties[a]));
            assert(fives.contains(empties[b]));
            assert(empties[a] != empties[b]);
            assert(fives.len() >= 2);
        }
        if empties.contains(m) && five_after(g, m, atk, m, atk, rule) {
            let k = choose|k: int| 0 <= k < empties.len() && empties[k] == m;
            assert(fives.contains(empties[k]));
            if fives.len() == 1 {
                assert(fives[0] == m);
            }
        }
    }
}

/// A five point at index `a` makes the count positive.
proof fn lemma_five_count_ge1(g: GridModel, empties: Seq<Position>, m: Position, atk: u8, rule: WinRule, n: int, a: int)
    requires
        0 <= a < n,
        empties[a] != m && five_after(g, m, atk, empties[a], atk, rule),
    ensures
        five_count(g, empties, m, atk, rule, n) >= 1,
    decreases n,
{
    lemma_five_count_bounds(g, empties, m, atk, rule, n - 1);
    if n - 1 > a {
        lemma_five_count_ge1(g, empties, m, atk, rule, n - 1, a);
    }
}

/// Five points at two indices make the count at least two.
proof fn lemma_five_count_ge2(
    g: GridModel,
    empties: Seq<Position>,
    m: Position,
    atk: u8,
    rule: WinRule,
    n: int,
    a: int,
    b: int,
)
    requires
        0 <= a < b < n,
        empties[a] != m && five_after(g, m, atk, empties[a], atk, rule),
        empties[b] != m && five_after(g, m, atk, empties[b], atk, rule),
    ensures
        five_count(g, empties, m, atk, rule, n) >= 2,
    decreases n,
{
    if n - 1 > b {
        lemma_five_count_ge2(g, empties, m, atk, rule, n - 1, a, b);
    } else {
        lemma_five_count_ge1(g, empties, m, atk, rule, n - 1, a);
    }
}

/// An empty point with a stone within two: where the VCF looks.
pub open spec fn relevant(g: GridModel, p: Position) -> bool {
    g.empty(p.row as int, p.col as int) && near_stones(g, p.row as int, p.col as int) > 0
}

/// After `atk` plays `m`, two relevant points other than `m` are five
/// points of `atk`: `m` makes an open four or a double four at once.
pub open spec fn double_five(g: GridModel, m: Position, atk: u8, rule: WinRule) -> bool {
    exists|p: Position, q: Position|
        #![trigger five_after(g, m, atk, p, atk, rule), five_after(g, m, atk, q, atk, rule)]
        relevant(g, p) && relevant(g, q) && p != q && p != m && q != m && five_after(g, m, atk, p, atk, rule)
            && five_after(g, m, atk, q, atk, rule)
}

/// A VCF move is owed to `atk`: some relevant point leaves it two five
/// points among the relevant points (an open or double four), and no
/// relevant point leaves the defender a relevant five point.
pub open spec fn vcf_owed(g: GridModel, atk: u8, rule: WinRule) -> bool {
    &&& exists|m: Position, p: Position, q: Position|
        #![trigger five_after(g, m, atk, p, atk, rule), five_after(g, m, atk, q, atk, rule)]
        relevant(g, m) && relevant(g, p) && relevant(g, q) && p != q && p != m && q != m && five_after(
            g,
            m,
            atk,
            p,
            atk,
            rule,
        ) && five_after(g, m, atk, q, atk, rule)
    &&& forall|m: Position, q: Position|
        relevant(g, m) && relevant(g, q) && q != m ==> !#[trigger] five_after(g, m, atk, q, other_code(atk), rule)
}

/// When a VCF move is owed, the strongest attack leaves two five points.
proof fn lemma_owed_first(g: GridModel, atk: u8, rule: WinRule, empties: Seq<Position>, attacks: Seq<Position>)
    requires
        vcf_owed(g, atk, rule),
        forall|r: int, c: int|
            #![trigger g.empty(r, c)]
            g.empty(r, c) && near_stones(g, r, c) > 0 ==> empties.contains(Position { row: r as u8, col: c as u8 }),
        forall|k: int|
            0 <= k < empties.len() && five_count(g, empties, #[trigger] empties[k], atk, rule, empties.len() as int) >= 1
                ==> attacks.contains(empties[k]),
        forall|a: int, b: int|
            0 <= a < b < attacks.len() ==> five_count(g, empties, #[trigger] attacks[a], atk, rule, empties.len() as int)
                >= five_count(g, empties, #[trigger] attacks[b], atk, rule, empties.len() as int),
    ensures
        attacks.len() > 0,
        five_count(g, empties, attacks[0], atk, rule, empties.len() as int) >= 2,
{
    let n = empties.len() as int;
    let (m0, p, q) = choose|m: Position, p: Position, q: Position|
        #![trigger five_after(g, m, atk, p, atk, rule), five_after(g, m, atk, q, atk, rule)]
        relevant(g, m) && relevant(g, p) && relevant(g, q) && p != q && p != m && q != m && five_after(
            g,
            m,
            atk,
            p,
            atk,
            rule,
        ) && five_after(g, m, atk, q, atk, rule);
    assert(Position { row: (m0.row as int) as u8, col: (m0.col as int) as u8 } == m0);
    assert(Position { row: (p.row as int) as u8, col: (p.col as int) as u8 } == p);
    assert(Position { row: (q.row as int) as u8, col: (q.col as int) as u8 } == q);
    assert(g.empty(m0.row as int, m0.col as int));
    assert(g.empty(p.row as int, p.col as int));
    assert(g.empty(q.row as int, q.col as int));
    let km = choose|k: int| 0 <= k < empties.len() && empties[k] == m0;
    let kp = choose|k: int| 0 <= k < empties.len() && empties[k] == p;
    let kq = choose|k: int| 0 <= k < empties.len() && empties[k] == q;
    if kp < kq {
        lemma_five_count_ge2(g, empties, m0, atk, rule, n, kp, kq);
    } else {
        lemma_five_count_ge2(g, empties, m0, atk, rule, n, kq, kp);
    }
    assert(five_count(g, empties, empties[km], atk, rule, n) >= 1);
    assert(attacks.contains(empties[km]));
    let j = choose|j: int| 0 <= j < attacks.len() && attacks[j] == m0;
    if j > 0 {
        assert(five_count(g, empties, attacks[0], atk, rule, n) >= five_count(g, empties, attacks[j], atk, rule, n));
    }
}

/// The VCF searcher's budget.
struct Vcf {
    rule_set: RuleSet,
    deadline: Instant,
    aborted: bool,
    nodes: u64,
}

impl Vcf {
    /// Counts a node; every 512 nodes reads the clock and the stop flag.
    fn check_time(&mut self, stop: &StopFlag)
        ensures
            final(self).rule_set == old(self).rule_set,
            final(self).deadline == old(self).deadline,
            final(self).nodes == (if old(self).nodes < u64::MAX {
                old(self).nodes + 1
            } else {
                old(self).nodes as int
            }),
            old(self).aborted ==> final(self).aborted,
            !old(self).aborted && final(self).nodes % 512 != 0 ==> !final(self).aborted,
    {
        self.nodes = self.nodes.saturating_add(1);
        if self.nodes % 512 == 0 {
            let t = now();
            if stop.should_stop() || at_or_after(&t, &self.deadline) {
                self.aborted = true;
            }
        }
    }

    /// Tries the attacking move `m`: a win when it makes an open or double
    /// four the defender cannot pre-empt with its own five, or a single four
    /// after whose forced block the attack goes on.
    #[verifier::rlimit(100)]
    fn try_attack(
        &mut self,
        bits: &mut Bits,
        me: Color,
        m: Position,
        empties: &Vec<Position>,
        depth: i32,
        stop: &StopFlag,
    ) -> (win: bool)
        requires
            old(bits).wf(),
            old(bits).view().empty(m.row as int, m.col as int),
            depth >= 1,
            forall|k: int| 0 <= k < empties@.len() ==> old(bits).view().empty((#[trigger] empties@[k]).row as int, empties@[k].col as int),
            forall|a: int, b: int| 0 <= a < b < empties@.len() ==> empties@[a] != empties@[b],
            forall|r: int, c: int|
                #![trigger old(bits).view().empty(r, c)]
                old(bits).view().empty(r, c) && near_stones(old(bits).view(), r, c) > 0 ==> empties@.contains(
                    Position { row: r as u8, col: c as u8 },
                ),
        ensures
            final(bits).wf(),
            final(bits).view() == old(bits).view(),
            final(bits).zkeys() == old(bits).zkeys(),
            final(self).rule_set == old(self).rule_set,
            win ==> makes_four(old(bits).view(), m, color_code(me), old(self).rule_set),
            win && old(self).rule_set.win_rule != WinRule::Caro ==> winning_move(
                old(bits).view(),
                (m.row as i32, m.col as i32),
                color_code(me),
                win_of(old(self).rule_set.win_rule),
                (depth - 1) as nat,
            ),
            (forall|k: int|
                0 <= k < empties@.len() ==> !five_after(
                    old(bits).view(),
                    m,
                    color_code(me),
                    #[trigger] empties@[k],
                    color_code(me),
                    old(self).rule_set.win_rule,
                )) ==> !win,
            (exists|k: int|
                0 <= k < empties@.len() && #[trigger] empties@[k] != m && five_after(
                    old(bits).view(),
                    m,
                    color_code(me),
                    empties@[k],
                    other_code(color_code(me)),
                    old(self).rule_set.win_rule,
                )) ==> !win,
            (forall|k: int|
                0 <= k < empties@.len() && #[trigger] empties@[k] != m ==> !five_after(
                    old(bits).view(),
                    m,
                    color_code(me),
                    empties@[k],
                    other_code(color_code(me)),
                    old(self).rule_set.win_rule,
                )) && ((exists|a: int, b: int|
                0 <= a < b < empties@.len() && five_after(
                    old(bits).view(),
                    m,
                    color_code(me),
                    #[trigger] empties@[a],
                    color_code(me),
                    old(self).rule_set.win_rule,
                ) && five_after(
                    old(bits).view(),
                    m,
                    color_code(me),
                    #[trigger] empties@[b],
                    color_code(me),
                    old(self).rule_set.win_rule,
                )) || (empties@.contains(m) && five_after(
                old(bits).view(),
                m,
                color_code(me),
                m,
                color_code(me),
                old(self).rule_set.win_rule,
            ))) ==> win,
        decreases depth, 0int,
    {
        let opp = me.opposite();
        let ghost g = bits.view();
        let r = m.row as i32;
        let c = m.col as i32;
        proof {
            bits.lemma_wf();
            lemma_make_unmake(bits.zkeys(), g, r as int, c as int, color_code(me));
            lemma_place_code(g, r as int, c as int, color_code(me));
        }
        let ghost g1 = g.place(r as int, c as int, color_code(me));
        bits.toggle(me, r, c);
        let rule_set = self.rule_set;
        let mut rest: Vec<Position> = Vec::new();
        let mut fives: Vec<Position> = Vec::new();
        let mut i: usize = 0;
        while i < empties.len()
            invariant
                bits.wf(),
                bits.view() == g1,
                g1.has(r as int, c as int),
                i <= empties@.len(),
                forall|k: int| 0 <= k < empties@.len() ==> g.empty((#[trigger] empties@[k]).row as int, empties@[k].col as int),
                g1.w == g.w,
                g1.h == g.h,
                r == m.row as i32,
                c == m.col as i32,
                forall|x: int, y: int| #[trigger] g1.code(x, y) == (if x == r && y == c {
                    color_code(me)
                } else {
                    g.code(x, y)
                }),
                forall|k: int| 0 <= k < rest@.len() ==> g1.empty((#[trigger] rest@[k]).row as int, rest@[k].col as int),
                forall|k: int|
                    0 <= k < fives@.len() ==> (#[trigger] fives@[k] == m || g1.empty(fives@[k].row as int, fives@[k].col as int))
                        && wins_under(g1, fives@[k].row as int, fives@[k].col as int, color_code(me), rule_set.win_rule),
                forall|a: int, b: int| 0 <= a < b < empties@.len() ==> empties@[a] != empties@[b],
                forall|k: int| 0 <= k < fives@.len() ==> empties@.take(i as int).contains(#[trigger] fives@[k]),
                forall|a: int, b: int| 0 <= a < b < fives@.len() ==> fives@[a] != fives@[b],
                forall|j: int| 0 <= j < i && #[trigger] empties@[j] != m ==> rest@.contains(empties@[j]),
                forall|j: int|
                    0 <= j < i && wins_under(
                        g1,
                        (#[trigger] empties@[j]).row as int,
                        empties@[j].col as int,
                        color_code(me),
                        rule_set.win_rule,
                    ) ==> fives@.contains(empties@[j]),
                forall|k: int| 0 <= k < rest@.len() ==> (#[trigger] rest@[k]) != m && empties@.contains(rest@[k]),
            decreases empties@.len() - i,
        {
            let p = empties[i];
            let ghost fprev = fives@;
            let ghost rprev = rest@;
            proof {
                assert(g.empty(empties@[i as int].row as int, empties@[i as int].col as int));
            }
            let is_m = p.row == m.row && p.col == m.col;
            let five = if is_m {
                bits.is_win(me, r, c, rule_set)
            } else {
                bits.would_win(me, p, rule_set)
            };
            let ghost t0 = empties@.take(i as int);
            let ghost t1 = empties@.take(i as int + 1);
            proof {
                assert forall|x: Position| t0.contains(x) implies t1.contains(x) by {
                    let j = choose|j: int| 0 <= j < t0.len() && t0[j] == x;
                    assert(t1[j] == x);
                }
                assert(t1[i as int] == p);
            }
            if five {
                let ghost f0 = fives@;
                fives.push(p);
                proof {
                    assert forall|k: int|
                        0 <= k < fives@.len() implies (#[trigger] fives@[k] == m || g1.empty(fives@[k].row as int, fives@[k].col as int))
                            && wins_under(g1, fives@[k].row as int, fives@[k].col as int, color_code(me), rule_set.win_rule) by {
                        if k < f0.len() {
                            assert(fives@[k] == f0[k]);
                        }
                    }
                    assert forall|k: int| 0 <= k < fives@.len() implies t1.contains(#[trigger] fives@[k]) by {
                        if k < f0.len() {
                            assert(fives@[k] == f0[k]);
                            assert(t0.contains(f0[k]));
                        }
                    }
                    assert forall|a: int, b: int| 0 <= a < b < fives@.len() implies fives@[a] != fives@[b] by {
                        if b == f0.len() {
                            assert(fives@[a] == f0[a]);
                            assert(t0.contains(f0[a]));
                            let j = choose|j: int| 0 <= j < t0.len() && t0[j] == f0[a];
                            assert(empties@[j] != empties@[i as int]);
                        } else {
                            assert(fives@[a] == f0[a]);
                            assert(fives@[b] == f0[b]);
                        }
                    }
                }
            }
            if !is_m {
                let ghost o0 = rest@;
                rest.push(p);
                proof {
                    assert forall|k: int| 0 <= k < rest@.len() implies g1.empty((#[trigger] rest@[k]).row as int, rest@[k].col as int) by {
                        if k < o0.len() {
                            assert(rest@[k] == o0[k]);
                        }
                    }
                    assert forall|j: int| 0 <= j < i + 1 && #[trigger] empties@[j] != m implies rest@.contains(empties@[j]) by {
                        if j < i {
                            let t = choose|t: int| 0 <= t < o0.len() && o0[t] == empties@[j];
                            assert(rest@[t] == o0[t]);
                        } else {
                            assert(rest@[rest@.len() - 1] == p);
                        }
                    }
                }
            } else {
                proof {
                    assert(p == m);
                }
            }
            proof {
                assert(five == wins_under(g1, p.row as int, p.col as int, color_code(me), rule_set.win_rule));
                assert forall|j: int|
                    0 <= j < i + 1 && wins_under(
                        g1,
                        (#[trigger] empties@[j]).row as int,
                        empties@[j].col as int,
                        color_code(me),
                        rule_set.win_rule,
                    ) implies fives@.contains(empties@[j]) by {
                    if j < i {
                        let t = choose|t: int| 0 <= t < fprev.len() && fprev[t] == empties@[j];
                        assert(fives@[t] == fprev[t]);
                    } else {
                        assert(empties@[j] == p);
                        assert(fives@[fives@.len() - 1] == p);
                    }
                }
                assert forall|k: int| 0 <= k < rest@.len() implies (#[trigger] rest@[k]) != m && empties@.contains(rest@[k]) by {
                    if k < rprev.len() {
                        assert(rest@[k] == rprev[k]);
                    } else {
                        assert(rest@[k] == p);
                        assert(empties@[i as int] == p);
                    }
                }
            }
            i = i + 1;
        }
        let ghost atk = color_code(me);
        let ghost rule = rule_set.win_rule;
        let ghost wr = win_of(rule);
        let ghost n: nat = (depth - 1) as nat;
        let ghost mp: (i32, i32) = (m.row as i32, m.col as i32);
        proof {
            assert(color_code(opp) == other_code(atk));
            lemma_place_code(g, r as int, c as int, atk);
        }
        let defender_wins = if fives.len() == 0 {
            false
        } else {
            let opp_fives = five_points(bits, &rest, opp, rule_set);
            proof {
                if opp_fives@.len() == 0 {
                    assert forall|k: int| 0 <= k < rest@.len() implies !wins_under(
                        g1,
                        (#[trigger] rest@[k]).row as int,
                        rest@[k].col as int,
                        other_code(atk),
                        rule,
                    ) by {
                        if wins_under(g1, rest@[k].row as int, rest@[k].col as int, other_code(atk), rule) {
                            assert(opp_fives@.contains(rest@[k]));
                        }
                    }
                }
            }
            proof {
                if opp_fives@.len() > 0 {
                    assert(rest@.contains(opp_fives@[0]));
                    let t = choose|t: int| 0 <= t < rest@.len() && rest@[t] == opp_fives@[0];
                    assert(wins_under(g1, rest@[t].row as int, rest@[t].col as int, other_code(atk), rule));
                }
            }
            opp_fives.len() > 0
        };
        proof {
            assert(fives@.len() > 0 ==> (defender_wins <==> exists|t: int|
                0 <= t < rest@.len() && wins_under(
                    g1,
                    (#[trigger] rest@[t]).row as int,
                    rest@[t].col as int,
                    other_code(atk),
                    rule,
                )));
        }
        proof {
            assert(empties@.take(empties@.len() as int) =~= empties@);
            if fives@.len() > 0 && !defender_wins && rule != WinRule::Caro {
                lemma_no_defender_five(g, m, atk, rule, empties@, rest@);
            }
        }
        let win = if fives.len() == 0 || defender_wins {
            false
        } else if fives.len() >= 2 {
            proof {
                if rule != WinRule::Caro {
                    if fives@[0] == m || fives@[1] == m {
                        lemma_plain(g1, r as int, c as int, atk, rule);
                        lemma_wins_at_self(g, r as int, c as int, atk, atk, wr);
                        assert(g.win_point(mp.0 as int, mp.1 as int, atk, wr));
                    } else {
                        let a = fives@[0];
                        let b = fives@[1];
                        lemma_plain(g1, a.row as int, a.col as int, atk, rule);
                        lemma_plain(g1, b.row as int, b.col as int, atk, rule);
                        assert((a.row as i32, a.col as i32) != (b.row as i32, b.col as i32));
                        lemma_two_fives(g1, (a.row as i32, a.col as i32), (b.row as i32, b.col as i32), atk, wr, n);
                        assert(g.place(mp.0 as int, mp.1 as int, atk) == g1);
                    }
                }
            }
            true
        } else {
            let b = fives[0];
            if b.row == m.row && b.col == m.col {
                proof {
                    if rule != WinRule::Caro {
                        assert(fives@[0] == m);
                        lemma_plain(g1, r as int, c as int, atk, rule);
                        lemma_wins_at_self(g, r as int, c as int, atk, atk, wr);
                        assert(g.win_point(mp.0 as int, mp.1 as int, atk, wr));
                    }
                }
                true
            } else {
                proof {
                    assert(fives@[0] != m);
                    assert(g1.empty(b.row as int, b.col as int));
                    lemma_make_unmake(bits.zkeys(), g1, b.row as int, b.col as int, color_code(opp));
                    lemma_place_code(g1, b.row as int, b.col as int, color_code(opp));
                }
                bits.toggle(opp, b.row as i32, b.col as i32);
                let ghost g2 = bits.view();
                let cont = if depth - 1 > 0 {
                    self.search(bits, me, depth - 1, stop)
                } else {
                    false
                };
                proof {
                    if cont && rule != WinRule::Caro {
                        let bp: (i32, i32) = (b.row as i32, b.col as i32);
                        assert(g2 == g1.place(bp.0 as int, bp.1 as int, other_code(atk)));
                        assert(after_reply(g2, atk, wr, n));
                        lemma_plain(g1, b.row as int, b.col as int, atk, rule);
                        lemma_one_five(g1, bp, atk, wr, n);
                        assert(g.place(mp.0 as int, mp.1 as int, atk) == g1);
                    }
                }
                bits.toggle(opp, b.row as i32, b.col as i32);
                cont
            }
        };
        proof {
            if fives@.len() > 0 {
                let p = fives@[0];
                if p != m {
                    assert(g1.empty(p.row as int, p.col as int));
                    assert(wins_under(g1, p.row as int, p.col as int, color_code(me), rule_set.win_rule));
                }
            }
            lemma_place_code(g1, r as int, c as int, EMPTY);
            assert(empties@.take(empties@.len() as int) =~= empties@);
            lemma_attack_outcome(g, m, atk, rule, empties@, fives@, rest@, defender_wins, win);
        }
        bits.toggle(me, r, c);
        win
    }

    /// Whether the attacker has a continuous-four win within `depth` fours.
    fn search(&mut self, bits: &mut Bits, me: Color, depth: i32, stop: &StopFlag) -> (res: bool)
        requires
            old(bits).wf(),
        ensures
            final(bits).wf(),
            final(bits).view() == old(bits).view(),
            final(bits).zkeys() == old(bits).zkeys(),
            final(self).rule_set == old(self).rule_set,
            res && old(self).rule_set.win_rule != WinRule::Caro ==> (exists|p: (i32, i32)|
                #[trigger] old(bits).view().win_point(
                    p.0 as int,
                    p.1 as int,
                    color_code(me),
                    win_of(old(self).rule_set.win_rule),
                )) || vcf_wins(old(bits).view(), color_code(me), win_of(old(self).rule_set.win_rule), (depth - 1) as nat),
            depth > 0 && !old(self).aborted && (if old(self).nodes < u64::MAX {
                old(self).nodes + 1
            } else {
                old(self).nodes as int
            }) % 512 != 0 && (exists|r: int, c: int|
                old(bits).view().empty(r, c) && #[trigger] wins_under(
                    old(bits).view(),
                    r,
                    c,
                    color_code(me),
                    old(self).rule_set.win_rule,
                )) ==> res,
        decreases depth, 1int,
    {
        if depth <= 0 {
            return false;
        }
        self.check_time(stop);
        if self.aborted {
            return false;
        }
        let empties = bits.relevant_empties();
        let rule_set = self.rule_set;
        let fives = five_points(bits, &empties, me, rule_set);
        proof {
            let g = bits.view();
            if exists|r: int, c: int| g.empty(r, c) && #[trigger] wins_under(g, r, c, color_code(me), rule_set.win_rule) {
                let (r, c) = choose|r: int, c: int| g.empty(r, c) && #[trigger] wins_under(g, r, c, color_code(me), rule_set.win_rule);
                bits.lemma_wf();
                lemma_five_point_near(g, r, c, color_code(me), rule_set.win_rule);
                let q = Position { row: r as u8, col: c as u8 };
                assert(empties@.contains(q));
                let j = choose|j: int| 0 <= j < empties@.len() && empties@[j] == q;
                assert(wins_under(g, empties@[j].row as int, empties@[j].col as int, color_code(me), rule_set.win_rule));
                assert(fives@.contains(empties@[j]));
            }
        }
        if fives.len() > 0 {
            proof {
                let p = fives@[0];
                assert(empties@.contains(p));
                let j = choose|j: int| 0 <= j < empties@.len() && empties@[j] == p;
                assert(bits.view().empty(p.row as int, p.col as int));
                if rule_set.win_rule != WinRule::Caro {
                    lemma_plain(bits.view(), p.row as int, p.col as int, color_code(me), rule_set.win_rule);
                    let q: (i32, i32) = (p.row as i32, p.col as i32);
                    assert(bits.view().win_point(q.0 as int, q.1 as int, color_code(me), win_of(rule_set.win_rule)));
                }
            }
            return true;
        }
        proof {
            bits.lemma_wf();
            assert forall|i: int| 0 <= i < empties@.len() implies (#[trigger] empties@[i]).row < 32 && empties@[i].col < 32 by {
                assert(bits.view().empty(empties@[i].row as int, empties@[i].col as int));
            }
            lemma_ordered_len(empties@);
        }
        let attacks = ordered_attacks(bits, me, &empties, rule_set);
        let ghost g = bits.view();
        let ghost z = bits.zkeys();
        proof {
            assert forall|a: int, b: int| 0 <= a < b < empties@.len() implies empties@[a] != empties@[b] by {
                assert(cell_index(32, empties@[a].row as int, empties@[a].col as int) < cell_index(
                    32,
                    empties@[b].row as int,
                    empties@[b].col as int,
                ));
            }
        }
        let mut i: usize = 0;
        while i < attacks.len()
            invariant
                bits.wf(),
                bits.view() == g,
                bits.zkeys() == z,
                g == old(bits).view(),
                z == old(bits).zkeys(),
                self.rule_set == old(self).rule_set,
                rule_set == self.rule_set,
                depth > 0,
                i <= attacks@.len(),
                forall|k: int| 0 <= k < empties@.len() ==> g.empty((#[trigger] empties@[k]).row as int, empties@[k].col as int),
                forall|k: int| 0 <= k < attacks@.len() ==> empties@.contains(#[trigger] attacks@[k]),
                forall|a: int, b: int| 0 <= a < b < empties@.len() ==> empties@[a] != empties@[b],
                forall|r: int, c: int|
                    #![trigger g.empty(r, c)]
                    g.empty(r, c) && near_stones(g, r, c) > 0 ==> empties@.contains(Position { row: r as u8, col: c as u8 }),
                !(exists|r: int, c: int| g.empty(r, c) && #[trigger] wins_under(g, r, c, color_code(me), rule_set.win_rule)),
            decreases attacks@.len() - i,
        {
            self.check_time(stop);
            if self.aborted {
                return false;
            }
            let m = attacks[i];
            proof {
                assert(empties@.contains(attacks@[i as int]));
                let t = choose|t: int| 0 <= t < empties@.len() && empties@[t] == m;
                assert(g.empty(empties@[t].row as int, empties@[t].col as int));
            }
            if self.try_attack(bits, me, m, &empties, depth, stop) {
                proof {
                    assert(g.empty(m.row as int, m.col as int));
                    let q: (i32, i32) = (m.row as i32, m.col as i32);
                    assert(g.empty(q.0 as int, q.1 as int));
                }
                return true;
            }
            if self.aborted {
                return false;
            }
            i = i + 1;
        }
        false
    }
}

/// A move of `me` that starts a continuous-four win, or `None`. The move
/// is always an empty point with a stone within two that makes a four;
/// outside caro it is a [`winning_move`] with at most eleven more fours.
pub fn vcf_win_move(
    bits: &mut Bits,
    me: Color,
    rule_set: RuleSet,
    stop: &StopFlag,
    deadline: Instant,
) -> (res: Option<Position>)
    requires
        old(bits).wf(),
    ensures
        final(bits).wf(),
        final(bits).view() == old(bits).view(),
        final(bits).zkeys() == old(bits).zkeys(),
        res matches Some(m) ==> old(bits).view().empty(m.row as int, m.col as int) && near_stones(
            old(bits).view(),
            m.row as int,
            m.col as int,
        ) > 0 && makes_four(old(bits).view(), m, color_code(me), rule_set),
        res matches Some(m) ==> (rule_set.win_rule != WinRule::Caro ==> winning_move(
            old(bits).view(),
            (m.row as i32, m.col as i32),
            color_code(me),
            win_of(rule_set.win_rule),
            (VCF_DEPTH - 1) as nat,
        )),
        vcf_owed(old(bits).view(), color_code(me), rule_set.win_rule) ==> (res matches Some(m) && double_five(
            old(bits).view(),
            m,
            color_code(me),
            rule_set.win_rule,
        )),
{
    let mut vcf = Vcf { rule_set, deadline, aborted: false, nodes: 0 };
    let empties = bits.relevant_empties();
    proof {
        bits.lemma_wf();
        assert forall|i: int| 0 <= i < empties@.len() implies (#[trigger] empties@[i]).row < 32 && empties@[i].col < 32 by {
            assert(bits.view().empty(empties@[i].row as int, empties@[i].col as int));
        }
        lemma_ordered_len(empties@);
    }
    let attacks = ordered_attacks(bits, me, &empties, rule_set);
    let ghost g = bits.view();
    let ghost z = bits.zkeys();
    proof {
        assert forall|a: int, b: int| 0 <= a < b < empties@.len() implies empties@[a] != empties@[b] by {
            assert(cell_index(32, empties@[a].row as int, empties@[a].col as int) < cell_index(
                32,
                empties@[b].row as int,
                empties@[b].col as int,
            ));
        }
    }
    let ghost atk = color_code(me);
    let ghost rule = rule_set.win_rule;
    let ghost n = empties@.len() as int;
    proof {
        if vcf_owed(g, atk, rule) {
            lemma_owed_first(g, atk, rule, empties@, attacks@);
        }
    }
    let mut i: usize = 0;
    while i < attacks.len()
        invariant
            bits.wf(),
            bits.view() == g,
            bits.zkeys() == z,
            g == old(bits).view(),
            z == old(bits).zkeys(),
            vcf.rule_set == rule_set,
            i <= attacks@.len(),
            forall|k: int|
                0 <= k < empties@.len() ==> g.empty((#[trigger] empties@[k]).row as int, empties@[k].col as int)
                    && near_stones(g, empties@[k].row as int, empties@[k].col as int) > 0,
            forall|k: int| 0 <= k < attacks@.len() ==> empties@.contains(#[trigger] attacks@[k]),
            forall|a: int, b: int| 0 <= a < b < empties@.len() ==> empties@[a] != empties@[b],
            forall|r: int, c: int|
                #![trigger g.empty(r, c)]
                g.empty(r, c) && near_stones(g, r, c) > 0 ==> empties@.contains(Position { row: r as u8, col: c as u8 }),
            atk == color_code(me),
            rule == rule_set.win_rule,
            n == empties@.len(),
            vcf_owed(g, atk, rule) ==> i == 0 && attacks@.len() > 0 && five_count(g, empties@, attacks@[0], atk, rule, n)
                >= 2,
        decreases attacks@.len() - i,
    {
        let m = attacks[i];
        proof {
            assert(empties@.contains(attacks@[i as int]));
            let t = choose|t: int| 0 <= t < empties@.len() && empties@[t] == m;
            assert(g.empty(empties@[t].row as int, empties@[t].col as int));
            if vcf_owed(g, atk, rule) {
                let (a, b) = lemma_five_count_two(g, empties@, m, atk, rule, n);
                assert(relevant(g, m));
                assert forall|k: int| 0 <= k < empties@.len() && #[trigger] empties@[k] != m implies !five_after(
                    g,
                    m,
                    atk,
                    empties@[k],
                    other_code(atk),
                    rule,
                ) by {
                    assert(relevant(g, empties@[k]));
                }
                assert(five_after(g, m, atk, empties@[a], atk, rule) && five_after(g, m, atk, empties@[b], atk, rule));
                assert(relevant(g, empties@[a]) && relevant(g, empties@[b]));
                assert(empties@[a] != empties@[b]);
                assert(double_five(g, m, atk, rule));
            }
        }
        if vcf.try_attack(bits, me, m, &empties, VCF_DEPTH, stop) {
            return Some(m);
        }
        if vcf.aborted {
            return None;
        }
        i = i + 1;
    }
    None
}

/// Whether `side` has a continuous-four win (for the defence filter).
pub fn has_vcf(bits: &mut Bits, side: Color, rule_set: RuleSet, stop: &StopFlag, deadline: Instant) -> (b: bool)
    requires
        old(bits).wf(),
    ensures
        final(bits).wf(),
        final(bits).view() == old(bits).view(),
        final(bits).zkeys() == old(bits).zkeys(),
        vcf_owed(old(bits).view(), color_code(side), rule_set.win_rule) ==> b,
        b && rule_set.win_rule != WinRule::Caro ==> vcf_wins(
            old(bits).view(),
            color_code(side),
            win_of(rule_set.win_rule),
            (VCF_DEPTH - 1) as nat,
        ),
{
    let r = vcf_win_move(bits, side, rule_set, stop, deadline);
    proof {
        if let Some(m) = r {
            let q: (i32, i32) = (m.row as i32, m.col as i32);
            assert(old(bits).view().empty(q.0 as int, q.1 as int));
        }
    }
    r.is_some()
}

} // verus!
