//! Continuous-threat wins (VCT): a threat-space search at the root. The
//! attacker plays only threats (fours or open threes) so that the
//! defender's replies are forced; VCF alone misses double threes and
//! four-three chains.
//!
//! Against an open three the defender's replies are taken to be the
//! attacker's open-four points and the defender's own fours and five
//! points. The search runs once per move at the root, bounded by a node cap
//! and a deadline.

use std::time::Instant;

use vstd::prelude::*;

use super::grid::{
    counted, is_stone, lemma_counted_weaken, lemma_make_unmake, lemma_place_code, new_five, other_code, Grid,
    GridModel, Win, BLACK, WHITE,
};
use super::search::{four_fact, no_win_point};
use crate::bot::clock::{at_or_after, now};
use crate::bot::StopFlag;
use crate::sort::sort_desc;

verus! {

broadcast use super::grid::lemma_wf_fresh;

/// How many attacking threats a VCT may chain (each one attack and one reply).
pub const VCT_MAX_DEPTH: i32 = 9;
/// How often (in nodes) the clock is read; VCT nodes are very heavy.
const TIME_MASK: u64 = 7;

/// `p` is a threat move of `atk` on `m`: an empty point where `atk` makes
/// five at once, or after which `atk` has a five point, or has a point that
/// would give it two five points (an open four).
pub open spec fn is_threat(m: GridModel, p: (i32, i32), atk: u8, win: Win) -> bool {
    let g1 = m.place(p.0 as int, p.1 as int, atk);
    &&& m.empty(p.0 as int, p.1 as int)
    &&& {
        ||| m.wins_at(p.0 as int, p.1 as int, atk, win)
        ||| exists|q: (i32, i32)| #[trigger] g1.win_point(q.0 as int, q.1 as int, atk, win)
        ||| exists|q: (i32, i32)| #[trigger] open_four_at(g1, q, atk, win)
    }
}

/// `p` is an open-four point of `color` on `m`: empty, and once played
/// `color` has at least two five points.
pub open spec fn open_four_at(m: GridModel, p: (i32, i32), color: u8, win: Win) -> bool {
    exists|n: int|
        n >= 2 && m.empty(p.0 as int, p.1 as int) && #[trigger] counted(
            m.place(p.0 as int, p.1 as int, color),
            color,
            win,
            n,
            false,
        )
}

/// `p` is a threat of `atk` on `m` of a kind the threat list finds: a
/// point within two of its stones where it makes five, after which it has
/// a five point, or after which it has a point within two of its stones,
/// itself no five, that would give it two five points.
pub open spec fn listed_threat(m: GridModel, p: (i32, i32), atk: u8, win: Win) -> bool {
    let g1 = m.place(p.0 as int, p.1 as int, atk);
    &&& m.empty(p.0 as int, p.1 as int)
    &&& m.near_color(p.0 as int, p.1 as int, atk, 2)
    &&& {
        ||| m.wins_at(p.0 as int, p.1 as int, atk, win)
        ||| exists|q: (i32, i32)| #[trigger] g1.win_point(q.0 as int, q.1 as int, atk, win)
        ||| exists|q: (i32, i32), q1: (i32, i32), q2: (i32, i32)|
            g1.empty(q.0 as int, q.1 as int) && g1.near_color(q.0 as int, q.1 as int, atk, 2) && !g1.wins_at(
                q.0 as int,
                q.1 as int,
                atk,
                win,
            ) && q1 != q2 && #[trigger] g1.place(q.0 as int, q.1 as int, atk).win_point(q1.0 as int, q1.1 as int, atk, win)
                && #[trigger] g1.place(q.0 as int, q.1 as int, atk).win_point(q2.0 as int, q2.1 as int, atk, win)
    }
}

/// `color` has two distinct five points on `m`.
pub open spec fn two_fives(m: GridModel, color: u8, win: Win) -> bool {
    exists|q1: (i32, i32), q2: (i32, i32)|
        q1 != q2 && #[trigger] m.win_point(q1.0 as int, q1.1 as int, color, win) && #[trigger] m.win_point(
            q2.0 as int,
            q2.1 as int,
            color,
            win,
        )
}

/// `atk`, to move on `g`, wins by threats with at most `n` threats: it has a
/// five point, or an open-four point while the defender has no five point,
/// or a threat move that [`threat_wins`].
pub open spec fn vct_wins(g: GridModel, atk: u8, win: Win, n: nat) -> bool
    decreases n, 2nat,
{
    &&& n > 0
    &&& {
        ||| exists|q: (i32, i32)| #[trigger] g.win_point(q.0 as int, q.1 as int, atk, win)
        ||| (exists|q: (i32, i32)| #[trigger] open_four_at(g, q, atk, win)) && no_win_point(g, other_code(atk), win)
        ||| exists|p: (i32, i32)| #[trigger] g.empty(p.0 as int, p.1 as int) && threat_wins(g, p, atk, win, n)
    }
}

/// Playing the empty point `p` wins for `atk` by threats: it makes five,
/// or the defender's answers to it all lose ([`replies_lose`]).
pub open spec fn threat_wins(g: GridModel, p: (i32, i32), atk: u8, win: Win, n: nat) -> bool
    decreases n, 1nat,
{
    &&& g.empty(p.0 as int, p.1 as int)
    &&& {
        ||| g.wins_at(p.0 as int, p.1 as int, atk, win)
        ||| replies_lose(g.place(p.0 as int, p.1 as int, atk), atk, win, n)
    }
}

/// A reply the threat search gives the defender of `atk` on `g`: an
/// open-four point of `atk` within two of its stones, a point within two
/// of the defender's stones where it makes a four, or a five point of the
/// defender.
pub open spec fn defence(g: GridModel, r: (i32, i32), atk: u8, win: Win) -> bool {
    let def = other_code(atk);
    &&& g.empty(r.0 as int, r.1 as int)
    &&& {
        ||| g.near_color(r.0 as int, r.1 as int, atk, 2) && !g.wins_at(r.0 as int, r.1 as int, atk, win) && two_fives(
            g.place(r.0 as int, r.1 as int, atk),
            atk,
            win,
        )
        ||| g.near_color(r.0 as int, r.1 as int, def, 2) && !g.wins_at(r.0 as int, r.1 as int, def, win) && exists|
            q: (i32, i32),
        | #[trigger] g.place(r.0 as int, r.1 as int, def).win_point(q.0 as int, q.1 as int, def, win)
        ||| g.win_point(r.0 as int, r.1 as int, def, win)
    }
}

/// With the defender of `atk` to move on `g`, after a threat: the defender
/// cannot make five, and `atk` has two five points; or it has a five point
/// whose block leaves `atk` a win by threats with one threat fewer; or it
/// has an open-four point and every [`defence`] leaves it such a win.
pub open spec fn replies_lose(g: GridModel, atk: u8, win: Win, n: nat) -> bool
    decreases n, 0nat,
{
    let def = other_code(atk);
    &&& n > 0
    &&& no_win_point(g, def, win)
    &&& {
        ||| two_fives(g, atk, win)
        ||| exists|q: (i32, i32)|
            #[trigger] g.win_point(q.0 as int, q.1 as int, atk, win) && vct_wins(
                g.place(q.0 as int, q.1 as int, def),
                atk,
                win,
                (n - 1) as nat,
            )
        ||| (exists|q: (i32, i32)| #[trigger] open_four_at(g, q, atk, win)) && forall|r: (i32, i32)|
            #[trigger] defence(g, r, atk, win) ==> vct_wins(g.place(r.0 as int, r.1 as int, def), atk, win, (n - 1) as nat)
    }
}

/// Pushing keeps every item and adds the new one.
proof fn lemma_push_keeps(s: Seq<(i32, i32)>, p: (i32, i32))
    ensures
        forall|x: (i32, i32)| s.contains(x) ==> #[trigger] s.push(p).contains(x),
        s.push(p).contains(p),
{
    assert(s.push(p)[s.len() as int] == p);
    assert forall|x: (i32, i32)| s.contains(x) implies #[trigger] s.push(p).contains(x) by {
        let k = choose|k: int| 0 <= k < s.len() && s[k] == x;
        assert(s.push(p)[k] == x);
    }
}

/// The VCT searcher's budget.
struct Vct {
    win: Win,
    deadline: Instant,
    nodes: u64,
    node_cap: u64,
    aborted: bool,
}

/// What a search step keeps of the grid.
pub open spec fn restored(old_g: &Grid, new_g: &Grid) -> bool {
    &&& new_g.wf()
    &&& new_g.view() == old_g.view()
    &&& new_g.zkeys() == old_g.zkeys()
    &&& new_g.hash_value() == old_g.hash_value()
    &&& (new_g.fresh() ==> old_g.fresh())
}

/// The open-four points of `color`: empty points after which `color` has
/// two or more five points.
fn open_four_moves(g: &mut Grid, color: u8, win: Win) -> (out: Vec<(i32, i32)>)
    requires
        old(g).wf(),
        is_stone(color),
    ensures
        restored(old(g), final(g)),
        forall|k: int| 0 <= k < out@.len() ==> open_four_at(old(g).view(), #[trigger] out@[k], color, win),
        final(g).fresh() && no_win_point(old(g).view(), color, win) ==> forall|p: (i32, i32), q1: (i32, i32), q2: (i32, i32)|
            old(g).view().empty(p.0 as int, p.1 as int) && old(g).view().near_color(p.0 as int, p.1 as int, color, 2)
                && !old(g).view().wins_at(p.0 as int, p.1 as int, color, win) && q1 != q2 && #[trigger] old(
                g,
            ).view().place(p.0 as int, p.1 as int, color).win_point(q1.0 as int, q1.1 as int, color, win) && #[trigger] old(
                g,
            ).view().place(p.0 as int, p.1 as int, color).win_point(q2.0 as int, q2.1 as int, color, win)
                ==> out@.contains(p),
{
    let ghost m = g.view();
    let fours = g.four_moves(color, win);
    let ghost f = g.fresh();
    let mut out: Vec<(i32, i32)> = Vec::new();
    let mut i: usize = 0;
    while i < fours.len()
        invariant
            i <= fours@.len(),
            forall|k: int| 0 <= k < fours@.len() ==> four_fact(m, color, win, #[trigger] fours@[k], f),
            forall|k: int| 0 <= k < out@.len() ==> open_four_at(m, #[trigger] out@[k], color, win),
            m == old(g).view(),
            forall|j: int| 0 <= j < i && (#[trigger] fours@[j]).1 >= 2 ==> out@.contains(fours@[j].0),
        decreases fours@.len() - i,
    {
        let e = fours[i];
        let ghost oprev = out@;
        if e.1 >= 2 {
            proof {
                let p = e.0;
                assert(four_fact(m, color, win, fours@[i as int], f));
                lemma_counted_weaken(m.place(p.0 as int, p.1 as int, color), color, win, e.1 as int, f, false);
            }
            let ghost o0 = out@;
            out.push(e.0);
            proof {
                assert forall|k: int| 0 <= k < out@.len() implies open_four_at(m, #[trigger] out@[k], color, win) by {
                    if k < o0.len() {
                        assert(out@[k] == o0[k]);
                    } else {
                        assert(out@[k] == e.0);
                        assert(counted(m.place(e.0.0 as int, e.0.1 as int, color), color, win, e.1 as int, false));
                    }
                }
            }
        }
        proof {
            assert forall|j: int| 0 <= j < i + 1 && (#[trigger] fours@[j]).1 >= 2 implies out@.contains(fours@[j].0) by {
                if j < i {
                    let t = choose|t: int| 0 <= t < oprev.len() && oprev[t] == fours@[j].0;
                    assert(out@[t] == oprev[t]);
                } else {
                    assert(out@[out@.len() - 1] == e.0);
                }
            }
        }
        i = i + 1;
    }
    proof {
        if f && no_win_point(m, color, win) {
            assert forall|p: (i32, i32), q1: (i32, i32), q2: (i32, i32)|
                m.empty(p.0 as int, p.1 as int) && m.near_color(p.0 as int, p.1 as int, color, 2) && !m.wins_at(
                    p.0 as int,
                    p.1 as int,
                    color,
                    win,
                ) && q1 != q2 && #[trigger] m.place(p.0 as int, p.1 as int, color).win_point(
                    q1.0 as int,
                    q1.1 as int,
                    color,
                    win,
                ) && #[trigger] m.place(p.0 as int, p.1 as int, color).win_point(q2.0 as int, q2.1 as int, color, win)
                implies out@.contains(p) by {
                assert(!m.win_point(q1.0 as int, q1.1 as int, color, win));
                assert(new_five(m, p, color, win));
                let k = choose|k: int| 0 <= k < fours@.len() && (#[trigger] fours@[k]).0 == p;
                let g1 = m.place(p.0 as int, p.1 as int, color);
                assert(four_fact(m, color, win, fours@[k], f));
                let ws = choose|ws: Seq<(i32, i32)>|
                    #![trigger ws.len()]
                    ws.len() == fours@[k].1 as int && ws.no_duplicates() && (forall|t: int|
                        0 <= t < ws.len() ==> g1.win_point((#[trigger] ws[t]).0 as int, ws[t].1 as int, color, win))
                        && (f ==> forall|x: (i32, i32)| g1.win_point(x.0 as int, x.1 as int, color, win) ==> #[trigger] ws.contains(x));
                assert(ws.contains(q1));
                assert(ws.contains(q2));
                let t1 = choose|t: int| 0 <= t < ws.len() && ws[t] == q1;
                let t2 = choose|t: int| 0 <= t < ws.len() && ws[t] == q2;
                assert(t1 != t2);
                assert(fours@[k].1 >= 2);
            }
        }
    }
    out
}

/// The threat moves of `atk`, strongest first: immediate fives, then fours
/// (by number of five points), then open threes (by number of open-four
/// points). Moves that threaten nothing are left out.
fn threat_moves(g: &mut Grid, atk: u8, win: Win) -> (out: Vec<(i32, i32)>)
    requires
        old(g).wf(),
        is_stone(atk),
    ensures
        restored(old(g), final(g)),
        forall|k: int| 0 <= k < out@.len() ==> is_threat(old(g).view(), #[trigger] out@[k], atk, win),
        final(g).fresh() ==> forall|p: (i32, i32)| #[trigger] listed_threat(old(g).view(), p, atk, win) ==> out@.contains(p),
        final(g).fresh() && (exists|q: (i32, i32)| #[trigger] old(g).view().win_point(q.0 as int, q.1 as int, atk, win))
            ==> out@.len() > 0 && old(g).view().wins_at(out@[0].0 as int, out@[0].1 as int, atk, win),
{
    let ghost m = g.view();
    let ghost g0 = *g;
    proof {
        g.lemma_wf();
    }
    let nb = g.neighborhood_of(atk, 2);
    let ghost g_nb = *g;
    let mut scored: Vec<((i32, i32), i64)> = Vec::new();
    let mut i: usize = 0;
    while i < nb.len()
        invariant
            g.wf(),
            g.view() == m,
            g.zkeys() == g0.zkeys(),
            g.hash_value() == g0.hash_value(),
            g.fresh() ==> g0.fresh(),
            g0 == *old(g),
            m.w >= 0,
            m.cells.len() == m.w * m.h,
            is_stone(atk),
            i <= nb@.len(),
            forall|k: int| 0 <= k < nb@.len() ==> m.empty((#[trigger] nb@[k]).0 as int, nb@[k].1 as int),
            forall|k: int| 0 <= k < scored@.len() ==> is_threat(m, (#[trigger] scored@[k]).0, atk, win),
            g.fresh() ==> g_nb.fresh(),
            g_nb.fresh() ==> forall|p: (i32, i32)|
                m.empty(p.0 as int, p.1 as int) && m.near_color(p.0 as int, p.1 as int, atk, 2) ==> #[trigger] nb@.contains(p),
            g.fresh() ==> forall|j: int|
                0 <= j < i && #[trigger] listed_threat(m, nb@[j], atk, win) ==> exists|t: int|
                    0 <= t < scored@.len() && (#[trigger] scored@[t]).0 == nb@[j],
            forall|k: int|
                0 <= k < scored@.len() ==> ((#[trigger] scored@[k]).1 >= 1000 <==> m.wins_at(
                    scored@[k].0.0 as int,
                    scored@[k].0.1 as int,
                    atk,
                    win,
                )),
        decreases nb@.len() - i,
    {
        let (r, c) = nb[i];
        let ghost o0 = scored@;
        let ghost f0 = g.fresh();
        if g.would_win(r, c, atk, win) {
            scored.push(((r, c), 1000));
        } else {
            proof {
                lemma_make_unmake(g0.zkeys(), m, r as int, c as int, atk);
                lemma_place_code(m, r as int, c as int, atk);
            }
            g.place(r, c, atk);
            let wp = g.win_points(atk, win);
            let ghost fw = g.fresh();
            let nwp = wp.len();
            proof {
                if fw && exists|q: (i32, i32)| #[trigger] m.place(r as int, c as int, atk).win_point(q.0 as int, q.1 as int, atk, win) {
                    let q = choose|q: (i32, i32)| #[trigger] m.place(r as int, c as int, atk).win_point(q.0 as int, q.1 as int, atk, win);
                    assert(wp@.contains(q));
                }
            }
            let ofm = if nwp == 0 {
                let o = open_four_moves(g, atk, win);
                proof {
                    if o@.len() > 0 {
                        assert(open_four_at(m.place(r as int, c as int, atk), o@[0], atk, win));
                    }
                    let g1 = m.place(r as int, c as int, atk);
                    if g.fresh() {
                        assert forall|q: (i32, i32)| !#[trigger] g1.win_point(q.0 as int, q.1 as int, atk, win) by {
                            if g1.win_point(q.0 as int, q.1 as int, atk, win) {
                                assert(wp@.contains(q));
                            }
                        }
                    }
                    if g.fresh() && exists|q: (i32, i32), q1: (i32, i32), q2: (i32, i32)|
                        g1.empty(q.0 as int, q.1 as int) && g1.near_color(q.0 as int, q.1 as int, atk, 2) && !g1.wins_at(
                            q.0 as int,
                            q.1 as int,
                            atk,
                            win,
                        ) && q1 != q2 && #[trigger] g1.place(q.0 as int, q.1 as int, atk).win_point(
                            q1.0 as int,
                            q1.1 as int,
                            atk,
                            win,
                        ) && #[trigger] g1.place(q.0 as int, q.1 as int, atk).win_point(q2.0 as int, q2.1 as int, atk, win) {
                        let (q, q1, q2) = choose|q: (i32, i32), q1: (i32, i32), q2: (i32, i32)|
                            g1.empty(q.0 as int, q.1 as int) && g1.near_color(q.0 as int, q.1 as int, atk, 2) && !g1.wins_at(
                                q.0 as int,
                                q.1 as int,
                                atk,
                                win,
                            ) && q1 != q2 && #[trigger] g1.place(q.0 as int, q.1 as int, atk).win_point(
                                q1.0 as int,
                                q1.1 as int,
                                atk,
                                win,
                            ) && #[trigger] g1.place(q.0 as int, q.1 as int, atk).win_point(q2.0 as int, q2.1 as int, atk, win);
                        assert(o@.contains(q));
                    }
                }
                o.len()
            } else {
                proof {
                    let q = wp@[0];
                    assert(m.place(r as int, c as int, atk).win_point(q.0 as int, q.1 as int, atk, win));
                }
                0
            };
            g.unplace(r, c, atk);
            if nwp >= 1 {
                let s: i64 = if nwp > 100 {
                    200
                } else {
                    100 + nwp as i64
                };
                scored.push(((r, c), s));
            } else if ofm >= 1 {
                let s: i64 = if ofm > 100 {
                    110
                } else {
                    10 + ofm as i64
                };
                scored.push(((r, c), s));
            }
        }
        proof {
            assert forall|k: int| 0 <= k < scored@.len() implies is_threat(m, (#[trigger] scored@[k]).0, atk, win) by {
                if k < o0.len() {
                    assert(scored@[k] == o0[k]);
                }
            }
            assert forall|k: int|
                0 <= k < scored@.len() implies ((#[trigger] scored@[k]).1 >= 1000 <==> m.wins_at(
                    scored@[k].0.0 as int,
                    scored@[k].0.1 as int,
                    atk,
                    win,
                )) by {
                if k < o0.len() {
                    assert(scored@[k] == o0[k]);
                }
            }
            if g.fresh() {
                assert(f0);
                assert forall|j: int|
                    0 <= j < i + 1 && #[trigger] listed_threat(m, nb@[j], atk, win) implies exists|t: int|
                        0 <= t < scored@.len() && (#[trigger] scored@[t]).0 == nb@[j] by {
                    if j < i {
                        let t = choose|t: int| 0 <= t < o0.len() && (#[trigger] o0[t]).0 == nb@[j];
                        assert(scored@[t] == o0[t]);
                    } else {
                        assert(nb@[j] == (r, c));
                        assert(scored@.len() == o0.len() + 1);
                        assert(scored@[scored@.len() - 1].0 == (r, c));
                    }
                }
            }
        }
        i = i + 1;
    }
    let sorted = sort_desc(scored);
    let mut out: Vec<(i32, i32)> = Vec::new();
    let mut j: usize = 0;
    while j < sorted.len()
        invariant
            j <= sorted@.len(),
            forall|x: ((i32, i32), i64)| #[trigger] sorted@.contains(x) <==> scored@.contains(x),
            forall|k: int| 0 <= k < scored@.len() ==> is_threat(m, (#[trigger] scored@[k]).0, atk, win),
            forall|k: int| 0 <= k < out@.len() ==> is_threat(m, #[trigger] out@[k], atk, win),
            out@.len() == j,
            forall|k: int| 0 <= k < j ==> #[trigger] out@[k] == sorted@[k].0,
        decreases sorted@.len() - j,
    {
        let e = sorted[j];
        proof {
            assert(sorted@.contains(sorted@[j as int]));
            let t = choose|t: int| 0 <= t < scored@.len() && scored@[t] == sorted@[j as int];
            assert(is_threat(m, scored@[t].0, atk, win));
        }
        let ghost o0 = out@;
        out.push(e.0);
        proof {
            assert forall|k: int| 0 <= k < out@.len() implies is_threat(m, #[trigger] out@[k], atk, win) by {
                if k < o0.len() {
                    assert(out@[k] == o0[k]);
                }
            }
        }
        j = j + 1;
    }
    proof {
        if g.fresh() {
            assert forall|p: (i32, i32)| #[trigger] listed_threat(m, p, atk, win) implies out@.contains(p) by {
                assert(nb@.contains(p));
                let jj = choose|jj: int| 0 <= jj < nb@.len() && nb@[jj] == p;
                assert(listed_threat(m, nb@[jj], atk, win));
                let t = choose|t: int| 0 <= t < scored@.len() && (#[trigger] scored@[t]).0 == nb@[jj];
                assert(scored@.contains(scored@[t]));
                assert(sorted@.contains(scored@[t]));
                let q = choose|q: int| 0 <= q < sorted@.len() && sorted@[q] == scored@[t];
                assert(out@[q] == sorted@[q].0);
            }
            if exists|q: (i32, i32)| #[trigger] m.win_point(q.0 as int, q.1 as int, atk, win) {
                let q = choose|q: (i32, i32)| #[trigger] m.win_point(q.0 as int, q.1 as int, atk, win);
                super::grid::lemma_win_point_near(m, q.0 as int, q.1 as int, atk, win);
                let (sr, sc) = choose|sr: int, sc: int|
                    #![trigger m.code(sr, sc)]
                    m.has(sr, sc) && m.code(sr, sc) == atk && GridModel::near(q.0 as int, q.1 as int, sr, sc, 1);
                assert(m.code(sr, sc) == atk && GridModel::near(q.0 as int, q.1 as int, sr, sc, 2));
                assert(listed_threat(m, q, atk, win));
                assert(nb@.contains(q));
                let jj = choose|jj: int| 0 <= jj < nb@.len() && nb@[jj] == q;
                assert(listed_threat(m, nb@[jj], atk, win));
                let t = choose|t: int| 0 <= t < scored@.len() && (#[trigger] scored@[t]).0 == nb@[jj];
                assert(scored@[t].1 >= 1000);
                assert(scored@.contains(scored@[t]));
                assert(sorted@.contains(scored@[t]));
                let qi = choose|qi: int| 0 <= qi < sorted@.len() && sorted@[qi] == scored@[t];
                if qi > 0 {
                    assert(sorted@[0].1 >= sorted@[qi].1);
                }
                assert(sorted@.contains(sorted@[0]));
                let t0 = choose|t0: int| 0 <= t0 < scored@.len() && scored@[t0] == sorted@[0];
                assert(scored@[t0].1 >= 1000);
                assert(out@[0] == sorted@[0].0);
            }
        }
    }
    out
}

impl Vct {
    /// Counts a node; aborts once over the node cap, past the deadline or
    /// stopped. The clock is read on the first node and then every
    /// [`TIME_MASK`] + 1 nodes.
    /// The node count after one more node.
    spec fn next_nodes(&self) -> u64 {
        if self.nodes < u64::MAX {
            (self.nodes + 1) as u64
        } else {
            self.nodes
        }
    }

    /// The next node neither reads the clock nor passes the node cap, and
    /// nothing has aborted yet: it cannot abort.
    spec fn node_free(&self) -> bool {
        &&& !self.aborted
        &&& self.next_nodes() <= self.node_cap
        &&& self.next_nodes() != 1
        &&& self.next_nodes() & TIME_MASK != 0
    }

    fn out_of_budget(&mut self, stop: &StopFlag) -> (b: bool)
        ensures
            final(self).win == old(self).win,
            b == final(self).aborted,
            old(self).aborted ==> b,
            final(self).nodes == old(self).next_nodes(),
            final(self).node_cap == old(self).node_cap,
            final(self).nodes > final(self).node_cap ==> b,
            old(self).node_free() ==> !b,
    {
        self.nodes = self.nodes.saturating_add(1);
        let check = self.nodes == 1 || self.nodes & TIME_MASK == 0;
        let timed = if check {
            let t = now();
            at_or_after(&t, &self.deadline) || stop.should_stop()
        } else {
            false
        };
        if self.nodes > self.node_cap || timed {
            self.aborted = true;
        }
        self.aborted
    }

    /// The attacker to move: whether some threat of it forces a win.
    fn attack(&mut self, g: &mut Grid, atk: u8, def: u8, depth: i32, stop: &StopFlag) -> (res: bool)
        requires
            old(g).wf(),
            is_stone(atk),
            def == other_code(atk),
            depth >= 0,
        ensures
            restored(old(g), final(g)),
            final(self).win == old(self).win,
            depth <= 0 ==> !res,
            res ==> vct_wins(old(g).view(), atk, old(self).win, depth as nat),
            depth > 0 && old(self).node_free() && final(g).fresh() && (exists|q: (i32, i32)|
                #[trigger] old(g).view().win_point(q.0 as int, q.1 as int, atk, old(self).win)) ==> res,
        decreases depth, 2nat,
    {
        if self.out_of_budget(stop) || depth <= 0 {
            return false;
        }
        let win = self.win;
        let ghost m0 = g.view();
        let wp = g.win_points(atk, win);
        proof {
            if g.fresh() && exists|q: (i32, i32)| #[trigger] m0.win_point(q.0 as int, q.1 as int, atk, win) {
                let q = choose|q: (i32, i32)| #[trigger] m0.win_point(q.0 as int, q.1 as int, atk, win);
                assert(wp@.contains(q));
            }
        }
        if wp.len() > 0 {
            proof {
                assert(m0.win_point(wp@[0].0 as int, wp@[0].1 as int, atk, win));
            }
            return true;
        }
        proof {
            assert(g.fresh() ==> no_win_point(m0, atk, win));
        }
        let ofm = open_four_moves(g, atk, win);
        if ofm.len() > 0 {
            if !g.has_immediate_win(def, win) {
                proof {
                    assert(open_four_at(m0, ofm@[0], atk, win));
                }
                return true;
            }
        }
        let ghost m = g.view();
        let ghost g0 = *g;
        let moves = threat_moves(g, atk, win);
        let mut i: usize = 0;
        while i < moves.len()
            invariant
                g.wf(),
                g.view() == m,
                restored(&g0, g),
                restored(old(g), &g0),
                self.win == win,
                win == old(self).win,
                is_stone(atk),
                def == other_code(atk),
                depth >= 1,
                i <= moves@.len(),
                forall|k: int| 0 <= k < moves@.len() ==> is_threat(m, #[trigger] moves@[k], atk, win),
                m == m0,
                g.fresh() ==> no_win_point(m0, atk, win),
            decreases moves@.len() - i,
        {
            let (r, c) = moves[i];
            proof {
                assert(is_threat(m, moves@[i as int], atk, win));
            }
            if self.move_forces(g, atk, def, r, c, depth, stop) {
                proof {
                    assert(threat_wins(m0, (r, c), atk, win, depth as nat));
                    assert(m0.empty(r as int, c as int));
                    assert(vct_wins(m0, atk, win, depth as nat));
                    assert(m0 == old(g).view());
                }
                return true;
            }
            if self.aborted {
                return false;
            }
            i = i + 1;
        }
        false
    }

    /// Whether the attacker's move `(r, c)` forces a win: an immediate five,
    /// or what [`Vct::after_attack`] finds once it is played.
    fn move_forces(
        &mut self,
        g: &mut Grid,
        atk: u8,
        def: u8,
        r: i32,
        c: i32,
        depth: i32,
        stop: &StopFlag,
    ) -> (res: bool)
        requires
            old(g).wf(),
            old(g).view().empty(r as int, c as int),
            is_stone(atk),
            def == other_code(atk),
            depth >= 1,
        ensures
            restored(old(g), final(g)),
            final(self).win == old(self).win,
            old(g).view().wins_at(r as int, c as int, atk, old(self).win) ==> res,
            res ==> threat_wins(old(g).view(), (r, c), atk, old(self).win, depth as nat),
            !old(g).view().wins_at(r as int, c as int, atk, old(self).win) && final(g).fresh() && !no_win_point(
                old(g).view().place(r as int, c as int, atk),
                def,
                old(self).win,
            ) ==> !res,
            !old(g).view().wins_at(r as int, c as int, atk, old(self).win) && final(g).fresh() && two_fives(
                old(g).view().place(r as int, c as int, atk),
                atk,
                old(self).win,
            ) && no_win_point(old(g).view().place(r as int, c as int, atk), def, old(self).win) ==> res,
        decreases depth, 1nat,
    {
        let win = self.win;
        if g.would_win(r, c, atk, win) {
            return true;
        }
        let ghost m = g.view();
        proof {
            g.lemma_wf();
            lemma_make_unmake(g.zkeys(), m, r as int, c as int, atk);
        }
        g.place(r, c, atk);
        let result = self.after_attack(g, atk, def, depth, stop);
        proof {
            lemma_place_code(m, r as int, c as int, atk);
        }
        g.unplace(r, c, atk);
        result
    }

    /// The attacker has just played: classify its threat and recurse.
    #[verifier::rlimit(30)]
    fn after_attack(&mut self, g: &mut Grid, atk: u8, def: u8, depth: i32, stop: &StopFlag) -> (res: bool)
        requires
            old(g).wf(),
            is_stone(atk),
            def == other_code(atk),
            depth >= 1,
        ensures
            restored(old(g), final(g)),
            final(self).win == old(self).win,
            final(g).fresh() && !no_win_point(old(g).view(), def, old(self).win) ==> !res,
            res ==> replies_lose(old(g).view(), atk, old(self).win, depth as nat),
            final(g).fresh() && two_fives(old(g).view(), atk, old(self).win) && no_win_point(
                old(g).view(),
                def,
                old(self).win,
            ) ==> res,
        decreases depth, 0nat,
    {
        let win = self.win;
        let ghost m = g.view();
        let ghost g0 = *g;
        proof {
            g.lemma_wf();
        }
        let wps = g.win_points(atk, win);
        proof {
            if g.fresh() && two_fives(m, atk, win) {
                let (q1, q2) = choose|q1: (i32, i32), q2: (i32, i32)|
                    q1 != q2 && #[trigger] m.win_point(q1.0 as int, q1.1 as int, atk, win) && #[trigger] m.win_point(
                        q2.0 as int,
                        q2.1 as int,
                        atk,
                        win,
                    );
                assert(wps@.contains(q1));
                assert(wps@.contains(q2));
                let t1 = choose|t: int| 0 <= t < wps@.len() && wps@[t] == q1;
                let t2 = choose|t: int| 0 <= t < wps@.len() && wps@[t] == q2;
                assert(t1 != t2);
                assert(wps@.len() >= 2);
            }
        }
        if wps.len() >= 2 {
            let hw = g.has_immediate_win(def, win);
            proof {
                assert(m.win_point(wps@[0].0 as int, wps@[0].1 as int, atk, win));
                assert(m.win_point(wps@[1].0 as int, wps@[1].1 as int, atk, win));
                assert(wps@[0] != wps@[1]);
            }
            return !hw;
        }
        if wps.len() == 1 {
            if g.has_immediate_win(def, win) {
                return false;
            }
            let ghost nd = g.fresh() ==> no_win_point(m, def, win);
            let (br, bc) = wps[0];
            proof {
                lemma_make_unmake(g0.zkeys(), m, br as int, bc as int, def);
                lemma_place_code(m, br as int, bc as int, def);
            }
            g.place(br, bc, def);
            let res = self.attack(g, atk, def, depth - 1, stop);
            g.unplace(br, bc, def);
            return res;
        }
        proof {
            if g.fresh() {
                assert forall|q: (i32, i32)| !#[trigger] m.win_point(q.0 as int, q.1 as int, atk, win) by {
                    if m.win_point(q.0 as int, q.1 as int, atk, win) {
                        assert(wps@.contains(q));
                    }
                }
            }
        }
        let ofm = open_four_moves(g, atk, win);
        if ofm.len() == 0 || g.has_immediate_win(def, win) {
            return false;
        }
        proof {
            assert(g.fresh() ==> no_win_point(m, def, win));
            assert(g.fresh() ==> !two_fives(m, atk, win));
        }
        let ghost o = ofm@;
        let mut replies = ofm;
        let fours = g.four_moves(def, win);
        let ghost f = g.fresh();
        let mut i: usize = 0;
        while i < fours.len()
            invariant
                forall|k: int| 0 <= k < replies@.len() ==> m.empty((#[trigger] replies@[k]).0 as int, replies@[k].1 as int),
                forall|k: int| 0 <= k < fours@.len() ==> four_fact(m, def, win, #[trigger] fours@[k], f),
                i <= fours@.len(),
                forall|k: int| 0 <= k < o.len() ==> replies@.contains(#[trigger] o[k]),
                forall|k: int| 0 <= k < i ==> replies@.contains((#[trigger] fours@[k]).0),
            decreases fours@.len() - i,
        {
            let p = fours[i].0;
            proof {
                assert(four_fact(m, def, win, fours@[i as int], f));
            }
            let len = replies.len();
            if !contains_point(&replies, p) {
                let ghost o0 = replies@;
                replies.push(p);
                proof {
                    lemma_push_keeps(o0, p);
                    assert forall|k: int| 0 <= k < replies@.len() implies m.empty((#[trigger] replies@[k]).0 as int, replies@[k].1 as int) by {
                        if k < o0.len() {
                            assert(replies@[k] == o0[k]);
                        }
                    }
                }
            }
            i = i + 1;
        }
        let dw = g.win_points(def, win);
        let mut j: usize = 0;
        while j < dw.len()
            invariant
                forall|k: int| 0 <= k < replies@.len() ==> m.empty((#[trigger] replies@[k]).0 as int, replies@[k].1 as int),
                forall|k: int| 0 <= k < dw@.len() ==> m.win_point((#[trigger] dw@[k]).0 as int, dw@[k].1 as int, def, win),
                j <= dw@.len(),
                forall|k: int| 0 <= k < o.len() ==> replies@.contains(#[trigger] o[k]),
                forall|k: int| 0 <= k < fours@.len() ==> replies@.contains((#[trigger] fours@[k]).0),
                forall|k: int| 0 <= k < j ==> replies@.contains(#[trigger] dw@[k]),
            decreases dw@.len() - j,
        {
            let p = dw[j];
            proof {
                assert(m.win_point(dw@[j as int].0 as int, dw@[j as int].1 as int, def, win));
            }
            if !contains_point(&replies, p) {
                let ghost o0 = replies@;
                replies.push(p);
                proof {
                    lemma_push_keeps(o0, p);
                    assert forall|k: int| 0 <= k < replies@.len() implies m.empty((#[trigger] replies@[k]).0 as int, replies@[k].1 as int) by {
                        if k < o0.len() {
                            assert(replies@[k] == o0[k]);
                        }
                    }
                }
            }
            j = j + 1;
        }
        let ghost g1 = *g;
        let mut t: usize = 0;
        while t < replies.len()
            invariant
                g.wf(),
                g.view() == m,
                restored(&g1, g),
                restored(&g0, &g1),
                g0 == *old(g),
                m.w >= 0,
                m.cells.len() == m.w * m.h,
                self.win == win,
                win == old(self).win,
                is_stone(atk),
                def == other_code(atk),
                depth >= 1,
                t <= replies@.len(),
                forall|k: int| 0 <= k < replies@.len() ==> m.empty((#[trigger] replies@[k]).0 as int, replies@[k].1 as int),
                g.fresh() ==> no_win_point(m, def, win),
                g.fresh() ==> !two_fives(m, atk, win),
                forall|k: int|
                    0 <= k < t ==> vct_wins(
                        m.place((#[trigger] replies@[k]).0 as int, replies@[k].1 as int, def),
                        atk,
                        win,
                        (depth - 1) as nat,
                    ),
            decreases replies@.len() - t,
        {
            let (dr, dc) = replies[t];
            proof {
                assert(m.empty(replies@[t as int].0 as int, replies@[t as int].1 as int));
                lemma_make_unmake(g0.zkeys(), m, dr as int, dc as int, def);
                lemma_place_code(m, dr as int, dc as int, def);
            }
            g.place(dr, dc, def);
            let sub = self.attack(g, atk, def, depth - 1, stop);
            g.unplace(dr, dc, def);
            if self.aborted {
                return false;
            }
            if !sub {
                return false;
            }
            t = t + 1;
        }
        proof {
            assert(open_four_at(m, o[0], atk, win));
            assert forall|r: (i32, i32)| #[trigger] defence(m, r, atk, win) implies vct_wins(
                m.place(r.0 as int, r.1 as int, def),
                atk,
                win,
                (depth - 1) as nat,
            ) by {
                if m.near_color(r.0 as int, r.1 as int, atk, 2) && !m.wins_at(r.0 as int, r.1 as int, atk, win) && two_fives(
                    m.place(r.0 as int, r.1 as int, atk),
                    atk,
                    win,
                ) {
                    let (q1, q2) = choose|q1: (i32, i32), q2: (i32, i32)|
                        q1 != q2 && #[trigger] m.place(r.0 as int, r.1 as int, atk).win_point(q1.0 as int, q1.1 as int, atk, win)
                            && #[trigger] m.place(r.0 as int, r.1 as int, atk).win_point(q2.0 as int, q2.1 as int, atk, win);
                    assert(o.contains(r));
                    let k = choose|k: int| 0 <= k < o.len() && o[k] == r;
                    assert(replies@.contains(o[k]));
                } else if m.near_color(r.0 as int, r.1 as int, def, 2) && !m.wins_at(r.0 as int, r.1 as int, def, win) && exists|
                    q: (i32, i32),
                | #[trigger] m.place(r.0 as int, r.1 as int, def).win_point(q.0 as int, q.1 as int, def, win) {
                    let k = choose|k: int| 0 <= k < fours@.len() && (#[trigger] fours@[k]).0 == r;
                    assert(replies@.contains(fours@[k].0));
                } else {
                    assert(dw@.contains(r));
                    let k = choose|k: int| 0 <= k < dw@.len() && dw@[k] == r;
                    assert(replies@.contains(dw@[k]));
                }
                let k = choose|k: int| 0 <= k < replies@.len() && replies@[k] == r;
                assert(vct_wins(m.place(replies@[k].0 as int, replies@[k].1 as int, def), atk, win, (depth - 1) as nat));
            }
        }
        true
    }
}

/// Whether `v` holds `p`.
fn contains_point(v: &Vec<(i32, i32)>, p: (i32, i32)) -> (r: bool)
    ensures
        r == v@.contains(p),
{
    let mut i: usize = 0;
    while i < v.len()
        invariant
            i <= v@.len(),
            forall|k: int| 0 <= k < i ==> v@[k] != p,
        decreases v@.len() - i,
    {
        if v[i].0 == p.0 && v[i].1 == p.1 {
            return true;
        }
        i = i + 1;
    }
    false
}

/// Whether `atk` has a VCT win (within the node cap and deadline; running
/// out counts as not found).
pub fn has_vct(
    g: &mut Grid,
    atk: u8,
    win: Win,
    stop: &StopFlag,
    deadline: Instant,
    node_cap: u64,
) -> (b: bool)
    requires
        old(g).wf(),
        is_stone(atk),
    ensures
        restored(old(g), final(g)),
        final(g).fresh(),
        (exists|q: (i32, i32)| #[trigger] old(g).view().win_point(q.0 as int, q.1 as int, atk, win)) ==> b,
        b ==> vct_wins(old(g).view(), atk, win, VCT_MAX_DEPTH as nat),
{
    let r = vct_win_move(g, atk, win, stop, deadline, node_cap);
    proof {
        if let Some(p) = r {
            assert(old(g).view().empty(p.0 as int, p.1 as int));
        }
    }
    r.is_some()
}

/// A VCT winning move of `atk`, or `None`, within the node cap and
/// deadline. The move returned is always one of `atk`'s threat moves, and
/// wins by threats ([`threat_wins`]) against every reply the search weighs:
/// the attacker's open-four points, the defender's fours and five points
/// ([`defence`]). Other replies are not tried.
pub fn vct_win_move(
    g: &mut Grid,
    atk: u8,
    win: Win,
    stop: &StopFlag,
    deadline: Instant,
    node_cap: u64,
) -> (res: Option<(i32, i32)>)
    requires
        old(g).wf(),
        is_stone(atk),
    ensures
        restored(old(g), final(g)),
        res matches Some(p) ==> is_threat(old(g).view(), p, atk, win) && threat_wins(
            old(g).view(),
            p,
            atk,
            win,
            VCT_MAX_DEPTH as nat,
        ),
        final(g).fresh(),
        (exists|q: (i32, i32)| #[trigger] old(g).view().win_point(q.0 as int, q.1 as int, atk, win)) ==> res is Some,
{
    let def = if atk == BLACK {
        WHITE
    } else {
        BLACK
    };
    let mut vct = Vct { win, deadline, nodes: 0, node_cap, aborted: false };
    let ghost m = g.view();
    let ghost g0 = *g;
    let moves = threat_moves(g, atk, win);
    let mut i: usize = 0;
    while i < moves.len()
        invariant
            g.wf(),
            g.view() == m,
            restored(&g0, g),
            g0 == *old(g),
            m == old(g).view(),
            vct.win == win,
            is_stone(atk),
            def == other_code(atk),
            i <= moves@.len(),
            forall|k: int| 0 <= k < moves@.len() ==> is_threat(m, #[trigger] moves@[k], atk, win),
            g.fresh() && (exists|q: (i32, i32)| #[trigger] m.win_point(q.0 as int, q.1 as int, atk, win)) ==> i == 0
                && moves@.len() > 0 && m.wins_at(moves@[0].0 as int, moves@[0].1 as int, atk, win),
        decreases moves@.len() - i,
    {
        let (r, c) = moves[i];
        proof {
            assert(is_threat(m, moves@[i as int], atk, win));
        }
        if vct.move_forces(g, atk, def, r, c, VCT_MAX_DEPTH, stop) {
            proof {
                assert(moves@[i as int] == (r, c));
            }
            return Some((r, c));
        }
        if vct.aborted {
            return None;
        }
        i = i + 1;
    }
    None
}

} // verus!
