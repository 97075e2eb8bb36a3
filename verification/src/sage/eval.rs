//! Shape evaluation: the axis through a point is read as a nine-point
//! window and matched against shape patterns, best tier first; the four
//! axes add up, so a move making two threats at once scores high.
//!
//! In a window `C` is the evaluated color (the centre, the imagined stone,
//! included), `X` the opponent or off the board (blocked), `.` empty.

use vstd::prelude::*;

use crate::model::{Board, Color, Position};
use crate::onyx::grid::{color_code, dir, dir_c, dir_r, is_stone, step, step_i32, GridModel, EMPTY};
use crate::rules::{board_model, lemma_board_model};

verus! {

/// The evaluated color in a window.
pub const C: u8 = 67;
/// A blocked point in a window: the opponent or off the board.
pub const X: u8 = 88;
/// An empty point in a window.
pub const E: u8 = 46;

/// How the point `(x, y)` reads for `color`.
pub open spec fn cell_char(m: GridModel, x: int, y: int, color: u8) -> u8 {
    if !m.has(x, y) {
        X
    } else if m.code(x, y) == color {
        C
    } else if m.code(x, y) == EMPTY {
        E
    } else {
        X
    }
}

/// The nine-point window along axis `k` centred on `(r, c)`, the centre
/// read as `color`.
pub open spec fn window_spec(m: GridModel, r: int, c: int, color: u8, k: int) -> Seq<u8> {
    Seq::new(
        9,
        |s: int|
            if s == 4 {
                C
            } else {
                cell_char(m, step(r, dir_r(k), s - 4), step(c, dir_c(k), s - 4), color)
            },
    )
}

/// `needle` occurs in `hay`.
pub open spec fn contains_spec(hay: Seq<u8>, needle: Seq<u8>) -> bool {
    exists|i: int| 0 <= i <= hay.len() - needle.len() && #[trigger] hay.subrange(i, i + needle.len()) == needle
}

/// The shape tier of one axis window.
pub open spec fn axis_spec(w: Seq<u8>) -> int {
    if contains_spec(w, seq![C, C, C, C, C]) {
        100_000
    } else if contains_spec(w, seq![E, C, C, C, C, E]) {
        15_000
    } else if contains_spec(w, seq![C, C, C, C, E]) || contains_spec(w, seq![E, C, C, C, C]) || contains_spec(
        w,
        seq![C, C, E, C, C],
    ) || contains_spec(w, seq![C, C, C, E, C]) || contains_spec(w, seq![C, E, C, C, C]) {
        6_000
    } else if contains_spec(w, seq![E, C, C, C, E]) || contains_spec(w, seq![E, C, C, E, C, E]) || contains_spec(
        w,
        seq![E, C, E, C, C, E],
    ) {
        3_000
    } else if contains_spec(w, seq![C, C, C]) {
        500
    } else if contains_spec(w, seq![E, C, C, E]) || contains_spec(w, seq![E, C, E, C, E]) {
        200
    } else if contains_spec(w, seq![C, C]) {
        50
    } else {
        0
    }
}

/// The shape score of `color` playing `(r, c)`: the four axes added.
pub open spec fn shape_spec(m: GridModel, r: int, c: int, color: u8) -> int {
    axis_spec(window_spec(m, r, c, color, 0)) + axis_spec(window_spec(m, r, c, color, 1)) + axis_spec(
        window_spec(m, r, c, color, 2),
    ) + axis_spec(window_spec(m, r, c, color, 3))
}

/// Every line through a point counts: its shape score is at least the
/// tier of its window along each of the four directions (row, column,
/// diagonal and anti-diagonal), and no tier is negative.
pub proof fn lemma_shape_counts_every_axis(m: GridModel, r: int, c: int, color: u8)
    ensures
        forall|k: int|
            0 <= k < 4 ==> 0 <= #[trigger] axis_spec(window_spec(m, r, c, color, k)) <= shape_spec(m, r, c, color),
{
}

/// Three stones of `color` in a line from a point, in any of the eight
/// directions (along a row, a column, a diagonal or an anti-diagonal),
/// with the point before it and the point after the three both empty, make an open four there: the point scores
/// at least the open-four tier.
pub proof fn lemma_open_four_scores(m: GridModel, r: int, c: int, dr: int, dc: int, color: u8)
    requires
        is_stone(color),
        -1 <= dr <= 1 && -1 <= dc <= 1 && (dr != 0 || dc != 0),
        m.code(r + dr, c + dc) == color,
        m.code(r + 2 * dr, c + 2 * dc) == color,
        m.code(r + 3 * dr, c + 3 * dc) == color,
        m.has(r - dr, c - dc),
        m.code(r - dr, c - dc) == EMPTY,
        m.has(r + 4 * dr, c + 4 * dc),
        m.code(r + 4 * dr, c + 4 * dc) == EMPTY,
    ensures
        shape_spec(m, r, c, color) >= 15_000,
{
    let k: int = if dr == 0 {
        0
    } else if dc == 0 {
        1
    } else if dr == dc {
        2
    } else {
        3
    };
    let forward = dir_r(k) == dr && dir_c(k) == dc;
    assert(forward || (dir_r(k) == -dr && dir_c(k) == -dc));
    let w = window_spec(m, r, c, color, k);
    if forward {
        assert(w.subrange(3, 9) =~= seq![E, C, C, C, C, E]);
        assert(w.subrange(3, 3 + seq![E, C, C, C, C, E].len() as int) == seq![E, C, C, C, C, E]);
    } else {
        assert(w.subrange(0, 6) =~= seq![E, C, C, C, C, E]);
        assert(w.subrange(0, 0 + seq![E, C, C, C, C, E].len() as int) == seq![E, C, C, C, C, E]);
    }
    assert(contains_spec(w, seq![E, C, C, C, C, E]));
    assert(axis_spec(w) >= 15_000);
    lemma_shape_counts_every_axis(m, r, c, color);
}

/// Four stones of `color` in a line from a point, in any of the eight
/// directions (along a row, a column, a diagonal or an anti-diagonal),
/// make five there: the point scores at
/// least the five tier.
pub proof fn lemma_five_scores(m: GridModel, r: int, c: int, dr: int, dc: int, color: u8)
    requires
        is_stone(color),
        -1 <= dr <= 1 && -1 <= dc <= 1 && (dr != 0 || dc != 0),
        m.code(r + dr, c + dc) == color,
        m.code(r + 2 * dr, c + 2 * dc) == color,
        m.code(r + 3 * dr, c + 3 * dc) == color,
        m.code(r + 4 * dr, c + 4 * dc) == color,
    ensures
        shape_spec(m, r, c, color) >= 100_000,
{
    let k: int = if dr == 0 {
        0
    } else if dc == 0 {
        1
    } else if dr == dc {
        2
    } else {
        3
    };
    let forward = dir_r(k) == dr && dir_c(k) == dc;
    assert(forward || (dir_r(k) == -dr && dir_c(k) == -dc));
    assert(m.has(r + dr, c + dc) && m.has(r + 4 * dr, c + 4 * dc));
    let w = window_spec(m, r, c, color, k);
    if forward {
        assert(w.subrange(4, 9) =~= seq![C, C, C, C, C]);
        assert(w.subrange(4, 4 + seq![C, C, C, C, C].len() as int) == seq![C, C, C, C, C]);
    } else {
        assert(w.subrange(0, 5) =~= seq![C, C, C, C, C]);
        assert(w.subrange(0, 0 + seq![C, C, C, C, C].len() as int) == seq![C, C, C, C, C]);
    }
    assert(contains_spec(w, seq![C, C, C, C, C]));
    assert(axis_spec(w) >= 100_000);
    lemma_shape_counts_every_axis(m, r, c, color);
}

/// The window along axis `k` through `pos`, `pos` read as `color`.
fn window(board: &Board, pos: Position, color: Color, k: usize) -> (win: Vec<u8>)
    requires
        k < 4,
    ensures
        win@ == window_spec(board_model(*board), pos.row as int, pos.col as int, color_code(color), k as int),
{
    let ghost m = board_model(*board);
    proof {
        lemma_board_model(*board);
    }
    let h = board.height() as i32;
    let w = board.width() as i32;
    let r0 = pos.row as i32;
    let c0 = pos.col as i32;
    let (dr, dc) = dir(k);
    let mut win: Vec<u8> = Vec::new();
    let mut s: i32 = 0;
    while s < 9
        invariant
            0 <= s <= 9,
            win@.len() == s,
            m == board_model(*board),
            crate::onyx::grid::mirrors(m, *board),
            m.w == w,
            m.h == h,
            0 <= w <= 255,
            0 <= h <= 255,
            r0 == pos.row as i32,
            c0 == pos.col as i32,
            dr == dir_r(k as int),
            dc == dir_c(k as int),
            forall|t: int| 0 <= t < s ==> #[trigger] win@[t] == window_spec(m, r0 as int, c0 as int, color_code(color), k as int)[t],
        decreases 9 - s,
    {
        let v: u8 = if s == 4 {
            C
        } else {
            let (row, col) = if s >= 4 {
                (step_i32(r0, dr, s - 4), step_i32(c0, dc, s - 4))
            } else {
                (step_i32(r0, -dr, 4 - s), step_i32(c0, -dc, 4 - s))
            };
            proof {
                assert(row == step(r0 as int, dr as int, s - 4));
                assert(col == step(c0 as int, dc as int, s - 4));
            }
            if row < 0 || col < 0 || row >= h || col >= w {
                X
            } else {
                proof {
                    assert(m.code(row as int, col as int) == crate::onyx::grid::cell_code(board.at(row as int, col as int)));
                }
                match board.stone_at(Position::new(row as u8, col as u8)) {
                    Some(st) => if st == color {
                        C
                    } else {
                        X
                    },
                    None => E,
                }
            }
        };
        win.push(v);
        s = s + 1;
    }
    proof {
        assert(win@ =~= window_spec(m, r0 as int, c0 as int, color_code(color), k as int));
    }
    win
}

/// Whether the first `len` items of `p` occur in `hay`.
fn contains(hay: &Vec<u8>, p: [u8; 6], len: usize) -> (b: bool)
    requires
        1 <= len <= 6,
        hay@.len() == 9,
    ensures
        b == contains_spec(hay@, p@.take(len as int)),
{
    let ghost needle = p@.take(len as int);
    let mut i: usize = 0;
    while i + len <= hay.len()
        invariant
            1 <= len <= 6,
            hay@.len() == 9,
            i <= 9,
            needle == p@.take(len as int),
            needle.len() == len,
            forall|t: int| 0 <= t < i ==> #[trigger] hay@.subrange(t, t + len) != needle,
        decreases 10 - i,
    {
        let mut j: usize = 0;
        let mut ok = true;
        while j < len
            invariant
                1 <= len <= 6,
                hay@.len() == 9,
                i + len <= 9,
                j <= len,
                needle == p@.take(len as int),
                ok == (forall|t: int| 0 <= t < j ==> hay@[i + t] == needle[t]),
            decreases len - j,
        {
            let a = hay[i + j];
            let b = p[j];
            proof {
                assert(needle[j as int] == p@[j as int]);
                assert(b == p@[j as int]);
                assert(a == hay@[i + j]);
            }
            if a != b {
                ok = false;
            }
            j = j + 1;
        }
        if ok {
            proof {
                assert(hay@.subrange(i as int, i + len) =~= needle);
            }
            return true;
        }
        proof {
            let t = choose|t: int| 0 <= t < len && hay@[i + t] != needle[t];
            assert(hay@.subrange(i as int, i + len)[t] != needle[t]);
        }
        i = i + 1;
    }
    proof {
        if contains_spec(hay@, needle) {
            let t = choose|t: int| 0 <= t <= hay@.len() - needle.len() && #[trigger] hay@.subrange(t, t + needle.len()) == needle;
            assert(hay@.subrange(t, t + len) == needle);
        }
    }
    false
}

/// The shape tier of one axis window.
fn axis_score(win: &Vec<u8>) -> (v: i64)
    requires
        win@.len() == 9,
    ensures
        v == axis_spec(win@),
{
    proof {
        assert([C, C, C, C, C, 0u8]@.take(5) =~= seq![C, C, C, C, C]);
        assert([E, C, C, C, C, E]@.take(6) =~= seq![E, C, C, C, C, E]);
        assert([C, C, C, C, E, 0u8]@.take(5) =~= seq![C, C, C, C, E]);
        assert([E, C, C, C, C, 0u8]@.take(5) =~= seq![E, C, C, C, C]);
        assert([C, C, E, C, C, 0u8]@.take(5) =~= seq![C, C, E, C, C]);
        assert([C, C, C, E, C, 0u8]@.take(5) =~= seq![C, C, C, E, C]);
        assert([C, E, C, C, C, 0u8]@.take(5) =~= seq![C, E, C, C, C]);
        assert([E, C, C, C, E, 0u8]@.take(5) =~= seq![E, C, C, C, E]);
        assert([E, C, C, E, C, E]@.take(6) =~= seq![E, C, C, E, C, E]);
        assert([E, C, E, C, C, E]@.take(6) =~= seq![E, C, E, C, C, E]);
        assert([C, C, C, 0u8, 0u8, 0u8]@.take(3) =~= seq![C, C, C]);
        assert([E, C, C, E, 0u8, 0u8]@.take(4) =~= seq![E, C, C, E]);
        assert([E, C, E, C, E, 0u8]@.take(5) =~= seq![E, C, E, C, E]);
        assert([C, C, 0u8, 0u8, 0u8, 0u8]@.take(2) =~= seq![C, C]);
    }
    if contains(win, [C, C, C, C, C, 0u8], 5) {
        return 100_000;
    }
    if contains(win, [E, C, C, C, C, E], 6) {
        return 15_000;
    }
    if contains(win, [C, C, C, C, E, 0u8], 5) || contains(win, [E, C, C, C, C, 0u8], 5) || contains(
        win,
        [C, C, E, C, C, 0u8],
        5,
    ) || contains(win, [C, C, C, E, C, 0u8], 5) || contains(win, [C, E, C, C, C, 0u8], 5) {
        return 6_000;
    }
    if contains(win, [E, C, C, C, E, 0u8], 5) || contains(win, [E, C, C, E, C, E], 6) || contains(
        win,
        [E, C, E, C, C, E],
        6,
    ) {
        return 3_000;
    }
    if contains(win, [C, C, C, 0u8, 0u8, 0u8], 3) {
        return 500;
    }
    if contains(win, [E, C, C, E, 0u8, 0u8], 4) || contains(win, [E, C, E, C, E, 0u8], 5) {
        return 200;
    }
    if contains(win, [C, C, 0u8, 0u8, 0u8, 0u8], 2) {
        return 50;
    }
    0
}

/// The shape score of `color` playing `pos`: the four axes added.
pub fn shape_score(board: &Board, pos: Position, color: Color) -> (v: i64)
    ensures
        v == shape_spec(board_model(*board), pos.row as int, pos.col as int, color_code(color)),
        0 <= v <= 400_000,
{
    let a = axis_score(&window(board, pos, color, 0));
    let b = axis_score(&window(board, pos, color, 1));
    let c = axis_score(&window(board, pos, color, 2));
    let d = axis_score(&window(board, pos, color, 3));
    a + b + c + d
}

} // verus!
