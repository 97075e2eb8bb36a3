//! Win detection on the model board, by the rule set's win rule: runs of
//! one color along the four line directions, and what blocks their ends.

use vstd::prelude::*;

use crate::model::board::{cell_index, lemma_cell_index_bounds};
use crate::model::{Board, Cell, Color, Position, RuleSet};
use crate::onyx::grid::{cell_code, color_code, dir, dir_c, dir_r, is_stone, mirrors, step, step_i32, GridModel};
use crate::titan::bitboard::{end_kind, near_stones, run_end, run_side, wins_under, End};
use crate::titan::geometry::sdir;

verus! {

/// The model of a board: its size and, row by row, the codes of its points.
pub open spec fn board_model(b: Board) -> GridModel {
    GridModel {
        w: b.w(),
        h: b.h(),
        cells: Seq::new((b.w() * b.h()) as nat, |i: int| cell_code(b.at(i / b.w(), i % b.w()))),
    }
}

/// The model of a board holds the board.
pub proof fn lemma_board_model(b: Board)
    ensures
        mirrors(board_model(b), b),
        board_model(b).cells.len() == b.w() * b.h(),
        board_model(b).w == b.w(),
        board_model(b).h == b.h(),
        0 <= b.w() <= 255,
        0 <= b.h() <= 255,
{
    b.lemma_dims();
    let m = board_model(b);
    assert(b.w() * b.h() >= 0) by (nonlinear_arith)
        requires
            b.w() >= 0,
            b.h() >= 0,
    ;
    assert forall|r: int, c: int| b.has(r, c) implies m.code(r, c) == cell_code(#[trigger] b.at(r, c)) by {
        lemma_cell_index_bounds(b.w(), b.h(), r, c);
        let i = cell_index(b.w(), r, c);
        vstd::arithmetic::div_mod::lemma_fundamental_div_mod_converse(i, b.w(), r, c);
        assert(i / b.w() == r);
        assert(i % b.w() == c);
    }
}

/// A model that mirrors a board and has one cell per point is the
/// board's model.
pub proof fn lemma_mirror_model(m: GridModel, b: Board)
    requires
        mirrors(m, b),
        m.cells.len() == m.w * m.h,
    ensures
        m == board_model(b),
{
    lemma_board_model(b);
    let bm = board_model(b);
    assert forall|i: int| 0 <= i < m.cells.len() implies m.cells[i] == bm.cells[i] by {
        let w = b.w();
        let h = b.h();
        assert(w > 0) by (nonlinear_arith)
            requires
                0 <= i < w * h,
                w >= 0,
                h >= 0,
        ;
        let r = i / w;
        let c = i % w;
        vstd::arithmetic::div_mod::lemma_fundamental_div_mod(i, w);
        assert(r < h) by (nonlinear_arith)
            requires
                i == w * r + c,
                0 <= c < w,
                i < w * h,
        ;
        assert(0 <= r) by (nonlinear_arith)
            requires
                i == w * r + c,
                c < w,
                i >= 0,
                w > 0,
        ;
        assert(b.has(r, c));
        assert(m.code(r, c) == cell_code(b.at(r, c)));
        assert(cell_index(w, r, c) == i) by (nonlinear_arith)
            requires
                i == w * r + c,
        ;
        assert(bm.code(r, c) == cell_code(b.at(r, c)));
    }
    assert(m.cells =~= bm.cells);
}

/// Boards of one size with the same points have one model.
pub proof fn lemma_board_model_eq(a: Board, b: Board)
    requires
        a.w() == b.w(),
        a.h() == b.h(),
        forall|r: int, c: int| a.at(r, c) == b.at(r, c),
    ensures
        board_model(a) == board_model(b),
{
    assert(board_model(a).cells =~= board_model(b).cells);
}

/// The consecutive `color` stones after `(r, c)` in direction `(dr, dc)`.
fn ray(board: &Board, r: i32, c: i32, dr: i32, dc: i32, color: Color) -> (n: i32)
    requires
        board.has(r as int, c as int),
        -1 <= dr <= 1,
        -1 <= dc <= 1,
        dr != 0 || dc != 0,
    ensures
        n == board_model(*board).count(r as int, c as int, dr as int, dc as int, color_code(color), board_model(*board).fuel()),
        0 <= n <= board.w() + board.h(),
{
    let ghost m = board_model(*board);
    let ghost f = m.fuel();
    let ghost col = color_code(color);
    proof {
        lemma_board_model(*board);
    }
    let w = board.width() as i32;
    let h = board.height() as i32;
    let mut n: i32 = 0;
    let mut rr = r + dr;
    let mut cc = c + dc;
    while holds_color(board, rr, cc, color)
        invariant
            m == board_model(*board),
            mirrors(m, *board),
            m.w == w,
            m.h == h,
            0 <= w <= 255,
            0 <= h <= 255,
            f == m.fuel(),
            col == color_code(color),
            m.has(r as int, c as int),
            -1 <= dr <= 1,
            -1 <= dc <= 1,
            dr != 0 || dc != 0,
            0 <= n <= w + h,
            rr == step(r as int, dr as int, n + 1),
            cc == step(c as int, dc as int, n + 1),
            m.count(r as int, c as int, dr as int, dc as int, col, f) == n + m.count(
                rr - dr,
                cc - dc,
                dr as int,
                dc as int,
                col,
                (f - n) as nat,
            ),
        decreases w + h - n,
    {
        proof {
            assert(m.has(rr as int, cc as int));
            assert((f - n) as nat > 0);
            assert(rr - dr + dr == rr);
        }
        n = n + 1;
        rr = rr + dr;
        cc = cc + dc;
    }
    proof {
        assert((f - n) as nat > 0);
        assert(rr - dr + dr == rr);
    }
    n
}

/// Whether `(r, c)` is on the board and holds a `color` stone.
fn holds_color(board: &Board, r: i32, c: i32, color: Color) -> (b: bool)
    ensures
        b == (board_model(*board).has(r as int, c as int) && board_model(*board).code(r as int, c as int)
            == color_code(color)),
{
    proof {
        lemma_board_model(*board);
    }
    if r < 0 || c < 0 || r >= board.height() as i32 || c >= board.width() as i32 {
        false
    } else {
        proof {
            assert(board_model(*board).code(r as int, c as int) == cell_code(board.at(r as int, c as int)));
        }
        match board.stone_at(Position::new(r as u8, c as u8)) {
            Some(s) => s == color,
            None => false,
        }
    }
}

/// What lies at `(x, y)` past a `color` run: the edge, an opponent stone
/// or an empty point.
fn end_kind_at(board: &Board, x: i32, y: i32, color: Color) -> (e: End)
    requires
        -600 <= x <= 800,
        -600 <= y <= 800,
    ensures
        e == end_kind(board_model(*board), x as int, y as int, color_code(color)),
{
    proof {
        lemma_board_model(*board);
    }
    if x < 0 || y < 0 || x >= board.height() as i32 || y >= board.width() as i32 {
        End::Edge
    } else {
        proof {
            assert(board_model(*board).code(x as int, y as int) == cell_code(board.at(x as int, y as int)));
        }
        match board.stone_at(Position::new(x as u8, y as u8)) {
            Some(s) => if s == color {
                End::Empty
            } else {
                End::Opp
            },
            None => End::Empty,
        }
    }
}

/// The `color` run through the on-board point `pos` in direction `k`,
/// counting `pos` itself as `color`, with what lies past each end.
fn run_through(board: &Board, pos: Position, k: usize, color: Color) -> (res: (i32, End, End))
    requires
        board.has(pos.row as int, pos.col as int),
        k < 4,
    ensures
        res.0 == board_model(*board).run(pos.row as int, pos.col as int, k as int, color_code(color)),
        res.1 == run_end(board_model(*board), pos.row as int, pos.col as int, k as int, -1, color_code(color)),
        res.2 == run_end(board_model(*board), pos.row as int, pos.col as int, k as int, 1, color_code(color)),
        1 <= res.0 <= 1021,
{
    let r = pos.row as i32;
    let c = pos.col as i32;
    let (dr, dc) = dir(k);
    proof {
        board.lemma_dims();
    }
    let fwd = ray(board, r, c, dr, dc, color);
    let back = ray(board, r, c, -dr, -dc, color);
    let high = end_kind_at(board, step_i32(r, dr, fwd + 1), step_i32(c, dc, fwd + 1), color);
    let low = end_kind_at(board, step_i32(r, -dr, back + 1), step_i32(c, -dc, back + 1), color);
    proof {
        assert(sdir(1, dir_r(k as int)) == dir_r(k as int));
        assert(sdir(-1, dir_r(k as int)) == -dir_r(k as int));
        assert(sdir(1, dir_c(k as int)) == dir_c(k as int));
        assert(sdir(-1, dir_c(k as int)) == -dir_c(k as int));
    }
    (1 + fwd + back, low, high)
}

/// Whether a `color` stone on the on-board point `pos` completes a win
/// under the rule set: five or more in a row (freestyle), exactly five
/// (standard), exactly five not blocked by the opponent at both ends
/// (caro; the edge does not block). The point's own content is not read.
pub fn is_win_for(board: &Board, pos: Position, rule_set: RuleSet, color: Color) -> (b: bool)
    requires
        board.has(pos.row as int, pos.col as int),
    ensures
        b == wins_under(board_model(*board), pos.row as int, pos.col as int, color_code(color), rule_set.win_rule),
{
    let mut k: usize = 0;
    while k < 4
        invariant
            board.has(pos.row as int, pos.col as int),
            k <= 4,
            forall|j: int|
                0 <= j < k ==> !crate::titan::bitboard::dir_hit(
                    board_model(*board),
                    pos.row as int,
                    pos.col as int,
                    j,
                    color_code(color),
                    rule_set.win_rule,
                ),
        decreases 4 - k,
    {
        let (run, low, high) = run_through(board, pos, k, color);
        let hit = match rule_set.win_rule {
            crate::model::WinRule::Overline => run >= 5,
            crate::model::WinRule::ExactFive => run == 5,
            crate::model::WinRule::Caro => run == 5 && !(low == End::Opp && high == End::Opp),
        };
        if hit {
            return true;
        }
        k = k + 1;
    }
    false
}

/// Under freestyle a point wins exactly when some line through it holds
/// five or more; under the standard rule exactly when some line holds
/// exactly five.
pub proof fn lemma_five_rules(m: GridModel, r: int, c: int, col: u8)
    ensures
        wins_under(m, r, c, col, crate::model::WinRule::Overline) <==> exists|d: int|
            0 <= d < 4 && #[trigger] m.run(r, c, d, col) >= 5,
        wins_under(m, r, c, col, crate::model::WinRule::ExactFive) <==> exists|d: int|
            0 <= d < 4 && #[trigger] m.run(r, c, d, col) == 5,
{
    if exists|d: int| 0 <= d < 4 && #[trigger] m.run(r, c, d, col) >= 5 {
        let d = choose|d: int| 0 <= d < 4 && #[trigger] m.run(r, c, d, col) >= 5;
        assert(d == 0 || d == 1 || d == 2 || d == 3);
    }
    if exists|d: int| 0 <= d < 4 && #[trigger] m.run(r, c, d, col) == 5 {
        let d = choose|d: int| 0 <= d < 4 && #[trigger] m.run(r, c, d, col) == 5;
        assert(d == 0 || d == 1 || d == 2 || d == 3);
    }
    if wins_under(m, r, c, col, crate::model::WinRule::Overline) {
        if m.run(r, c, 0, col) >= 5 {
            assert(0 <= 0int < 4 && m.run(r, c, 0, col) >= 5);
        } else if m.run(r, c, 1, col) >= 5 {
            assert(0 <= 1int < 4 && m.run(r, c, 1, col) >= 5);
        } else if m.run(r, c, 2, col) >= 5 {
            assert(0 <= 2int < 4 && m.run(r, c, 2, col) >= 5);
        } else {
            assert(0 <= 3int < 4 && m.run(r, c, 3, col) >= 5);
        }
    }
    if wins_under(m, r, c, col, crate::model::WinRule::ExactFive) {
        if m.run(r, c, 0, col) == 5 {
            assert(0 <= 0int < 4 && m.run(r, c, 0, col) == 5);
        } else if m.run(r, c, 1, col) == 5 {
            assert(0 <= 1int < 4 && m.run(r, c, 1, col) == 5);
        } else if m.run(r, c, 2, col) == 5 {
            assert(0 <= 2int < 4 && m.run(r, c, 2, col) == 5);
        } else {
            assert(0 <= 3int < 4 && m.run(r, c, 3, col) == 5);
        }
    }
}

/// Under caro a point wins exactly when it makes a line of exactly five
/// that the opponent does not close at both ends: a five closed at one end
/// only (or at the edge) wins, and every caro win is an exact five.
pub proof fn lemma_caro_refuses_only_doubly_closed_fives(m: GridModel, r: int, c: int, col: u8)
    ensures
        forall|d: int|
            0 <= d < 4 && #[trigger] m.run(r, c, d, col) == 5 && (run_end(m, r, c, d, -1, col) != End::Opp || run_end(
                m,
                r,
                c,
                d,
                1,
                col,
            ) != End::Opp) ==> wins_under(m, r, c, col, crate::model::WinRule::Caro),
        wins_under(m, r, c, col, crate::model::WinRule::Caro) ==> exists|d: int|
            0 <= d < 4 && #[trigger] m.run(r, c, d, col) == 5 && !(run_end(m, r, c, d, -1, col) == End::Opp && run_end(
                m,
                r,
                c,
                d,
                1,
                col,
            ) == End::Opp),
        wins_under(m, r, c, col, crate::model::WinRule::Caro) ==> wins_under(m, r, c, col, crate::model::WinRule::ExactFive),
{
    let rule = crate::model::WinRule::Caro;
    if wins_under(m, r, c, col, rule) {
        if crate::titan::bitboard::dir_hit(m, r, c, 0, col, rule) {
            assert(0 <= 0int < 4 && m.run(r, c, 0, col) == 5);
        } else if crate::titan::bitboard::dir_hit(m, r, c, 1, col, rule) {
            assert(0 <= 1int < 4 && m.run(r, c, 1, col) == 5);
        } else if crate::titan::bitboard::dir_hit(m, r, c, 2, col, rule) {
            assert(0 <= 2int < 4 && m.run(r, c, 2, col) == 5);
        } else {
            assert(0 <= 3int < 4 && m.run(r, c, 3, col) == 5);
        }
    }
}

/// Whether `color` wins at once by playing the empty on-board point `pos`
/// (the win check does not read the point itself, so the board need not
/// be changed).
pub fn wins_at(board: &Board, pos: Position, color: Color, rule_set: RuleSet) -> (b: bool)
    requires
        board.has(pos.row as int, pos.col as int),
    ensures
        b == wins_under(board_model(*board), pos.row as int, pos.col as int, color_code(color), rule_set.win_rule),
{
    is_win_for(board, pos, rule_set, color)
}

/// The longest of the four runs of `color` through `pos`, counting `pos`
/// as `color`.
pub open spec fn longest_run_spec(m: GridModel, r: int, c: int, color: u8) -> int {
    let a = m.run(r, c, 0, color);
    let b = m.run(r, c, 1, color);
    let d = m.run(r, c, 2, color);
    let e = m.run(r, c, 3, color);
    let ab = if a >= b {
        a
    } else {
        b
    };
    let de = if d >= e {
        d
    } else {
        e
    };
    if ab >= de {
        ab
    } else {
        de
    }
}

/// The longest run through a point is the longest of its four lines: at
/// least the run along each direction (row, column, diagonal and
/// anti-diagonal), and equal to one of them.
pub proof fn lemma_longest_run_is_the_longest_line(m: GridModel, r: int, c: int, color: u8)
    ensures
        forall|k: int| 0 <= k < 4 ==> longest_run_spec(m, r, c, color) >= #[trigger] m.run(r, c, k, color),
        exists|k: int| 0 <= k < 4 && longest_run_spec(m, r, c, color) == #[trigger] m.run(r, c, k, color),
{
    let l = longest_run_spec(m, r, c, color);
    if l == m.run(r, c, 0, color) {
        assert(0 <= 0int < 4 && l == m.run(r, c, 0, color));
    } else if l == m.run(r, c, 1, color) {
        assert(0 <= 1int < 4 && l == m.run(r, c, 1, color));
    } else if l == m.run(r, c, 2, color) {
        assert(0 <= 2int < 4 && l == m.run(r, c, 2, color));
    } else {
        assert(0 <= 3int < 4 && l == m.run(r, c, 3, color));
    }
}

/// Three stones of `color` in a line from a point, in any of the eight
/// directions (along a row, a column, a diagonal or an anti-diagonal),
/// give the point a run of at least four.
pub proof fn lemma_three_in_line_make_four(m: GridModel, r: int, c: int, dr: int, dc: int, color: u8)
    requires
        is_stone(color),
        -1 <= dr <= 1 && -1 <= dc <= 1 && (dr != 0 || dc != 0),
        m.code(r + dr, c + dc) == color,
        m.code(r + 2 * dr, c + 2 * dc) == color,
        m.code(r + 3 * dr, c + 3 * dc) == color,
    ensures
        longest_run_spec(m, r, c, color) >= 4,
{
    let k: int = if dr == 0 {
        0
    } else if dc == 0 {
        1
    } else if dr == dc {
        2
    } else {
        3
    };
    assert((dir_r(k) == dr && dir_c(k) == dc) || (-dir_r(k) == dr && -dir_c(k) == dc));
    assert(m.has(r + dr, c + dc));
    let f = m.fuel();
    assert(f >= 3);
    assert(m.count(r + 3 * dr, c + 3 * dc, dr, dc, color, (f - 3) as nat) >= 0);
    assert(m.count(r + 2 * dr, c + 2 * dc, dr, dc, color, (f - 2) as nat) >= 1);
    assert(m.count(r + dr, c + dc, dr, dc, color, (f - 1) as nat) >= 2);
    assert(m.count(r, c, dr, dc, color, f) >= 3);
    assert(m.run(r, c, k, color) >= 4);
    lemma_longest_run_is_the_longest_line(m, r, c, color);
}

/// The longest run `color` would have through the on-board point `pos` if
/// it played there.
pub fn longest_run_if_placed(board: &Board, pos: Position, color: Color) -> (n: u32)
    requires
        board.has(pos.row as int, pos.col as int),
    ensures
        n == longest_run_spec(board_model(*board), pos.row as int, pos.col as int, color_code(color)),
        1 <= n <= 1021,
{
    let (a, _, _) = run_through(board, pos, 0, color);
    let (b, _, _) = run_through(board, pos, 1, color);
    let (d, _, _) = run_through(board, pos, 2, color);
    let (e, _, _) = run_through(board, pos, 3, color);
    let ab = if a >= b {
        a
    } else {
        b
    };
    let de = if d >= e {
        d
    } else {
        e
    };
    if ab >= de {
        ab as u32
    } else {
        de as u32
    }
}

/// Whether a stone of either color lies within Chebyshev distance two of
/// `pos` (not counting `pos` itself).
pub fn near_stone(board: &Board, pos: Position) -> (b: bool)
    ensures
        b == (near_stones(board_model(*board), pos.row as int, pos.col as int) > 0),
{
    let ghost m = board_model(*board);
    proof {
        lemma_board_model(*board);
    }
    let h = board.height() as i32;
    let w = board.width() as i32;
    let r0 = pos.row as i32;
    let c0 = pos.col as i32;
    let mut dr: i32 = -2;
    while dr <= 2
        invariant
            m == board_model(*board),
            mirrors(m, *board),
            m.w == w,
            m.h == h,
            0 <= w <= 255,
            0 <= h <= 255,
            r0 == pos.row as i32,
            c0 == pos.col as i32,
            0 <= r0 < 256,
            0 <= c0 < 256,
            -2 <= dr <= 3,
            crate::titan::bitboard::near_rows(m, r0 as int, c0 as int, (dr + 2) as nat) == 0,
        decreases 3 - dr,
    {
        let mut dc: i32 = -2;
        while dc <= 2
            invariant
                m == board_model(*board),
                mirrors(m, *board),
                m.w == w,
                m.h == h,
                0 <= w <= 255,
                0 <= h <= 255,
                r0 == pos.row as i32,
                c0 == pos.col as i32,
                0 <= r0 < 256,
                0 <= c0 < 256,
                -2 <= dr <= 2,
                -2 <= dc <= 3,
                crate::titan::bitboard::near_rows(m, r0 as int, c0 as int, (dr + 2) as nat) == 0,
                crate::titan::bitboard::near_row(m, r0 as int, c0 as int, dr as int, (dc + 2) as nat) == 0,
            decreases 3 - dc,
        {
            let row = r0 + dr;
            let col = c0 + dc;
            if !(dr == 0 && dc == 0) && 0 <= row && row < h && 0 <= col && col < w {
                proof {
                    assert(m.code(row as int, col as int) == cell_code(board.at(row as int, col as int)));
                }
                if board.stone_at(Position::new(row as u8, col as u8)).is_some() {
                    proof {
                        assert(m.code(row as int, col as int) != crate::onyx::grid::EMPTY);
                        assert(crate::titan::bitboard::stone_near(m, r0 as int, c0 as int, dr as int, dc as int) == 1);
                        lemma_near_positive(m, r0 as int, c0 as int, dr as int, dc as int);
                    }
                    return true;
                }
            }
            proof {
                assert(crate::titan::bitboard::stone_near(m, r0 as int, c0 as int, dr as int, dc as int) == 0);
                assert(((dc + 3) - 1) as nat == (dc + 2) as nat);
                assert(crate::titan::bitboard::near_row(m, r0 as int, c0 as int, dr as int, (dc + 3) as nat) == crate::titan::bitboard::near_row(m, r0 as int, c0 as int, dr as int, (dc + 2) as nat) + crate::titan::bitboard::stone_near(m, r0 as int, c0 as int, dr as int, dc as int));
            }
            dc = dc + 1;
        }
        proof {
            assert(crate::titan::bitboard::near_rows(m, r0 as int, c0 as int, (dr + 3) as nat) == crate::titan::bitboard::near_rows(m, r0 as int, c0 as int, (dr + 2) as nat) + crate::titan::bitboard::near_row(m, r0 as int, c0 as int, dr as int, 5));
        }
        dr = dr + 1;
    }
    false
}

proof fn lemma_near_row_positive(m: GridModel, r: int, c: int, dr: int, dc: int, j: nat)
    requires
        -2 <= dc < j - 2,
        crate::titan::bitboard::stone_near(m, r, c, dr, dc) == 1,
    ensures
        crate::titan::bitboard::near_row(m, r, c, dr, j) > 0,
    decreases j,
{
    if j - 3 != dc {
        lemma_near_row_positive(m, r, c, dr, dc, (j - 1) as nat);
    }
    lemma_near_row_nonneg(m, r, c, dr, (j - 1) as nat);
}

proof fn lemma_near_row_nonneg(m: GridModel, r: int, c: int, dr: int, j: nat)
    ensures
        crate::titan::bitboard::near_row(m, r, c, dr, j) >= 0,
    decreases j,
{
    if j > 0 {
        lemma_near_row_nonneg(m, r, c, dr, (j - 1) as nat);
    }
}

proof fn lemma_near_rows_positive(m: GridModel, r: int, c: int, dr: int, dc: int, i: nat)
    requires
        -2 <= dr < i - 2,
        -2 <= dc <= 2,
        crate::titan::bitboard::stone_near(m, r, c, dr, dc) == 1,
    ensures
        crate::titan::bitboard::near_rows(m, r, c, i) > 0,
    decreases i,
{
    lemma_near_row_nonneg(m, r, c, i - 3, 5);
    if i - 3 != dr {
        lemma_near_rows_positive(m, r, c, dr, dc, (i - 1) as nat);
    } else {
        lemma_near_row_positive(m, r, c, dr, dc, 5);
        lemma_near_rows_nonneg(m, r, c, (i - 1) as nat);
    }
}

proof fn lemma_near_rows_nonneg(m: GridModel, r: int, c: int, i: nat)
    ensures
        crate::titan::bitboard::near_rows(m, r, c, i) >= 0,
    decreases i,
{
    if i > 0 {
        lemma_near_rows_nonneg(m, r, c, (i - 1) as nat);
        lemma_near_row_nonneg(m, r, c, i - 3, 5);
    }
}

/// A stone at offset `(dr, dc)` within two makes the near count positive.
pub(crate) proof fn lemma_near_positive(m: GridModel, r: int, c: int, dr: int, dc: int)
    requires
        -2 <= dr <= 2,
        -2 <= dc <= 2,
        crate::titan::bitboard::stone_near(m, r, c, dr, dc) == 1,
    ensures
        near_stones(m, r, c) > 0,
{
    lemma_near_rows_positive(m, r, c, dr, dc, 5);
}

} // verus!
