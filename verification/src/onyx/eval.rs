//! Static evaluation and move ordering.
//!
//! The leaf evaluation counts five-point windows: every window holding
//! stones of one color only (and empties) adds a weight by its stone count.
//! It is smooth and rewards attacking potential; real tactics are left to
//! the VCF and threat searches. Move ordering scores the local lines
//! through a candidate point, which is cheap and roughly right.

use vstd::prelude::*;

use super::grid::{
    dir, dir_c, dir_r, is_stone, step, step_i32, Grid, GridModel, Win, BLACK, EMPTY, WHITE,
};

verus! {

/// The weight of a one-color window holding `n` stones.
pub open spec fn window_weight(n: int) -> int {
    if n == 1 {
        1
    } else if n == 2 {
        12
    } else if n == 3 {
        144
    } else if n == 4 {
        1728
    } else if n == 5 {
        200_000
    } else {
        0
    }
}

fn weight(n: i32) -> (w: i32)
    requires
        0 <= n <= 5,
    ensures
        w == window_weight(n as int),
{
    if n == 1 {
        1
    } else if n == 2 {
        12
    } else if n == 3 {
        144
    } else if n == 4 {
        1728
    } else if n == 5 {
        200_000
    } else {
        0
    }
}

/// Number of `color` stones among the first `j` points of the window that
/// starts at `(r, c)` in direction `k`.
pub open spec fn in_window(m: GridModel, r: int, c: int, k: int, color: u8, j: nat) -> int
    decreases j,
{
    if j == 0 {
        0
    } else {
        in_window(m, r, c, k, color, (j - 1) as nat) + (if m.code(
            step(r, dir_r(k), j - 1),
            step(c, dir_c(k), j - 1),
        ) == color {
            1int
        } else {
            0int
        })
    }
}

/// What the window starting at `(r, c)` in direction `k` adds to `color`'s
/// total: the weight of its stone count if it holds `color` stones and no
/// stone of the other color, nothing if it leaves the board.
pub open spec fn window_score(m: GridModel, r: int, c: int, k: int, color: u8) -> int {
    let er = step(r, dir_r(k), 4);
    let ec = step(c, dir_c(k), 4);
    if !m.has(er, ec) {
        0
    } else {
        let mine = in_window(m, r, c, k, color, 5);
        let theirs = in_window(m, r, c, k, if color == BLACK { WHITE } else { BLACK }, 5);
        if theirs == 0 && mine > 0 {
            window_weight(mine)
        } else {
            0
        }
    }
}

/// Sum of the window scores of the windows starting in row `r` at columns below `c`.
pub open spec fn cols_total(m: GridModel, k: int, r: int, c: nat, color: u8) -> int
    decreases c,
{
    if c == 0 {
        0
    } else {
        cols_total(m, k, r, (c - 1) as nat, color) + window_score(m, r, c - 1, k, color)
    }
}

/// Sum over the windows of direction `k` starting in rows below `r`.
pub open spec fn rows_total(m: GridModel, k: int, r: nat, color: u8) -> int
    decreases r,
{
    if r == 0 {
        0
    } else {
        rows_total(m, k, (r - 1) as nat, color) + cols_total(m, k, r - 1, m.w as nat, color)
    }
}

/// Sum over the windows of the directions below `k`.
pub open spec fn dirs_total(m: GridModel, k: nat, color: u8) -> int
    decreases k,
{
    if k == 0 {
        0
    } else {
        dirs_total(m, (k - 1) as nat, color) + rows_total(m, k - 1, m.h as nat, color)
    }
}

/// The static score of `side`: its window total minus the opponent's.
pub open spec fn evaluation(m: GridModel, side: u8) -> int {
    let other = if side == BLACK { WHITE } else { BLACK };
    dirs_total(m, 4, side) - dirs_total(m, 4, other)
}

proof fn lemma_window_weight_bounds(n: int)
    ensures
        0 <= window_weight(n) <= 200_000,
{
}

proof fn lemma_in_window_bounds(m: GridModel, r: int, c: int, k: int, color: u8, j: nat)
    ensures
        0 <= in_window(m, r, c, k, color, j) <= j,
    decreases j,
{
    if j > 0 {
        lemma_in_window_bounds(m, r, c, k, color, (j - 1) as nat);
    }
}

proof fn lemma_cols_bounds(m: GridModel, k: int, r: int, c: nat, color: u8)
    ensures
        0 <= cols_total(m, k, r, c, color) <= 200_000 * c,
    decreases c,
{
    if c > 0 {
        lemma_cols_bounds(m, k, r, (c - 1) as nat, color);
        let mine = in_window(m, r, c - 1, k, color, 5);
        lemma_window_weight_bounds(mine);
    }
}

proof fn lemma_rows_bounds(m: GridModel, k: int, r: nat, color: u8)
    requires
        0 <= m.w <= 50,
    ensures
        0 <= rows_total(m, k, r, color) <= 10_000_000 * r,
    decreases r,
{
    if r > 0 {
        lemma_rows_bounds(m, k, (r - 1) as nat, color);
        lemma_cols_bounds(m, k, r - 1, m.w as nat, color);
        let a = rows_total(m, k, (r - 1) as nat, color);
        let b = cols_total(m, k, r - 1, m.w as nat, color);
        assert(rows_total(m, k, r, color) == a + b);
        assert(b <= 200_000 * 50);
        assert(a <= 10_000_000 * (r - 1));
        assert(a + b <= 10_000_000 * r);
    }
}

proof fn lemma_dirs_bounds(m: GridModel, k: nat, color: u8)
    requires
        0 <= m.w <= 50,
        0 <= m.h <= 50,
    ensures
        0 <= dirs_total(m, k, color) <= 500_000_000 * k,
    decreases k,
{
    if k > 0 {
        lemma_dirs_bounds(m, (k - 1) as nat, color);
        lemma_rows_bounds(m, k - 1, m.h as nat, color);
        let a = dirs_total(m, (k - 1) as nat, color);
        let b = rows_total(m, k - 1, m.h as nat, color);
        assert(dirs_total(m, k, color) == a + b);
        assert(b <= 10_000_000 * m.h);
        assert(b <= 10_000_000 * 50) by (nonlinear_arith)
            requires
                b <= 10_000_000 * m.h,
                m.h <= 50,
        ;
        assert(a <= 500_000_000 * (k - 1));
        assert(a + b <= 500_000_000 * k);
    }
}

/// Both window totals fit an `i32`, as the running sums of [`evaluate`]
/// must: they only grow.
pub open spec fn evaluation_fits(m: GridModel) -> bool {
    &&& dirs_total(m, 4, BLACK) <= i32::MAX
    &&& dirs_total(m, 4, WHITE) <= i32::MAX
}

proof fn lemma_rows_mono(m: GridModel, k: int, a: nat, b: nat, color: u8)
    requires
        a <= b,
    ensures
        0 <= rows_total(m, k, a, color) <= rows_total(m, k, b, color),
    decreases b,
{
    if b > 0 {
        lemma_cols_bounds(m, k, b - 1, m.w as nat, color);
        if a < b {
            lemma_rows_mono(m, k, a, (b - 1) as nat, color);
        } else {
            lemma_rows_mono(m, k, (b - 1) as nat, (b - 1) as nat, color);
        }
    }
}

proof fn lemma_dirs_mono(m: GridModel, a: nat, b: nat, color: u8)
    requires
        a <= b,
    ensures
        0 <= dirs_total(m, a, color) <= dirs_total(m, b, color),
    decreases b,
{
    if b > 0 {
        lemma_rows_mono(m, b - 1, 0, m.h as nat, color);
        if a < b {
            lemma_dirs_mono(m, a, (b - 1) as nat, color);
        } else {
            lemma_dirs_mono(m, (b - 1) as nat, (b - 1) as nat, color);
        }
    }
}

/// The static evaluation is antisymmetric: either side's score is the
/// other's negated. It does not read the win rule.
pub proof fn lemma_evaluation_antisymmetric(m: GridModel, side: u8)
    requires
        is_stone(side),
    ensures
        evaluation(m, side) == -evaluation(m, if side == BLACK { WHITE } else { BLACK }),
{
}

proof fn lemma_no_stone_window(m: GridModel, r: int, c: int, k: int, color: u8, j: nat)
    requires
        forall|x: int, y: int| #[trigger] m.code(x, y) != color,
    ensures
        in_window(m, r, c, k, color, j) == 0,
    decreases j,
{
    if j > 0 {
        lemma_no_stone_window(m, r, c, k, color, (j - 1) as nat);
    }
}

proof fn lemma_no_stone_cols(m: GridModel, k: int, r: int, c: nat, color: u8)
    requires
        forall|x: int, y: int| #[trigger] m.code(x, y) != color,
    ensures
        cols_total(m, k, r, c, color) == 0,
    decreases c,
{
    if c > 0 {
        lemma_no_stone_cols(m, k, r, (c - 1) as nat, color);
        lemma_no_stone_window(m, r, c - 1, k, color, 5);
    }
}

proof fn lemma_no_stone_rows(m: GridModel, k: int, r: nat, color: u8)
    requires
        forall|x: int, y: int| #[trigger] m.code(x, y) != color,
    ensures
        rows_total(m, k, r, color) == 0,
    decreases r,
{
    if r > 0 {
        lemma_no_stone_rows(m, k, (r - 1) as nat, color);
        lemma_no_stone_cols(m, k, r - 1, m.w as nat, color);
    }
}

proof fn lemma_no_stone_dirs(m: GridModel, k: nat, color: u8)
    requires
        forall|x: int, y: int| #[trigger] m.code(x, y) != color,
    ensures
        dirs_total(m, k, color) == 0,
    decreases k,
{
    if k > 0 {
        lemma_no_stone_dirs(m, (k - 1) as nat, color);
        lemma_no_stone_rows(m, k - 1, m.h as nat, color);
    }
}

/// A grid without stones evaluates to zero for either side.
pub proof fn lemma_empty_evaluation(m: GridModel, side: u8)
    requires
        is_stone(side),
        forall|x: int, y: int| #[trigger] m.code(x, y) != BLACK && m.code(x, y) != WHITE,
    ensures
        evaluation(m, side) == 0,
{
    lemma_no_stone_dirs(m, 4, BLACK);
    lemma_no_stone_dirs(m, 4, WHITE);
}

proof fn lemma_in_window_grows(m: GridModel, r: int, c: int, k: int, color: u8, j: nat)
    requires
        j >= 1,
    ensures
        in_window(m, r, c, k, color, j) >= in_window(m, r, c, k, color, 1),
    decreases j,
{
    if j > 1 {
        lemma_in_window_grows(m, r, c, k, color, (j - 1) as nat);
    }
}

proof fn lemma_cols_nonneg(m: GridModel, k: int, r: int, c: nat, color: u8)
    ensures
        cols_total(m, k, r, c, color) >= 0,
    decreases c,
{
    if c > 0 {
        lemma_cols_nonneg(m, k, r, (c - 1) as nat, color);
        lemma_window_weight_bounds(in_window(m, r, c - 1, k, color, 5));
    }
}

proof fn lemma_cols_hold(m: GridModel, k: int, r: int, c: nat, x: int, color: u8)
    requires
        0 <= x < c,
    ensures
        cols_total(m, k, r, c, color) >= window_score(m, r, x, k, color),
    decreases c,
{
    lemma_window_weight_bounds(in_window(m, r, c - 1, k, color, 5));
    if x == c - 1 {
        lemma_cols_nonneg(m, k, r, (c - 1) as nat, color);
    } else {
        lemma_cols_hold(m, k, r, (c - 1) as nat, x, color);
    }
}

proof fn lemma_rows_nonneg(m: GridModel, k: int, r: nat, color: u8)
    ensures
        rows_total(m, k, r, color) >= 0,
    decreases r,
{
    if r > 0 {
        lemma_rows_nonneg(m, k, (r - 1) as nat, color);
        lemma_cols_nonneg(m, k, r - 1, m.w as nat, color);
    }
}

proof fn lemma_rows_hold(m: GridModel, k: int, r: nat, y: int, x: int, color: u8)
    requires
        0 <= y < r,
        0 <= x < m.w,
    ensures
        rows_total(m, k, r, color) >= window_score(m, y, x, k, color),
    decreases r,
{
    lemma_cols_nonneg(m, k, r - 1, m.w as nat, color);
    if y == r - 1 {
        lemma_rows_nonneg(m, k, (r - 1) as nat, color);
        lemma_cols_hold(m, k, y, m.w as nat, x, color);
    } else {
        lemma_rows_hold(m, k, (r - 1) as nat, y, x, color);
    }
}

proof fn lemma_dirs_nonneg(m: GridModel, k: nat, color: u8)
    ensures
        dirs_total(m, k, color) >= 0,
    decreases k,
{
    if k > 0 {
        lemma_dirs_nonneg(m, (k - 1) as nat, color);
        lemma_rows_nonneg(m, k - 1, m.h as nat, color);
    }
}

proof fn lemma_dirs_hold(m: GridModel, k: nat, d: int, y: int, x: int, color: u8)
    requires
        0 <= d < k,
        m.has(y, x),
    ensures
        dirs_total(m, k, color) >= window_score(m, y, x, d, color),
    decreases k,
{
    lemma_rows_nonneg(m, k - 1, m.h as nat, color);
    if d == k - 1 {
        lemma_dirs_nonneg(m, (k - 1) as nat, color);
        lemma_rows_hold(m, d, m.h as nat, y, x, color);
    } else {
        lemma_dirs_hold(m, (k - 1) as nat, d, y, x, color);
    }
}

/// The evaluation is the side's own standing against the opponent's: it
/// is never negative while the opponent has no stone on the board, and
/// never positive while the side itself has none.
pub proof fn lemma_evaluation_sign(m: GridModel, side: u8)
    requires
        is_stone(side),
    ensures
        (forall|x: int, y: int| #[trigger] m.code(x, y) != (if side == BLACK { WHITE } else { BLACK }))
            ==> evaluation(m, side) >= 0,
        (forall|x: int, y: int| #[trigger] m.code(x, y) != side) ==> evaluation(m, side) <= 0,
{
    let other: u8 = if side == BLACK { WHITE } else { BLACK };
    lemma_dirs_nonneg(m, 4, side);
    lemma_dirs_nonneg(m, 4, other);
    if forall|x: int, y: int| #[trigger] m.code(x, y) != other {
        lemma_no_stone_dirs(m, 4, other);
    }
    if forall|x: int, y: int| #[trigger] m.code(x, y) != side {
        lemma_no_stone_dirs(m, 4, side);
    }
}

/// A stone of `side` that starts a row of five points on the board, with
/// no opponent stone anywhere, gives `side` a positive evaluation.
pub proof fn lemma_own_stone_scores(m: GridModel, side: u8, r: int, c: int)
    requires
        is_stone(side),
        forall|x: int, y: int| #[trigger] m.code(x, y) != (if side == BLACK { WHITE } else { BLACK }),
        m.has(r, c),
        m.has(r, c + 4),
        m.code(r, c) == side,
    ensures
        evaluation(m, side) > 0,
{
    let other: u8 = if side == BLACK { WHITE } else { BLACK };
    lemma_no_stone_dirs(m, 4, other);
    lemma_dirs_hold(m, 4, 0, r, c, side);
    lemma_no_stone_window(m, r, c, 0, other, 5);
    lemma_in_window_grows(m, r, c, 0, side, 5);
    lemma_in_window_bounds(m, r, c, 0, side, 5);
    assert(in_window(m, r, c, 0, side, 0) == 0);
    assert(step(r, dir_r(0), 0) == r && step(c, dir_c(0), 0) == c);
    assert(in_window(m, r, c, 0, side, 1) == 1);
    assert(window_score(m, r, c, 0, side) >= 1);
}

/// On boards up to 50 points a side the totals fit an `i32`.
pub proof fn lemma_small_fits(m: GridModel)
    requires
        0 <= m.w <= 50,
        0 <= m.h <= 50,
    ensures
        evaluation_fits(m),
{
    lemma_dirs_bounds(m, 4, BLACK);
    lemma_dirs_bounds(m, 4, WHITE);
}

/// The static score stays within two billion either way on boards up to
/// 50 points a side.
pub proof fn lemma_evaluation_bounds(m: GridModel, side: u8)
    requires
        0 <= m.w <= 50,
        0 <= m.h <= 50,
    ensures
        -2_000_000_000 <= evaluation(m, side) <= 2_000_000_000,
{
    lemma_dirs_bounds(m, 4, side);
    lemma_dirs_bounds(m, 4, if side == BLACK { WHITE } else { BLACK });
}

/// Counts both colors in the window starting at `(r, c)` in direction `k`.
fn window_counts(grid: &Grid, r: i32, c: i32, k: usize) -> (bw: (i32, i32))
    requires
        grid.wf(),
        grid.view().has(r as int, c as int),
        k < 4,
    ensures
        bw.0 == in_window(grid.view(), r as int, c as int, k as int, BLACK, 5),
        bw.1 == in_window(grid.view(), r as int, c as int, k as int, WHITE, 5),
{
    let (dr, dc) = dir(k);
    let mut b: i32 = 0;
    let mut wt: i32 = 0;
    let mut j: i32 = 0;
    proof {
        grid.lemma_wf();
    }
    while j < 5
        invariant
            grid.wf(),
            0 <= r < 256,
            0 <= c < 256,
            grid.view().has(r as int, c as int),
            dr == dir_r(k as int),
            dc == dir_c(k as int),
            0 <= j <= 5,
            b == in_window(grid.view(), r as int, c as int, k as int, BLACK, j as nat),
            wt == in_window(grid.view(), r as int, c as int, k as int, WHITE, j as nat),
            0 <= b <= j,
            0 <= wt <= j,
        decreases 5 - j,
    {
        let v = grid.code(step_i32(r, dr, j), step_i32(c, dc, j));
        if v == BLACK {
            b = b + 1;
        } else if v == WHITE {
            wt = wt + 1;
        }
        j = j + 1;
    }
    (b, wt)
}

/// The static score of `side`: window total of `side` minus that of the
/// opponent. The rule argument is not used.
pub fn evaluate(grid: &Grid, side: u8, _win: Win) -> (v: i32)
    requires
        grid.wf(),
        evaluation_fits(grid.view()),
        is_stone(side),
    ensures
        v == evaluation(grid.view(), side),
{
    let ghost m = grid.view();
    proof {
        grid.lemma_wf();
    }
    let w = grid.width();
    let h = grid.height();
    let mut black: i32 = 0;
    let mut white: i32 = 0;
    let mut k: usize = 0;
    proof {
        lemma_dirs_mono(m, 0, 4, BLACK);
        lemma_dirs_mono(m, 0, 4, WHITE);
    }
    while k < 4
        invariant
            grid.wf(),
            m == grid.view(),
            w == m.w,
            h == m.h,
            0 <= w,
            0 <= h,
            k <= 4,
            evaluation_fits(m),
            black == dirs_total(m, k as nat, BLACK),
            white == dirs_total(m, k as nat, WHITE),
        decreases 4 - k,
    {
        proof {
            lemma_dirs_mono(m, k as nat, (k + 1) as nat, BLACK);
            lemma_dirs_mono(m, k as nat, (k + 1) as nat, WHITE);
            lemma_dirs_mono(m, (k + 1) as nat, 4, BLACK);
            lemma_dirs_mono(m, (k + 1) as nat, 4, WHITE);
        }
        let ghost b0 = black;
        let ghost w0 = white;
        let mut r: i32 = 0;
        while r < h
            invariant
                grid.wf(),
                m == grid.view(),
                w == m.w,
                h == m.h,
                0 <= w,
                0 <= h,
                k < 4,
                0 <= r <= h,
                b0 == dirs_total(m, k as nat, BLACK),
                w0 == dirs_total(m, k as nat, WHITE),
                0 <= b0,
                0 <= w0,
                b0 + rows_total(m, k as int, h as nat, BLACK) <= i32::MAX,
                w0 + rows_total(m, k as int, h as nat, WHITE) <= i32::MAX,
                black == b0 + rows_total(m, k as int, r as nat, BLACK),
                white == w0 + rows_total(m, k as int, r as nat, WHITE),
            decreases h - r,
        {
            proof {
                lemma_rows_mono(m, k as int, r as nat, (r + 1) as nat, BLACK);
                lemma_rows_mono(m, k as int, r as nat, (r + 1) as nat, WHITE);
                lemma_rows_mono(m, k as int, (r + 1) as nat, h as nat, BLACK);
                lemma_rows_mono(m, k as int, (r + 1) as nat, h as nat, WHITE);
            }
            let ghost b1 = black;
            let ghost w1 = white;
            let mut c: i32 = 0;
            while c < w
                invariant
                    grid.wf(),
                    m == grid.view(),
                    w == m.w,
                    h == m.h,
                    0 <= w,
                    0 <= h,
                    k < 4,
                    0 <= r < h,
                    0 <= c <= w,
                    0 <= b1,
                    0 <= w1,
                    b1 + cols_total(m, k as int, r as int, w as nat, BLACK) <= i32::MAX,
                    w1 + cols_total(m, k as int, r as int, w as nat, WHITE) <= i32::MAX,
                    black == b1 + cols_total(m, k as int, r as int, c as nat, BLACK),
                    white == w1 + cols_total(m, k as int, r as int, c as nat, WHITE),
                decreases w - c,
            {
                proof {
                    lemma_cols_bounds(m, k as int, r as int, (c + 1) as nat, BLACK);
                    lemma_cols_bounds(m, k as int, r as int, (c + 1) as nat, WHITE);
                    lemma_cols_mono(m, k as int, r as int, (c + 1) as nat, w as nat, BLACK);
                    lemma_cols_mono(m, k as int, r as int, (c + 1) as nat, w as nat, WHITE);
                    grid.lemma_wf();
                }
                let (dr, dc) = dir(k);
                let er = step_i32(r, dr, 4);
                let ec = step_i32(c, dc, 4);
                if !(er < 0 || ec < 0 || er >= h || ec >= w) {
                    let (b, wt) = window_counts(grid, r, c, k);
                    proof {
                        lemma_in_window_bounds(m, r as int, c as int, k as int, BLACK, 5);
                        lemma_in_window_bounds(m, r as int, c as int, k as int, WHITE, 5);
                    }
                    if wt == 0 && b > 0 {
                        black = black + weight(b);
                    } else if b == 0 && wt > 0 {
                        white = white + weight(wt);
                    }
                }
                c = c + 1;
            }
            r = r + 1;
        }
        k = k + 1;
    }
    if side == BLACK {
        black - white
    } else {
        white - black
    }
}

proof fn lemma_cols_mono(m: GridModel, k: int, r: int, a: nat, b: nat, color: u8)
    requires
        a <= b,
    ensures
        cols_total(m, k, r, a, color) <= cols_total(m, k, r, b, color),
    decreases b - a,
{
    if a < b {
        lemma_cols_mono(m, k, r, a, (b - 1) as nat, color);
        let mine = in_window(m, r, b - 1, k, color, 5);
        lemma_window_weight_bounds(mine);
    }
}

/// The shape value of a run of `len` stones with `opens` open ends.
pub open spec fn shape_value(len: int, opens: int) -> int {
    if len >= 5 {
        100_000
    } else if len == 4 && opens == 2 {
        50_000
    } else if len == 4 && opens == 1 {
        1_200
    } else if len == 3 && opens == 2 {
        1_000
    } else if len == 3 && opens == 1 {
        120
    } else if len == 2 && opens == 2 {
        100
    } else if len == 2 && opens == 1 {
        12
    } else if len == 1 && opens == 2 {
        10
    } else {
        1
    }
}

/// Whether the point right past the `color` run from `(r, c)` in direction
/// `(dr, dc)` is empty.
pub open spec fn open_end(m: GridModel, r: int, c: int, dr: int, dc: int, color: u8) -> bool {
    let n = m.count(r, c, dr, dc, color, m.fuel()) as int;
    m.code(step(r, dr, n + 1), step(c, dc, n + 1)) == EMPTY
}

/// The shape value of direction `k` for a `color` stone at `(r, c)`.
pub open spec fn dir_value(m: GridModel, r: int, c: int, k: int, color: u8) -> int {
    let opens = (if open_end(m, r, c, dir_r(k), dir_c(k), color) { 1int } else { 0int }) + (if open_end(
        m,
        r,
        c,
        -dir_r(k),
        -dir_c(k),
        color,
    ) {
        1int
    } else {
        0int
    });
    shape_value(m.run(r, c, k, color), opens)
}

/// The local line value of a `color` stone at `(r, c)`: the shape values
/// of its four lines (contiguous run and whether both ends are open).
pub open spec fn line_value_spec(m: GridModel, r: int, c: int, color: u8) -> int {
    dir_value(m, r, c, 0, color) + dir_value(m, r, c, 1, color) + dir_value(m, r, c, 2, color)
        + dir_value(m, r, c, 3, color)
}

/// The ordering key of `(r, c)`: its value for `me` (attack, doubled) plus
/// its value for `opp` (defence).
pub open spec fn order_key_spec(m: GridModel, r: int, c: int, me: u8, opp: u8) -> int {
    line_value_spec(m, r, c, me) * 2 + line_value_spec(m, r, c, opp)
}

impl Grid {
    /// The static evaluation of the position for `side` (see [`evaluate`]).
    pub fn eval_for(&self, side: u8) -> (v: i32)
        requires
            self.wf(),
            evaluation_fits(self.view()),
            is_stone(side),
        ensures
            v == evaluation(self.view(), side),
    {
        evaluate(self, side, Win::Overline)
    }
}

/// The ordering key of the on-board point `(r, c)`.
pub fn order_key(grid: &Grid, r: i32, c: i32, me: u8, opp: u8) -> (v: i32)
    requires
        grid.wf(),
        grid.view().has(r as int, c as int),
        is_stone(me),
        is_stone(opp),
    ensures
        v == order_key_spec(grid.view(), r as int, c as int, me, opp),
        0 <= v <= 1_200_000,
{
    line_value(grid, r, c, me) * 2 + line_value(grid, r, c, opp)
}

/// The local line value of a `color` stone at the on-board point `(r, c)`.
fn line_value(grid: &Grid, r: i32, c: i32, color: u8) -> (v: i32)
    requires
        grid.wf(),
        grid.view().has(r as int, c as int),
        is_stone(color),
    ensures
        v == line_value_spec(grid.view(), r as int, c as int, color),
        4 <= v <= 400_000,
{
    let mut total: i32 = 0;
    let mut k: usize = 0;
    while k < 4
        invariant
            grid.wf(),
            grid.view().has(r as int, c as int),
            is_stone(color),
            k <= 4,
            total == (if k >= 1 { dir_value(grid.view(), r as int, c as int, 0, color) } else { 0 })
                + (if k >= 2 { dir_value(grid.view(), r as int, c as int, 1, color) } else { 0 })
                + (if k >= 3 { dir_value(grid.view(), r as int, c as int, 2, color) } else { 0 })
                + (if k >= 4 { dir_value(grid.view(), r as int, c as int, 3, color) } else { 0 }),
            k <= total <= 100_000 * k,
        decreases 4 - k,
    {
        proof {
            grid.lemma_wf();
        }
        let (dr, dc) = dir(k);
        let ahead = grid.ray(r, c, dr, dc, color);
        let open_ahead = grid.code(step_i32(r, dr, ahead + 1), step_i32(c, dc, ahead + 1)) == EMPTY;
        let behind = grid.ray(r, c, -dr, -dc, color);
        let open_behind = grid.code(step_i32(r, -dr, behind + 1), step_i32(c, -dc, behind + 1))
            == EMPTY;
        let len = 1 + ahead + behind;
        let opens = (if open_ahead { 1i32 } else { 0i32 }) + (if open_behind { 1i32 } else { 0i32 });
        let value: i32 = if len >= 5 {
            100_000
        } else if len == 4 && opens == 2 {
            50_000
        } else if len == 4 && opens == 1 {
            1_200
        } else if len == 3 && opens == 2 {
            1_000
        } else if len == 3 && opens == 1 {
            120
        } else if len == 2 && opens == 2 {
            100
        } else if len == 2 && opens == 1 {
            12
        } else if len == 1 && opens == 2 {
            10
        } else {
            1
        };
        total = total + value;
        k = k + 1;
    }
    total
}

} // verus!
