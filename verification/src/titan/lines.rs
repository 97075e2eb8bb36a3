//! What the bit lines mean: for each color and line, bit `k` is set exactly
//! when the `k`-th point of the line holds a stone of that color. The static
//! score, runs and line ends are read from the bits; here they are stated
//! over the board model.

use vstd::prelude::*;

use super::geometry::{
    lemma_line_place_inverse, lemma_line_step, lemma_place_in_line, lemma_point_on_line,
    line_count, line_len, line_of, place_on, point_c, point_r,
};
use crate::onyx::grid::{dir_c, dir_r, other_code, GridModel, BLACK, EMPTY, WHITE};

verus! {

/// Bit `k` of `x`.
pub open spec fn bit(x: u32, k: int) -> bool {
    0 <= k < 32 && (x & (1u32 << (k as u32))) != 0
}

/// The code of the `k`-th point of line `l` in direction `d` (off the
/// board when `k` is outside the line).
pub open spec fn line_code(m: GridModel, d: int, l: int, k: int) -> u8 {
    if 0 <= k < line_len(d, l, m.w, m.h) {
        m.code(point_r(d, l, k, m.w), point_c(d, l, k, m.w))
    } else {
        3
    }
}

/// `x` is the `color` mask of line `l` in direction `d` of `m`.
pub open spec fn line_mask(x: u32, m: GridModel, d: int, l: int, color: u8) -> bool {
    forall|k: int| 0 <= k < 32 ==> #[trigger] bit(x, k) == (line_code(m, d, l, k) == color)
}

/// Window weight of a five-window holding `n` stones of one color only.
pub open spec fn window_weight(n: int) -> int {
    if n == 1 {
        1
    } else if n == 2 {
        10
    } else if n == 3 {
        100
    } else if n == 4 {
        1_000
    } else if n >= 5 {
        100_000
    } else {
        0
    }
}

/// Number of `color` points among places `s .. s + j` of a line.
pub open spec fn window_count(m: GridModel, d: int, l: int, s: int, color: u8, j: nat) -> int
    decreases j,
{
    if j == 0 {
        0
    } else {
        window_count(m, d, l, s, color, (j - 1) as nat) + (if line_code(m, d, l, s + j - 1) == color {
            1int
        } else {
            0int
        })
    }
}

/// The value for `color` of the five-window at place `s`: nothing when the
/// other color is in it, else the weight of its `color` stones.
pub open spec fn window_value(m: GridModel, d: int, l: int, s: int, color: u8) -> int {
    if window_count(m, d, l, s, other_code(color), 5) > 0 {
        0
    } else {
        window_weight(window_count(m, d, l, s, color, 5))
    }
}

/// The value of the first `n` windows of a line.
pub open spec fn windows_value(m: GridModel, d: int, l: int, color: u8, n: nat) -> int
    decreases n,
{
    if n == 0 {
        0
    } else {
        windows_value(m, d, l, color, (n - 1) as nat) + window_value(m, d, l, n - 1, color)
    }
}

/// The number of five-windows of a line of `len` points.
pub open spec fn window_total(len: int) -> nat {
    if len >= 5 {
        (len - 4) as nat
    } else {
        0
    }
}

/// The static value of line `l` in direction `d` for `color`.
pub open spec fn line_value(m: GridModel, d: int, l: int, color: u8) -> int {
    windows_value(m, d, l, color, window_total(line_len(d, l, m.w, m.h)))
}

/// The value of the first `n` lines of direction `d`.
pub open spec fn dir_value(m: GridModel, d: int, color: u8, n: nat) -> int
    decreases n,
{
    if n == 0 {
        0
    } else {
        dir_value(m, d, color, (n - 1) as nat) + line_value(m, d, n - 1, color)
    }
}

/// All lines of direction `d`.
pub open spec fn dir_total(m: GridModel, d: int, color: u8) -> int {
    dir_value(m, d, color, line_count(d, m.w, m.h) as nat)
}

/// The static score of `color`: the values of all its lines.
pub open spec fn static_score(m: GridModel, color: u8) -> int {
    dir_total(m, 0, color) + dir_total(m, 1, color) + dir_total(m, 2, color) + dir_total(m, 3, color)
}

pub proof fn lemma_window_count_bounds(m: GridModel, d: int, l: int, s: int, color: u8, j: nat)
    ensures
        0 <= window_count(m, d, l, s, color, j) <= j,
    decreases j,
{
    if j > 0 {
        lemma_window_count_bounds(m, d, l, s, color, (j - 1) as nat);
    }
}

pub proof fn lemma_windows_bounds(m: GridModel, d: int, l: int, color: u8, n: nat)
    ensures
        0 <= windows_value(m, d, l, color, n) <= 100_000 * n,
    decreases n,
{
    if n > 0 {
        lemma_windows_bounds(m, d, l, color, (n - 1) as nat);
    }
}

/// A line's value is bounded by its windows.
pub proof fn lemma_line_value_bounds(m: GridModel, d: int, l: int, color: u8)
    requires
        m.w <= 32,
        m.h <= 32,
        0 <= d < 4,
    ensures
        0 <= line_value(m, d, l, color) <= 2_800_000,
{
    lemma_windows_bounds(m, d, l, color, window_total(line_len(d, l, m.w, m.h)));
    assert(window_total(line_len(d, l, m.w, m.h)) <= 28);
}

pub proof fn lemma_dir_value_bounds(m: GridModel, d: int, color: u8, n: nat)
    requires
        m.w <= 32,
        m.h <= 32,
        0 <= d < 4,
    ensures
        0 <= dir_value(m, d, color, n) <= 2_800_000 * n,
    decreases n,
{
    if n > 0 {
        lemma_dir_value_bounds(m, d, color, (n - 1) as nat);
        lemma_line_value_bounds(m, d, n - 1, color);
    }
}

/// The static score is bounded (boards up to 32 points a side).
pub proof fn lemma_static_score_bounds(m: GridModel, color: u8)
    requires
        1 <= m.w <= 32,
        1 <= m.h <= 32,
    ensures
        0 <= static_score(m, color) <= 800_000_000,
{
    lemma_dir_value_bounds(m, 0, color, line_count(0, m.w, m.h) as nat);
    lemma_dir_value_bounds(m, 1, color, line_count(1, m.w, m.h) as nat);
    lemma_dir_value_bounds(m, 2, color, line_count(2, m.w, m.h) as nat);
    lemma_dir_value_bounds(m, 3, color, line_count(3, m.w, m.h) as nat);
}

/// Windows over the same line codes count alike.
pub proof fn lemma_window_count_same(a: GridModel, b: GridModel, d: int, l: int, s: int, color: u8, j: nat)
    requires
        forall|k: int| #[trigger] line_code(a, d, l, k) == line_code(b, d, l, k),
    ensures
        window_count(a, d, l, s, color, j) == window_count(b, d, l, s, color, j),
    decreases j,
{
    if j > 0 {
        lemma_window_count_same(a, b, d, l, s, color, (j - 1) as nat);
        assert(line_code(a, d, l, s + j - 1) == line_code(b, d, l, s + j - 1));
    }
}

pub proof fn lemma_windows_same(a: GridModel, b: GridModel, d: int, l: int, color: u8, n: nat)
    requires
        forall|k: int| #[trigger] line_code(a, d, l, k) == line_code(b, d, l, k),
    ensures
        windows_value(a, d, l, color, n) == windows_value(b, d, l, color, n),
    decreases n,
{
    if n > 0 {
        lemma_windows_same(a, b, d, l, color, (n - 1) as nat);
        lemma_window_count_same(a, b, d, l, n - 1, color, 5);
        lemma_window_count_same(a, b, d, l, n - 1, other_code(color), 5);
    }
}

/// Setting one point changes only the lines through it.
pub proof fn lemma_dir_value_update(m0: GridModel, m1: GridModel, d: int, color: u8, r: int, c: int, n: nat)
    requires
        0 <= d < 4,
        m0.w == m1.w,
        m0.h == m1.h,
        1 <= m0.w,
        1 <= m0.h,
        n <= line_count(d, m0.w, m0.h),
        forall|x: int, y: int| (x, y) != (r, c) ==> #[trigger] m0.code(x, y) == m1.code(x, y),
        m0.has(r, c),
    ensures
        dir_value(m1, d, color, n) == dir_value(m0, d, color, n) + (if n > line_of(d, r, c, m0.w) {
            line_value(m1, d, line_of(d, r, c, m0.w), color) - line_value(
                m0,
                d,
                line_of(d, r, c, m0.w),
                color,
            )
        } else {
            0
        }),
    decreases n,
{
    if n > 0 {
        lemma_dir_value_update(m0, m1, d, color, r, c, (n - 1) as nat);
        let l = n - 1;
        if l != line_of(d, r, c, m0.w) {
            assert forall|k: int| #[trigger] line_code(m0, d, l, k) == line_code(m1, d, l, k) by {
                lemma_line_place_inverse(d, l, k, m0.w);
                if point_r(d, l, k, m0.w) == r && point_c(d, l, k, m0.w) == c {
                    assert(line_of(d, r, c, m0.w) == l);
                }
            }
            lemma_windows_same(m0, m1, d, l, color, window_total(line_len(d, l, m0.w, m0.h)));
        }
    }
}

/// An empty board scores nothing.
pub proof fn lemma_empty_score(m: GridModel, color: u8)
    requires
        forall|x: int, y: int| #[trigger] m.code(x, y) == EMPTY || m.code(x, y) == 3,
        color == BLACK || color == WHITE,
    ensures
        static_score(m, color) == 0,
{
    assert forall|d: int, n: nat| 0 <= d < 4 implies #[trigger] dir_value(m, d, color, n) == 0 by {
        lemma_empty_dir(m, d, color, n);
    }
}

proof fn lemma_empty_dir(m: GridModel, d: int, color: u8, n: nat)
    requires
        forall|x: int, y: int| #[trigger] m.code(x, y) == EMPTY || m.code(x, y) == 3,
        color == BLACK || color == WHITE,
    ensures
        dir_value(m, d, color, n) == 0,
    decreases n,
{
    if n > 0 {
        lemma_empty_dir(m, d, color, (n - 1) as nat);
        lemma_empty_windows(m, d, n - 1, color, window_total(line_len(d, n - 1, m.w, m.h)));
    }
}

proof fn lemma_empty_windows(m: GridModel, d: int, l: int, color: u8, n: nat)
    requires
        forall|x: int, y: int| #[trigger] m.code(x, y) == EMPTY || m.code(x, y) == 3,
        color == BLACK || color == WHITE,
    ensures
        windows_value(m, d, l, color, n) == 0,
    decreases n,
{
    if n > 0 {
        lemma_empty_windows(m, d, l, color, (n - 1) as nat);
        lemma_empty_count(m, d, l, n - 1, color, 5);
    }
}

proof fn lemma_empty_count(m: GridModel, d: int, l: int, s: int, color: u8, j: nat)
    requires
        forall|x: int, y: int| #[trigger] m.code(x, y) == EMPTY || m.code(x, y) == 3,
        color == BLACK || color == WHITE,
    ensures
        window_count(m, d, l, s, color, j) == 0,
    decreases j,
{
    if j > 0 {
        lemma_empty_count(m, d, l, s, color, (j - 1) as nat);
        let k = s + j - 1;
        if 0 <= k < line_len(d, l, m.w, m.h) {
            assert(m.code(point_r(d, l, k, m.w), point_c(d, l, k, m.w)) == EMPTY || m.code(
                point_r(d, l, k, m.w),
                point_c(d, l, k, m.w),
            ) == 3);
        }
    }
}

/// Flipping bit `k` flips that bit only.
pub proof fn lemma_flip(x: u32, k: u32, j: u32)
    requires
        k < 32,
        j < 32,
    ensures
        ((x ^ (1u32 << k)) & (1u32 << j) != 0) == (if j == k {
            (x & (1u32 << j)) == 0
        } else {
            (x & (1u32 << j)) != 0
        }),
{
    assert(((x ^ (1u32 << k)) & (1u32 << j) != 0) == (if j == k {
        (x & (1u32 << j)) == 0
    } else {
        (x & (1u32 << j)) != 0
    })) by (bit_vector)
        requires
            k < 32,
            j < 32,
    ;
}

/// The empty mask has no bit set.
pub proof fn lemma_zero_bits(j: u32)
    requires
        j < 32,
    ensures
        (0u32 & (1u32 << j)) == 0,
{
    assert((0u32 & (1u32 << j)) == 0) by (bit_vector);
}

/// The static value of a line of `len <= 32` points, read from its masks.
pub fn line_score(mine: u32, opp: u32, len: i32, Ghost(m): Ghost<GridModel>, Ghost(d): Ghost<int>, Ghost(l): Ghost<int>, Ghost(color): Ghost<u8>) -> (v: i64)
    requires
        0 <= len <= 32,
        len == line_len(d, l, m.w, m.h),
        line_mask(mine, m, d, l, color),
        line_mask(opp, m, d, l, other_code(color)),
        color == BLACK || color == WHITE,
    ensures
        v == line_value(m, d, l, color),
{
    let mut total: i64 = 0;
    let mut start: i32 = 0;
    while start + 5 <= len
        invariant
            0 <= len <= 32,
            len == line_len(d, l, m.w, m.h),
            line_mask(mine, m, d, l, color),
            line_mask(opp, m, d, l, other_code(color)),
            color == BLACK || color == WHITE,
            0 <= start,
            start <= window_total(len as int),
            total == windows_value(m, d, l, color, start as nat),
            0 <= total <= 100_000 * start,
        decreases len - start,
    {
        let mut count: i32 = 0;
        let mut dead = false;
        let mut k: i32 = start;
        while k < start + 5
            invariant
                0 <= start,
                start + 5 <= len <= 32,
                start <= k <= start + 5,
                line_mask(mine, m, d, l, color),
                line_mask(opp, m, d, l, other_code(color)),
                count == window_count(m, d, l, start as int, color, (k - start) as nat),
                dead == (window_count(m, d, l, start as int, other_code(color), (k - start) as nat) > 0),
                0 <= count <= k - start,
            decreases start + 5 - k,
        {
            proof {
                lemma_window_count_bounds(m, d, l, start as int, other_code(color), (k - start) as nat);
                assert(bit(opp, k as int) == (line_code(m, d, l, k as int) == other_code(color)));
                assert(bit(mine, k as int) == (line_code(m, d, l, k as int) == color));
                assert(start + (k + 1 - start) - 1 == k);
            }
            if opp & (1u32 << (k as u32)) != 0 {
                dead = true;
            }
            if mine & (1u32 << (k as u32)) != 0 {
                count = count + 1;
            }
            k = k + 1;
        }
        if !dead {
            let w: i64 = if count == 1 {
                1
            } else if count == 2 {
                10
            } else if count == 3 {
                100
            } else if count == 4 {
                1_000
            } else if count >= 5 {
                100_000
            } else {
                0
            };
            total = total + w;
        }
        start = start + 1;
    }
    total
}

} // verus!
