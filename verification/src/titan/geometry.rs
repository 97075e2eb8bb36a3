//! The lines of a board: each of the four directions cuts the board into
//! lines, and each point is the `k`-th point of exactly one line per
//! direction. Directions: 0 across, 1 down, 2 down-right, 3 down-left.

use vstd::prelude::*;

use crate::onyx::grid::{dir_c, dir_r, step};

verus! {

/// How many lines direction `d` has on a `w x h` board.
pub open spec fn line_count(d: int, w: int, h: int) -> int {
    if d == 0 {
        h
    } else if d == 1 {
        w
    } else {
        h + w - 1
    }
}

/// The line of `(r, c)` in direction `d`.
pub open spec fn line_of(d: int, r: int, c: int, w: int) -> int {
    if d == 0 {
        r
    } else if d == 1 {
        c
    } else if d == 2 {
        r - c + (w - 1)
    } else {
        r + c
    }
}

/// The lowest row of down-left line `l`.
pub open spec fn row_low(l: int, w: int) -> int {
    if l - (w - 1) > 0 {
        l - (w - 1)
    } else {
        0
    }
}

/// The place of `(r, c)` along its line in direction `d`.
pub open spec fn place_on(d: int, r: int, c: int, w: int) -> int {
    if d == 0 {
        c
    } else if d == 1 {
        r
    } else if d == 2 {
        if r <= c {
            r
        } else {
            c
        }
    } else {
        r - row_low(r + c, w)
    }
}

/// The number of points of line `l` in direction `d`.
pub open spec fn line_len(d: int, l: int, w: int, h: int) -> int {
    if d == 0 {
        w
    } else if d == 1 {
        h
    } else if d == 2 {
        let off = l - (w - 1);
        let a = h - (if off > 0 {
            off
        } else {
            0
        });
        let b = w - (if -off > 0 {
            -off
        } else {
            0
        });
        if a <= b {
            a
        } else {
            b
        }
    } else {
        let hi = if h - 1 <= l {
            h - 1
        } else {
            l
        };
        hi - row_low(l, w) + 1
    }
}

/// The row of the `k`-th point of line `l` in direction `d`.
pub open spec fn point_r(d: int, l: int, k: int, w: int) -> int {
    if d == 0 {
        l
    } else if d == 1 {
        k
    } else if d == 2 {
        if l - (w - 1) >= 0 {
            k + (l - (w - 1))
        } else {
            k
        }
    } else {
        k + row_low(l, w)
    }
}

/// The column of the `k`-th point of line `l` in direction `d`.
pub open spec fn point_c(d: int, l: int, k: int, w: int) -> int {
    if d == 0 {
        k
    } else if d == 1 {
        l
    } else if d == 2 {
        if l - (w - 1) >= 0 {
            k
        } else {
            k - (l - (w - 1))
        }
    } else {
        l - (k + row_low(l, w))
    }
}

/// A board point lies on a line of each direction, at a place within it.
pub proof fn lemma_point_on_line(d: int, r: int, c: int, w: int, h: int)
    requires
        0 <= d < 4,
        0 <= r < h,
        0 <= c < w,
    ensures
        0 <= line_of(d, r, c, w) < line_count(d, w, h),
        0 <= place_on(d, r, c, w) < line_len(d, line_of(d, r, c, w), w, h),
        point_r(d, line_of(d, r, c, w), place_on(d, r, c, w), w) == r,
        point_c(d, line_of(d, r, c, w), place_on(d, r, c, w), w) == c,
{
}

/// Line and place name back the point they were taken from, for any place.
pub proof fn lemma_line_place_inverse(d: int, l: int, k: int, w: int)
    requires
        0 <= d < 4,
    ensures
        line_of(d, point_r(d, l, k, w), point_c(d, l, k, w), w) == l,
        place_on(d, point_r(d, l, k, w), point_c(d, l, k, w), w) == k,
{
}

/// Moving `j` places along a line moves `j` steps in the line's direction.
pub proof fn lemma_line_step(d: int, l: int, k: int, j: int, w: int)
    requires
        0 <= d < 4,
    ensures
        point_r(d, l, k + j, w) == point_r(d, l, k, w) + j * dir_r(d),
        point_c(d, l, k + j, w) == point_c(d, l, k, w) + j * dir_c(d),
{
}

/// A place is within its line exactly when its point is on the board.
pub proof fn lemma_place_in_line(d: int, l: int, k: int, w: int, h: int)
    requires
        0 <= d < 4,
        0 <= l < line_count(d, w, h),
        1 <= w,
        1 <= h,
    ensures
        (0 <= k < line_len(d, l, w, h)) <==> (0 <= point_r(d, l, k, w) < h && 0 <= point_c(d, l, k, w) < w),
{
    lemma_line_place_inverse(d, l, k, w);
    let r = point_r(d, l, k, w);
    let c = point_c(d, l, k, w);
    if 0 <= r < h && 0 <= c < w {
        lemma_point_on_line(d, r, c, w, h);
    }
}

/// Lines are at most as long as the board's longer side.
pub proof fn lemma_line_len_bound(d: int, l: int, w: int, h: int)
    requires
        0 <= d < 4,
        0 <= l < line_count(d, w, h),
        1 <= w,
        1 <= h,
    ensures
        line_len(d, l, w, h) <= (if w >= h {
            w
        } else {
            h
        }),
        line_len(d, l, w, h) >= 1,
{
}

/// `x` for a forward walk (`s == 1`), `-x` for a backward one.
pub open spec fn sdir(s: int, x: int) -> int {
    if s == 1 {
        x
    } else {
        -x
    }
}

/// The place `n` steps from `k` along the walk `s`.
pub open spec fn ahead(k: int, s: int, n: int) -> int {
    if s == 1 {
        k + n
    } else {
        k - n
    }
}

/// Walking `n` places along a line walks `n` steps on the board.
pub proof fn lemma_line_walk(d: int, l: int, k: int, n: int, s: int, w: int)
    requires
        0 <= d < 4,
        s == 1 || s == -1,
        n >= 0,
    ensures
        point_r(d, l, ahead(k, s, n), w) == step(point_r(d, l, k, w), sdir(s, dir_r(d)), n),
        point_c(d, l, ahead(k, s, n), w) == step(point_c(d, l, k, w), sdir(s, dir_c(d)), n),
{
    if s == 1 {
        lemma_line_step(d, l, k, n, w);
    } else {
        lemma_line_step(d, l, k, -n, w);
    }
}

} // verus!
