//! The bit-line board: per color and direction, each line of the board is a
//! `u32` mask whose bit `k` is the line's `k`-th point (counted from the
//! line's start, so a line's bits are `0 .. len` with no gaps). Placing or
//! removing a stone flips four bits; runs are read off small masks. The
//! hash, the static score of both colors and, per point, the number of
//! stones within two are kept up to date incrementally.

use vstd::prelude::*;

use super::geometry::{
    ahead, lemma_line_len_bound, lemma_line_place_inverse, lemma_line_step, lemma_line_walk,
    lemma_place_in_line, lemma_point_on_line, line_count, line_len, line_of, place_on, point_c,
    point_r, sdir,
};
use super::lines::{
    bit, lemma_dir_value_bounds, lemma_dir_value_update, lemma_empty_score, lemma_flip,
    lemma_static_score_bounds, lemma_zero_bits, line_code, line_mask, line_score, line_value,
    dir_total, static_score,
};
use crate::model::board::{cell_index, lemma_cell_index_bounds, lemma_cell_index_injective};
use crate::model::{Board, Cell, Color, Position, RuleSet, WinRule};
use crate::rules::{board_model, lemma_mirror_model};
use crate::onyx::grid::{
    cell_code, color_code, dir, dir_c, dir_r, key_of, key_seq, key_stream, lemma_key_seq_len,
    lemma_place_code, lemma_xor_swap, lemma_zobrist_update, mirrors, other_code, step, step_i32,
    zobrist, GridModel, BLACK, EMPTY, WHITE,
};

verus! {

/// What lies just past the end of a run.
#[derive(Clone, Copy, PartialEq, Eq, Debug, Structural)]
pub enum End {
    /// An empty point (the run can grow there).
    Empty,
    /// A stone of the other color (blocked).
    Opp,
    /// The edge of the board.
    Edge,
}

/// The stone code of color index `ci` (black 0, white 1).
pub open spec fn ci_code(ci: int) -> u8 {
    if ci == 0 {
        BLACK
    } else {
        WHITE
    }
}

/// Lines per color: across, down and both diagonals.
pub open spec fn per_color(w: int, h: int) -> int {
    3 * h + 3 * w - 2
}

/// Where direction `d`'s lines start among one color's lines.
pub open spec fn dir_base(d: int, w: int, h: int) -> int {
    if d == 0 {
        0
    } else if d == 1 {
        h
    } else if d == 2 {
        h + w
    } else {
        2 * h + 2 * w - 1
    }
}

/// The index of line `l` of direction `d` and color index `ci`.
pub open spec fn line_index(ci: int, d: int, l: int, w: int, h: int) -> int {
    ci * per_color(w, h) + dir_base(d, w, h) + l
}

/// Whether `(r + dr, c + dc)` is a stone other than `(r, c)` itself.
pub open spec fn stone_near(m: GridModel, r: int, c: int, dr: int, dc: int) -> int {
    if (dr != 0 || dc != 0) && m.has(r + dr, c + dc) && m.code(r + dr, c + dc) != EMPTY {
        1
    } else {
        0
    }
}

/// Stones at offsets `(dr, -2 .. -2 + j)` of `(r, c)`.
pub open spec fn near_row(m: GridModel, r: int, c: int, dr: int, j: nat) -> int
    decreases j,
{
    if j == 0 {
        0
    } else {
        near_row(m, r, c, dr, (j - 1) as nat) + stone_near(m, r, c, dr, j - 3)
    }
}

/// Stones in the rows `-2 .. -2 + i` of the 5x5 box around `(r, c)`.
pub open spec fn near_rows(m: GridModel, r: int, c: int, i: nat) -> int
    decreases i,
{
    if i == 0 {
        0
    } else {
        near_rows(m, r, c, (i - 1) as nat) + near_row(m, r, c, i - 3, 5)
    }
}

/// The number of stones within Chebyshev distance two of `(r, c)`, not
/// counting `(r, c)`.
pub open spec fn near_stones(m: GridModel, r: int, c: int) -> int {
    near_rows(m, r, c, 5)
}

/// `(x, y)` is a point other than `(r0, c0)` within two of it.
pub open spec fn in_box(x: int, y: int, r0: int, c0: int) -> bool {
    (x != r0 || y != c0) && -2 <= x - r0 <= 2 && -2 <= y - c0 <= 2
}

/// Whether `m` has a stone at `(r, c)`.
pub open spec fn stone(m: GridModel, r: int, c: int) -> int {
    if m.has(r, c) && m.code(r, c) != EMPTY {
        1
    } else {
        0
    }
}

/// The bit-line board.
#[derive(Clone)]
pub struct Bits {
    width: i32,
    height: i32,
    /// All lines: color index, then direction, then line number.
    lines: Vec<u32>,
    /// Zobrist keys, two per point (black, white).
    keys: Vec<u64>,
    /// Zobrist hash of the position, kept up to date.
    hash: u64,
    /// Static scores, kept up to date.
    score_black: i64,
    score_white: i64,
    /// Per point, the stones within distance two (not counting itself).
    near_count: Vec<u16>,
    /// The position the bits stand for.
    model: Ghost<GridModel>,
}

impl Bits {
    /// The position: size and codes of all points.
    pub closed spec fn view(&self) -> GridModel {
        self.model@
    }

    /// The Zobrist keys.
    pub closed spec fn zkeys(&self) -> Seq<u64> {
        self.keys@
    }

    /// The structural invariant tying the bits, hash, scores and counts to
    /// the position.
    pub closed spec fn wf(&self) -> bool {
        let m = self.model@;
        let w = self.width as int;
        let h = self.height as int;
        &&& 1 <= w <= 32
        &&& 1 <= h <= 32
        &&& m.w == w
        &&& m.h == h
        &&& m.cells.len() == w * h
        &&& forall|i: int| 0 <= i < m.cells.len() ==> #[trigger] m.cells[i] <= 2
        &&& self.lines@.len() == 2 * per_color(w, h)
        &&& forall|ci: int, d: int, l: int|
            0 <= ci < 2 && 0 <= d < 4 && 0 <= l < line_count(d, w, h) ==> line_mask(
                #[trigger] self.lines@[line_index(ci, d, l, w, h)],
                m,
                d,
                l,
                ci_code(ci),
            )
        &&& self.keys@ == key_seq((2 * w * h) as nat)
        &&& self.hash == zobrist(self.keys@, m.cells, m.cells.len())
        &&& self.near_count@.len() == w * h
        &&& forall|r: int, c: int|
            m.has(r, c) ==> #[trigger] self.near_count@[cell_index(w, r, c)] == near_stones(m, r, c)
        &&& self.score_black == static_score(m, BLACK)
        &&& self.score_white == static_score(m, WHITE)
    }

    /// The sizes: what the index arithmetic needs.
    pub closed spec fn dims(&self) -> bool {
        &&& 1 <= self.width <= 32
        &&& 1 <= self.height <= 32
        &&& self.model@.w == self.width
        &&& self.model@.h == self.height
        &&& self.lines@.len() == 2 * per_color(self.width as int, self.height as int)
        &&& self.model@.cells.len() == self.width * self.height
    }

    /// The hash the bits keep.
    pub closed spec fn hash_value(&self) -> u64 {
        self.hash
    }

    /// Facts every well-formed board offers.
    pub proof fn lemma_wf(&self)
        requires
            self.wf(),
        ensures
            1 <= self.view().w <= 32,
            1 <= self.view().h <= 32,
            self.view().cells.len() == self.view().w * self.view().h,
            forall|i: int| 0 <= i < self.view().cells.len() ==> #[trigger] self.view().cells[i] <= 2,
            self.hash_value() == zobrist(self.zkeys(), self.view().cells, self.view().cells.len()),
            self.zkeys() == key_seq((2 * self.view().w * self.view().h) as nat),
    {
    }
}

proof fn lemma_near_row_update(m0: GridModel, m1: GridModel, r: int, c: int, dr: int, j: nat, r0: int, c0: int)
    requires
        m0.w == m1.w,
        m0.h == m1.h,
        forall|x: int, y: int| (x, y) != (r0, c0) ==> #[trigger] m0.code(x, y) == m1.code(x, y),
    ensures
        near_row(m1, r, c, dr, j) == near_row(m0, r, c, dr, j) + (if r + dr == r0 && -2 <= c0 - c < j
            - 2 && (dr != 0 || c0 != c) {
            stone(m1, r0, c0) - stone(m0, r0, c0)
        } else {
            0
        }),
        0 <= near_row(m0, r, c, dr, j) <= j,
    decreases j,
{
    if j > 0 {
        lemma_near_row_update(m0, m1, r, c, dr, (j - 1) as nat, r0, c0);
        let dc = j - 3;
        if (r + dr, c + dc) != (r0, c0) {
            assert(m0.code(r + dr, c + dc) == m1.code(r + dr, c + dc));
        }
    }
}

proof fn lemma_near_rows_update(m0: GridModel, m1: GridModel, r: int, c: int, i: nat, r0: int, c0: int)
    requires
        m0.w == m1.w,
        m0.h == m1.h,
        forall|x: int, y: int| (x, y) != (r0, c0) ==> #[trigger] m0.code(x, y) == m1.code(x, y),
    ensures
        near_rows(m1, r, c, i) == near_rows(m0, r, c, i) + (if -2 <= r0 - r < i - 2 && -2 <= c0 - c
            <= 2 && (r0 != r || c0 != c) {
            stone(m1, r0, c0) - stone(m0, r0, c0)
        } else {
            0
        }),
        0 <= near_rows(m0, r, c, i) <= 5 * i,
    decreases i,
{
    if i > 0 {
        lemma_near_rows_update(m0, m1, r, c, (i - 1) as nat, r0, c0);
        lemma_near_row_update(m0, m1, r, c, i - 3, 5, r0, c0);
    }
}

/// Setting one point changes the near counts exactly around it.
pub proof fn lemma_near_update(m0: GridModel, m1: GridModel, r: int, c: int, r0: int, c0: int)
    requires
        m0.w == m1.w,
        m0.h == m1.h,
        forall|x: int, y: int| (x, y) != (r0, c0) ==> #[trigger] m0.code(x, y) == m1.code(x, y),
    ensures
        near_stones(m1, r, c) == near_stones(m0, r, c) + (if in_box(r0, c0, r, c) {
            stone(m1, r0, c0) - stone(m0, r0, c0)
        } else {
            0
        }),
        0 <= near_stones(m0, r, c) <= 25,
        0 <= near_stones(m1, r, c) <= 25,
{
    lemma_near_rows_update(m0, m1, r, c, 5, r0, c0);
    lemma_near_rows_update(m1, m0, r, c, 5, r0, c0);
}

/// The empty board has no stone near any point.
proof fn lemma_near_empty(m: GridModel, r: int, c: int)
    requires
        forall|x: int, y: int| #[trigger] m.has(x, y) ==> m.code(x, y) == EMPTY,
    ensures
        near_stones(m, r, c) == 0,
{
    assert forall|dr: int, j: nat| #[trigger] near_row(m, r, c, dr, j) == 0 by {
        lemma_near_row_empty(m, r, c, dr, j);
    }
    assert(near_rows(m, r, c, 0) == 0);
    assert(near_rows(m, r, c, 1) == 0);
    assert(near_rows(m, r, c, 2) == 0);
    assert(near_rows(m, r, c, 3) == 0);
    assert(near_rows(m, r, c, 4) == 0);
}

proof fn lemma_near_row_empty(m: GridModel, r: int, c: int, dr: int, j: nat)
    requires
        forall|x: int, y: int| #[trigger] m.has(x, y) ==> m.code(x, y) == EMPTY,
    ensures
        near_row(m, r, c, dr, j) == 0,
    decreases j,
{
    if j > 0 {
        lemma_near_row_empty(m, r, c, dr, (j - 1) as nat);
        let dc = j - 3;
        assert(m.has(r + dr, c + dc) ==> m.code(r + dr, c + dc) == EMPTY);
    }
}

/// The color index of a color (black 0, white 1).
fn color_index(color: Color) -> (i: usize)
    ensures
        i < 2,
        ci_code(i as int) == color_code(color),
{
    match color {
        Color::Black => 0,
        Color::White => 1,
    }
}

impl Bits {
    /// The index of line `l` of direction `d`, color index `ci`.
    fn lidx(&self, ci: usize, d: usize, l: usize) -> (i: usize)
        requires
            self.dims(),
            ci < 2,
            d < 4,
            l < line_count(d as int, self.width as int, self.height as int),
        ensures
            i == line_index(ci as int, d as int, l as int, self.width as int, self.height as int),
            i < self.lines@.len(),
    {
        let w = self.width as usize;
        let h = self.height as usize;
        let per = 3 * h + 3 * w - 2;
        let base = if d == 0 {
            0
        } else if d == 1 {
            h
        } else if d == 2 {
            h + w
        } else {
            2 * h + 2 * w - 1
        };
        proof {
            assert(ci * per <= per) by (nonlinear_arith)
                requires
                    ci < 2,
                    ci == 0 ==> ci * per == 0,
                    ci == 1 ==> ci * per == per,
            ;
        }
        ci * per + base + l
    }

    /// The line and the place along it of the on-board point `(r, c)` in direction `d`.
    fn map(&self, d: usize, r: i32, c: i32) -> (lk: (usize, i32))
        requires
            self.dims(),
            d < 4,
            self.view().has(r as int, c as int),
        ensures
            lk.0 == line_of(d as int, r as int, c as int, self.width as int),
            lk.1 == place_on(d as int, r as int, c as int, self.width as int),
            lk.0 < line_count(d as int, self.width as int, self.height as int),
            0 <= lk.1 < line_len(d as int, lk.0 as int, self.width as int, self.height as int),
            lk.1 < 32,
    {
        proof {
            lemma_point_on_line(d as int, r as int, c as int, self.width as int, self.height as int);
            lemma_line_len_bound(
                d as int,
                line_of(d as int, r as int, c as int, self.width as int),
                self.width as int,
                self.height as int,
            );
        }
        let w = self.width;
        if d == 0 {
            (r as usize, c)
        } else if d == 1 {
            (c as usize, r)
        } else if d == 2 {
            ((r - c + (w - 1)) as usize, if r <= c {
                r
            } else {
                c
            })
        } else {
            let s = r + c;
            let r_lo = if s - (w - 1) > 0 {
                s - (w - 1)
            } else {
                0
            };
            (s as usize, r - r_lo)
        }
    }

    /// The number of points of line `l` in direction `d`.
    fn line_len(&self, d: usize, l: usize) -> (n: i32)
        requires
            self.dims(),
            d < 4,
            l < line_count(d as int, self.width as int, self.height as int),
        ensures
            n == line_len(d as int, l as int, self.width as int, self.height as int),
            1 <= n <= 32,
    {
        proof {
            lemma_line_len_bound(d as int, l as int, self.width as int, self.height as int);
        }
        let w = self.width;
        let h = self.height;
        let li = l as i32;
        if d == 0 {
            w
        } else if d == 1 {
            h
        } else if d == 2 {
            let off = li - (w - 1);
            let a = h - (if off > 0 {
                off
            } else {
                0
            });
            let b = w - (if -off > 0 {
                -off
            } else {
                0
            });
            if a <= b {
                a
            } else {
                b
            }
        } else {
            let hi = if h - 1 <= li {
                h - 1
            } else {
                li
            };
            let lo = if li - (w - 1) > 0 {
                li - (w - 1)
            } else {
                0
            };
            hi - lo + 1
        }
    }

    /// The row-major index of the on-board point `(r, c)`.
    fn cell(&self, r: i32, c: i32) -> (i: usize)
        requires
            self.dims(),
            self.view().has(r as int, c as int),
        ensures
            i == cell_index(self.width as int, r as int, c as int),
            i < self.view().cells.len(),
    {
        proof {
            lemma_cell_index_bounds(self.width as int, self.height as int, r as int, c as int);
            assert(r * self.width <= 32 * 32) by (nonlinear_arith)
                requires
                    0 <= r < 32,
                    0 <= self.width <= 32,
            ;
        }
        (r * self.width + c) as usize
    }

    /// The Zobrist hash of the position.
    pub fn hash(&self) -> (h: u64)
        ensures
            h == self.hash_value(),
    {
        self.hash
    }

    /// The color of the stone on the on-board point `(r, c)`, if any.
    pub fn stone_at(&self, r: i32, c: i32) -> (s: Option<Color>)
        requires
            self.wf(),
            self.view().has(r as int, c as int),
        ensures
            s matches Some(col) ==> self.view().code(r as int, c as int) == color_code(col),
            s is None ==> self.view().code(r as int, c as int) == EMPTY,
    {
        let (l, k) = self.map(0, r, c);
        let ib = self.lidx(0, 0, l);
        let iw = self.lidx(1, 0, l);
        proof {
            let w = self.width as int;
            let h = self.height as int;
            assert(line_mask(self.lines@[line_index(0, 0, l as int, w, h)], self.model@, 0, l as int, BLACK));
            assert(line_mask(self.lines@[line_index(1, 0, l as int, w, h)], self.model@, 0, l as int, WHITE));
            assert(bit(self.lines@[ib as int], k as int) == (line_code(self.model@, 0, l as int, k as int) == BLACK));
            assert(bit(self.lines@[iw as int], k as int) == (line_code(self.model@, 0, l as int, k as int) == WHITE));
            let i = cell_index(w, r as int, c as int);
            lemma_cell_index_bounds(w, h, r as int, c as int);
            assert(self.model@.cells[i] <= 2);
        }
        let bitk = 1u32 << (k as u32);
        if self.lines[ib] & bitk != 0 {
            Some(Color::Black)
        } else if self.lines[iw] & bitk != 0 {
            Some(Color::White)
        } else {
            None
        }
    }

    /// The static score of `color`, kept up to date.
    pub fn position_score(&self, color: Color) -> (v: i64)
        requires
            self.wf(),
        ensures
            v == static_score(self.view(), color_code(color)),
    {
        match color {
            Color::Black => self.score_black,
            Color::White => self.score_white,
        }
    }

    /// Whether the on-board point `pos` has a stone within distance two.
    pub fn is_relevant(&self, pos: Position) -> (b: bool)
        requires
            self.wf(),
            self.view().has(pos.row as int, pos.col as int),
        ensures
            b == (near_stones(self.view(), pos.row as int, pos.col as int) > 0),
    {
        let i = self.cell(pos.row as i32, pos.col as i32);
        self.near_count[i] > 0
    }
}

/// Lines of different colors, directions or numbers have different indices.
pub proof fn lemma_line_index(ci: int, d: int, l: int, ci2: int, d2: int, l2: int, w: int, h: int)
    requires
        1 <= w,
        1 <= h,
        0 <= ci < 2,
        0 <= ci2 < 2,
        0 <= d < 4,
        0 <= d2 < 4,
        0 <= l < line_count(d, w, h),
        0 <= l2 < line_count(d2, w, h),
    ensures
        0 <= line_index(ci, d, l, w, h) < 2 * per_color(w, h),
        line_index(ci, d, l, w, h) == line_index(ci2, d2, l2, w, h) ==> ci == ci2 && d == d2 && l == l2,
{
    let p = per_color(w, h);
    assert(dir_base(d, w, h) + l < p);
    assert(dir_base(d2, w, h) + l2 < p);
    if ci == 0 {
        assert(ci * p == 0);
    } else {
        assert(ci * p == p);
    }
    if ci2 == 0 {
        assert(ci2 * p == 0);
    } else {
        assert(ci2 * p == p);
    }
}

/// A line that does not pass through `(r, c)` reads the same on two models
/// that differ only there.
pub proof fn lemma_mask_transfer(x: u32, m0: GridModel, m1: GridModel, d: int, l: int, col: u8, r: int, c: int)
    requires
        0 <= d < 4,
        m0.w == m1.w,
        m0.h == m1.h,
        l != line_of(d, r, c, m0.w),
        forall|x: int, y: int| (x, y) != (r, c) ==> #[trigger] m0.code(x, y) == m1.code(x, y),
        line_mask(x, m0, d, l, col),
    ensures
        line_mask(x, m1, d, l, col),
{
    assert forall|k: int| 0 <= k < 32 implies #[trigger] bit(x, k) == (line_code(m1, d, l, k) == col) by {
        lemma_line_place_inverse(d, l, k, m0.w);
        assert(bit(x, k) == (line_code(m0, d, l, k) == col));
    }
}

/// The score with the directions below `dir` counted on `m1`, the rest on `m0`.
pub open spec fn mixed_score(m0: GridModel, m1: GridModel, dir: int, color: u8) -> int {
    (if 0 < dir {
        dir_total(m1, 0, color)
    } else {
        dir_total(m0, 0, color)
    }) + (if 1 < dir {
        dir_total(m1, 1, color)
    } else {
        dir_total(m0, 1, color)
    }) + (if 2 < dir {
        dir_total(m1, 2, color)
    } else {
        dir_total(m0, 2, color)
    }) + (if 3 < dir {
        dir_total(m1, 3, color)
    } else {
        dir_total(m0, 3, color)
    })
}

/// The near counts of points with the box offsets before `(dr, dc)` updated.
pub open spec fn near_done(x: int, y: int, r0: int, c0: int, dr: int, dc: int) -> bool {
    in_box(x, y, r0, c0) && (x - r0 < dr || (x - r0 == dr && y - c0 < dc))
}

/// The masks of direction `d` read on `m1` below `dir` and on `m0` from it.
pub open spec fn masks_at(lines: Seq<u32>, m0: GridModel, m1: GridModel, dir: int, w: int, h: int) -> bool {
    forall|cj: int, d: int, l: int|
        0 <= cj < 2 && 0 <= d < 4 && 0 <= l < line_count(d, w, h) ==> line_mask(
            #[trigger] lines[line_index(cj, d, l, w, h)],
            if d < dir {
                m1
            } else {
                m0
            },
            d,
            l,
            ci_code(cj),
        )
}

/// `m1` is `m0` with `(r, c)` switched between empty and `col`.
pub open spec fn one_switch(m0: GridModel, m1: GridModel, r: int, c: int, col: u8, v: u8) -> bool {
    &&& m1 == m0.place(r, c, v)
    &&& m0.has(r, c)
    &&& m0.w >= 1
    &&& m0.cells.len() == m0.w * m0.h
    &&& forall|x: int, y: int| #[trigger] m1.code(x, y) == (if x == r && y == c {
        v
    } else {
        m0.code(x, y)
    })
    &&& m0.code(r, c) == EMPTY || m0.code(r, c) == col
    &&& v == (if m0.code(r, c) == EMPTY {
        col
    } else {
        EMPTY
    })
    &&& col == BLACK || col == WHITE
}

/// One more direction read on `m1`: the score moves by the change of the
/// line through `(r, c)`, and stays bounded.
proof fn lemma_mixed_step(m0: GridModel, m1: GridModel, dir: int, color: u8, r: int, c: int)
    requires
        0 <= dir < 4,
        m0.w == m1.w,
        m0.h == m1.h,
        1 <= m0.w <= 32,
        1 <= m0.h <= 32,
        m0.has(r, c),
        forall|x: int, y: int| (x, y) != (r, c) ==> #[trigger] m0.code(x, y) == m1.code(x, y),
    ensures
        mixed_score(m0, m1, dir + 1, color) == mixed_score(m0, m1, dir, color) + line_value(
            m1,
            dir,
            line_of(dir, r, c, m0.w),
            color,
        ) - line_value(m0, dir, line_of(dir, r, c, m0.w), color),
        0 <= mixed_score(m0, m1, dir, color) <= 800_000_000,
        0 <= mixed_score(m0, m1, dir + 1, color) <= 800_000_000,
{
    lemma_point_on_line(dir, r, c, m0.w, m0.h);
    let nl = line_count(dir, m0.w, m0.h) as nat;
    lemma_dir_value_update(m0, m1, dir, color, r, c, nl);
    assert forall|d: int| 0 <= d < 4 implies 0 <= #[trigger] dir_total(m0, d, color) <= 176_400_000
        && 0 <= dir_total(m1, d, color) <= 176_400_000 by {
        lemma_dir_value_bounds(m0, d, color, line_count(d, m0.w, m0.h) as nat);
        lemma_dir_value_bounds(m1, d, color, line_count(d, m1.w, m1.h) as nat);
    }
    assert(0 <= dir_total(m0, 0, color) <= 176_400_000);
    assert(0 <= dir_total(m0, 1, color) <= 176_400_000);
    assert(0 <= dir_total(m0, 2, color) <= 176_400_000);
    assert(0 <= dir_total(m0, 3, color) <= 176_400_000);
    assert(0 <= dir_total(m1, 0, color) <= 176_400_000);
    assert(0 <= dir_total(m1, 1, color) <= 176_400_000);
    assert(0 <= dir_total(m1, 2, color) <= 176_400_000);
    assert(0 <= dir_total(m1, 3, color) <= 176_400_000);
}

/// After flipping the point's bit of color `ci` on line `l` of direction
/// `dir`, the masks of that direction read on `m1`.
proof fn lemma_masks_step(
    lines1: Seq<u32>,
    lines2: Seq<u32>,
    m0: GridModel,
    m1: GridModel,
    dir: int,
    ci: int,
    l: int,
    r: int,
    c: int,
    w: int,
    h: int,
)
    requires
        1 <= w <= 32,
        1 <= h <= 32,
        0 <= dir < 4,
        0 <= ci < 2,
        m0.w == w,
        m0.h == h,
        m1.w == w,
        m1.h == h,
        l == line_of(dir, r, c, w),
        0 <= l < line_count(dir, w, h),
        forall|x: int, y: int| (x, y) != (r, c) ==> #[trigger] m0.code(x, y) == m1.code(x, y),
        masks_at(lines1, m0, m1, dir, w, h),
        lines1.len() == 2 * per_color(w, h),
        lines2.len() == lines1.len(),
        forall|i: int| 0 <= i < lines1.len() && i != line_index(ci, dir, l, w, h) ==> #[trigger] lines2[i] == lines1[i],
        line_mask(lines2[line_index(ci, dir, l, w, h)], m1, dir, l, ci_code(ci)),
        line_mask(lines1[line_index(1 - ci, dir, l, w, h)], m1, dir, l, ci_code(1 - ci)),
    ensures
        masks_at(lines2, m0, m1, dir + 1, w, h),
{
    assert forall|cj: int, d: int, l2: int|
        0 <= cj < 2 && 0 <= d < 4 && 0 <= l2 < line_count(d, w, h) implies line_mask(
            #[trigger] lines2[line_index(cj, d, l2, w, h)],
            if d < dir + 1 {
                m1
            } else {
                m0
            },
            d,
            l2,
            ci_code(cj),
        ) by {
        lemma_line_index(cj, d, l2, ci, dir, l, w, h);
        if d == dir && l2 == l {
            if cj != ci {
                lemma_line_index(cj, d, l2, 1 - ci, dir, l, w, h);
                assert(cj == 1 - ci);
            }
        } else {
            assert(lines2[line_index(cj, d, l2, w, h)] == lines1[line_index(cj, d, l2, w, h)]);
            if d == dir {
                lemma_mask_transfer(lines1[line_index(cj, d, l2, w, h)], m0, m1, d, l2, ci_code(cj), r, c);
            }
        }
    }
}

impl Bits {
    /// One direction of a toggle: flips the point's bit on its line of that
    /// direction and moves both scores by the change of that line's value.
    #[verifier::rlimit(60)]
    fn flip_dir(
        &mut self,
        dir: usize,
        ci: usize,
        r: i32,
        c: i32,
        Ghost(m0): Ghost<GridModel>,
        Ghost(m1): Ghost<GridModel>,
        Ghost(v): Ghost<u8>,
    )
        requires
            old(self).dims(),
            old(self).model@ == m1,
            dir < 4,
            ci < 2,
            one_switch(m0, m1, r as int, c as int, ci_code(ci as int), v),
            m0.w == old(self).width,
            m0.h == old(self).height,
            masks_at(old(self).lines@, m0, m1, dir as int, old(self).width as int, old(self).height as int),
            old(self).score_black == mixed_score(m0, m1, dir as int, BLACK),
            old(self).score_white == mixed_score(m0, m1, dir as int, WHITE),
        ensures
            final(self).dims(),
            final(self).model == old(self).model,
            final(self).width == old(self).width,
            final(self).height == old(self).height,
            final(self).keys == old(self).keys,
            final(self).hash == old(self).hash,
            final(self).near_count == old(self).near_count,
            masks_at(final(self).lines@, m0, m1, dir + 1, old(self).width as int, old(self).height as int),
            final(self).score_black == mixed_score(m0, m1, dir + 1, BLACK),
            final(self).score_white == mixed_score(m0, m1, dir + 1, WHITE),
    {
        let ghost w = self.width as int;
        let ghost h = self.height as int;
        let ghost col = ci_code(ci as int);
        let ghost oth = other_code(col);
        let oi: usize = 1 - ci;
        proof {
            assert(ci_code(oi as int) == oth);
        }
        let (l, k) = self.map(dir, r, c);
        let len = self.line_len(dir, l);
        let im = self.lidx(ci, dir, l);
        let io = self.lidx(oi, dir, l);
        proof {
            lemma_line_index(ci as int, dir as int, l as int, oi as int, dir as int, l as int, w, h);
            assert(line_mask(self.lines@[line_index(ci as int, dir as int, l as int, w, h)], m0, dir as int, l as int, col));
            assert(line_mask(self.lines@[line_index(oi as int, dir as int, l as int, w, h)], m0, dir as int, l as int, oth));
        }
        let mine = self.lines[im];
        let opp = self.lines[io];
        let old_mine = line_score(mine, opp, len, Ghost(m0), Ghost(dir as int), Ghost(l as int), Ghost(col));
        let old_opp = line_score(opp, mine, len, Ghost(m0), Ghost(dir as int), Ghost(l as int), Ghost(oth));
        let flipped = mine ^ (1u32 << (k as u32));
        let ghost lines1 = self.lines@;
        self.lines.set(im, flipped);
        proof {
            lemma_point_on_line(dir as int, r as int, c as int, w, h);
            assert forall|j: int| 0 <= j < 32 implies #[trigger] bit(flipped, j) == (line_code(m1, dir as int, l as int, j) == col) by {
                lemma_flip(mine, k as u32, j as u32);
                lemma_line_place_inverse(dir as int, l as int, j, w);
                assert(bit(mine, j) == (line_code(m0, dir as int, l as int, j) == col));
            }
            assert forall|j: int| 0 <= j < 32 implies #[trigger] bit(opp, j) == (line_code(m1, dir as int, l as int, j) == oth) by {
                lemma_line_place_inverse(dir as int, l as int, j, w);
                assert(bit(opp, j) == (line_code(m0, dir as int, l as int, j) == oth));
            }
        }
        let new_mine = line_score(flipped, opp, len, Ghost(m1), Ghost(dir as int), Ghost(l as int), Ghost(col));
        let new_opp = line_score(opp, flipped, len, Ghost(m1), Ghost(dir as int), Ghost(l as int), Ghost(oth));
        proof {
            lemma_mixed_step(m0, m1, dir as int, col, r as int, c as int);
            lemma_mixed_step(m0, m1, dir as int, oth, r as int, c as int);
            lemma_masks_step(lines1, self.lines@, m0, m1, dir as int, ci as int, l as int, r as int, c as int, w, h);
        }
        if ci == 0 {
            self.score_black = self.score_black + (new_mine - old_mine);
            self.score_white = self.score_white + (new_opp - old_opp);
        } else {
            self.score_white = self.score_white + (new_mine - old_mine);
            self.score_black = self.score_black + (new_opp - old_opp);
        }
    }

    /// The near counts of a toggle: each point within two of `(r, c)` gains
    /// (placing) or loses (removing) one.
    #[verifier::rlimit(40)]
    fn update_near(&mut self, r: i32, c: i32, placing: bool, Ghost(m0): Ghost<GridModel>, Ghost(m1): Ghost<GridModel>)
        requires
            old(self).dims(),
            old(self).model@ == m1,
            m0.w == old(self).width,
            m0.h == old(self).height,
            m1.w == m0.w,
            m1.h == m0.h,
            m0.has(r as int, c as int),
            forall|x: int, y: int| (x, y) != (r as int, c as int) ==> #[trigger] m0.code(x, y) == m1.code(x, y),
            placing == (m0.code(r as int, c as int) == EMPTY),
            m1.code(r as int, c as int) != EMPTY <==> placing,
            old(self).near_count@.len() == m0.w * m0.h,
            forall|x: int, y: int|
                m0.has(x, y) ==> #[trigger] old(self).near_count@[cell_index(m0.w, x, y)] == near_stones(m0, x, y),
        ensures
            final(self).dims(),
            final(self).model == old(self).model,
            final(self).width == old(self).width,
            final(self).height == old(self).height,
            final(self).keys == old(self).keys,
            final(self).hash == old(self).hash,
            final(self).lines == old(self).lines,
            final(self).score_black == old(self).score_black,
            final(self).score_white == old(self).score_white,
            final(self).near_count@.len() == m0.w * m0.h,
            forall|x: int, y: int|
                m1.has(x, y) ==> #[trigger] final(self).near_count@[cell_index(m0.w, x, y)] == near_stones(m1, x, y),
    {
        let ghost w = self.width as int;
        let ghost h = self.height as int;
        let mut dr: i32 = -2;
        while dr <= 2
            invariant
                self.dims(),
                self.model == old(self).model,
                self.width == old(self).width,
                self.height == old(self).height,
                self.keys == old(self).keys,
                self.hash == old(self).hash,
                self.lines == old(self).lines,
                self.score_black == old(self).score_black,
                self.score_white == old(self).score_white,
                self.width as int == w,
                self.height as int == h,
                -2 <= dr <= 3,
                m0.w == w,
                m0.h == h,
                m1.w == w,
                m1.h == h,
                m0.has(r as int, c as int),
                forall|x: int, y: int| (x, y) != (r as int, c as int) ==> #[trigger] m0.code(x, y) == m1.code(x, y),
                placing == (m0.code(r as int, c as int) == EMPTY),
                m1.code(r as int, c as int) != EMPTY <==> placing,
                self.near_count@.len() == w * h,
                forall|x: int, y: int|
                    m0.has(x, y) ==> #[trigger] self.near_count@[cell_index(w, x, y)] == near_stones(m0, x, y)
                        + (if near_done(x, y, r as int, c as int, dr as int, -2) {
                        if placing {
                            1int
                        } else {
                            -1int
                        }
                    } else {
                        0int
                    }),
            decreases 3 - dr,
        {
            let mut dc: i32 = -2;
            while dc <= 2
                invariant
                    self.dims(),
                    self.model == old(self).model,
                    self.width == old(self).width,
                    self.height == old(self).height,
                    self.keys == old(self).keys,
                    self.hash == old(self).hash,
                    self.lines == old(self).lines,
                    self.score_black == old(self).score_black,
                    self.score_white == old(self).score_white,
                    self.width as int == w,
                    self.height as int == h,
                    -2 <= dr <= 2,
                    -2 <= dc <= 3,
                    m0.w == w,
                    m0.h == h,
                    m1.w == w,
                    m1.h == h,
                    m0.has(r as int, c as int),
                    forall|x: int, y: int| (x, y) != (r as int, c as int) ==> #[trigger] m0.code(x, y) == m1.code(x, y),
                    placing == (m0.code(r as int, c as int) == EMPTY),
                    m1.code(r as int, c as int) != EMPTY <==> placing,
                    self.near_count@.len() == w * h,
                    forall|x: int, y: int|
                        m0.has(x, y) ==> #[trigger] self.near_count@[cell_index(w, x, y)] == near_stones(m0, x, y)
                            + (if near_done(x, y, r as int, c as int, dr as int, dc as int) {
                            if placing {
                                1int
                            } else {
                                -1int
                            }
                        } else {
                            0int
                        }),
                decreases 3 - dc,
            {
                let rr = r + dr;
                let cc = c + dc;
                if !(dr == 0 && dc == 0) && !(rr < 0 || cc < 0 || rr >= self.height || cc >= self.width) {
                    let i = self.cell(rr, cc);
                    proof {
                        lemma_near_update(m0, m1, rr as int, cc as int, r as int, c as int);
                        assert(self.near_count@[cell_index(w, rr as int, cc as int)] == near_stones(m0, rr as int, cc as int));
                        assert(stone(m0, r as int, c as int) == (if placing { 0int } else { 1int }));
                        assert(stone(m1, r as int, c as int) == (if placing { 1int } else { 0int }));
                        assert(in_box(r as int, c as int, rr as int, cc as int));
                    }
                    let cur = self.near_count[i];
                    let nv: u16 = if placing {
                        cur + 1
                    } else {
                        cur - 1
                    };
                    let ghost n0 = self.near_count@;
                    self.near_count.set(i, nv);
                    proof {
                        assert forall|x: int, y: int|
                            m0.has(x, y) implies #[trigger] self.near_count@[cell_index(w, x, y)] == near_stones(m0, x, y)
                                + (if near_done(x, y, r as int, c as int, dr as int, dc + 1) {
                                if placing {
                                    1int
                                } else {
                                    -1int
                                }
                            } else {
                                0int
                            }) by {
                            lemma_cell_index_bounds(w, h, x, y);
                            if cell_index(w, x, y) == i as int {
                                lemma_cell_index_injective(w, x, y, rr as int, cc as int);
                            } else {
                                assert(n0[cell_index(w, x, y)] == self.near_count@[cell_index(w, x, y)]);
                            }
                        }
                    }
                }
                dc = dc + 1;
            }
            dr = dr + 1;
        }
        proof {
            assert forall|x: int, y: int|
                m1.has(x, y) implies #[trigger] self.near_count@[cell_index(w, x, y)] == near_stones(m1, x, y) by {
                lemma_near_update(m0, m1, x, y, r as int, c as int);
                assert(stone(m0, r as int, c as int) == (if placing { 0int } else { 1int }));
                assert(stone(m1, r as int, c as int) == (if placing { 1int } else { 0int }));
                if in_box(r as int, c as int, x, y) {
                    assert(near_done(x, y, r as int, c as int, 3, -2));
                }
            }
        }
    }

    /// Places a `color` stone on the empty point `(r, c)`, or removes the
    /// `color` stone there: one bit flips on each of the four lines through
    /// the point, and the hash, both scores and the near counts follow.
    pub fn toggle(&mut self, color: Color, r: i32, c: i32)
        requires
            old(self).wf(),
            old(self).view().has(r as int, c as int),
            old(self).view().code(r as int, c as int) == EMPTY || old(self).view().code(r as int, c as int)
                == color_code(color),
        ensures
            final(self).wf(),
            final(self).view() == old(self).view().place(
                r as int,
                c as int,
                if old(self).view().code(r as int, c as int) == EMPTY {
                    color_code(color)
                } else {
                    EMPTY
                },
            ),
            final(self).zkeys() == old(self).zkeys(),
    {
        let placing = self.stone_at(r, c).is_none();
        let ci = color_index(color);
        let ghost col = color_code(color);
        let ghost m0 = self.model@;
        let ghost v: u8 = if placing {
            col
        } else {
            EMPTY
        };
        let ghost m1 = m0.place(r as int, c as int, v);
        let ghost w = self.width as int;
        let ghost h = self.height as int;
        proof {
            lemma_place_code(m0, r as int, c as int, v);
            assert(masks_at(self.lines@, m0, m1, 0, w, h));
        }
        self.model = Ghost(m1);
        let mut dir: usize = 0;
        while dir < 4
            invariant
                self.dims(),
                self.model@ == m1,
                self.width as int == w,
                self.height as int == h,
                m0.w == w,
                m0.h == h,
                one_switch(m0, m1, r as int, c as int, ci_code(ci as int), v),
                ci < 2,
                dir <= 4,
                masks_at(self.lines@, m0, m1, dir as int, w, h),
                self.score_black == mixed_score(m0, m1, dir as int, BLACK),
                self.score_white == mixed_score(m0, m1, dir as int, WHITE),
                self.keys == old(self).keys,
                self.hash == old(self).hash,
                self.near_count == old(self).near_count,
            decreases 4 - dir,
        {
            self.flip_dir(dir, ci, r, c, Ghost(m0), Ghost(m1), Ghost(v));
            dir = dir + 1;
        }
        proof {
            lemma_key_seq_len((2 * w * h) as nat);
            assert(2 * w * h == 2 * (w * h)) by (nonlinear_arith);
            assert(w * h <= 1024) by (nonlinear_arith)
                requires
                    1 <= w <= 32,
                    1 <= h <= 32,
            ;
        }
        let cell = self.cell(r, c);
        let key = self.keys[2 * cell + ci];
        self.hash = self.hash ^ key;
        proof {
            lemma_zobrist_update(self.keys@, m0.cells, cell as int, v, m0.cells.len());
            let z = zobrist(self.keys@, m0.cells, m0.cells.len());
            lemma_xor_swap(z, key, 0);
            lemma_xor_swap(z ^ key, 0, 0);
            lemma_xor_swap(z, 0, key);
            assert(m1.cells == m0.cells.update(cell as int, v));
        }
        self.update_near(r, c, placing, Ghost(m0), Ghost(m1));
        proof {
            assert forall|i: int| 0 <= i < m1.cells.len() implies #[trigger] m1.cells[i] <= 2 by {
                assert(m1.cells == m0.cells.update(cell_index(w, r as int, c as int), v));
            }
        }
    }
}

/// What lies at `(x, y)` past a `col` run.
pub open spec fn end_kind(m: GridModel, x: int, y: int, col: u8) -> End {
    if !m.has(x, y) {
        End::Edge
    } else if m.code(x, y) == other_code(col) {
        End::Opp
    } else {
        End::Empty
    }
}

/// The `col` stones right after `(r, c)` in direction `d`, walking `s`
/// (forward 1, backward -1).
pub open spec fn run_side(m: GridModel, r: int, c: int, d: int, s: int, col: u8) -> nat {
    m.count(r, c, sdir(s, dir_r(d)), sdir(s, dir_c(d)), col, m.fuel())
}

/// What lies past the `col` run through `(r, c)` in direction `d`, on side `s`.
pub open spec fn run_end(m: GridModel, r: int, c: int, d: int, s: int, col: u8) -> End {
    let n = run_side(m, r, c, d, s, col) as int;
    end_kind(m, step(r, sdir(s, dir_r(d)), n + 1), step(c, sdir(s, dir_c(d)), n + 1), col)
}

/// Whether a run of `run` with ends `low` and `high` wins under `rule`:
/// five or more (freestyle), exactly five (standard), exactly five not
/// blocked by the opponent at both ends (caro; the edge does not block).
pub open spec fn rule_hit(run: int, low: End, high: End, rule: WinRule) -> bool {
    match rule {
        WinRule::Overline => run >= 5,
        WinRule::ExactFive => run == 5,
        WinRule::Caro => run == 5 && !(low == End::Opp && high == End::Opp),
    }
}

/// Whether a `col` stone at `(r, c)` wins in direction `d` under `rule`.
pub open spec fn dir_hit(m: GridModel, r: int, c: int, d: int, col: u8, rule: WinRule) -> bool {
    rule_hit(m.run(r, c, d, col), run_end(m, r, c, d, -1, col), run_end(m, r, c, d, 1, col), rule)
}

/// Whether a `col` stone at `(r, c)` wins under `rule`.
pub open spec fn wins_under(m: GridModel, r: int, c: int, col: u8, rule: WinRule) -> bool {
    ||| dir_hit(m, r, c, 0, col, rule)
    ||| dir_hit(m, r, c, 1, col, rule)
    ||| dir_hit(m, r, c, 2, col, rule)
    ||| dir_hit(m, r, c, 3, col, rule)
}

/// The shape value of a run of `run` stones with `opens` open ends.
pub open spec fn category(run: int, opens: int) -> int {
    if run >= 5 {
        100_000
    } else if run == 4 && opens == 2 {
        15_000
    } else if run == 4 && opens == 1 {
        6_000
    } else if run == 3 && opens == 2 {
        3_000
    } else if run == 3 && opens == 1 {
        500
    } else if run == 2 && opens == 2 {
        200
    } else if run == 2 && opens == 1 {
        50
    } else {
        0
    }
}

/// The shape value in direction `d` of a `col` stone at `(r, c)`.
pub open spec fn shape(m: GridModel, r: int, c: int, d: int, col: u8) -> int {
    category(
        m.run(r, c, d, col),
        (if run_end(m, r, c, d, -1, col) == End::Empty {
            1int
        } else {
            0int
        }) + (if run_end(m, r, c, d, 1, col) == End::Empty {
            1int
        } else {
            0int
        }),
    )
}

/// The ordering score of the empty point `(r, c)` for `side`: the shapes a
/// stone there makes for `side` plus those it would make for the opponent.
pub open spec fn candidate_spec(m: GridModel, r: int, c: int, side: u8) -> int {
    shape(m, r, c, 0, side) + shape(m, r, c, 0, other_code(side)) + shape(m, r, c, 1, side) + shape(
        m,
        r,
        c,
        1,
        other_code(side),
    ) + shape(m, r, c, 2, side) + shape(m, r, c, 2, other_code(side)) + shape(m, r, c, 3, side)
        + shape(m, r, c, 3, other_code(side))
}

proof fn lemma_no_stones_row(m: GridModel, r: int, c: int, dr: int, j: nat)
    requires
        forall|x: int, y: int| m.has(x, y) ==> m.code(x, y) == EMPTY,
    ensures
        near_row(m, r, c, dr, j) == 0,
    decreases j,
{
    if j > 0 {
        lemma_no_stones_row(m, r, c, dr, (j - 1) as nat);
    }
}

proof fn lemma_no_stones_rows(m: GridModel, r: int, c: int, i: nat)
    requires
        forall|x: int, y: int| m.has(x, y) ==> m.code(x, y) == EMPTY,
    ensures
        near_rows(m, r, c, i) == 0,
    decreases i,
{
    if i > 0 {
        lemma_no_stones_rows(m, r, c, (i - 1) as nat);
        lemma_no_stones_row(m, r, c, i - 3, 5);
    }
}

/// On a board without stones no point is near one.
pub proof fn lemma_no_stones_near(m: GridModel, r: int, c: int)
    requires
        forall|x: int, y: int| m.has(x, y) ==> m.code(x, y) == EMPTY,
    ensures
        near_stones(m, r, c) == 0,
{
    lemma_no_stones_rows(m, r, c, 5);
}

/// Two stones set on different points in either order give one position,
/// so one score for either colour and one Zobrist hash: what
/// [`Bits::toggle`] leaves depends on the points toggled, not their order.
pub proof fn lemma_toggle_order(m: GridModel, keys: Seq<u64>, r1: int, c1: int, v1: u8, r2: int, c2: int, v2: u8)
    requires
        m.w >= 0,
        m.cells.len() == m.w * m.h,
        m.has(r1, c1),
        m.has(r2, c2),
        r1 != r2 || c1 != c2,
    ensures
        m.place(r1, c1, v1).place(r2, c2, v2) == m.place(r2, c2, v2).place(r1, c1, v1),
        forall|col: u8|
            static_score(m.place(r1, c1, v1).place(r2, c2, v2), col) == #[trigger] static_score(
                m.place(r2, c2, v2).place(r1, c1, v1),
                col,
            ),
        zobrist(keys, m.place(r1, c1, v1).place(r2, c2, v2).cells, m.cells.len()) == zobrist(
            keys,
            m.place(r2, c2, v2).place(r1, c1, v1).cells,
            m.cells.len(),
        ),
{
    lemma_cell_index_bounds(m.w, m.h, r1, c1);
    lemma_cell_index_bounds(m.w, m.h, r2, c2);
    let i1 = cell_index(m.w, r1, c1);
    let i2 = cell_index(m.w, r2, c2);
    if i1 == i2 {
        lemma_cell_index_injective(m.w, r1, c1, r2, c2);
    }
    assert(m.cells.update(i1, v1).update(i2, v2) =~= m.cells.update(i2, v2).update(i1, v1));
}

/// The bit board's five test is the rules' own: a bit board that mirrors
/// a board has that board's model, so [`Bits::would_win`] and
/// [`crate::rules::is_win_for`] answer alike on every point.
pub proof fn lemma_five_test_agrees(bits: &Bits, board: Board)
    requires
        bits.wf(),
        mirrors(bits.view(), board),
    ensures
        bits.view() == board_model(board),
        forall|r: int, c: int, col: u8, rule: WinRule|
            #[trigger] wins_under(bits.view(), r, c, col, rule) == wins_under(board_model(board), r, c, col, rule),
{
    bits.lemma_wf();
    lemma_mirror_model(bits.view(), board);
}

/// The bit board's five test is the rules' own on the board after the
/// move: for a bit board of `board`, and `after` that board with a `color`
/// stone on `pos`, [`Bits::would_win`] at `pos` answers as
/// [`crate::rules::is_win_for`] does on `after`.
pub proof fn lemma_would_win_is_rules_test(
    bits: &Bits,
    board: Board,
    after: Board,
    pos: Position,
    color: Color,
    rule: WinRule,
)
    requires
        bits.wf(),
        mirrors(bits.view(), board),
        board.has(pos.row as int, pos.col as int),
        after.w() == board.w(),
        after.h() == board.h(),
        after.at(pos.row as int, pos.col as int) == Cell::Stone(color),
        forall|r: int, c: int|
            board.has(r, c) && (r != pos.row || c != pos.col) ==> #[trigger] after.at(r, c) == board.at(r, c),
    ensures
        wins_under(bits.view(), pos.row as int, pos.col as int, color_code(color), rule) == wins_under(
            board_model(after),
            pos.row as int,
            pos.col as int,
            color_code(color),
            rule,
        ),
{
    let m = bits.view();
    bits.lemma_wf();
    lemma_mirror_model(m, board);
    let m1 = m.place(pos.row as int, pos.col as int, color_code(color));
    lemma_place_code(m, pos.row as int, pos.col as int, color_code(color));
    assert(mirrors(m1, after));
    lemma_mirror_model(m1, after);
    super::vcf::lemma_wins_under_self(m, pos.row as int, pos.col as int, color_code(color), color_code(color), rule);
}

/// Some colour has a run of five or more through `(r, c)`.
pub open spec fn five_shape(m: GridModel, r: int, c: int) -> bool {
    exists|d: int, col: u8| 0 <= d < 4 && (col == BLACK || col == WHITE) && #[trigger] m.run(r, c, d, col) >= 5
}

/// The shapes of both colours in one direction through an empty point
/// with no run of five: at most an open four's worth, since a neighbour
/// of one colour closes the other colour's run on that side.
proof fn lemma_direction_shapes(m: GridModel, r: int, c: int, d: int)
    requires
        m.empty(r, c),
        0 <= d < 4,
        m.run(r, c, d, BLACK) < 5,
        m.run(r, c, d, WHITE) < 5,
    ensures
        shape(m, r, c, d, BLACK) + shape(m, r, c, d, WHITE) <= 15_000,
        shape(m, r, c, d, BLACK) >= 0,
        shape(m, r, c, d, WHITE) >= 0,
{
    let dr = dir_r(d);
    let dc = dir_c(d);
    let f = m.fuel();
    assert(f > 0);
    let ba = m.count(r, c, dr, dc, BLACK, f);
    let bb = m.count(r, c, -dr, -dc, BLACK, f);
    let wa = m.count(r, c, dr, dc, WHITE, f);
    let wb = m.count(r, c, -dr, -dc, WHITE, f);
    assert(run_side(m, r, c, d, 1, BLACK) == ba);
    assert(run_side(m, r, c, d, -1, BLACK) == bb);
    assert(run_side(m, r, c, d, 1, WHITE) == wa);
    assert(run_side(m, r, c, d, -1, WHITE) == wb);
    if ba >= 1 {
        assert(m.code(r + dr, c + dc) == BLACK);
        assert(wa == 0);
        assert(step(r, dr, 1) == r + dr && step(c, dc, 1) == c + dc);
        assert(run_end(m, r, c, d, 1, WHITE) == End::Opp);
    }
    if wa >= 1 {
        assert(m.code(r + dr, c + dc) == WHITE);
        assert(ba == 0);
        assert(step(r, dr, 1) == r + dr && step(c, dc, 1) == c + dc);
        assert(run_end(m, r, c, d, 1, BLACK) == End::Opp);
    }
    if bb >= 1 {
        assert(m.code(r - dr, c - dc) == BLACK);
        assert(wb == 0);
        assert(step(r, -dr, 1) == r - dr && step(c, -dc, 1) == c - dc);
        assert(run_end(m, r, c, d, -1, WHITE) == End::Opp);
    }
    if wb >= 1 {
        assert(m.code(r - dr, c - dc) == WHITE);
        assert(bb == 0);
        assert(step(r, -dr, 1) == r - dr && step(c, -dc, 1) == c - dc);
        assert(run_end(m, r, c, d, -1, BLACK) == End::Opp);
    }
}

/// A point where some colour has a run of five scores at least that run's
/// value; an empty point with no such run scores at most four open fours.
pub proof fn lemma_candidate_bounds(m: GridModel, r: int, c: int, side: u8)
    requires
        m.empty(r, c),
        side == BLACK || side == WHITE,
    ensures
        five_shape(m, r, c) ==> candidate_spec(m, r, c, side) >= 100_000,
        !five_shape(m, r, c) ==> candidate_spec(m, r, c, side) <= 60_000,
{
    assert forall|d: int, col: u8| 0 <= d < 4 && (col == BLACK || col == WHITE) implies #[trigger] shape(m, r, c, d, col) >= 0 by {}
    if five_shape(m, r, c) {
        let (d, col) = choose|d: int, col: u8| 0 <= d < 4 && (col == BLACK || col == WHITE) && #[trigger] m.run(r, c, d, col) >= 5;
        assert(shape(m, r, c, d, col) == 100_000);
        assert(shape(m, r, c, 0, side) >= 0 && shape(m, r, c, 0, other_code(side)) >= 0);
        assert(shape(m, r, c, 1, side) >= 0 && shape(m, r, c, 1, other_code(side)) >= 0);
        assert(shape(m, r, c, 2, side) >= 0 && shape(m, r, c, 2, other_code(side)) >= 0);
        assert(shape(m, r, c, 3, side) >= 0 && shape(m, r, c, 3, other_code(side)) >= 0);
    } else {
        assert forall|d: int| 0 <= d < 4 implies shape(m, r, c, d, BLACK) + shape(m, r, c, d, WHITE) <= 15_000 by {
            assert(!(m.run(r, c, d, BLACK) >= 5));
            assert(!(m.run(r, c, d, WHITE) >= 5));
            lemma_direction_shapes(m, r, c, d);
        }
        assert(shape(m, r, c, 0, BLACK) + shape(m, r, c, 0, WHITE) <= 15_000);
        assert(shape(m, r, c, 1, BLACK) + shape(m, r, c, 1, WHITE) <= 15_000);
        assert(shape(m, r, c, 2, BLACK) + shape(m, r, c, 2, WHITE) <= 15_000);
        assert(shape(m, r, c, 3, BLACK) + shape(m, r, c, 3, WHITE) <= 15_000);
    }
}

/// A five point of either colour has a run of five.
pub proof fn lemma_win_five_shape(m: GridModel, r: int, c: int, col: u8, rule: WinRule)
    requires
        col == BLACK || col == WHITE,
        wins_under(m, r, c, col, rule),
    ensures
        five_shape(m, r, c),
{
    if dir_hit(m, r, c, 0, col, rule) {
        assert(m.run(r, c, 0, col) >= 5);
    } else if dir_hit(m, r, c, 1, col, rule) {
        assert(m.run(r, c, 1, col) >= 5);
    } else if dir_hit(m, r, c, 2, col, rule) {
        assert(m.run(r, c, 2, col) >= 5);
    } else {
        assert(m.run(r, c, 3, col) >= 5);
    }
}

/// The hash of an all-empty position.
proof fn lemma_zobrist_empty(keys: Seq<u64>, cells: Seq<u8>, n: nat)
    requires
        n <= cells.len(),
        forall|i: int| 0 <= i < n ==> #[trigger] cells[i] == EMPTY,
    ensures
        zobrist(keys, cells, n) == 0,
    decreases n,
{
    if n > 0 {
        lemma_zobrist_empty(keys, cells, (n - 1) as nat);
        lemma_xor_swap(0, 0, 0);
    }
}

impl Bits {
    /// The `col` stones after place `k` of a line, walking `s` (1 or -1).
    fn walk(
        &self,
        mine: u32,
        k: i32,
        len: i32,
        s: i32,
        Ghost(d): Ghost<int>,
        Ghost(l): Ghost<int>,
        Ghost(r): Ghost<int>,
        Ghost(c): Ghost<int>,
        Ghost(col): Ghost<u8>,
    ) -> (n: i32)
        requires
            self.wf(),
            0 <= d < 4,
            s == 1 || s == -1,
            self.view().has(r, c),
            l == line_of(d, r, c, self.view().w),
            k == place_on(d, r, c, self.view().w),
            len == line_len(d, l, self.view().w, self.view().h),
            0 <= k < len <= 32,
            line_mask(mine, self.view(), d, l, col),
            col == BLACK || col == WHITE,
        ensures
            n == run_side(self.view(), r, c, d, s as int, col),
            0 <= n < 32,
            point_r(d, l, ahead(k as int, s as int, n + 1), self.view().w) == step(r, sdir(s as int, dir_r(d)), n + 1),
            point_c(d, l, ahead(k as int, s as int, n + 1), self.view().w) == step(c, sdir(s as int, dir_c(d)), n + 1),
    {
        let ghost m = self.view();
        let ghost w = m.w;
        let ghost h = m.h;
        let ghost f = m.fuel();
        let ghost dr = sdir(s as int, dir_r(d));
        let ghost dc = sdir(s as int, dir_c(d));
        proof {
            lemma_point_on_line(d, r, c, w, h);
            lemma_line_len_bound(d, l, w, h);
        }
        let mut n: i32 = 0;
        let mut p: i32 = k + s;
        while 0 <= p && p < len && mine & (1u32 << (p as u32)) != 0
            invariant
                self.wf(),
                m == self.view(),
                0 <= d < 4,
                s == 1 || s == -1,
                dr == sdir(s as int, dir_r(d)),
                dc == sdir(s as int, dir_c(d)),
                -1 <= dr <= 1,
                -1 <= dc <= 1,
                f == m.fuel(),
                m.has(r, c),
                w == m.w,
                h == m.h,
                1 <= w <= 32,
                1 <= h <= 32,
                0 <= l < line_count(d, w, h),
                l == line_of(d, r, c, w),
                k == place_on(d, r, c, w),
                len == line_len(d, l, w, h),
                0 <= k < len <= 32,
                len <= w + h,
                line_mask(mine, m, d, l, col),
                col == BLACK || col == WHITE,
                0 <= n < len,
                p == ahead(k as int, s as int, n + 1),
                point_r(d, l, k as int, w) == r,
                point_c(d, l, k as int, w) == c,
                m.count(r, c, dr, dc, col, f) == n + m.count(
                    step(r, dr, n as int),
                    step(c, dc, n as int),
                    dr,
                    dc,
                    col,
                    (f - n) as nat,
                ),
            decreases len + 1 - n,
        {
            proof {
                lemma_line_walk(d, l, k as int, n + 1, s as int, w);
                assert(bit(mine, p as int));
                assert(line_code(m, d, l, p as int) == col);
                assert(f > n);
                assert(step(r, dr, n as int) + dr == step(r, dr, n + 1));
                assert(step(c, dc, n as int) + dc == step(c, dc, n + 1));
                assert(p as int == ahead(k as int, s as int, n + 1));
                assert(point_r(d, l, p as int, w) == step(r, dr, n + 1));
                assert(point_c(d, l, p as int, w) == step(c, dc, n + 1));
                assert(0 <= p < len);
                assert(line_code(m, d, l, p as int) == m.code(point_r(d, l, p as int, w), point_c(d, l, p as int, w)));
                assert(m.code(step(r, dr, n + 1), step(c, dc, n + 1)) == col);
                assert(((f - n) as nat - 1) as nat == (f - (n + 1)) as nat);
                assert(m.count(step(r, dr, n as int), step(c, dc, n as int), dr, dc, col, (f - n) as nat) == 1
                    + m.count(step(r, dr, n + 1), step(c, dc, n + 1), dr, dc, col, (f - (n + 1)) as nat));
            }
            n = n + 1;
            p = p + s;
        }
        proof {
            lemma_line_walk(d, l, k as int, n + 1, s as int, w);
            lemma_place_in_line(d, l, p as int, w, h);
            assert(step(r, dr, n as int) + dr == step(r, dr, n + 1));
            assert(step(c, dc, n as int) + dc == step(c, dc, n + 1));
            assert(f > n);
            if 0 <= p < len {
                assert(bit(mine, p as int) == (line_code(m, d, l, p as int) == col));
                assert(line_code(m, d, l, p as int) != col);
            }
            assert(m.code(step(r, dr, n + 1), step(c, dc, n + 1)) != col);
        }
        n
    }

    /// The end past a run: the edge, an opponent stone, or empty.
    fn end_at(&self, opp: u32, p: i32, len: i32, Ghost(d): Ghost<int>, Ghost(l): Ghost<int>, Ghost(col): Ghost<u8>) -> (e: End)
        requires
            self.wf(),
            0 <= d < 4,
            0 <= l < line_count(d, self.view().w, self.view().h),
            len == line_len(d, l, self.view().w, self.view().h),
            len <= 32,
            line_mask(opp, self.view(), d, l, other_code(col)),
            col == BLACK || col == WHITE,
            -33 <= p <= 64,
        ensures
            e == end_kind(self.view(), point_r(d, l, p as int, self.view().w), point_c(d, l, p as int, self.view().w), col),
    {
        proof {
            lemma_place_in_line(d, l, p as int, self.view().w, self.view().h);
        }
        if p < 0 || p >= len {
            End::Edge
        } else {
            proof {
                assert(bit(opp, p as int) == (line_code(self.view(), d, l, p as int) == other_code(col)));
            }
            if opp & (1u32 << (p as u32)) != 0 {
                End::Opp
            } else {
                End::Empty
            }
        }
    }

    /// The `color` run through the on-board point `(r, c)` in direction
    /// `dir`, counting the point itself as `color` (its own bit is not
    /// read), with what lies past each end.
    fn run_ends(&self, color: Color, r: i32, c: i32, dir: usize) -> (res: (i32, End, End))
        requires
            self.wf(),
            self.view().has(r as int, c as int),
            dir < 4,
        ensures
            res.0 == self.view().run(r as int, c as int, dir as int, color_code(color)),
            res.1 == run_end(self.view(), r as int, c as int, dir as int, -1, color_code(color)),
            res.2 == run_end(self.view(), r as int, c as int, dir as int, 1, color_code(color)),
            1 <= res.0 <= 63,
    {
        let ghost m = self.view();
        let ghost col = color_code(color);
        let (l, k) = self.map(dir, r, c);
        let len = self.line_len(dir, l);
        let ci = color_index(color);
        let oi: usize = 1 - ci;
        let im = self.lidx(ci, dir, l);
        let io = self.lidx(oi, dir, l);
        proof {
            assert(ci_code(oi as int) == other_code(col));
            assert(line_mask(self.lines@[line_index(ci as int, dir as int, l as int, m.w, m.h)], m, dir as int, l as int, col));
            assert(line_mask(self.lines@[line_index(oi as int, dir as int, l as int, m.w, m.h)], m, dir as int, l as int, other_code(col)));
        }
        let mine = self.lines[im];
        let opp = self.lines[io];
        let back = self.walk(mine, k, len, -1, Ghost(dir as int), Ghost(l as int), Ghost(r as int), Ghost(c as int), Ghost(col));
        let fwd = self.walk(mine, k, len, 1, Ghost(dir as int), Ghost(l as int), Ghost(r as int), Ghost(c as int), Ghost(col));
        let low = self.end_at(opp, k - (back + 1), len, Ghost(dir as int), Ghost(l as int), Ghost(col));
        let high = self.end_at(opp, k + (fwd + 1), len, Ghost(dir as int), Ghost(l as int), Ghost(col));
        proof {
            assert(ahead(k as int, -1, back + 1) == k - (back + 1));
            assert(ahead(k as int, 1, fwd + 1) == k + (fwd + 1));
        }
        (1 + back + fwd, low, high)
    }

    /// The shape value in direction `d` of a `color` stone at `(r, c)`.
    fn shape_at(&self, color: Color, r: i32, c: i32, d: usize) -> (v: i64)
        requires
            self.wf(),
            self.view().has(r as int, c as int),
            d < 4,
        ensures
            v == shape(self.view(), r as int, c as int, d as int, color_code(color)),
            0 <= v <= 100_000,
    {
        dir_score(self.run_ends(color, r, c, d))
    }

    /// Whether a `color` stone on the on-board point `(r, c)` makes a win
    /// under the rules. The point's own bit is not read, so it may be empty.
    pub fn is_win(&self, color: Color, r: i32, c: i32, rule_set: RuleSet) -> (b: bool)
        requires
            self.wf(),
            self.view().has(r as int, c as int),
        ensures
            b == wins_under(self.view(), r as int, c as int, color_code(color), rule_set.win_rule),
    {
        let mut d: usize = 0;
        while d < 4
            invariant
                self.wf(),
                self.view().has(r as int, c as int),
                d <= 4,
                forall|j: int| 0 <= j < d ==> !dir_hit(self.view(), r as int, c as int, j, color_code(color), rule_set.win_rule),
            decreases 4 - d,
        {
            let (run, low, high) = self.run_ends(color, r, c, d);
            let hit = match rule_set.win_rule {
                WinRule::Overline => run >= 5,
                WinRule::ExactFive => run == 5,
                WinRule::Caro => run == 5 && !(low == End::Opp && high == End::Opp),
            };
            if hit {
                return true;
            }
            d = d + 1;
        }
        false
    }

    /// Whether `color` wins at once by playing the empty on-board point `pos`.
    pub fn would_win(&self, color: Color, pos: Position, rule_set: RuleSet) -> (b: bool)
        requires
            self.wf(),
            self.view().empty(pos.row as int, pos.col as int),
        ensures
            b == wins_under(self.view(), pos.row as int, pos.col as int, color_code(color), rule_set.win_rule),
    {
        self.is_win(color, pos.row as i32, pos.col as i32, rule_set)
    }

    /// The ordering score of the empty on-board point `pos`: the shapes a
    /// stone there makes for `side` plus those it makes for the opponent.
    pub fn candidate_score(&self, side: Color, pos: Position) -> (v: i64)
        requires
            self.wf(),
            self.view().has(pos.row as int, pos.col as int),
        ensures
            v == candidate_spec(self.view(), pos.row as int, pos.col as int, color_code(side)),
    {
        let r = pos.row as i32;
        let c = pos.col as i32;
        let opp = side.opposite();
        let s0 = self.shape_at(side, r, c, 0) + self.shape_at(opp, r, c, 0);
        let s1 = self.shape_at(side, r, c, 1) + self.shape_at(opp, r, c, 1);
        let s2 = self.shape_at(side, r, c, 2) + self.shape_at(opp, r, c, 2);
        let s3 = self.shape_at(side, r, c, 3) + self.shape_at(opp, r, c, 3);
        s0 + s1 + s2 + s3
    }

    /// The empty points with a stone within two, in row-major order.
    pub fn relevant_empties(&self) -> (out: Vec<Position>)
        requires
            self.wf(),
        ensures
            forall|i: int|
                0 <= i < out@.len() ==> self.view().empty((#[trigger] out@[i]).row as int, out@[i].col as int)
                    && near_stones(self.view(), out@[i].row as int, out@[i].col as int) > 0,
            forall|r: int, c: int|
                #![trigger self.view().empty(r, c)]
                self.view().empty(r, c) && near_stones(self.view(), r, c) > 0 ==> out@.contains(
                    Position { row: r as u8, col: c as u8 },
                ),
            forall|i: int, j: int|
                0 <= i < j < out@.len() ==> cell_index(32, out@[i].row as int, out@[i].col as int) < cell_index(
                    32,
                    out@[j].row as int,
                    out@[j].col as int,
                ),
    {
        let ghost m = self.view();
        let mut out: Vec<Position> = Vec::new();
        let mut r: i32 = 0;
        while r < self.height
            invariant
                self.wf(),
                m == self.view(),
                0 <= r <= self.height,
                self.height == m.h,
                self.width == m.w,
                1 <= m.w <= 32,
                1 <= m.h <= 32,
                forall|i: int|
                    0 <= i < out@.len() ==> m.empty((#[trigger] out@[i]).row as int, out@[i].col as int)
                        && near_stones(m, out@[i].row as int, out@[i].col as int) > 0 && out@[i].row < r,
                forall|x: int, y: int|
                    #![trigger m.empty(x, y)]
                    x < r && m.empty(x, y) && near_stones(m, x, y) > 0 ==> out@.contains(
                        Position { row: x as u8, col: y as u8 },
                    ),
                forall|i: int, j: int|
                    0 <= i < j < out@.len() ==> cell_index(32, out@[i].row as int, out@[i].col as int)
                        < cell_index(32, out@[j].row as int, out@[j].col as int),
            decreases m.h - r,
        {
            let mut c: i32 = 0;
            while c < self.width
                invariant
                    self.wf(),
                    m == self.view(),
                    0 <= r < self.height,
                    0 <= c <= self.width,
                    self.height == m.h,
                    self.width == m.w,
                    1 <= m.w <= 32,
                    1 <= m.h <= 32,
                    forall|i: int|
                        0 <= i < out@.len() ==> m.empty((#[trigger] out@[i]).row as int, out@[i].col as int)
                            && near_stones(m, out@[i].row as int, out@[i].col as int) > 0 && (out@[i].row < r
                            || (out@[i].row == r && out@[i].col < c)),
                    forall|x: int, y: int|
                        #![trigger m.empty(x, y)]
                        (x < r || (x == r && y < c)) && m.empty(x, y) && near_stones(m, x, y) > 0
                            ==> out@.contains(Position { row: x as u8, col: y as u8 }),
                    forall|i: int, j: int|
                        0 <= i < j < out@.len() ==> cell_index(32, out@[i].row as int, out@[i].col as int)
                            < cell_index(32, out@[j].row as int, out@[j].col as int),
                decreases m.w - c,
            {
                let pos = Position::new(r as u8, c as u8);
                if self.stone_at(r, c).is_none() && self.is_relevant(pos) {
                    let ghost o0 = out@;
                    out.push(pos);
                    proof {
                        assert(out@[out@.len() - 1] == pos);
                        assert forall|x: int, y: int|
                            #![trigger m.empty(x, y)]
                            (x < r || (x == r && y < c + 1)) && m.empty(x, y) && near_stones(m, x, y) > 0
                                implies out@.contains(Position { row: x as u8, col: y as u8 }) by {
                            if x == r && y == c {
                                assert(out@[out@.len() - 1] == Position { row: x as u8, col: y as u8 });
                            } else {
                                let t = choose|t: int| 0 <= t < o0.len() && o0[t] == Position { row: x as u8, col: y as u8 };
                                assert(out@[t] == o0[t]);
                            }
                        }
                        assert forall|i: int| 0 <= i < out@.len() implies m.empty((#[trigger] out@[i]).row as int, out@[i].col as int)
                            && near_stones(m, out@[i].row as int, out@[i].col as int) > 0 && (out@[i].row < r
                            || (out@[i].row == r && out@[i].col < c + 1)) by {
                            if i < o0.len() {
                                assert(out@[i] == o0[i]);
                            }
                        }
                        assert forall|i: int, j: int|
                            0 <= i < j < out@.len() implies cell_index(32, out@[i].row as int, out@[i].col as int)
                                < cell_index(32, out@[j].row as int, out@[j].col as int) by {
                            if j == out@.len() - 1 {
                                assert(out@[i] == o0[i]);
                            } else {
                                assert(out@[i] == o0[i]);
                                assert(out@[j] == o0[j]);
                            }
                        }
                    }
                }
                c = c + 1;
            }
            r = r + 1;
        }
        out
    }
}

/// The shape value of a run with its two ends.
fn dir_score(re: (i32, End, End)) -> (v: i64)
    ensures
        v == category(
            re.0 as int,
            (if re.1 == End::Empty {
                1int
            } else {
                0int
            }) + (if re.2 == End::Empty {
                1int
            } else {
                0int
            }),
        ),
        0 <= v <= 100_000,
{
    let (run, low, high) = re;
    let opens = (if low == End::Empty {
        1i32
    } else {
        0i32
    }) + (if high == End::Empty {
        1i32
    } else {
        0i32
    });
    if run >= 5 {
        100_000
    } else if run == 4 && opens == 2 {
        15_000
    } else if run == 4 && opens == 1 {
        6_000
    } else if run == 3 && opens == 2 {
        3_000
    } else if run == 3 && opens == 1 {
        500
    } else if run == 2 && opens == 2 {
        200
    } else if run == 2 && opens == 1 {
        50
    } else {
        0
    }
}

impl Bits {
    /// Builds the bits of a model board of 1 to 32 points a side.
    pub fn from_board(board: &Board) -> (bits: Self)
        requires
            1 <= board.w() <= 32,
            1 <= board.h() <= 32,
        ensures
            bits.wf(),
            mirrors(bits.view(), *board),
    {
        let width = board.width() as i32;
        let height = board.height() as i32;
        let ghost w = width as int;
        let ghost h = height as int;
        proof {
            assert(w * h <= 1024) by (nonlinear_arith)
                requires
                    1 <= w <= 32,
                    1 <= h <= 32,
            ;
            assert(w * h >= 1) by (nonlinear_arith)
                requires
                    1 <= w <= 32,
                    1 <= h <= 32,
            ;
        }
        let n = (width * height) as usize;
        let keys = key_stream(2 * n);
        let per = (3 * height + 3 * width - 2) as usize;
        let lines: Vec<u32> = vec![0u32; 2 * per];
        let near_count: Vec<u16> = vec![0u16; n];
        let ghost m = GridModel { w, h, cells: Seq::new(n as nat, |i: int| EMPTY) };
        proof {
            assert forall|x: int, y: int| #[trigger] m.has(x, y) implies m.code(x, y) == EMPTY by {
                lemma_cell_index_bounds(w, h, x, y);
            }
            assert forall|x: int, y: int| #[trigger] m.code(x, y) == EMPTY || m.code(x, y) == 3 by {
                if m.has(x, y) {
                    lemma_cell_index_bounds(w, h, x, y);
                }
            }
            lemma_empty_score(m, BLACK);
            lemma_empty_score(m, WHITE);
            lemma_zobrist_empty(keys@, m.cells, n as nat);
            assert(2 * w * h == 2 * (w * h)) by (nonlinear_arith);
            assert forall|x: int, y: int| m.has(x, y) implies #[trigger] near_count@[cell_index(w, x, y)] == near_stones(m, x, y) by {
                lemma_cell_index_bounds(w, h, x, y);
                lemma_near_empty(m, x, y);
            }
            assert forall|cj: int, d: int, l: int|
                0 <= cj < 2 && 0 <= d < 4 && 0 <= l < line_count(d, w, h) implies line_mask(
                    #[trigger] lines@[line_index(cj, d, l, w, h)],
                    m,
                    d,
                    l,
                    ci_code(cj),
                ) by {
                lemma_line_index(cj, d, l, cj, d, l, w, h);
                assert forall|k: int| 0 <= k < 32 implies #[trigger] bit(lines@[line_index(cj, d, l, w, h)], k) == (line_code(m, d, l, k) == ci_code(cj)) by {
                    lemma_zero_bits(k as u32);
                    if 0 <= k < line_len(d, l, w, h) {
                        lemma_place_in_line(d, l, k, w, h);
                        assert(m.has(point_r(d, l, k, w), point_c(d, l, k, w)));
                    }
                }
            }
        }
        let mut bits = Bits {
            width,
            height,
            lines,
            keys,
            hash: 0,
            score_black: 0,
            score_white: 0,
            near_count,
            model: Ghost(m),
        };
        let mut r: i32 = 0;
        while r < height
            invariant
                0 <= r <= height,
                width == board.w(),
                height == board.h(),
                bits.wf(),
                bits.view().w == width,
                bits.view().h == height,
                forall|x: int, y: int|
                    board.has(x, y) ==> bits.view().code(x, y) == (if x < r {
                        cell_code(#[trigger] board.at(x, y))
                    } else {
                        EMPTY
                    }),
            decreases height - r,
        {
            let mut c: i32 = 0;
            while c < width
                invariant
                    0 <= r < height,
                    0 <= c <= width,
                    width == board.w(),
                    height == board.h(),
                    bits.wf(),
                    bits.view().w == width,
                    bits.view().h == height,
                    forall|x: int, y: int|
                        board.has(x, y) ==> bits.view().code(x, y) == (if x < r || (x == r && y < c) {
                            cell_code(#[trigger] board.at(x, y))
                        } else {
                            EMPTY
                        }),
                decreases width - c,
            {
                let pos = Position::new(r as u8, c as u8);
                let ghost before = bits.view();
                proof {
                    bits.lemma_wf();
                }
                match board.stone_at(pos) {
                    Some(color) => {
                        bits.toggle(color, r, c);
                        proof {
                            lemma_place_code(before, r as int, c as int, color_code(color));
                        }
                    },
                    None => {},
                }
                c = c + 1;
            }
            r = r + 1;
        }
        proof {
            assert forall|x: int, y: int| board.has(x, y) implies bits.view().code(x, y) == cell_code(
                #[trigger] board.at(x, y),
            ) by {
                assert(x < height);
            }
        }
        bits
    }
}

} // verus!
