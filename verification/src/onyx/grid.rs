//! The engine's internal board: a compact grid with LIFO `place` /
//! `unplace`, plus the threat primitives (win points, fours, neighborhoods).
//! Every rule-dependent question goes through [`Win`]; the engine targets
//! freestyle (five or more wins).

use vstd::prelude::*;

use crate::model::board::{cell_index, lemma_cell_index_bounds, lemma_cell_index_injective};
use crate::model::{Board, Cell, Color, Position, WinRule};

verus! {

/// An empty point.
pub const EMPTY: u8 = 0;
/// A black stone.
pub const BLACK: u8 = 1;
/// A white stone.
pub const WHITE: u8 = 2;
/// The off-board sentinel returned by [`Grid::code`].
pub const OFF: u8 = 3;
/// The largest neighbourhood distance: a row or column plus it still fits
/// an `i32`.
pub const MAX_DIST: i32 = 0x7FFF_FF00;

/// The row step of line direction `k`: across, down, down-right, down-left.
pub open spec fn dir_r(k: int) -> int {
    if k == 0 {
        0
    } else {
        1
    }
}

/// The column step of line direction `k`.
pub open spec fn dir_c(k: int) -> int {
    if k == 0 {
        1
    } else if k == 1 {
        0
    } else if k == 2 {
        1
    } else {
        -1
    }
}

/// `x` moved `k` steps in direction `d` (one of -1, 0, 1).
pub open spec fn step(x: int, d: int, k: int) -> int {
    if d == 1 {
        x + k
    } else if d == -1 {
        x - k
    } else {
        x
    }
}

/// `x` moved `k` steps in direction `d`.
pub fn step_i32(x: i32, d: i32, k: i32) -> (r: i32)
    requires
        -1 <= d <= 1,
        -100_000 <= x <= 100_000,
        0 <= k <= 100_000,
    ensures
        r == step(x as int, d as int, k as int),
{
    if d == 1 {
        x + k
    } else if d == -1 {
        x - k
    } else {
        x
    }
}

/// The four line directions.
pub fn dir(k: usize) -> (d: (i32, i32))
    requires
        k < 4,
    ensures
        d.0 == dir_r(k as int),
        d.1 == dir_c(k as int),
{
    if k == 0 {
        (0, 1)
    } else if k == 1 {
        (1, 0)
    } else if k == 2 {
        (1, 1)
    } else {
        (1, -1)
    }
}

/// The internal code of a color.
pub open spec fn color_code(c: Color) -> u8 {
    match c {
        Color::Black => BLACK,
        Color::White => WHITE,
    }
}

/// The internal code of a board cell.
pub open spec fn cell_code(c: Cell) -> u8 {
    match c {
        Cell::Empty => EMPTY,
        Cell::Stone(col) => color_code(col),
    }
}

/// The other stone code.
pub open spec fn other_code(c: u8) -> u8 {
    if c == BLACK {
        WHITE
    } else {
        BLACK
    }
}

/// Whether `c` is a stone code.
pub open spec fn is_stone(c: u8) -> bool {
    c == BLACK || c == WHITE
}

/// Maps a [`Color`] to its internal code.
pub fn code_of(color: Color) -> (r: u8)
    ensures
        r == color_code(color),
        is_stone(r),
{
    match color {
        Color::Black => BLACK,
        Color::White => WHITE,
    }
}

/// The minimal projection of the winning rule.
#[derive(Debug, Clone, Copy, PartialEq, Eq, Structural)]
pub enum Win {
    /// Five or more in a row wins (freestyle).
    Overline,
    /// Exactly five in a row wins (standard; caro approximated).
    Exact,
}

/// The engine's view of a [`WinRule`]: overlines win under freestyle only.
pub open spec fn win_of(rule: WinRule) -> Win {
    match rule {
        WinRule::Overline => Win::Overline,
        _ => Win::Exact,
    }
}

impl Win {
    /// Projects the model's [`WinRule`].
    pub fn from_rule(rule: WinRule) -> (r: Self)
        ensures
            r == win_of(rule),
    {
        match rule {
            WinRule::Overline => Win::Overline,
            WinRule::ExactFive | WinRule::Caro => Win::Exact,
        }
    }
}

/// Whether a run of `run` stones wins under `win`.
pub open spec fn hit(run: int, win: Win) -> bool {
    match win {
        Win::Overline => run >= 5,
        Win::Exact => run == 5,
    }
}

/// The mathematical content of a grid: its size and its row-major cells.
pub struct GridModel {
    pub w: int,
    pub h: int,
    pub cells: Seq<u8>,
}

impl GridModel {
    pub open spec fn has(self, r: int, c: int) -> bool {
        0 <= r < self.h && 0 <= c < self.w
    }

    /// The code at `(r, c)`; [`OFF`] off the board.
    pub open spec fn code(self, r: int, c: int) -> u8 {
        if self.has(r, c) {
            self.cells[cell_index(self.w, r, c)]
        } else {
            OFF
        }
    }

    pub open spec fn empty(self, r: int, c: int) -> bool {
        self.has(r, c) && self.code(r, c) == EMPTY
    }

    /// The grid with `(r, c)` set to `v`.
    pub open spec fn place(self, r: int, c: int, v: u8) -> GridModel {
        GridModel { w: self.w, h: self.h, cells: self.cells.update(cell_index(self.w, r, c), v) }
    }

    /// Number of consecutive `color` stones after `(r, c)` in direction
    /// `(dr, dc)`, looking at most `fuel` points ahead.
    pub open spec fn count(self, r: int, c: int, dr: int, dc: int, color: u8, fuel: nat) -> nat
        decreases fuel,
    {
        if fuel == 0 {
            0
        } else if self.code(r + dr, c + dc) == color {
            1 + self.count(r + dr, c + dc, dr, dc, color, (fuel - 1) as nat)
        } else {
            0
        }
    }

    /// A look-ahead longer than any line of the board.
    pub open spec fn fuel(self) -> nat {
        (self.w + self.h + 2) as nat
    }

    /// Length of the `color` run through `(r, c)` along direction `k`,
    /// counting `(r, c)` itself as `color`.
    pub open spec fn run(self, r: int, c: int, k: int, color: u8) -> int {
        1 + (self.count(r, c, dir_r(k), dir_c(k), color, self.fuel()) as int) + (self.count(
            r,
            c,
            -dir_r(k),
            -dir_c(k),
            color,
            self.fuel(),
        ) as int)
    }

    /// Whether a `color` stone at `(r, c)` makes a winning line under `win`.
    pub open spec fn wins_at(self, r: int, c: int, color: u8, win: Win) -> bool {
        ||| hit(self.run(r, c, 0, color), win)
        ||| hit(self.run(r, c, 1, color), win)
        ||| hit(self.run(r, c, 2, color), win)
        ||| hit(self.run(r, c, 3, color), win)
    }

    /// `(r, c)` is empty and `color` wins by playing it.
    pub open spec fn win_point(self, r: int, c: int, color: u8, win: Win) -> bool {
        self.empty(r, c) && self.wins_at(r, c, color, win)
    }

    /// `(r, c)` lies within Chebyshev distance `d` of `(sr, sc)`.
    pub open spec fn near(r: int, c: int, sr: int, sc: int, d: int) -> bool {
        -d <= r - sr <= d && -d <= c - sc <= d
    }

    /// Some `color` stone lies within Chebyshev distance `d` of `(r, c)`.
    pub open spec fn near_color(self, r: int, c: int, color: u8, d: int) -> bool {
        exists|sr: int, sc: int|
            #![trigger self.code(sr, sc)]
            self.has(sr, sc) && self.code(sr, sc) == color && Self::near(r, c, sr, sc, d)
    }

    /// Some stone of either color lies within Chebyshev distance `d` of `(r, c)`.
    pub open spec fn near_any(self, r: int, c: int, d: int) -> bool {
        self.near_color(r, c, BLACK, d) || self.near_color(r, c, WHITE, d)
    }
}

/// Counting depends only on which points hold `color`.
pub proof fn lemma_count_mask(
    a: GridModel,
    b: GridModel,
    r: int,
    c: int,
    dr: int,
    dc: int,
    color: u8,
    fuel: nat,
)
    requires
        forall|x: int, y: int|
            #![trigger a.code(x, y)]
            #![trigger b.code(x, y)]
            (a.code(x, y) == color) == (b.code(x, y) == color),
    ensures
        a.count(r, c, dr, dc, color, fuel) == b.count(r, c, dr, dc, color, fuel),
    decreases fuel,
{
    if fuel > 0 {
        assert((a.code(r + dr, c + dc) == color) == (b.code(r + dr, c + dc) == color));
        lemma_count_mask(a, b, r + dr, c + dc, dr, dc, color, (fuel - 1) as nat);
    }
}

/// Setting an empty point to a stone of another color leaves every
/// `color` run, win and emptiness elsewhere unchanged.
pub proof fn lemma_place_other(g: GridModel, qr: int, qc: int, v: u8, color: u8, r: int, c: int, win: Win)
    requires
        g.w >= 0,
        g.cells.len() == g.w * g.h,
        g.empty(qr, qc),
        v != color,
        color != EMPTY,
        (r, c) != (qr, qc),
    ensures
        g.place(qr, qc, v).empty(r, c) == g.empty(r, c),
        g.place(qr, qc, v).wins_at(r, c, color, win) == g.wins_at(r, c, color, win),
        g.place(qr, qc, v).win_point(r, c, color, win) == g.win_point(r, c, color, win),
{
    let g2 = g.place(qr, qc, v);
    lemma_place_code(g, qr, qc, v);
    assert forall|x: int, y: int|
        #![trigger g.code(x, y)]
        #![trigger g2.code(x, y)]
        (g.code(x, y) == color) == (g2.code(x, y) == color) by {
        if x == qr && y == qc {
        }
    }
    assert(g2.fuel() == g.fuel());
    let f = g.fuel();
    assert forall|k: int| 0 <= k < 4 implies g2.run(r, c, k, color) == g.run(r, c, k, color) by {
        lemma_count_mask(g, g2, r, c, dir_r(k), dir_c(k), color, f);
        lemma_count_mask(g, g2, r, c, -dir_r(k), -dir_c(k), color, f);
    }
    assert(g2.run(r, c, 0, color) == g.run(r, c, 0, color));
    assert(g2.run(r, c, 1, color) == g.run(r, c, 1, color));
    assert(g2.run(r, c, 2, color) == g.run(r, c, 2, color));
    assert(g2.run(r, c, 3, color) == g.run(r, c, 3, color));
}

/// `place` changes exactly the code of the placed point.
pub proof fn lemma_place_code(g: GridModel, qr: int, qc: int, v: u8)
    requires
        g.w >= 0,
        g.cells.len() == g.w * g.h,
        g.has(qr, qc),
    ensures
        forall|x: int, y: int| #[trigger]
            g.place(qr, qc, v).code(x, y) == (if x == qr && y == qc {
                v
            } else {
                g.code(x, y)
            }),
        g.place(qr, qc, v).cells.len() == g.cells.len(),
{
    let g2 = g.place(qr, qc, v);
    lemma_cell_index_bounds(g.w, g.h, qr, qc);
    assert forall|x: int, y: int| #[trigger]
        g2.code(x, y) == (if x == qr && y == qc {
            v
        } else {
            g.code(x, y)
        }) by {
        if g.has(x, y) {
            lemma_cell_index_bounds(g.w, g.h, x, y);
            if cell_index(g.w, x, y) == cell_index(g.w, qr, qc) {
                lemma_cell_index_injective(g.w, x, y, qr, qc);
            }
        }
    }
}

/// A winning point of `color` is next to a `color` stone.
pub proof fn lemma_win_point_near(g: GridModel, r: int, c: int, color: u8, win: Win)
    requires
        g.wins_at(r, c, color, win),
        is_stone(color),
    ensures
        g.near_color(r, c, color, 1),
{
    let f = g.fuel();
    assert(f > 0);
    let k: int = if hit(g.run(r, c, 0, color), win) {
        0
    } else if hit(g.run(r, c, 1, color), win) {
        1
    } else if hit(g.run(r, c, 2, color), win) {
        2
    } else {
        3
    };
    let dr = dir_r(k);
    let dc = dir_c(k);
    if g.count(r, c, dr, dc, color, f) >= 1 {
        assert(g.code(r + dr, c + dc) == color);
        assert(g.has(r + dr, c + dc));
        assert(GridModel::near(r, c, r + dr, c + dc, 1));
    } else {
        assert(g.count(r, c, -dr, -dc, color, f) >= 1);
        assert(g.code(r - dr, c - dc) == color);
        assert(g.has(r - dr, c - dc));
        assert(GridModel::near(r, c, r - dr, c - dc, 1));
    }
}

/// Each list position lies on the board and holds `color`, no position is
/// listed twice, and every `color` stone is listed.
pub open spec fn list_ok(l: Seq<(i32, i32)>, m: GridModel, color: u8) -> bool {
    &&& l.no_duplicates()
    &&& forall|i: int|
        0 <= i < l.len() ==> m.has((#[trigger] l[i]).0 as int, l[i].1 as int) && m.code(
            l[i].0 as int,
            l[i].1 as int,
        ) == color
    &&& forall|p: (i32, i32)|
        m.has(p.0 as int, p.1 as int) && m.code(p.0 as int, p.1 as int) == color ==> #[trigger] l.contains(p)
}

/// The Zobrist key of value `v` at point index `i`: nothing for an empty point.
pub open spec fn key_of(keys: Seq<u64>, i: int, v: u8) -> u64 {
    if v == BLACK {
        keys[2 * i]
    } else if v == WHITE {
        keys[2 * i + 1]
    } else {
        0
    }
}

/// The Zobrist hash of the first `n` cells: the xor of the keys of their stones.
pub open spec fn zobrist(keys: Seq<u64>, cells: Seq<u8>, n: nat) -> u64
    decreases n,
{
    if n == 0 {
        0
    } else {
        zobrist(keys, cells, (n - 1) as nat) ^ key_of(keys, n - 1, cells[n - 1])
    }
}

pub proof fn lemma_xor_swap(a: u64, b: u64, c: u64)
    ensures
        (a ^ b) ^ c == (a ^ c) ^ b,
        a ^ 0 == a,
        (a ^ b) ^ b == a,
        0u64 ^ b == b,
{
    assert((a ^ b) ^ c == (a ^ c) ^ b) by (bit_vector);
    assert(a ^ 0 == a) by (bit_vector);
    assert((a ^ b) ^ b == a) by (bit_vector);
    assert(0u64 ^ b == b) by (bit_vector);
}

/// Changing cell `i` from `u` to `v` changes the hash by the keys of both.
pub proof fn lemma_zobrist_update(keys: Seq<u64>, cells: Seq<u8>, i: int, v: u8, n: nat)
    requires
        0 <= i < cells.len(),
        n <= cells.len(),
    ensures
        zobrist(keys, cells.update(i, v), n) == (if n > i {
            zobrist(keys, cells, n) ^ key_of(keys, i, cells[i]) ^ key_of(keys, i, v)
        } else {
            zobrist(keys, cells, n)
        }),
    decreases n,
{
    let c2 = cells.update(i, v);
    if n > 0 {
        lemma_zobrist_update(keys, cells, i, v, (n - 1) as nat);
        let z = zobrist(keys, cells, (n - 1) as nat);
        let ku = key_of(keys, i, cells[i]);
        let kv = key_of(keys, i, v);
        let kk = key_of(keys, n - 1, cells[n - 1]);
        if n - 1 == i {
            assert(c2[n - 1] == v);
            lemma_xor_swap(z, ku, ku);
            assert(zobrist(keys, c2, n) == z ^ kv);
            assert(zobrist(keys, cells, n) == z ^ ku);
            assert((z ^ ku) ^ ku == z);
        } else if n - 1 > i {
            assert(c2[n - 1] == cells[n - 1]);
            assert(zobrist(keys, c2, n) == (z ^ ku ^ kv) ^ kk);
            lemma_xor_swap(z ^ ku, kv, kk);
            lemma_xor_swap(z, ku, kk);
            assert(zobrist(keys, c2, n) == ((z ^ kk) ^ ku) ^ kv);
        } else {
            assert(c2[n - 1] == cells[n - 1]);
        }
    }
}

/// `p` lies within Chebyshev distance `d` of one of `stones`.
pub open spec fn near_one_of(stones: Seq<(i32, i32)>, p: (i32, i32), d: int) -> bool {
    exists|j: int|
        #![trigger stones[j]]
        0 <= j < stones.len() && GridModel::near(
            p.0 as int,
            p.1 as int,
            stones[j].0 as int,
            stones[j].1 as int,
            d,
        )
}

/// A well-formed grid is fresh: the stamps restart when the generation
/// counter would wrap.
pub broadcast proof fn lemma_wf_fresh(g: &Grid)
    requires
        g.wf(),
    ensures
        #[trigger] g.fresh(),
{
}

/// Playing `color` on `p` makes a win point that was not one before.
pub open spec fn new_five(m: GridModel, p: (i32, i32), color: u8, win: Win) -> bool {
    exists|q: (i32, i32)|
        #[trigger] m.place(p.0 as int, p.1 as int, color).win_point(q.0 as int, q.1 as int, color, win) && !m.win_point(
            q.0 as int,
            q.1 as int,
            color,
            win,
        )
}

/// Whether some point of `a` is missing from `b`.
fn some_missing(a: &Vec<(i32, i32)>, b: &Vec<(i32, i32)>) -> (r: bool)
    ensures
        r == exists|k: int| 0 <= k < a@.len() && !b@.contains(#[trigger] a@[k]),
{
    let mut i: usize = 0;
    while i < a.len()
        invariant
            i <= a@.len(),
            forall|k: int| 0 <= k < i ==> b@.contains(#[trigger] a@[k]),
        decreases a@.len() - i,
    {
        let p = a[i];
        let mut j: usize = 0;
        let mut found = false;
        while j < b.len()
            invariant
                j <= b@.len(),
                found ==> b@.contains(p),
                !found ==> forall|t: int| 0 <= t < j ==> b@[t] != p,
            decreases b@.len() - j,
        {
            if b[j].0 == p.0 && b[j].1 == p.1 {
                proof {
                    assert(b@[j as int] == p);
                }
                found = true;
            }
            j = j + 1;
        }
        if !found {
            proof {
                assert(!b@.contains(a@[i as int]));
            }
            return true;
        }
        i = i + 1;
    }
    false
}

/// The occupied points of a model, by cell index.
pub open spec fn occupied(m: GridModel) -> Set<int> {
    Set::new(|i: int| 0 <= i < m.w * m.h && m.cells[i] != EMPTY)
}

/// The number of stones on a model.
pub open spec fn stone_total(m: GridModel) -> nat {
    occupied(m).len()
}

/// The incrementally updatable internal board.
pub struct Grid {
    w: i32,
    h: i32,
    cells: Vec<u8>,
    /// Placed stones, in placing order, for `unplace` and neighborhoods.
    black: Vec<(i32, i32)>,
    white: Vec<(i32, i32)>,
    /// Neighborhood de-duplication stamps.
    stamp: Vec<u32>,
    gen: u32,
    /// Reusable stone buffer for neighborhood scans.
    scratch: Vec<(i32, i32)>,
    /// Zobrist keys, two per point (black, white); empty until `prepare_search`.
    keys: Vec<u64>,
    /// Incrementally maintained Zobrist hash of the position.
    zhash: u64,
}

impl Grid {
    /// The size and cells of the grid.
    pub closed spec fn view(&self) -> GridModel {
        GridModel { w: self.w as int, h: self.h as int, cells: self.cells@ }
    }

    /// The neighborhood stamp generation.
    pub closed spec fn generation(&self) -> nat {
        self.gen as nat
    }

    /// No neighborhood stamp is ahead of the generation counter, so a scan
    /// that advances the counter starts from fresh stamps. Every well-formed
    /// grid is fresh (see [`lemma_wf_fresh`]).
    pub closed spec fn fresh(&self) -> bool {
        forall|i: int| 0 <= i < self.stamp@.len() ==> #[trigger] self.stamp@[i] <= self.gen
    }

    /// The Zobrist keys, two per point (black, white); empty until
    /// [`Grid::prepare_search`].
    pub closed spec fn zkeys(&self) -> Seq<u64> {
        self.keys@
    }

    /// The incrementally maintained position hash.
    pub closed spec fn hash_value(&self) -> u64 {
        self.zhash
    }

    /// The grid is ready for [`Grid::make`] / [`Grid::unmake`]: its keys
    /// cover every point and its hash is the Zobrist hash of its cells.
    pub open spec fn searching(&self) -> bool {
        &&& self.zkeys().len() == 2 * self.view().cells.len()
        &&& self.hash_value() == zobrist(self.zkeys(), self.view().cells, self.view().cells.len())
    }

    /// The grid's structural invariant.
    pub closed spec fn wf(&self) -> bool {
        &&& 0 <= self.w <= 255
        &&& 0 <= self.h <= 255
        &&& self.cells@.len() == self.w * self.h
        &&& self.stamp@.len() == self.w * self.h
        &&& forall|i: int| 0 <= i < self.cells@.len() ==> #[trigger] self.cells@[i] <= 2
        &&& list_ok(self.black@, self.view(), BLACK)
        &&& list_ok(self.white@, self.view(), WHITE)
        &&& self.fresh()
    }

    /// Facts every well-formed grid offers.
    pub proof fn lemma_wf(&self)
        requires
            self.wf(),
        ensures
            0 <= self.view().w <= 255,
            0 <= self.view().h <= 255,
            self.view().cells.len() == self.view().w * self.view().h,
            forall|r: int, c: int| #[trigger] self.view().code(r, c) <= 3,
    {
        assert forall|r: int, c: int| #[trigger] self.view().code(r, c) <= 3 by {
            if self.view().has(r, c) {
                lemma_cell_index_bounds(self.w as int, self.h as int, r, c);
            }
        }
    }

    /// Builds the grid of a model board.
    pub fn from_board(board: &Board) -> (g: Self)
        ensures
            g.wf(),
            g.fresh(),
            g.generation() == 0,
            g.view().w == board.w(),
            g.view().h == board.h(),
            forall|r: int, c: int| board.has(r, c) ==> g.view().code(r, c) == cell_code(#[trigger] board.at(r, c)),
    {
        let bw = board.width();
        let bh = board.height();
        let w = bw as i32;
        let h = bh as i32;
        proof {
            crate::model::board::lemma_u8_product(bw, bh);
        }
        let n = (w * h) as usize;
        let mut grid = Self {
            w,
            h,
            cells: vec![EMPTY; n],
            black: Vec::new(),
            white: Vec::new(),
            stamp: vec![0u32; n],
            gen: 0,
            scratch: Vec::new(),
            keys: Vec::new(),
            zhash: 0,
        };
        proof {
            assert forall|x: int, y: int| board.has(x, y) implies grid.view().code(x, y) == EMPTY by {
                lemma_cell_index_bounds(w as int, h as int, x, y);
            }
            assert forall|i: int| 0 <= i < grid.cells@.len() implies #[trigger] grid.cells@[i] <= 2 by {
                assert(grid.cells@[i] == EMPTY);
            }
            assert forall|p: (i32, i32)|
                grid.view().has(p.0 as int, p.1 as int) && grid.view().code(p.0 as int, p.1 as int)
                    == BLACK implies #[trigger] grid.black@.contains(p) by {
                lemma_cell_index_bounds(w as int, h as int, p.0 as int, p.1 as int);
            }
            assert forall|p: (i32, i32)|
                grid.view().has(p.0 as int, p.1 as int) && grid.view().code(p.0 as int, p.1 as int)
                    == WHITE implies #[trigger] grid.white@.contains(p) by {
                lemma_cell_index_bounds(w as int, h as int, p.0 as int, p.1 as int);
            }
        }
        let mut r: i32 = 0;
        while r < h
            invariant
                0 <= r <= h,
                w == board.w(),
                h == board.h(),
                grid.wf(),
                grid.fresh(),
                grid.gen == 0,
                grid.view().w == w,
                grid.view().h == h,
                forall|x: int, y: int|
                    board.has(x, y) ==> grid.view().code(x, y) == (if x < r {
                        cell_code(#[trigger] board.at(x, y))
                    } else {
                        EMPTY
                    }),
            decreases h - r,
        {
            let mut c: i32 = 0;
            while c < w
                invariant
                    0 <= r < h,
                    0 <= c <= w,
                    w == board.w(),
                    h == board.h(),
                    grid.wf(),
                    grid.fresh(),
                    grid.gen == 0,
                    grid.view().w == w,
                    grid.view().h == h,
                    forall|x: int, y: int|
                        board.has(x, y) ==> grid.view().code(x, y) == (if x < r || (x == r && y
                            < c) {
                            cell_code(#[trigger] board.at(x, y))
                        } else {
                            EMPTY
                        }),
                decreases w - c,
            {
                let pos = Position::new(r as u8, c as u8);
                let ghost before = grid.view();
                match board.stone_at(pos) {
                    Some(Color::Black) => grid.place(r, c, BLACK),
                    Some(Color::White) => grid.place(r, c, WHITE),
                    None => {},
                }
                proof {
                    lemma_place_code(before, r as int, c as int, cell_code(board.at(r as int, c as int)));
                }
                c = c + 1;
            }
            r = r + 1;
        }
        grid
    }

    pub fn width(&self) -> (r: i32)
        ensures
            r == self.view().w,
    {
        self.w
    }

    pub fn height(&self) -> (r: i32)
        ensures
            r == self.view().h,
    {
        self.h
    }

    /// Number of stones on the grid; zero exactly when the grid is empty.
    pub fn stone_count(&self) -> (r: usize)
        requires
            self.wf(),
        ensures
            r == stone_total(self.view()),
            (r == 0) <==> (forall|x: int, y: int| #[trigger] self.view().has(x, y) ==> self.view().code(x, y) == EMPTY),
    {
        proof {
            self.lemma_stone_total();
        }
        proof {
            crate::model::board::lemma_u8_product(self.w as u8, self.h as u8);
            self.black@.unique_seq_to_set();
            self.white@.unique_seq_to_set();
            self.lemma_list_len(BLACK);
            self.lemma_list_len(WHITE);
        }
        let n = self.black.len() + self.white.len();
        proof {
            if n == 0 {
                assert forall|x: int, y: int| #[trigger] self.view().has(x, y) implies self.view().code(x, y)
                    == EMPTY by {
                    lemma_cell_index_bounds(self.w as int, self.h as int, x, y);
                    assert(self.cells@[cell_index(self.w as int, x, y)] <= 2);
                    let p = (x as i32, y as i32);
                    if self.view().code(x, y) == BLACK {
                        assert(self.black@.contains(p));
                    }
                    if self.view().code(x, y) == WHITE {
                        assert(self.white@.contains(p));
                    }
                }
            } else if self.black@.len() > 0 {
                let p = self.black@[0];
                assert(self.view().has(p.0 as int, p.1 as int));
            } else {
                let p = self.white@[0];
                assert(self.view().has(p.0 as int, p.1 as int));
            }
        }
        n
    }

    /// The stone lists hold every stone once: together they count the
    /// occupied points.
    proof fn lemma_stone_total(&self)
        requires
            self.wf(),
        ensures
            self.black@.len() + self.white@.len() == stone_total(self.view()),
    {
        let m = self.view();
        let w = self.w as int;
        let f = |p: (i32, i32)| cell_index(w, p.0 as int, p.1 as int);
        let sb = self.black@.to_set();
        let sw = self.white@.to_set();
        self.black@.unique_seq_to_set();
        self.white@.unique_seq_to_set();
        assert forall|p: (i32, i32), q: (i32, i32)|
            (sb.contains(p) || sw.contains(p)) && (sb.contains(q) || sw.contains(q)) && f(p) == f(q) implies p == q by {
            assert(m.has(p.0 as int, p.1 as int) && m.has(q.0 as int, q.1 as int)) by {
                if sb.contains(p) {
                    let k = choose|k: int| 0 <= k < self.black@.len() && self.black@[k] == p;
                    assert(m.has(self.black@[k].0 as int, self.black@[k].1 as int));
                } else {
                    let k = choose|k: int| 0 <= k < self.white@.len() && self.white@[k] == p;
                    assert(m.has(self.white@[k].0 as int, self.white@[k].1 as int));
                }
                if sb.contains(q) {
                    let k = choose|k: int| 0 <= k < self.black@.len() && self.black@[k] == q;
                    assert(m.has(self.black@[k].0 as int, self.black@[k].1 as int));
                } else {
                    let k = choose|k: int| 0 <= k < self.white@.len() && self.white@[k] == q;
                    assert(m.has(self.white@[k].0 as int, self.white@[k].1 as int));
                }
            }
            lemma_cell_index_injective(w, p.0 as int, p.1 as int, q.0 as int, q.1 as int);
        }
        let ib = sb.map(f);
        let iw = sw.map(f);
        vstd::set_lib::lemma_map_size(sb, ib, f);
        vstd::set_lib::lemma_map_size(sw, iw, f);
        assert forall|i: int| #[trigger] occupied(m).contains(i) <==> ib.contains(i) || iw.contains(i) by {
            if occupied(m).contains(i) {
                let r = i / w;
                let c = i % w;
                assert(w > 0) by (nonlinear_arith)
                    requires
                        0 <= i < w * self.h,
                        w >= 0,
                        self.h >= 0,
                ;
                vstd::arithmetic::div_mod::lemma_fundamental_div_mod(i, w);
                assert(r < self.h) by (nonlinear_arith)
                    requires
                        i == w * r + c,
                        0 <= c < w,
                        i < w * self.h,
                ;
                assert(0 <= r) by (nonlinear_arith)
                    requires
                        i == w * r + c,
                        c < w,
                        i >= 0,
                        w > 0,
                ;
                assert(cell_index(w, r, c) == i) by (nonlinear_arith)
                    requires
                        i == w * r + c,
                ;
                let p = (r as i32, c as i32);
                assert(m.has(r, c));
                assert(m.code(r, c) == self.cells@[i]);
                assert(self.cells@[i] <= 2);
                if m.code(r, c) == BLACK {
                    assert(self.black@.contains(p));
                    assert(sb.contains(p));
                    assert(f(p) == i);
                } else {
                    assert(self.white@.contains(p));
                    assert(sw.contains(p));
                    assert(f(p) == i);
                }
            }
            if ib.contains(i) {
                let p = choose|p: (i32, i32)| sb.contains(p) && f(p) == i;
                let k = choose|k: int| 0 <= k < self.black@.len() && self.black@[k] == p;
                assert(m.has(self.black@[k].0 as int, self.black@[k].1 as int));
                lemma_cell_index_bounds(w, self.h as int, p.0 as int, p.1 as int);
            }
            if iw.contains(i) {
                let p = choose|p: (i32, i32)| sw.contains(p) && f(p) == i;
                let k = choose|k: int| 0 <= k < self.white@.len() && self.white@[k] == p;
                assert(m.has(self.white@[k].0 as int, self.white@[k].1 as int));
                lemma_cell_index_bounds(w, self.h as int, p.0 as int, p.1 as int);
            }
        }
        assert(ib.disjoint(iw)) by {
            assert forall|i: int| !(ib.contains(i) && iw.contains(i)) by {
                if ib.contains(i) && iw.contains(i) {
                    let p = choose|p: (i32, i32)| sb.contains(p) && f(p) == i;
                    let q = choose|q: (i32, i32)| sw.contains(q) && f(q) == i;
                    let k = choose|k: int| 0 <= k < self.black@.len() && self.black@[k] == p;
                    let j = choose|j: int| 0 <= j < self.white@.len() && self.white@[j] == q;
                    assert(m.has(self.black@[k].0 as int, self.black@[k].1 as int));
                    assert(m.has(self.white@[j].0 as int, self.white@[j].1 as int));
                    lemma_cell_index_injective(w, p.0 as int, p.1 as int, q.0 as int, q.1 as int);
                }
            }
        }
        vstd::set_lib::lemma_set_disjoint_lens(ib, iw);
        assert(occupied(m) =~= ib + iw);
    }

    /// A stone list is no longer than the board has points.
    proof fn lemma_list_len(&self, color: u8)
        requires
            self.wf(),
            color == BLACK || color == WHITE,
        ensures
            color == BLACK ==> self.black@.len() <= self.w * self.h,
            color == WHITE ==> self.white@.len() <= self.w * self.h,
    {
        let l = if color == BLACK { self.black@ } else { self.white@ };
        let f = |p: (i32, i32)| cell_index(self.w as int, p.0 as int, p.1 as int);
        let s = l.to_set();
        l.unique_seq_to_set();
        let dom = Set::new(|i: int| 0 <= i < self.w * self.h);
        assert forall|p: (i32, i32)| s.contains(p) implies dom.contains(f(p)) by {
            let k = choose|k: int| 0 <= k < l.len() && l[k] == p;
            assert(self.view().has(l[k].0 as int, l[k].1 as int));
            lemma_cell_index_bounds(self.w as int, self.h as int, p.0 as int, p.1 as int);
        }
        assert forall|p: (i32, i32), q: (i32, i32)| s.contains(p) && s.contains(q) && f(p) == f(q) implies p == q by {
            let k = choose|k: int| 0 <= k < l.len() && l[k] == p;
            let j = choose|j: int| 0 <= j < l.len() && l[j] == q;
            assert(self.view().has(l[k].0 as int, l[k].1 as int));
            assert(self.view().has(l[j].0 as int, l[j].1 as int));
            lemma_cell_index_injective(self.w as int, p.0 as int, p.1 as int, q.0 as int, q.1 as int);
        }
        vstd::set_lib::lemma_int_range(0, self.w * self.h);
        assert(dom =~= vstd::set_lib::set_int_range(0, self.w * self.h));
        vstd::set_lib::lemma_map_size(s, s.map(f), f);
        assert(s.map(f).subset_of(dom));
        vstd::set_lib::lemma_len_subset(s.map(f), dom);
    }

    fn idx(&self, r: i32, c: i32) -> (i: usize)
        requires
            self.wf(),
            self.view().has(r as int, c as int),
        ensures
            i == cell_index(self.w as int, r as int, c as int),
            i < self.cells@.len(),
    {
        proof {
            lemma_cell_index_bounds(self.w as int, self.h as int, r as int, c as int);
            crate::model::board::lemma_u8_product(self.w as u8, self.h as u8);
        }
        (r * self.w + c) as usize
    }

    /// The code at `(r, c)`; [`OFF`] off the board.
    pub fn code(&self, r: i32, c: i32) -> (v: u8)
        requires
            self.wf(),
        ensures
            v == self.view().code(r as int, c as int),
    {
        if r < 0 || r >= self.h || c < 0 || c >= self.w {
            OFF
        } else {
            self.cells[self.idx(r, c)]
        }
    }

    /// Places a `color` stone on the empty point `(r, c)`.
    pub fn place(&mut self, r: i32, c: i32, color: u8)
        requires
            old(self).wf(),
            old(self).view().empty(r as int, c as int),
            is_stone(color),
        ensures
            final(self).wf(),
            final(self).view() == old(self).view().place(r as int, c as int, color),
            final(self).fresh() == old(self).fresh(),
            final(self).generation() == old(self).generation(),
            final(self).zkeys() == old(self).zkeys(),
            final(self).hash_value() == old(self).hash_value(),
    {
        let i = self.idx(r, c);
        let ghost m0 = self.view();
        self.cells.set(i, color);
        let ghost m1 = self.view();
        proof {
            lemma_place_code(m0, r as int, c as int, color);
            assert(m1 == m0.place(r as int, c as int, color));
        }
        let ghost bl = self.black@;
        let ghost wl = self.white@;
        if color == BLACK {
            self.black.push((r, c));
        } else {
            self.white.push((r, c));
        }
        proof {
            assert forall|k: int| 0 <= k < self.cells@.len() implies #[trigger] self.cells@[k] <= 2 by {
                if k != i {
                    assert(self.cells@[k] == m0.cells[k]);
                }
            }
            self.lemma_list_after_place(bl, m0, BLACK, r, c, color);
            self.lemma_list_after_place(wl, m0, WHITE, r, c, color);
        }
    }

    proof fn lemma_list_after_place(&self, l: Seq<(i32, i32)>, m0: GridModel, lc: u8, r: i32, c: i32, color: u8)
        requires
            list_ok(l, m0, lc),
            m0.w >= 0,
            m0.cells.len() == m0.w * m0.h,
            m0.empty(r as int, c as int),
            is_stone(lc),
            is_stone(color),
            self.view() == m0.place(r as int, c as int, color),
            lc == BLACK ==> self.black@ == (if color == BLACK { l.push((r, c)) } else { l }),
            lc == WHITE ==> self.white@ == (if color == BLACK { l } else { l.push((r, c)) }),
        ensures
            lc == BLACK ==> list_ok(self.black@, self.view(), BLACK),
            lc == WHITE ==> list_ok(self.white@, self.view(), WHITE),
    {
        let m1 = self.view();
        lemma_place_code(m0, r as int, c as int, color);
        let nl = if lc == BLACK { self.black@ } else { self.white@ };
        let p0 = (r, c);
        assert(!l.contains(p0)) by {
            if l.contains(p0) {
                let k = choose|k: int| 0 <= k < l.len() && l[k] == p0;
                assert(m0.code(l[k].0 as int, l[k].1 as int) == lc);
            }
        }
        if nl == l.push(p0) {
            assert(nl.no_duplicates()) by {
                assert forall|a: int, b: int| 0 <= a < b < nl.len() implies nl[a] != nl[b] by {
                    if b == nl.len() - 1 {
                        assert(nl[a] == l[a]);
                    }
                }
            }
            assert forall|k: int| 0 <= k < nl.len() implies m1.has((#[trigger] nl[k]).0 as int, nl[k].1 as int)
                && m1.code(nl[k].0 as int, nl[k].1 as int) == lc by {
                if k < l.len() {
                    assert(nl[k] == l[k]);
                }
            }
            assert forall|p: (i32, i32)|
                m1.has(p.0 as int, p.1 as int) && m1.code(p.0 as int, p.1 as int) == lc implies #[trigger] nl.contains(p) by {
                if p == p0 {
                    assert(nl[nl.len() - 1] == p0);
                } else {
                    assert(l.contains(p));
                    let k = choose|k: int| 0 <= k < l.len() && l[k] == p;
                    assert(nl[k] == p);
                }
            }
        } else {
            assert(nl == l);
            assert forall|k: int| 0 <= k < nl.len() implies m1.has((#[trigger] nl[k]).0 as int, nl[k].1 as int)
                && m1.code(nl[k].0 as int, nl[k].1 as int) == lc by {
                if nl[k] == p0 {
                    assert(l.contains(p0));
                }
            }
        }
    }

    /// Removes the stone of `color` at `(r, c)` (undoes a `place`).
    pub fn unplace(&mut self, r: i32, c: i32, color: u8)
        requires
            old(self).wf(),
            old(self).view().has(r as int, c as int),
            old(self).view().code(r as int, c as int) == color,
            is_stone(color),
        ensures
            final(self).wf(),
            final(self).view() == old(self).view().place(r as int, c as int, EMPTY),
            final(self).fresh() == old(self).fresh(),
            final(self).generation() == old(self).generation(),
            final(self).zkeys() == old(self).zkeys(),
            final(self).hash_value() == old(self).hash_value(),
    {
        let i = self.idx(r, c);
        let ghost m0 = self.view();
        self.cells.set(i, EMPTY);
        proof {
            lemma_place_code(m0, r as int, c as int, EMPTY);
            assert(self.view() == m0.place(r as int, c as int, EMPTY));
            assert forall|k: int| 0 <= k < self.cells@.len() implies #[trigger] self.cells@[k] <= 2 by {
                if k != i {
                    assert(self.cells@[k] == m0.cells[k]);
                }
            }
        }
        let ghost bl = self.black@;
        let ghost wl = self.white@;
        proof {
            if color == BLACK {
                assert(bl.contains((r, c)));
            } else {
                assert(wl.contains((r, c)));
            }
        }
        if color == BLACK {
            remove_pos(&mut self.black, (r, c));
        } else {
            remove_pos(&mut self.white, (r, c));
        }
        proof {
            self.lemma_list_after_unplace(bl, m0, BLACK, r, c, color);
            self.lemma_list_after_unplace(wl, m0, WHITE, r, c, color);
        }
    }

    proof fn lemma_list_after_unplace(&self, l: Seq<(i32, i32)>, m0: GridModel, lc: u8, r: i32, c: i32, color: u8)
        requires
            list_ok(l, m0, lc),
            m0.w >= 0,
            m0.cells.len() == m0.w * m0.h,
            m0.has(r as int, c as int),
            m0.code(r as int, c as int) == color,
            is_stone(lc),
            is_stone(color),
            self.view() == m0.place(r as int, c as int, EMPTY),
            lc == BLACK ==> self.black@.no_duplicates(),
            lc == WHITE ==> self.white@.no_duplicates(),
            lc == BLACK ==> (forall|q: (i32, i32)| #[trigger] self.black@.contains(q) <==> (l.contains(q) && (color == BLACK ==> q != (r, c)))),
            lc == WHITE ==> (forall|q: (i32, i32)| #[trigger] self.white@.contains(q) <==> (l.contains(q) && (color == WHITE ==> q != (r, c)))),
        ensures
            lc == BLACK ==> list_ok(self.black@, self.view(), BLACK),
            lc == WHITE ==> list_ok(self.white@, self.view(), WHITE),
    {
        let m1 = self.view();
        lemma_place_code(m0, r as int, c as int, EMPTY);
        let nl = if lc == BLACK { self.black@ } else { self.white@ };
        let p0 = (r, c);
        assert forall|k: int| 0 <= k < nl.len() implies m1.has((#[trigger] nl[k]).0 as int, nl[k].1 as int)
            && m1.code(nl[k].0 as int, nl[k].1 as int) == lc by {
            let q = nl[k];
            assert(nl.contains(q));
            assert(l.contains(q));
            let j = choose|j: int| 0 <= j < l.len() && l[j] == q;
            assert(m0.has(l[j].0 as int, l[j].1 as int));
            if q == p0 {
                assert(color != lc);
                assert(m0.code(r as int, c as int) == lc);
            }
        }
        assert forall|p: (i32, i32)|
            m1.has(p.0 as int, p.1 as int) && m1.code(p.0 as int, p.1 as int) == lc implies #[trigger] nl.contains(p) by {
            assert(p != p0);
            assert(l.contains(p));
        }
    }

    /// Length of the `color` run through the on-board point `(r, c)` along
    /// direction `(dr, dc)`, counting `(r, c)` itself as `color`.
    fn run_len(&self, r: i32, c: i32, k: usize, color: u8) -> (n: i32)
        requires
            self.wf(),
            self.view().has(r as int, c as int),
            k < 4,
            is_stone(color),
        ensures
            n == self.view().run(r as int, c as int, k as int, color),
            1 <= n <= 2 * (self.view().w + self.view().h) + 1,
    {
        let (dr, dc) = dir(k);
        let a = self.ray(r, c, dr, dc, color);
        let b = self.ray(r, c, -dr, -dc, color);
        1 + a + b
    }

    /// Number of consecutive `color` stones after `(r, c)` in direction `(dr, dc)`.
    pub fn ray(&self, r: i32, c: i32, dr: i32, dc: i32, color: u8) -> (n: i32)
        requires
            self.wf(),
            self.view().has(r as int, c as int),
            -1 <= dr <= 1,
            -1 <= dc <= 1,
            dr != 0 || dc != 0,
            is_stone(color),
        ensures
            n == self.view().count(r as int, c as int, dr as int, dc as int, color, self.view().fuel()),
            0 <= n <= self.view().w + self.view().h,
    {
        let ghost m = self.view();
        let ghost f = m.fuel();
        let mut n: i32 = 0;
        let mut rr = r + dr;
        let mut cc = c + dc;
        while self.code(rr, cc) == color
            invariant
                self.wf(),
                m == self.view(),
                f == m.fuel(),
                m.has(r as int, c as int),
                -1 <= dr <= 1,
                -1 <= dc <= 1,
                dr != 0 || dc != 0,
                is_stone(color),
                0 <= n <= m.w + m.h,
                rr == step(r as int, dr as int, n + 1),
                cc == step(c as int, dc as int, n + 1),
                m.count(r as int, c as int, dr as int, dc as int, color, f) == n + m.count(
                    rr - dr,
                    cc - dc,
                    dr as int,
                    dc as int,
                    color,
                    (f - n) as nat,
                ),
            decreases m.w + m.h - n,
        {
            proof {
                assert(m.has(rr as int, cc as int));
                assert((f - n) as nat > 0);
                assert(rr - dr + dr == rr);
            }
            n = n + 1;
            rr = rr + dr;
            cc = cc + dc;
        }
        proof {
            assert((f - n) as nat > 0);
            assert(rr - dr + dr == rr);
        }
        n
    }

    /// Whether playing `color` on the on-board point `(r, c)` wins at once.
    /// No stone is actually placed.
    pub fn would_win(&self, r: i32, c: i32, color: u8, win: Win) -> (b: bool)
        requires
            self.wf(),
            self.view().has(r as int, c as int),
            is_stone(color),
        ensures
            b == self.view().wins_at(r as int, c as int, color, win),
    {
        let mut k: usize = 0;
        while k < 4
            invariant
                self.wf(),
                self.view().has(r as int, c as int),
                is_stone(color),
                k <= 4,
                forall|j: int| 0 <= j < k ==> !hit(self.view().run(r as int, c as int, j, color), win),
            decreases 4 - k,
        {
            let run = self.run_len(r, c, k, color);
            let hit_now = match win {
                Win::Overline => run >= 5,
                Win::Exact => run == 5,
            };
            if hit_now {
                return true;
            }
            k = k + 1;
        }
        false
    }
}


impl Grid {
    /// The effect of a neighborhood scan on the grid: the model is kept,
    /// the stamp generation advances (restarting at one after the last), and the
    /// stamps stay fresh.
    pub open spec fn scanned(old_g: &Grid, new_g: &Grid) -> bool {
        &&& new_g.wf()
        &&& new_g.view() == old_g.view()
        &&& new_g.zkeys() == old_g.zkeys()
        &&& new_g.hash_value() == old_g.hash_value()
        &&& new_g.fresh()
        &&& new_g.generation() == (if old_g.generation() < 0xFFFF_FFFF {
            old_g.generation() + 1
        } else {
            1
        })
    }

    /// Empty on-board points within Chebyshev distance `dist` of any of
    /// `stones`, without repeats.
    #[verifier::spinoff_prover]
    fn collect_neighbors(&mut self, stones: &Vec<(i32, i32)>, dist: i32) -> (out: Vec<(i32, i32)>)
        requires
            old(self).wf(),
            0 <= dist <= MAX_DIST,
            forall|j: int|
                0 <= j < stones@.len() ==> old(self).view().has((#[trigger] stones@[j]).0 as int, stones@[j].1 as int),
        ensures
            Grid::scanned(old(self), final(self)),
            out@.no_duplicates(),
            forall|k: int|
                0 <= k < out@.len() ==> final(self).view().empty((#[trigger] out@[k]).0 as int, out@[k].1 as int),
            forall|k: int| 0 <= k < out@.len() ==> near_one_of(stones@, #[trigger] out@[k], dist as int),
            final(self).fresh() ==> forall|p: (i32, i32), j: int|
                0 <= j < stones@.len() && final(self).view().empty(p.0 as int, p.1 as int) && GridModel::near(
                    p.0 as int,
                    p.1 as int,
                    (#[trigger] stones@[j]).0 as int,
                    stones@[j].1 as int,
                    dist as int,
                ) ==> #[trigger] out@.contains(p),
    {
        let ghost m = self.view();
        let ghost g0 = *self;
        if self.gen == 0xFFFF_FFFFu32 {
            self.reset_stamps();
        }
        self.gen = self.gen + 1;
        let gen = self.gen;
        proof {
            if g0.gen < 0xFFFF_FFFFu32 {
                assert(gen == g0.gen + 1);
            }
            {
                assert forall|p: (i32, i32)|
                    m.has(p.0 as int, p.1 as int) implies self.stamp@[cell_index(m.w, p.0 as int, p.1 as int)]
                        != gen by {
                    lemma_cell_index_bounds(m.w, m.h, p.0 as int, p.1 as int);
                }
            }
        }
        let mut out: Vec<(i32, i32)> = Vec::new();
        let n = stones.len();
        let mut i: usize = 0;
        while i < n
            invariant
                n == stones@.len(),
                i <= n,
                0 <= dist <= MAX_DIST,
                forall|j: int|
                    0 <= j < stones@.len() ==> m.has((#[trigger] stones@[j]).0 as int, stones@[j].1 as int),
                self.wf(),
                self.view() == m,
                self.gen == gen,
                Grid::scanned(&g0, self),
                out@.no_duplicates(),
                forall|k: int|
                    0 <= k < out@.len() ==> m.empty((#[trigger] out@[k]).0 as int, out@[k].1 as int)
                        && self.stamp@[cell_index(m.w, out@[k].0 as int, out@[k].1 as int)] == gen
                        && exists|j: int| #![trigger stones@[j]]
                        0 <= j < stones@.len() && GridModel::near(
                            out@[k].0 as int,
                            out@[k].1 as int,
                            stones@[j].0 as int,
                            stones@[j].1 as int,
                            dist as int,
                        ),
                self.fresh() ==> forall|p: (i32, i32)|
                    m.has(p.0 as int, p.1 as int) && self.stamp@[cell_index(m.w, p.0 as int, p.1 as int)]
                        == gen ==> #[trigger] out@.contains(p),
                self.fresh() ==> forall|p: (i32, i32), j: int|
                    #![trigger stones@[j], m.empty(p.0 as int, p.1 as int)]
                    0 <= j < i && m.empty(p.0 as int, p.1 as int) && GridModel::near(
                        p.0 as int,
                        p.1 as int,
                        stones@[j].0 as int,
                        stones@[j].1 as int,
                        dist as int,
                    ) ==> self.stamp@[cell_index(m.w, p.0 as int, p.1 as int)] == gen,
            decreases n - i,
        {
            let (sr, sc) = stones[i];
            let mut dr: i32 = -dist;
            while dr <= dist
                invariant
                    n == stones@.len(),
                    i < n,
                    0 <= dist <= MAX_DIST,
                    (sr, sc) == stones@[i as int],
                    -dist <= dr <= dist + 1,
                    forall|j: int|
                        0 <= j < stones@.len() ==> m.has((#[trigger] stones@[j]).0 as int, stones@[j].1 as int),
                    self.wf(),
                    self.view() == m,
                    self.gen == gen,
                    Grid::scanned(&g0, self),
                    out@.no_duplicates(),
                    forall|k: int|
                        0 <= k < out@.len() ==> m.empty((#[trigger] out@[k]).0 as int, out@[k].1 as int)
                            && self.stamp@[cell_index(m.w, out@[k].0 as int, out@[k].1 as int)] == gen
                            && exists|j: int| #![trigger stones@[j]]
                            0 <= j < stones@.len() && GridModel::near(
                                out@[k].0 as int,
                                out@[k].1 as int,
                                stones@[j].0 as int,
                                stones@[j].1 as int,
                                dist as int,
                            ),
                    self.fresh() ==> forall|p: (i32, i32)|
                        m.has(p.0 as int, p.1 as int) && self.stamp@[cell_index(m.w, p.0 as int, p.1 as int)]
                            == gen ==> #[trigger] out@.contains(p),
                    self.fresh() ==> forall|p: (i32, i32), j: int|
                        #![trigger stones@[j], m.empty(p.0 as int, p.1 as int)]
                        0 <= j < i && m.empty(p.0 as int, p.1 as int) && GridModel::near(
                            p.0 as int,
                            p.1 as int,
                            stones@[j].0 as int,
                            stones@[j].1 as int,
                            dist as int,
                        ) ==> self.stamp@[cell_index(m.w, p.0 as int, p.1 as int)] == gen,
                    self.fresh() ==> forall|p: (i32, i32)|
                        m.empty(p.0 as int, p.1 as int) && -dist <= p.0 - sr < dr && -dist <= p.1 - sc
                            <= dist ==> #[trigger] self.stamp@[cell_index(m.w, p.0 as int, p.1 as int)] == gen,
                decreases dist + 1 - dr,
            {
                let mut dc: i32 = -dist;
                while dc <= dist
                    invariant
                        n == stones@.len(),
                        i < n,
                        0 <= dist <= MAX_DIST,
                        (sr, sc) == stones@[i as int],
                        -dist <= dr <= dist,
                        -dist <= dc <= dist + 1,
                        forall|j: int|
                            0 <= j < stones@.len() ==> m.has((#[trigger] stones@[j]).0 as int, stones@[j].1 as int),
                        self.wf(),
                        self.view() == m,
                        self.gen == gen,
                        Grid::scanned(&g0, self),
                        out@.no_duplicates(),
                        forall|k: int|
                            0 <= k < out@.len() ==> m.empty((#[trigger] out@[k]).0 as int, out@[k].1 as int)
                                && self.stamp@[cell_index(m.w, out@[k].0 as int, out@[k].1 as int)] == gen
                                && exists|j: int| #![trigger stones@[j]]
                                0 <= j < stones@.len() && GridModel::near(
                                    out@[k].0 as int,
                                    out@[k].1 as int,
                                    stones@[j].0 as int,
                                    stones@[j].1 as int,
                                    dist as int,
                                ),
                        self.fresh() ==> forall|p: (i32, i32)|
                            m.has(p.0 as int, p.1 as int) && self.stamp@[cell_index(m.w, p.0 as int, p.1 as int)]
                                == gen ==> #[trigger] out@.contains(p),
                        self.fresh() ==> forall|p: (i32, i32), j: int|
                            #![trigger stones@[j], m.empty(p.0 as int, p.1 as int)]
                            0 <= j < i && m.empty(p.0 as int, p.1 as int) && GridModel::near(
                                p.0 as int,
                                p.1 as int,
                                stones@[j].0 as int,
                                stones@[j].1 as int,
                                dist as int,
                            ) ==> self.stamp@[cell_index(m.w, p.0 as int, p.1 as int)] == gen,
                        self.fresh() ==> forall|p: (i32, i32)|
                            m.empty(p.0 as int, p.1 as int) && ((-dist <= p.0 - sr < dr && -dist <= p.1 - sc
                                <= dist) || (p.0 - sr == dr && -dist <= p.1 - sc < dc)) ==> #[trigger] self.stamp@[cell_index(
                                m.w,
                                p.0 as int,
                                p.1 as int,
                            )] == gen,
                    decreases dist + 1 - dc,
                {
                    let r = sr + dr;
                    let c = sc + dc;
                    if self.code(r, c) == EMPTY {
                        let k = self.idx(r, c);
                        if self.stamp[k] != gen {
                            let ghost st0 = self.stamp@;
                            let ghost o0 = out@;
                            self.set_stamp(k, gen);
                            out.push((r, c));
                            proof {
                                assert(!o0.contains((r, c)));
                                assert forall|a: int, b: int| 0 <= a < b < out@.len() implies out@[a] != out@[b] by {
                                    if b == out@.len() - 1 {
                                        assert(o0[a] == out@[a]);
                                    }
                                }
                                assert forall|q: (i32, i32)|
                                    m.has(q.0 as int, q.1 as int) && (#[trigger] cell_index(m.w, q.0 as int, q.1 as int))
                                        != k as int implies self.stamp@[cell_index(m.w, q.0 as int, q.1 as int)] == st0[cell_index(m.w, q.0 as int, q.1 as int)] by {
                                    lemma_cell_index_bounds(m.w, m.h, q.0 as int, q.1 as int);
                                }
                                assert forall|q: (i32, i32)|
                                    m.has(q.0 as int, q.1 as int) && cell_index(m.w, q.0 as int, q.1 as int) == k as int implies q == (r, c) by {
                                    lemma_cell_index_injective(m.w, q.0 as int, q.1 as int, r as int, c as int);
                                }
                                assert forall|kk: int|
                                    0 <= kk < out@.len() implies m.empty((#[trigger] out@[kk]).0 as int, out@[kk].1 as int)
                                        && self.stamp@[cell_index(m.w, out@[kk].0 as int, out@[kk].1 as int)] == gen
                                        && exists|j: int| #![trigger stones@[j]]
                                        0 <= j < stones@.len() && GridModel::near(
                                            out@[kk].0 as int,
                                            out@[kk].1 as int,
                                            stones@[j].0 as int,
                                            stones@[j].1 as int,
                                            dist as int,
                                        ) by {
                                    if kk == out@.len() - 1 {
                                        assert(GridModel::near(r as int, c as int, stones@[i as int].0 as int, stones@[i as int].1 as int, dist as int));
                                    } else {
                                        assert(out@[kk] == o0[kk]);
                                        let q = o0[kk];
                                        lemma_cell_index_bounds(m.w, m.h, q.0 as int, q.1 as int);
                                    }
                                }
                                if self.fresh() {
                                    assert forall|q: (i32, i32)|
                                        m.has(q.0 as int, q.1 as int) && self.stamp@[cell_index(m.w, q.0 as int, q.1 as int)]
                                            == gen implies #[trigger] out@.contains(q) by {
                                        lemma_cell_index_bounds(m.w, m.h, q.0 as int, q.1 as int);
                                        if q == (r, c) {
                                            assert(out@[out@.len() - 1] == q);
                                        } else {
                                            if cell_index(m.w, q.0 as int, q.1 as int) == k as int {
                                                lemma_cell_index_injective(m.w, q.0 as int, q.1 as int, r as int, c as int);
                                            }
                                            assert(o0.contains(q));
                                            let t = choose|t: int| 0 <= t < o0.len() && o0[t] == q;
                                            assert(out@[t] == q);
                                        }
                                    }
                                }
                            }
                        }
                    }
                    dc = dc + 1;
                }
                dr = dr + 1;
            }
            i = i + 1;
        }
        proof {
            assert(self.view() == m);
            assert forall|k: int|
                0 <= k < out@.len() implies self.view().empty((#[trigger] out@[k]).0 as int, out@[k].1 as int)
                    && near_one_of(stones@, out@[k], dist as int) by {
                assert(m.empty(out@[k].0 as int, out@[k].1 as int));
            }
        }
        out
    }

    /// Clears every neighborhood stamp and restarts the generation count, so
    /// that the next scan starts from fresh stamps.
    fn reset_stamps(&mut self)
        requires
            old(self).wf(),
        ensures
            final(self).wf(),
            final(self).view() == old(self).view(),
            final(self).gen == 0,
            final(self).zkeys() == old(self).zkeys(),
            final(self).hash_value() == old(self).hash_value(),
            final(self).black == old(self).black,
            final(self).white == old(self).white,
    {
        let n = self.stamp.len();
        let mut k: usize = 0;
        while k < n
            invariant
                n == self.stamp@.len(),
                k <= n,
                self.wf(),
                self.view() == old(self).view(),
                self.gen == old(self).gen,
                self.keys == old(self).keys,
                self.zhash == old(self).zhash,
                self.black == old(self).black,
                self.white == old(self).white,
                forall|j: int| 0 <= j < k ==> #[trigger] self.stamp@[j] == 0,
            decreases n - k,
        {
            self.stamp.set(k, 0);
            k = k + 1;
        }
        self.gen = 0;
    }

    /// Sets one neighborhood stamp to the current generation.
    fn set_stamp(&mut self, k: usize, gen: u32)
        requires
            old(self).wf(),
            k < old(self).stamp@.len(),
            gen == old(self).gen,
        ensures
            final(self).wf(),
            final(self).view() == old(self).view(),
            final(self).stamp@ == old(self).stamp@.update(k as int, gen),
            final(self).gen == old(self).gen,
            final(self).fresh() == old(self).fresh(),
            final(self).generation() == old(self).generation(),
            final(self).zkeys() == old(self).zkeys(),
            final(self).hash_value() == old(self).hash_value(),
    {
        self.stamp.set(k, gen);
    }
}


/// `n` distinct win points of `color` exist on `m`; when `complete`, they
/// are all of them.
pub open spec fn counted(m: GridModel, color: u8, win: Win, n: int, complete: bool) -> bool {
    exists|ws: Seq<(i32, i32)>|
        #![trigger ws.len()]
        ws.len() == n && ws.no_duplicates() && (forall|k: int|
            0 <= k < ws.len() ==> m.win_point((#[trigger] ws[k]).0 as int, ws[k].1 as int, color, win))
            && (complete ==> forall|p: (i32, i32)|
            m.win_point(p.0 as int, p.1 as int, color, win) ==> #[trigger] ws.contains(p))
}

/// A weaker completeness flag keeps a count valid.
pub proof fn lemma_counted_weaken(m: GridModel, color: u8, win: Win, n: int, a: bool, b: bool)
    requires
        counted(m, color, win, n, a),
        b ==> a,
    ensures
        counted(m, color, win, n, b),
{
    let ws = choose|ws: Seq<(i32, i32)>|
        #![trigger ws.len()]
        ws.len() == n && ws.no_duplicates() && (forall|k: int|
            0 <= k < ws.len() ==> m.win_point((#[trigger] ws[k]).0 as int, ws[k].1 as int, color, win))
            && (a ==> forall|p: (i32, i32)|
            m.win_point(p.0 as int, p.1 as int, color, win) ==> #[trigger] ws.contains(p));
    assert(ws.len() == n);
}

/// Two counted win points are distinct points.
pub proof fn lemma_counted_two(m: GridModel, color: u8, win: Win, n: int, a: bool) -> (pq: ((i32, i32), (i32, i32)))
    requires
        counted(m, color, win, n, a),
        n >= 2,
    ensures
        pq.0 != pq.1,
        m.win_point(pq.0.0 as int, pq.0.1 as int, color, win),
        m.win_point(pq.1.0 as int, pq.1.1 as int, color, win),
{
    let ws = choose|ws: Seq<(i32, i32)>|
        #![trigger ws.len()]
        ws.len() == n && ws.no_duplicates() && (forall|k: int|
            0 <= k < ws.len() ==> m.win_point((#[trigger] ws[k]).0 as int, ws[k].1 as int, color, win))
            && (a ==> forall|p: (i32, i32)|
            m.win_point(p.0 as int, p.1 as int, color, win) ==> #[trigger] ws.contains(p));
    assert(m.win_point(ws[0].0 as int, ws[0].1 as int, color, win));
    assert(m.win_point(ws[1].0 as int, ws[1].1 as int, color, win));
    (ws[0], ws[1])
}

impl Grid {
    /// Copies a stone list into the scratch buffer.
    fn fill_scratch(&mut self, color: Option<u8>) -> (stones: Vec<(i32, i32)>)
        requires
            old(self).wf(),
        ensures
            final(self).wf(),
            final(self).view() == old(self).view(),
            final(self).fresh() == old(self).fresh(),
            final(self).generation() == old(self).generation(),
            final(self).zkeys() == old(self).zkeys(),
            final(self).hash_value() == old(self).hash_value(),
            color == Some(BLACK) ==> stones@ == old(self).black@,
            color == Some(WHITE) ==> stones@ == old(self).white@,
            color is None ==> stones@ == old(self).black@ + old(self).white@,
    {
        let mut scratch: Vec<(i32, i32)> = Vec::new();
        std::mem::swap(&mut scratch, &mut self.scratch);
        scratch.clear();
        let take_black = match color {
            Some(c) => c == BLACK,
            None => true,
        };
        let take_white = match color {
            Some(c) => c == WHITE,
            None => true,
        };
        if take_black {
            let n = self.black.len();
            let mut i: usize = 0;
            while i < n
                invariant
                    n == self.black@.len(),
                    i <= n,
                    scratch@ == self.black@.take(i as int),
                decreases n - i,
            {
                scratch.push(self.black[i]);
                i = i + 1;
                proof {
                    assert(scratch@ =~= self.black@.take(i as int));
                }
            }
            proof {
                assert(self.black@.take(n as int) =~= self.black@);
            }
        }
        let ghost base = scratch@;
        if take_white {
            let n = self.white.len();
            let mut i: usize = 0;
            while i < n
                invariant
                    n == self.white@.len(),
                    i <= n,
                    scratch@ == base + self.white@.take(i as int),
                decreases n - i,
            {
                scratch.push(self.white[i]);
                i = i + 1;
                proof {
                    assert(scratch@ =~= base + self.white@.take(i as int));
                }
            }
            proof {
                assert(self.white@.take(n as int) =~= self.white@);
            }
        }
        proof {
            if !take_white {
                assert(scratch@ =~= base);
            }
            if color is None {
                assert(scratch@ =~= self.black@ + self.white@);
            }
        }
        scratch
    }

    /// Empty points within Chebyshev distance `dist` of a `color` stone,
    /// without repeats.
    pub fn neighborhood_of(&mut self, color: u8, dist: i32) -> (out: Vec<(i32, i32)>)
        requires
            old(self).wf(),
            is_stone(color),
            0 <= dist <= MAX_DIST,
        ensures
            Grid::scanned(old(self), final(self)),
            out@.no_duplicates(),
            forall|k: int|
                0 <= k < out@.len() ==> old(self).view().empty((#[trigger] out@[k]).0 as int, out@[k].1 as int)
                    && old(self).view().near_color(out@[k].0 as int, out@[k].1 as int, color, dist as int),
            forall|p: (i32, i32)|
                old(self).view().empty(p.0 as int, p.1 as int) && old(self).view().near_color(
                    p.0 as int,
                    p.1 as int,
                    color,
                    dist as int,
                ) ==> #[trigger] out@.contains(p),
    {
        let ghost g0 = *self;
        let ghost m = self.view();
        let stones = self.fill_scratch(Some(color));
        let ghost l = if color == BLACK { g0.black@ } else { g0.white@ };
        assert(stones@ == l);
        assert(list_ok(l, m, color));
        let out = self.collect_neighbors(&stones, dist);
        self.scratch = stones;
        proof {
            assert forall|k: int|
                0 <= k < out@.len() implies m.empty((#[trigger] out@[k]).0 as int, out@[k].1 as int) && m.near_color(
                    out@[k].0 as int,
                    out@[k].1 as int,
                    color,
                    dist as int,
                ) by {
                let j = choose|j: int|
                    0 <= j < l.len() && GridModel::near(
                        out@[k].0 as int,
                        out@[k].1 as int,
                        l[j].0 as int,
                        l[j].1 as int,
                        dist as int,
                    );
                assert(m.has(l[j].0 as int, l[j].1 as int) && m.code(l[j].0 as int, l[j].1 as int) == color);
            }
            if self.fresh() {
                assert forall|p: (i32, i32)|
                    m.empty(p.0 as int, p.1 as int) && m.near_color(p.0 as int, p.1 as int, color, dist as int) implies #[trigger] out@.contains(p) by {
                    let (sr, sc) = choose|sr: int, sc: int|
                        #![trigger m.code(sr, sc)]
                        m.has(sr, sc) && m.code(sr, sc) == color && GridModel::near(
                            p.0 as int,
                            p.1 as int,
                            sr,
                            sc,
                            dist as int,
                        );
                    let q = (sr as i32, sc as i32);
                    assert(l.contains(q));
                    let j = choose|j: int| 0 <= j < l.len() && l[j] == q;
                    assert(stones@[j] == q);
                }
            }
        }
        out
    }

    /// Empty points within Chebyshev distance `dist` of any stone, without
    /// repeats: the move candidates of search and evaluation.
    pub fn neighborhood_all(&mut self, dist: i32) -> (out: Vec<(i32, i32)>)
        requires
            old(self).wf(),
            0 <= dist <= MAX_DIST,
        ensures
            Grid::scanned(old(self), final(self)),
            out@.no_duplicates(),
            forall|k: int|
                0 <= k < out@.len() ==> old(self).view().empty((#[trigger] out@[k]).0 as int, out@[k].1 as int)
                    && old(self).view().near_any(out@[k].0 as int, out@[k].1 as int, dist as int),
            forall|p: (i32, i32)|
                old(self).view().empty(p.0 as int, p.1 as int) && old(self).view().near_any(
                    p.0 as int,
                    p.1 as int,
                    dist as int,
                ) ==> #[trigger] out@.contains(p),
    {
        let ghost g0 = *self;
        let ghost m = self.view();
        let stones = self.fill_scratch(None);
        let ghost bl = g0.black@;
        let ghost wl = g0.white@;
        proof {
            assert forall|j: int| 0 <= j < stones@.len() implies m.has((#[trigger] stones@[j]).0 as int, stones@[j].1 as int)
                && is_stone(m.code(stones@[j].0 as int, stones@[j].1 as int)) by {
                if j < bl.len() {
                    assert(stones@[j] == bl[j]);
                } else {
                    assert(stones@[j] == wl[j - bl.len()]);
                }
            }
        }
        let out = self.collect_neighbors(&stones, dist);
        self.scratch = stones;
        proof {
            assert forall|k: int|
                0 <= k < out@.len() implies m.empty((#[trigger] out@[k]).0 as int, out@[k].1 as int) && m.near_any(
                    out@[k].0 as int,
                    out@[k].1 as int,
                    dist as int,
                ) by {
                let j = choose|j: int|
                    0 <= j < stones@.len() && GridModel::near(
                        out@[k].0 as int,
                        out@[k].1 as int,
                        stones@[j].0 as int,
                        stones@[j].1 as int,
                        dist as int,
                    );
                let q = stones@[j];
                assert(m.has(q.0 as int, q.1 as int));
                assert(is_stone(m.code(q.0 as int, q.1 as int)));
            }
            if self.fresh() {
                assert forall|p: (i32, i32)|
                    m.empty(p.0 as int, p.1 as int) && m.near_any(p.0 as int, p.1 as int, dist as int) implies #[trigger] out@.contains(p) by {
                    let color = if m.near_color(p.0 as int, p.1 as int, BLACK, dist as int) { BLACK } else { WHITE };
                    let (sr, sc) = choose|sr: int, sc: int|
                        #![trigger m.code(sr, sc)]
                        m.has(sr, sc) && m.code(sr, sc) == color && GridModel::near(
                            p.0 as int,
                            p.1 as int,
                            sr,
                            sc,
                            dist as int,
                        );
                    let q = (sr as i32, sc as i32);
                    if color == BLACK {
                        assert(bl.contains(q));
                        let j = choose|j: int| 0 <= j < bl.len() && bl[j] == q;
                        assert(stones@[j] == q);
                    } else {
                        assert(wl.contains(q));
                        let j = choose|j: int| 0 <= j < wl.len() && wl[j] == q;
                        assert(stones@[bl.len() + j] == q);
                    }
                }
            }
        }
        out
    }

    /// All win points of `color`: empty points where `color` wins at once.
    pub fn win_points(&mut self, color: u8, win: Win) -> (out: Vec<(i32, i32)>)
        requires
            old(self).wf(),
            is_stone(color),
        ensures
            Grid::scanned(old(self), final(self)),
            out@.no_duplicates(),
            forall|k: int|
                0 <= k < out@.len() ==> old(self).view().win_point((#[trigger] out@[k]).0 as int, out@[k].1 as int, color, win),
            forall|p: (i32, i32)|
                old(self).view().win_point(p.0 as int, p.1 as int, color, win) ==> #[trigger] out@.contains(p),
    {
        let ghost m = self.view();
        let nb = self.neighborhood_of(color, 2);
        let mut out: Vec<(i32, i32)> = Vec::new();
        let n = nb.len();
        let mut i: usize = 0;
        while i < n
            invariant
                self.wf(),
                self.view() == m,
                is_stone(color),
                n == nb@.len(),
                i <= n,
                nb@.no_duplicates(),
                forall|k: int| 0 <= k < nb@.len() ==> m.empty((#[trigger] nb@[k]).0 as int, nb@[k].1 as int),
                out@.no_duplicates(),
                forall|k: int| 0 <= k < out@.len() ==> m.win_point((#[trigger] out@[k]).0 as int, out@[k].1 as int, color, win),
                forall|k: int| 0 <= k < out@.len() ==> exists|t: int| 0 <= t < i && nb@[t] == #[trigger] out@[k],
                forall|t: int| 0 <= t < i && m.win_point((#[trigger] nb@[t]).0 as int, nb@[t].1 as int, color, win) ==> out@.contains(nb@[t]),
            decreases n - i,
        {
            let (r, c) = nb[i];
            if self.would_win(r, c, color, win) {
                let ghost o0 = out@;
                out.push((r, c));
                proof {
                    assert(!o0.contains((r, c))) by {
                        if o0.contains((r, c)) {
                            let k = choose|k: int| 0 <= k < o0.len() && o0[k] == (r, c);
                            let t = choose|t: int| 0 <= t < i && nb@[t] == o0[k];
                            assert(nb@[t] == nb@[i as int]);
                        }
                    }
                    assert forall|a: int, b: int| 0 <= a < b < out@.len() implies out@[a] != out@[b] by {
                        if b == out@.len() - 1 {
                            assert(out@[a] == o0[a]);
                        }
                    }
                    assert forall|k: int| 0 <= k < out@.len() implies exists|t: int| 0 <= t < i + 1 && nb@[t] == #[trigger] out@[k] by {
                        if k < o0.len() {
                            assert(out@[k] == o0[k]);
                            let t = choose|t: int| 0 <= t < i && nb@[t] == o0[k];
                        } else {
                            assert(nb@[i as int] == out@[k]);
                        }
                    }
                    assert forall|t: int| 0 <= t < i + 1 && m.win_point((#[trigger] nb@[t]).0 as int, nb@[t].1 as int, color, win) implies out@.contains(nb@[t]) by {
                        if t == i {
                            assert(out@[out@.len() - 1] == nb@[t]);
                        } else {
                            assert(o0.contains(nb@[t]));
                            let k = choose|k: int| 0 <= k < o0.len() && o0[k] == nb@[t];
                            assert(out@[k] == nb@[t]);
                        }
                    }
                }
            }
            i = i + 1;
        }
        proof {
            if self.fresh() {
                assert forall|p: (i32, i32)| m.win_point(p.0 as int, p.1 as int, color, win) implies #[trigger] out@.contains(p) by {
                    lemma_win_point_near(m, p.0 as int, p.1 as int, color, win);
                    let (sr, sc) = choose|sr: int, sc: int|
                        #![trigger m.code(sr, sc)]
                        m.has(sr, sc) && m.code(sr, sc) == color && GridModel::near(p.0 as int, p.1 as int, sr, sc, 1);
                    assert(m.near_color(p.0 as int, p.1 as int, color, 2));
                    assert(nb@.contains(p));
                    let t = choose|t: int| 0 <= t < nb@.len() && nb@[t] == p;
                }
            }
        }
        out
    }

    /// Whether `color` has a win point (short-circuiting).
    pub fn has_immediate_win(&mut self, color: u8, win: Win) -> (b: bool)
        requires
            old(self).wf(),
            is_stone(color),
        ensures
            Grid::scanned(old(self), final(self)),
            b ==> exists|p: (i32, i32)| #[trigger] old(self).view().win_point(p.0 as int, p.1 as int, color, win),
            !b ==> forall|p: (i32, i32)| !(#[trigger] old(self).view().win_point(p.0 as int, p.1 as int, color, win)),
    {
        let ghost m = self.view();
        let ghost g0 = *self;
        let nb = self.neighborhood_of(color, 2);
        let n = nb.len();
        let mut i: usize = 0;
        while i < n
            invariant
                self.wf(),
                self.view() == m,
                m == old(self).view(),
                g0 == *old(self),
                Grid::scanned(&g0, self),
                is_stone(color),
                n == nb@.len(),
                i <= n,
                forall|k: int| 0 <= k < nb@.len() ==> m.empty((#[trigger] nb@[k]).0 as int, nb@[k].1 as int),
                forall|t: int| 0 <= t < i ==> !m.win_point((#[trigger] nb@[t]).0 as int, nb@[t].1 as int, color, win),
            decreases n - i,
        {
            let (r, c) = nb[i];
            if self.would_win(r, c, color, win) {
                proof {
                    assert(m.win_point(nb@[i as int].0 as int, nb@[i as int].1 as int, color, win));
                }
                return true;
            }
            i = i + 1;
        }
        proof {
            if self.fresh() {
                assert forall|p: (i32, i32)| !(#[trigger] m.win_point(p.0 as int, p.1 as int, color, win)) by {
                    if m.win_point(p.0 as int, p.1 as int, color, win) {
                        lemma_win_point_near(m, p.0 as int, p.1 as int, color, win);
                        let (sr, sc) = choose|sr: int, sc: int|
                            #![trigger m.code(sr, sc)]
                            m.has(sr, sc) && m.code(sr, sc) == color && GridModel::near(p.0 as int, p.1 as int, sr, sc, 1);
                        assert(m.near_color(p.0 as int, p.1 as int, color, 2));
                        assert(nb@.contains(p));
                        let t = choose|t: int| 0 <= t < nb@.len() && nb@[t] == p;
                    }
                }
            }
        }
        false
    }

    /// The number of win points of `color`.
    pub fn count_win_points(&mut self, color: u8, win: Win) -> (n: u32)
        requires
            old(self).wf(),
            is_stone(color),
        ensures
            Grid::scanned(old(self), final(self)),
            counted(old(self).view(), color, win, n as int, true),
    {
        let ghost m = self.view();
        let wp = self.win_points(color, win);
        proof {
            self.lemma_wf();
            wp@.unique_seq_to_set();
            self.lemma_points_bounded(wp@);
            assert(counted(m, color, win, wp@.len() as int, self.fresh()));
        }
        wp.len() as u32
    }

    /// A list of distinct on-board points is no longer than the board.
    proof fn lemma_points_bounded(&self, l: Seq<(i32, i32)>)
        requires
            self.wf(),
            l.no_duplicates(),
            forall|k: int| 0 <= k < l.len() ==> self.view().has((#[trigger] l[k]).0 as int, l[k].1 as int),
        ensures
            l.len() <= self.w * self.h,
            l.len() <= 65025,
    {
        let f = |p: (i32, i32)| cell_index(self.w as int, p.0 as int, p.1 as int);
        let s = l.to_set();
        l.unique_seq_to_set();
        let dom = vstd::set_lib::set_int_range(0, self.w * self.h);
        assert forall|p: (i32, i32)| s.contains(p) implies dom.contains(f(p)) by {
            let k = choose|k: int| 0 <= k < l.len() && l[k] == p;
            lemma_cell_index_bounds(self.w as int, self.h as int, p.0 as int, p.1 as int);
        }
        assert forall|p: (i32, i32), q: (i32, i32)| s.contains(p) && s.contains(q) && f(p) == f(q) implies p == q by {
            let k = choose|k: int| 0 <= k < l.len() && l[k] == p;
            let j = choose|j: int| 0 <= j < l.len() && l[j] == q;
            lemma_cell_index_injective(self.w as int, p.0 as int, p.1 as int, q.0 as int, q.1 as int);
        }
        vstd::set_lib::lemma_int_range(0, self.w * self.h);
        vstd::set_lib::lemma_map_size(s, s.map(f), f);
        assert(s.map(f).subset_of(dom));
        vstd::set_lib::lemma_len_subset(s.map(f), dom);
        crate::model::board::lemma_u8_product(self.w as u8, self.h as u8);
    }

    /// The four moves of `color`: empty points near its stones that are not
    /// immediate wins and that, once played, add a win point `color` did not
    /// have, each with its number of win points after it (two or more is an
    /// open or double four).
    pub fn four_moves(&mut self, color: u8, win: Win) -> (out: Vec<((i32, i32), u32)>)
        requires
            old(self).wf(),
            is_stone(color),
        ensures
            final(self).wf(),
            final(self).view() == old(self).view(),
            final(self).zkeys() == old(self).zkeys(),
            final(self).hash_value() == old(self).hash_value(),
            final(self).fresh(),
            forall|k: int|
                0 <= k < out@.len() ==> {
                    let p = (#[trigger] out@[k]).0;
                    &&& old(self).view().empty(p.0 as int, p.1 as int)
                    &&& !old(self).view().wins_at(p.0 as int, p.1 as int, color, win)
                    &&& old(self).view().near_color(p.0 as int, p.1 as int, color, 2)
                    &&& out@[k].1 >= 1
                    &&& counted(
                        old(self).view().place(p.0 as int, p.1 as int, color),
                        color,
                        win,
                        out@[k].1 as int,
                        true,
                    )
                },
            (forall|q: (i32, i32)| !#[trigger] old(self).view().win_point(q.0 as int, q.1 as int, color, win)) ==> forall|
                p: (i32, i32),
            |
                old(self).view().empty(p.0 as int, p.1 as int) && old(self).view().near_color(p.0 as int, p.1 as int, color, 2)
                    && !old(self).view().wins_at(p.0 as int, p.1 as int, color, win) && (exists|q: (i32, i32)|
                    #[trigger] old(self).view().place(p.0 as int, p.1 as int, color).win_point(q.0 as int, q.1 as int, color, win))
                    ==> exists|k: int| 0 <= k < out@.len() && (#[trigger] out@[k]).0 == p,
            forall|a: int, b: int| 0 <= a < b < out@.len() ==> out@[a].0 != out@[b].0,
            forall|p: (i32, i32)|
                old(self).view().empty(p.0 as int, p.1 as int) && old(self).view().near_color(p.0 as int, p.1 as int, color, 2)
                    && !old(self).view().wins_at(p.0 as int, p.1 as int, color, win) && #[trigger] new_five(
                    old(self).view(),
                    p,
                    color,
                    win,
                ) ==> exists|k: int| 0 <= k < out@.len() && (#[trigger] out@[k]).0 == p,
            forall|k: int| 0 <= k < out@.len() ==> new_five(old(self).view(), (#[trigger] out@[k]).0, color, win),
    {
        let ghost m = self.view();
        let ghost g0 = *self;
        let known = self.win_points(color, win);
        let nb = self.neighborhood_of(color, 2);
        let ghost g_nb = *self;
        let mut out: Vec<((i32, i32), u32)> = Vec::new();
        let n = nb.len();
        let mut i: usize = 0;
        while i < n
            invariant
                self.wf(),
                self.view() == m,
                self.zkeys() == g0.zkeys(),
                self.hash_value() == g0.hash_value(),
                self.fresh() ==> g0.fresh(),
                is_stone(color),
                n == nb@.len(),
                i <= n,
                forall|k: int| 0 <= k < nb@.len() ==> m.empty((#[trigger] nb@[k]).0 as int, nb@[k].1 as int)
                    && m.near_color(nb@[k].0 as int, nb@[k].1 as int, color, 2),
                forall|k: int|
                    0 <= k < out@.len() ==> {
                        let p = (#[trigger] out@[k]).0;
                        &&& m.empty(p.0 as int, p.1 as int)
                        &&& !m.wins_at(p.0 as int, p.1 as int, color, win)
                        &&& m.near_color(p.0 as int, p.1 as int, color, 2)
                        &&& out@[k].1 >= 1
                        &&& counted(m.place(p.0 as int, p.1 as int, color), color, win, out@[k].1 as int, self.fresh())
                    },
                self.fresh() ==> g_nb.fresh(),
                g_nb.fresh() ==> forall|p: (i32, i32)|
                    m.empty(p.0 as int, p.1 as int) && m.near_color(p.0 as int, p.1 as int, color, 2) ==> #[trigger] nb@.contains(p),
                forall|j: int|
                    0 <= j < i && !m.wins_at((#[trigger] nb@[j]).0 as int, nb@[j].1 as int, color, win) && new_five(
                        m,
                        nb@[j],
                        color,
                        win,
                    ) ==> exists|k: int| 0 <= k < out@.len() && (#[trigger] out@[k]).0 == nb@[j],
                forall|k: int| 0 <= k < out@.len() ==> new_five(m, (#[trigger] out@[k]).0, color, win),
                forall|k: int| 0 <= k < known@.len() ==> m.win_point((#[trigger] known@[k]).0 as int, known@[k].1 as int, color, win),
                forall|q: (i32, i32)| m.win_point(q.0 as int, q.1 as int, color, win) ==> #[trigger] known@.contains(q),
                nb@.no_duplicates(),
                forall|k: int| 0 <= k < out@.len() ==> exists|j: int| 0 <= j < i && #[trigger] out@[k].0 == nb@[j],
                forall|a: int, b: int| 0 <= a < b < out@.len() ==> out@[a].0 != out@[b].0,
            decreases n - i,
        {
            let (r, c) = nb[i];
            let ghost o_prev = out@;
            if self.would_win(r, c, color, win) {
                proof {
                    assert forall|j: int|
                        0 <= j < i + 1 && !m.wins_at((#[trigger] nb@[j]).0 as int, nb@[j].1 as int, color, win) && new_five(
                            m,
                            nb@[j],
                            color,
                            win,
                        ) implies exists|k: int| 0 <= k < out@.len() && (#[trigger] out@[k]).0 == nb@[j] by {
                        if j == i {
                            assert(nb@[j] == (r, c));
                        }
                    }
                }
                i = i + 1;
                continue;
            }
            let ghost before = *self;
            self.place(r, c, color);
            let wins = self.count_win_points(color, win);
            let after = self.win_points(color, win);
            let adds = some_missing(&after, &known);
            proof {
                lemma_place_code(m, r as int, c as int, color);
                let m1 = m.place(r as int, c as int, color);
                if adds {
                    let k = choose|k: int| 0 <= k < after@.len() && !known@.contains(after@[k]);
                    assert(m1.win_point(after@[k].0 as int, after@[k].1 as int, color, win));
                    assert(!m.win_point(after@[k].0 as int, after@[k].1 as int, color, win));
                    assert(new_five(m, (r, c), color, win));
                }
                if new_five(m, (r, c), color, win) {
                    let q = choose|q: (i32, i32)|
                        #[trigger] m1.win_point(q.0 as int, q.1 as int, color, win) && !m.win_point(q.0 as int, q.1 as int, color, win);
                    assert(after@.contains(q));
                    assert(!known@.contains(q));
                    let k = choose|k: int| 0 <= k < after@.len() && after@[k] == q;
                    assert(adds);
                }
            }
            self.unplace(r, c, color);
            proof {
                lemma_place_code(m, r as int, c as int, color);
                let m1 = m.place(r as int, c as int, color);
                lemma_place_code(m1, r as int, c as int, EMPTY);
                assert(m1.place(r as int, c as int, EMPTY).cells =~= m.cells) by {
                    lemma_cell_index_bounds(m.w, m.h, r as int, c as int);
                }
                assert forall|k: int| 0 <= k < out@.len() implies counted(
                    m.place((#[trigger] out@[k]).0.0 as int, out@[k].0.1 as int, color),
                    color,
                    win,
                    out@[k].1 as int,
                    self.fresh(),
                ) by {
                    lemma_counted_weaken(
                        m.place(out@[k].0.0 as int, out@[k].0.1 as int, color),
                        color,
                        win,
                        out@[k].1 as int,
                        before.fresh(),
                        self.fresh(),
                    );
                }
            }
            proof {
                if self.fresh() && (exists|q: (i32, i32)|
                    #[trigger] m.place(r as int, c as int, color).win_point(q.0 as int, q.1 as int, color, win)) {
                    let q = choose|q: (i32, i32)|
                        #[trigger] m.place(r as int, c as int, color).win_point(q.0 as int, q.1 as int, color, win);
                    let ws = choose|ws: Seq<(i32, i32)>|
                        #![trigger ws.len()]
                        ws.len() == wins as int && ws.no_duplicates() && (forall|k: int|
                            0 <= k < ws.len() ==> m.place(r as int, c as int, color).win_point(
                                (#[trigger] ws[k]).0 as int,
                                ws[k].1 as int,
                                color,
                                win,
                            )) && (self.fresh() ==> forall|p: (i32, i32)|
                            m.place(r as int, c as int, color).win_point(p.0 as int, p.1 as int, color, win)
                                ==> #[trigger] ws.contains(p));
                    assert(ws.contains(q));
                    assert(wins >= 1);
                }
            }
            if wins >= 1 && adds {
                let ghost o0 = out@;
                out.push(((r, c), wins));
                proof {
                    assert forall|k: int| 0 <= k < out@.len() implies new_five(m, (#[trigger] out@[k]).0, color, win) by {
                        if k < o0.len() {
                            assert(out@[k] == o0[k]);
                        }
                    }
                    assert forall|k: int| 0 <= k < out@.len() implies exists|j: int| 0 <= j < i + 1 && #[trigger] out@[k].0 == nb@[j] by {
                        if k < o0.len() {
                            assert(out@[k] == o0[k]);
                            let j = choose|j: int| 0 <= j < i && #[trigger] o0[k].0 == nb@[j];
                        } else {
                            assert(out@[k].0 == nb@[i as int]);
                        }
                    }
                    assert forall|a: int, b: int| 0 <= a < b < out@.len() implies out@[a].0 != out@[b].0 by {
                        if b < o0.len() {
                            assert(out@[a] == o0[a] && out@[b] == o0[b]);
                        } else {
                            assert(out@[a] == o0[a]);
                            let j = choose|j: int| 0 <= j < i && #[trigger] o0[a].0 == nb@[j];
                            assert(nb@[j] != nb@[i as int]);
                        }
                    }
                }
                proof {
                    assert forall|k: int|
                        0 <= k < out@.len() implies {
                            let p = (#[trigger] out@[k]).0;
                            &&& m.empty(p.0 as int, p.1 as int)
                            &&& !m.wins_at(p.0 as int, p.1 as int, color, win)
                            &&& m.near_color(p.0 as int, p.1 as int, color, 2)
                            &&& out@[k].1 >= 1
                            &&& counted(m.place(p.0 as int, p.1 as int, color), color, win, out@[k].1 as int, self.fresh())
                        } by {
                        if k < o0.len() {
                            assert(out@[k] == o0[k]);
                        }
                    }
                }
            }
            proof {
                if self.fresh() {
                    assert forall|j: int|
                        0 <= j < i + 1 && !m.wins_at((#[trigger] nb@[j]).0 as int, nb@[j].1 as int, color, win) && new_five(
                            m,
                            nb@[j],
                            color,
                            win,
                        ) implies exists|k: int| 0 <= k < out@.len() && (#[trigger] out@[k]).0 == nb@[j] by {
                        if j < i {
                            assert(before.fresh());
                            let k = choose|k: int| 0 <= k < o_prev.len() && (#[trigger] o_prev[k]).0 == nb@[j];
                            assert(out@[k] == o_prev[k]);
                        } else {
                            assert(nb@[j] == (r, c));
                            assert(out@[out@.len() - 1].0 == (r, c));
                        }
                    }
                }
            }
            i = i + 1;
        }
        proof {
            assert forall|p: (i32, i32)|
                m.empty(p.0 as int, p.1 as int) && m.near_color(p.0 as int, p.1 as int, color, 2) && !m.wins_at(
                    p.0 as int,
                    p.1 as int,
                    color,
                    win,
                ) && #[trigger] new_five(m, p, color, win) implies exists|k: int|
                0 <= k < out@.len() && (#[trigger] out@[k]).0 == p by {
                assert(nb@.contains(p));
                let j = choose|j: int| 0 <= j < nb@.len() && nb@[j] == p;
                assert(nb@[j] == p);
            }
            if forall|q: (i32, i32)| !#[trigger] m.win_point(q.0 as int, q.1 as int, color, win) {
                assert forall|p: (i32, i32)|
                    m.empty(p.0 as int, p.1 as int) && m.near_color(p.0 as int, p.1 as int, color, 2) && !m.wins_at(
                        p.0 as int,
                        p.1 as int,
                        color,
                        win,
                    ) && (exists|q: (i32, i32)|
                        #[trigger] m.place(p.0 as int, p.1 as int, color).win_point(q.0 as int, q.1 as int, color, win))
                        implies exists|k: int| 0 <= k < out@.len() && (#[trigger] out@[k]).0 == p by {
                    let q = choose|q: (i32, i32)|
                        #[trigger] m.place(p.0 as int, p.1 as int, color).win_point(q.0 as int, q.1 as int, color, win);
                    assert(!m.win_point(q.0 as int, q.1 as int, color, win));
                    assert(new_five(m, p, color, win));
                }
            }
        }
        out
    }
}

/// The seed of the Zobrist key stream.
pub const KEY_SEED: u64 = 0x5141_4E54_4152_4100;
/// The increment of the Zobrist key stream (splitmix64).
pub const KEY_GAMMA: u64 = 0x9E37_79B9_7F4A_7C15;

/// The splitmix64 output function.
pub open spec fn mix64(x: u64) -> u64 {
    let z1 = (x ^ (x >> 30u64)).wrapping_mul(0xBF58_476D_1CE4_E5B9u64);
    let z2 = (z1 ^ (z1 >> 27u64)).wrapping_mul(0x94D0_49BB_1331_11EBu64);
    z2 ^ (z2 >> 31u64)
}

/// The splitmix64 state after `n` steps from [`KEY_SEED`].
pub open spec fn key_state(n: nat) -> u64
    decreases n,
{
    if n == 0 {
        KEY_SEED
    } else {
        key_state((n - 1) as nat).wrapping_add(KEY_GAMMA)
    }
}

/// The first `n` Zobrist keys: a fixed stream, the same in every process.
pub open spec fn key_seq(n: nat) -> Seq<u64>
    decreases n,
{
    if n == 0 {
        Seq::empty()
    } else {
        key_seq((n - 1) as nat).push(mix64(key_state(n)))
    }
}

pub proof fn lemma_key_seq_len(n: nat)
    ensures
        key_seq(n).len() == n,
    decreases n,
{
    if n > 0 {
        lemma_key_seq_len((n - 1) as nat);
    }
}

fn mix(x: u64) -> (r: u64)
    ensures
        r == mix64(x),
{
    let z1 = (x ^ (x >> 30u64)).wrapping_mul(0xBF58_476D_1CE4_E5B9u64);
    let z2 = (z1 ^ (z1 >> 27u64)).wrapping_mul(0x94D0_49BB_1331_11EBu64);
    z2 ^ (z2 >> 31u64)
}

/// A stone of `color` lies on one of the four lines through `(r, c)`, within
/// four points of it, where `color` wins at once (five or more in a row).
pub open spec fn line_threat(m: GridModel, r: int, c: int, color: u8) -> bool {
    exists|k: int, t: int|
        0 <= k < 4 && -4 <= t <= 4 && #[trigger] m.win_point(
            step(r, dir_r(k), t),
            step(c, dir_c(k), t),
            color,
            Win::Overline,
        )
}

/// A move and its undo leave the cells and the hash as they were.
pub proof fn lemma_make_unmake(keys: Seq<u64>, m: GridModel, r: int, c: int, color: u8)
    requires
        m.w >= 0,
        m.cells.len() == m.w * m.h,
        m.empty(r, c),
    ensures
        m.place(r, c, color).place(r, c, EMPTY) == m,
        zobrist(keys, m.place(r, c, color).place(r, c, EMPTY).cells, m.cells.len()) == zobrist(
            keys,
            m.cells,
            m.cells.len(),
        ),
{
    lemma_cell_index_bounds(m.w, m.h, r, c);
    let i = cell_index(m.w, r, c);
    assert(m.place(r, c, color).place(r, c, EMPTY).cells =~= m.cells);
}

/// Two searching grids over the same cells, keyed alike, hash alike: the
/// hash is a function of the position.
pub proof fn lemma_hash_positional(a: &Grid, b: &Grid)
    requires
        a.searching(),
        b.searching(),
        a.zkeys() == b.zkeys(),
        a.view().cells == b.view().cells,
    ensures
        a.hash_value() == b.hash_value(),
{
}

/// The first `n` Zobrist keys of the fixed stream.
pub fn key_stream(n: usize) -> (keys: Vec<u64>)
    ensures
        keys@ == key_seq(n as nat),
{
    let mut keys: Vec<u64> = Vec::new();
    let mut st: u64 = KEY_SEED;
    let mut i: usize = 0;
    while i < n
        invariant
            i <= n,
            st == key_state(i as nat),
            keys@ == key_seq(i as nat),
        decreases n - i,
    {
        st = st.wrapping_add(KEY_GAMMA);
        keys.push(mix(st));
        i = i + 1;
    }
    keys
}

/// `m` holds the board `b`: the same size and, point by point, the same
/// stones.
pub open spec fn mirrors(m: GridModel, b: Board) -> bool {
    &&& m.w == b.w()
    &&& m.h == b.h()
    &&& forall|r: int, c: int| b.has(r, c) ==> m.code(r, c) == cell_code(#[trigger] b.at(r, c))
}

impl Grid {
    /// Prepares the grid for [`Grid::make`] / [`Grid::unmake`]: fills the
    /// Zobrist keys (a fixed splitmix64 stream, two per point) and hashes
    /// the current cells from scratch.
    pub fn prepare_search(&mut self)
        requires
            old(self).wf(),
        ensures
            final(self).wf(),
            final(self).view() == old(self).view(),
            final(self).searching(),
            final(self).zkeys() == key_seq(2 * old(self).view().cells.len()),
            final(self).fresh() == old(self).fresh(),
            final(self).generation() == old(self).generation(),
    {
        proof {
            self.lemma_wf();
            assert(self.cells@.len() <= 255 * 255) by (nonlinear_arith)
                requires
                    self.cells@.len() == self.w * self.h,
                    0 <= self.w <= 255,
                    0 <= self.h <= 255,
            ;
        }
        let n = self.cells.len();
        let keys = key_stream(2 * n);
        proof {
            lemma_key_seq_len((2 * n) as nat);
        }
        let mut h: u64 = 0;
        let mut j: usize = 0;
        while j < n
            invariant
                n == self.cells@.len(),
                n <= 255 * 255,
                keys@.len() == 2 * n,
                j <= n,
                h == zobrist(keys@, self.cells@, j as nat),
                forall|t: int| 0 <= t < self.cells@.len() ==> #[trigger] self.cells@[t] <= 2,
            decreases n - j,
        {
            let v = self.cells[j];
            if v == BLACK {
                h = h ^ keys[2 * j];
            } else if v == WHITE {
                h = h ^ keys[2 * j + 1];
            } else {
                proof {
                    lemma_xor_swap(h, 0, 0);
                }
            }
            j = j + 1;
        }
        self.keys = keys;
        self.zhash = h;
    }

    /// The position hash maintained by [`Grid::make`] / [`Grid::unmake`].
    pub fn hash(&self) -> (h: u64)
        ensures
            h == self.hash_value(),
    {
        self.zhash
    }

    /// Plays `color` on the empty point `(r, c)` and updates the hash.
    pub fn make(&mut self, r: i32, c: i32, color: u8)
        requires
            old(self).wf(),
            old(self).searching(),
            old(self).view().empty(r as int, c as int),
            is_stone(color),
        ensures
            final(self).wf(),
            final(self).searching(),
            final(self).view() == old(self).view().place(r as int, c as int, color),
            final(self).zkeys() == old(self).zkeys(),
            final(self).hash_value() == old(self).hash_value() ^ key_of(
                old(self).zkeys(),
                cell_index(old(self).view().w, r as int, c as int),
                color,
            ),
            final(self).fresh() == old(self).fresh(),
            final(self).generation() == old(self).generation(),
    {
        let ghost m = self.view();
        proof {
            self.lemma_wf();
            assert(self.cells@.len() <= 255 * 255) by (nonlinear_arith)
                requires
                    self.cells@.len() == self.w * self.h,
                    0 <= self.w <= 255,
                    0 <= self.h <= 255,
            ;
        }
        let i = self.idx(r, c);
        let k = if color == BLACK {
            self.keys[2 * i]
        } else {
            self.keys[2 * i + 1]
        };
        self.place(r, c, color);
        self.zhash = self.zhash ^ k;
        proof {
            lemma_zobrist_update(self.keys@, m.cells, i as int, color, m.cells.len());
            lemma_xor_swap(zobrist(self.keys@, m.cells, m.cells.len()), 0, 0);
        }
    }

    /// Removes the `color` stone at `(r, c)` (undoes [`Grid::make`]).
    pub fn unmake(&mut self, r: i32, c: i32, color: u8)
        requires
            old(self).wf(),
            old(self).searching(),
            old(self).view().has(r as int, c as int),
            old(self).view().code(r as int, c as int) == color,
            is_stone(color),
        ensures
            final(self).wf(),
            final(self).searching(),
            final(self).view() == old(self).view().place(r as int, c as int, EMPTY),
            final(self).zkeys() == old(self).zkeys(),
            final(self).hash_value() == old(self).hash_value() ^ key_of(
                old(self).zkeys(),
                cell_index(old(self).view().w, r as int, c as int),
                color,
            ),
            final(self).fresh() == old(self).fresh(),
            final(self).generation() == old(self).generation(),
    {
        let ghost m = self.view();
        proof {
            self.lemma_wf();
            assert(self.cells@.len() <= 255 * 255) by (nonlinear_arith)
                requires
                    self.cells@.len() == self.w * self.h,
                    0 <= self.w <= 255,
                    0 <= self.h <= 255,
            ;
        }
        let i = self.idx(r, c);
        let k = if color == BLACK {
            self.keys[2 * i]
        } else {
            self.keys[2 * i + 1]
        };
        self.unplace(r, c, color);
        self.zhash = self.zhash ^ k;
        proof {
            lemma_zobrist_update(self.keys@, m.cells, i as int, EMPTY, m.cells.len());
            lemma_xor_swap(zobrist(self.keys@, m.cells, m.cells.len()) ^ k, 0, 0);
        }
    }

    /// Whether `color` now has a point on the four lines through `(r, c)`,
    /// within four points of it, where it wins at once (five or more).
    pub fn creates_threat(&self, r: i32, c: i32, color: u8) -> (b: bool)
        requires
            self.wf(),
            self.view().has(r as int, c as int),
            is_stone(color),
        ensures
            b == line_threat(self.view(), r as int, c as int, color),
    {
        let ghost m = self.view();
        proof {
            self.lemma_wf();
        }
        let mut k: usize = 0;
        while k < 4
            invariant
                self.wf(),
                m == self.view(),
                m.has(r as int, c as int),
                0 <= m.w <= 255,
                0 <= m.h <= 255,
                is_stone(color),
                k <= 4,
                forall|kk: int, t: int|
                    0 <= kk < k && -4 <= t <= 4 ==> !#[trigger] m.win_point(
                        step(r as int, dir_r(kk), t),
                        step(c as int, dir_c(kk), t),
                        color,
                        Win::Overline,
                    ),
            decreases 4 - k,
        {
            let (dr, dc) = dir(k);
            let mut t: i32 = -4;
            while t <= 4
                invariant
                    self.wf(),
                    m == self.view(),
                    m.has(r as int, c as int),
                    0 <= m.w <= 255,
                    0 <= m.h <= 255,
                    is_stone(color),
                    k < 4,
                    dr == dir_r(k as int),
                    dc == dir_c(k as int),
                    -4 <= t <= 5,
                    forall|kk: int, tt: int|
                        0 <= kk < k && -4 <= tt <= 4 ==> !#[trigger] m.win_point(
                            step(r as int, dir_r(kk), tt),
                            step(c as int, dir_c(kk), tt),
                            color,
                            Win::Overline,
                        ),
                    forall|tt: int|
                        -4 <= tt < t ==> !#[trigger] m.win_point(
                            step(r as int, dir_r(k as int), tt),
                            step(c as int, dir_c(k as int), tt),
                            color,
                            Win::Overline,
                        ),
                decreases 5 - t,
            {
                let (qr, qc) = if t >= 0 {
                    (step_i32(r, dr, t), step_i32(c, dc, t))
                } else {
                    (step_i32(r, -dr, -t), step_i32(c, -dc, -t))
                };
                proof {
                    assert(qr == step(r as int, dr as int, t as int));
                    assert(qc == step(c as int, dc as int, t as int));
                }
                if self.code(qr, qc) == EMPTY {
                    if self.would_win(qr, qc, color, Win::Overline) {
                        proof {
                            assert(m.win_point(
                                step(r as int, dir_r(k as int), t as int),
                                step(c as int, dir_c(k as int), t as int),
                                color,
                                Win::Overline,
                            ));
                        }
                        return true;
                    }
                }
                t = t + 1;
            }
            k = k + 1;
        }
        false
    }
}

/// Removes `p` from a list that holds it at most once.
fn remove_pos(list: &mut Vec<(i32, i32)>, p: (i32, i32))
    requires
        old(list)@.no_duplicates(),
        old(list)@.contains(p),
    ensures
        final(list)@.no_duplicates(),
        forall|q: (i32, i32)| #[trigger] final(list)@.contains(q) <==> (old(list)@.contains(q) && q != p),
{
    let n = list.len();
    let mut i = n;
    while i > 0 && !(list[i - 1].0 == p.0 && list[i - 1].1 == p.1)
        invariant
            i <= n == list@.len(),
            forall|j: int| i <= j < n ==> list@[j] != p,
        decreases i,
    {
        i = i - 1;
    }
    if i == 0 {
        proof {
            let k = choose|k: int| 0 <= k < n && list@[k] == p;
        }
        return;
    }
    let ghost l0 = list@;
    let _ = list.swap_remove(i - 1);
    proof {
        let j = i - 1;
        assert forall|q: (i32, i32)| #[trigger] list@.contains(q) <==> (l0.contains(q) && q != p) by {
            if list@.contains(q) {
                let k = choose|k: int| 0 <= k < list@.len() && list@[k] == q;
                if k == j {
                    assert(q == l0.last());
                    assert(l0[l0.len() - 1] == q);
                    assert(l0.len() - 1 != j);
                } else {
                    assert(l0[k] == q);
                    assert(k != j);
                }
            }
            if l0.contains(q) && q != p {
                let k = choose|k: int| 0 <= k < l0.len() && l0[k] == q;
                assert(k != j);
                if k == l0.len() - 1 {
                    assert(list@[j] == q);
                } else {
                    assert(list@[k] == q);
                }
            }
        }
        assert(list@.no_duplicates()) by {
            assert forall|a: int, b: int| 0 <= a < b < list@.len() implies list@[a] != list@[b] by {
                let la = if a == j { l0.len() - 1 } else { a };
                let lb = if b == j { l0.len() - 1 } else { b };
                assert(list@[a] == l0[la]);
                assert(list@[b] == l0[lb]);
            }
        }
    }
}

} // verus!
