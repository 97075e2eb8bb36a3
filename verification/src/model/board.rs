use vstd::prelude::*;

use super::color::Color;
use super::position::Position;

verus! {

/// The state of one intersection.
#[derive(Debug, Clone, Copy, PartialEq, Eq, Structural)]
pub enum Cell {
    Empty,
    Stone(Color),
}

/// A `width x height` grid of intersections. Stones, once placed, never
/// move, flip or leave the board. `row` ranges over `0..height` and `col`
/// over `0..width`.
#[derive(Debug, PartialEq, Eq)]
pub struct Board {
    width: u8,
    height: u8,
    cells: Vec<Cell>,
}

/// The product of two `u8` values fits comfortably in a `usize`.
pub proof fn lemma_u8_product(a: u8, b: u8)
    by (nonlinear_arith)
    ensures
        0 <= (a as int) * (b as int) <= 255 * 255,
{
}

/// Row-major index of `(r, c)` on a board `w` columns wide.
pub open spec fn cell_index(w: int, r: int, c: int) -> int {
    r * w + c
}

/// A row-major index of an in-bounds point stays inside the cell array.
pub proof fn lemma_cell_index_bounds(w: int, h: int, r: int, c: int)
    by (nonlinear_arith)
    requires
        0 <= r < h,
        0 <= c < w,
    ensures
        0 <= cell_index(w, r, c) < w * h,
        cell_index(w, r, c) + 1 <= (r + 1) * w,
        r * w <= cell_index(w, r, c),
{
}

/// Distinct in-bounds points have distinct row-major indices.
pub proof fn lemma_cell_index_injective(w: int, r1: int, c1: int, r2: int, c2: int)
    requires
        0 <= c1 < w,
        0 <= c2 < w,
        0 <= r1,
        0 <= r2,
        cell_index(w, r1, c1) == cell_index(w, r2, c2),
    ensures
        r1 == r2,
        c1 == c2,
{
    if r1 < r2 {
        assert(r1 * w + w <= r2 * w) by (nonlinear_arith)
            requires
                r1 < r2,
                0 <= w,
        ;
    } else if r2 < r1 {
        assert(r2 * w + w <= r1 * w) by (nonlinear_arith)
            requires
                r2 < r1,
                0 <= w,
        ;
    }
}

impl Clone for Board {
    fn clone(&self) -> (r: Self)
        ensures
            r.w() == self.w(),
            r.h() == self.h(),
            forall|i: int, j: int| r.at(i, j) == self.at(i, j),
    {
        proof {
            use_type_invariant(self);
        }
        let cells = self.cells.clone();
        proof {
            assert(cells@ =~= self.cells@);
        }
        Board { width: self.width, height: self.height, cells }
    }
}

impl Board {
    #[verifier::type_invariant]
    spec fn well_formed(self) -> bool {
        self.cells@.len() == self.width * self.height
    }

    /// Number of columns.
    pub closed spec fn w(&self) -> int {
        self.width as int
    }

    /// Number of rows.
    pub closed spec fn h(&self) -> int {
        self.height as int
    }

    /// The intersection at row `r`, column `c` (meaningful in bounds).
    pub closed spec fn at(&self, r: int, c: int) -> Cell {
        self.cells@[cell_index(self.width as int, r, c)]
    }

    /// Whether `(r, c)` lies on the board.
    pub open spec fn has(&self, r: int, c: int) -> bool {
        0 <= r < self.h() && 0 <= c < self.w()
    }

    /// Whether `(r, c)` lies on the board and holds no stone.
    pub open spec fn empty_at(&self, r: int, c: int) -> bool {
        self.has(r, c) && self.at(r, c) == Cell::Empty
    }

    /// Whether every intersection holds a stone.
    pub open spec fn full(&self) -> bool {
        forall|r: int, c: int| self.has(r, c) ==> self.at(r, c) != Cell::Empty
    }

    /// The dimensions are those of a `u8`-sized board.
    pub proof fn lemma_dims(&self)
        ensures
            0 <= self.w() <= 255,
            0 <= self.h() <= 255,
    {
    }

    /// An empty `width x height` board.
    pub fn rect(width: u8, height: u8) -> (r: Self)
        ensures
            r.w() == width,
            r.h() == height,
            forall|i: int, j: int| r.has(i, j) ==> r.at(i, j) == Cell::Empty,
    {
        proof {
            lemma_u8_product(width, height);
        }
        let n: usize = (width as usize) * (height as usize);
        let cells = vec![Cell::Empty; n];
        let r = Self { width, height, cells };
        assert forall|i: int, j: int| r.has(i, j) implies r.at(i, j) == Cell::Empty by {
            lemma_cell_index_bounds(width as int, height as int, i, j);
        }
        r
    }

    /// An empty `size x size` board.
    pub fn square(size: u8) -> (r: Self)
        ensures
            r.w() == size,
            r.h() == size,
            forall|i: int, j: int| r.has(i, j) ==> r.at(i, j) == Cell::Empty,
    {
        Self::rect(size, size)
    }

    pub fn width(&self) -> (r: u8)
        ensures
            r == self.w(),
    {
        self.width
    }

    pub fn height(&self) -> (r: u8)
        ensures
            r == self.h(),
    {
        self.height
    }

    /// The side of a square board; `None` for a board that is not square.
    pub fn square_size(&self) -> (r: Option<u8>)
        ensures
            r == (if self.w() == self.h() { Some(self.w() as u8) } else { None::<u8> }),
    {
        if self.width == self.height {
            Some(self.width)
        } else {
            None
        }
    }

    pub fn in_bounds(&self, pos: Position) -> (r: bool)
        ensures
            r == self.has(pos.row as int, pos.col as int),
    {
        pos.col < self.width && pos.row < self.height
    }

    fn index(&self, pos: Position) -> (r: usize)
        requires
            self.has(pos.row as int, pos.col as int),
        ensures
            r == cell_index(self.w(), pos.row as int, pos.col as int),
            r < self.cells@.len(),
    {
        proof {
            use_type_invariant(self);
            lemma_cell_index_bounds(self.width as int, self.height as int, pos.row as int, pos.col as int);
            lemma_u8_product(self.width, self.height);
        }
        (pos.row as usize) * (self.width as usize) + (pos.col as usize)
    }

    /// The state of `pos`; `None` off the board.
    pub fn get(&self, pos: Position) -> (r: Option<Cell>)
        ensures
            r == (if self.has(pos.row as int, pos.col as int) {
                Some(self.at(pos.row as int, pos.col as int))
            } else {
                None::<Cell>
            }),
    {
        if self.in_bounds(pos) {
            Some(self.cells[self.index(pos)])
        } else {
            None
        }
    }

    /// Sets the state of `pos`. A position off the board is ignored.
    pub fn set(&mut self, pos: Position, cell: Cell)
        ensures
            final(self).w() == old(self).w(),
            final(self).h() == old(self).h(),
            forall|r: int, c: int|
                final(self).has(r, c) ==> #[trigger] final(self).at(r, c) == (if old(self).has(
                    pos.row as int,
                    pos.col as int,
                ) && r == pos.row && c == pos.col {
                    cell
                } else {
                    old(self).at(r, c)
                }),
    {
        proof {
            use_type_invariant(&*self);
        }
        if self.in_bounds(pos) {
            let i = self.index(pos);
            let ghost before = *self;
            let mut taken = Board { width: 0, height: 0, cells: Vec::new() };
            std::mem::swap(self, &mut taken);
            let Board { width, height, mut cells } = taken;
            cells.set(i, cell);
            *self = Board { width, height, cells };
            proof {
                assert forall|r: int, c: int| self.has(r, c) implies #[trigger] self.at(r, c) == (
                if r == pos.row && c == pos.col {
                    cell
                } else {
                    before.at(r, c)
                }) by {
                    lemma_cell_index_bounds(self.width as int, self.height as int, r, c);
                    if cell_index(self.width as int, r, c) == i as int {
                        lemma_cell_index_injective(
                            self.width as int,
                            r,
                            c,
                            pos.row as int,
                            pos.col as int,
                        );
                    }
                }
            }
        }
    }

    pub fn is_empty_at(&self, pos: Position) -> (r: bool)
        ensures
            r == self.empty_at(pos.row as int, pos.col as int),
    {
        match self.get(pos) {
            Some(Cell::Empty) => true,
            _ => false,
        }
    }

    /// The color of the stone at `pos`; `None` for an empty point or off the board.
    pub fn stone_at(&self, pos: Position) -> (r: Option<Color>)
        ensures
            r == (if self.has(pos.row as int, pos.col as int) {
                match self.at(pos.row as int, pos.col as int) {
                    Cell::Stone(c) => Some(c),
                    Cell::Empty => None::<Color>,
                }
            } else {
                None::<Color>
            }),
    {
        match self.get(pos) {
            Some(Cell::Stone(c)) => Some(c),
            _ => None,
        }
    }

    /// Whether no intersection is empty.
    pub fn is_full(&self) -> (r: bool)
        ensures
            r == self.full(),
    {
        proof {
            use_type_invariant(self);
        }
        let n = self.cells.len();
        let mut i: usize = 0;
        while i < n
            invariant
                n == self.cells@.len(),
                self.cells@.len() == self.width * self.height,
                i <= n,
                forall|k: int| 0 <= k < i ==> self.cells@[k] != Cell::Empty,
            decreases n - i,
        {
            if let Cell::Empty = self.cells[i] {
                proof {
                    self.lemma_index_point(i as int);
                }
                return false;
            }
            i = i + 1;
        }
        assert forall|r: int, c: int| self.has(r, c) implies self.at(r, c) != Cell::Empty by {
            lemma_cell_index_bounds(self.width as int, self.height as int, r, c);
        }
        true
    }

    /// Every cell index names an in-bounds point.
    proof fn lemma_index_point(&self, i: int)
        requires
            0 <= i < self.cells@.len(),
            self.cells@.len() == self.width * self.height,
        ensures
            self.has(i / (self.width as int), i % (self.width as int)),
            self.at(i / (self.width as int), i % (self.width as int)) == self.cells@[i],
    {
        let w = self.width as int;
        let h = self.height as int;
        assert(w > 0) by (nonlinear_arith)
            requires
                0 <= i < w * h,
                w >= 0,
                h >= 0,
        ;
        assert(i / w < h) by (nonlinear_arith)
            requires
                0 <= i < w * h,
                w > 0,
        ;
        assert(i == (i / w) * w + i % w) by (nonlinear_arith)
            requires
                w > 0,
        ;
        assert(0 <= i / w) by (nonlinear_arith)
            requires
                w > 0,
                i >= 0,
        ;
    }

    /// All empty intersections, in row-major order (row first, then column).
    pub fn empty_positions(&self) -> (r: Vec<Position>)
        ensures
            forall|p: Position| r@.contains(p) <==> self.empty_at(p.row as int, p.col as int),
            forall|i: int, j: int|
                0 <= i < j < r@.len() ==> cell_index(self.w(), r@[i].row as int, r@[i].col as int)
                    < cell_index(self.w(), r@[j].row as int, r@[j].col as int),
    {
        let mut out: Vec<Position> = Vec::new();
        let mut row: u8 = 0;
        while row < self.height
            invariant
                row <= self.h(),
                forall|p: Position| #[trigger]
                    out@.contains(p) <==> (self.empty_at(p.row as int, p.col as int) && p.row
                        < row),
                forall|i: int, j: int|
                    0 <= i < j < out@.len() ==> cell_index(
                        self.w(),
                        out@[i].row as int,
                        out@[i].col as int,
                    ) < cell_index(self.w(), out@[j].row as int, out@[j].col as int),
                forall|i: int| 0 <= i < out@.len() ==> (#[trigger] out@[i]).row < row,
                forall|i: int| 0 <= i < out@.len() ==> (#[trigger] out@[i]).col < self.w(),
            decreases self.h() - row,
        {
            let mut col: u8 = 0;
            let ghost start = out@;
            while col < self.width
                invariant
                    row < self.h(),
                    col <= self.w(),
                    forall|p: Position| #[trigger]
                        out@.contains(p) <==> (self.empty_at(p.row as int, p.col as int) && (
                        p.row < row || (p.row == row && p.col < col))),
                    forall|i: int, j: int|
                        0 <= i < j < out@.len() ==> cell_index(
                            self.w(),
                            out@[i].row as int,
                            out@[i].col as int,
                        ) < cell_index(self.w(), out@[j].row as int, out@[j].col as int),
                    forall|i: int|
                        0 <= i < out@.len() ==> ((#[trigger] out@[i]).row < row || (out@[i].row
                            == row && out@[i].col < col)),
                    forall|i: int| 0 <= i < out@.len() ==> (#[trigger] out@[i]).col < self.w(),
                decreases self.w() - col,
            {
                let pos = Position::new(row, col);
                if self.is_empty_at(pos) {
                    proof {
                        assert forall|i: int| 0 <= i < out@.len() implies cell_index(
                            self.w(),
                            out@[i].row as int,
                            out@[i].col as int,
                        ) < cell_index(self.w(), row as int, col as int) by {
                            let q = out@[i];
                            if q.row < row {
                                lemma_cell_index_bounds(self.w(), self.h(), q.row as int, q.col as int);
                                assert((q.row as int + 1) * self.w() <= (row as int) * self.w())
                                    by (nonlinear_arith)
                                    requires
                                        q.row < row,
                                        self.w() >= 0,
                                ;
                            }
                        }
                    }
                    let ghost prev = out@;
                    out.push(pos);
                    proof {
                        assert forall|p: Position| #[trigger]
                            out@.contains(p) <==> (prev.contains(p) || p == pos) by {
                            if out@.contains(p) && p != pos {
                                let k = choose|k: int| 0 <= k < out@.len() && out@[k] == p;
                                assert(prev[k] == p);
                            }
                            if prev.contains(p) {
                                let k = choose|k: int| 0 <= k < prev.len() && prev[k] == p;
                                assert(out@[k] == p);
                            }
                            if p == pos {
                                assert(out@[out@.len() - 1] == pos);
                            }
                        }
                    }
                }
                col = col + 1;
            }
            row = row + 1;
        }
        out
    }
}

} // verus!
