//! Renju fouls of black. A black stone that does not make exactly five is
//! a foul when it makes an overline (six or more), two fours, or two
//! threes.
//!
//! Everything is read on the window of a direction: the eleven points from
//! five before the stone to five after it, with the stone itself black.
//! - A *completion* of a window is an empty point that, filled black, makes
//!   exactly five through the stone.
//! - A *four* is a set of four black stones that one completion turns into
//!   five: the two completions of a straight four (`.XXXX.`, five apart)
//!   make one four, the two of `X.XXX.X` make two.
//! - A *three* is a direction with no four where one empty point, filled
//!   black, makes a straight four (two completions five apart). Whether
//!   that point would itself be a foul is not asked.

use vstd::prelude::*;

use crate::model::{Board, Cell, Color, Position, WinRule};
use crate::onyx::grid::{cell_code, dir, dir_c, dir_r, step, GridModel, BLACK, EMPTY, OFF, WHITE};
use crate::rules::{board_model, lemma_board_model};
use crate::titan::bitboard::wins_under;

verus! {

/// The number of points in a window.
pub const SPAN: usize = 11;

/// The index of the stone in its window.
pub const CENTRE: usize = 5;

/// The window of a black stone on `(r, c)` along direction `d`: the codes
/// from five points before to five after, the centre black.
pub open spec fn window(m: GridModel, r: int, c: int, d: int) -> Seq<u8> {
    Seq::new(
        11,
        |i: int|
            if i == 5 {
                BLACK
            } else {
                m.code(step(r, dir_r(d), i - 5), step(c, dir_c(d), i - 5))
            },
    )
}

/// Exactly five black stones on `a ..= a + 4`, with neither neighbour black.
pub open spec fn five_from(l: Seq<u8>, a: int) -> bool {
    &&& l[a - 1] != BLACK
    &&& l[a] == BLACK
    &&& l[a + 1] == BLACK
    &&& l[a + 2] == BLACK
    &&& l[a + 3] == BLACK
    &&& l[a + 4] == BLACK
    &&& l[a + 5] != BLACK
}

/// The centre is part of exactly five black stones in a row.
pub open spec fn exact_five(l: Seq<u8>) -> bool {
    exists|a: int| 1 <= a <= 5 && #[trigger] five_from(l, a)
}

/// Six black stones on `a ..= a + 5`.
pub open spec fn six_from(l: Seq<u8>, a: int) -> bool {
    &&& l[a] == BLACK
    &&& l[a + 1] == BLACK
    &&& l[a + 2] == BLACK
    &&& l[a + 3] == BLACK
    &&& l[a + 4] == BLACK
    &&& l[a + 5] == BLACK
}

/// The centre is part of six or more black stones in a row.
pub open spec fn overline(l: Seq<u8>) -> bool {
    exists|a: int| 0 <= a <= 5 && #[trigger] six_from(l, a)
}

/// The empty point `q` of the window is a completion: filled black, it
/// makes exactly five through the centre.
pub open spec fn completes(l: Seq<u8>, q: int) -> bool {
    &&& 1 <= q <= 9
    &&& q != 5
    &&& l[q] == EMPTY
    &&& exact_five(l.update(q, BLACK))
}

/// The fours among the completions below `n`: each completion counts but
/// the second of a pair five apart, which completes the same four.
pub open spec fn fours_below(l: Seq<u8>, n: int) -> int
    decreases n,
{
    if n <= 1 {
        0
    } else {
        fours_below(l, n - 1) + if completes(l, n - 1) && !completes(l, n - 6) {
            1int
        } else {
            0int
        }
    }
}

/// The number of fours through the centre.
pub open spec fn fours(l: Seq<u8>) -> int {
    fours_below(l, 10)
}

/// The centre is part of a straight four: two completions five apart.
pub open spec fn straight_four(l: Seq<u8>) -> bool {
    exists|a: int| 1 <= a <= 4 && #[trigger] completes(l, a) && completes(l, a + 5)
}

/// The empty point `q` of the window, filled black, makes a straight four.
pub open spec fn makes_straight(l: Seq<u8>, q: int) -> bool {
    &&& 1 <= q <= 9
    &&& q != 5
    &&& l[q] == EMPTY
    &&& straight_four(l.update(q, BLACK))
}

/// The centre is part of a three: no four, and one more black stone makes
/// a straight four.
pub open spec fn three(l: Seq<u8>) -> bool {
    fours(l) == 0 && exists|q: int| #[trigger] makes_straight(l, q)
}

/// 1 for true, 0 for false.
pub open spec fn one_if(b: bool) -> int {
    if b {
        1
    } else {
        0
    }
}

/// Whether four windows make a foul: no exact five, and an overline, two
/// fours or two threes.
pub open spec fn foul_of(l0: Seq<u8>, l1: Seq<u8>, l2: Seq<u8>, l3: Seq<u8>) -> bool {
    &&& !(exact_five(l0) || exact_five(l1) || exact_five(l2) || exact_five(l3))
    &&& {
        ||| overline(l0) || overline(l1) || overline(l2) || overline(l3)
        ||| fours(l0) + fours(l1) + fours(l2) + fours(l3) >= 2
        ||| one_if(three(l0)) + one_if(three(l1)) + one_if(three(l2)) + one_if(three(l3)) >= 2
    }
}

/// Whether a black stone on `(r, c)` is a foul.
pub open spec fn foul(m: GridModel, r: int, c: int) -> bool {
    foul_of(window(m, r, c, 0), window(m, r, c, 1), window(m, r, c, 2), window(m, r, c, 3))
}

/// The `color` stones counted from `(r, c)` fill the first points of the ray.
proof fn lemma_count_cells(m: GridModel, r: int, c: int, dr: int, dc: int, color: u8, fuel: nat, j: int)
    requires
        -1 <= dr <= 1,
        -1 <= dc <= 1,
        1 <= j <= m.count(r, c, dr, dc, color, fuel),
    ensures
        m.code(step(r, dr, j), step(c, dc, j)) == color,
    decreases fuel,
{
    if j > 1 {
        lemma_count_cells(m, r + dr, c + dc, dr, dc, color, (fuel - 1) as nat, j - 1);
        assert(step(r + dr, dr, j - 1) == step(r, dr, j));
        assert(step(c + dc, dc, j - 1) == step(c, dc, j));
    }
}

/// The point right after the counted stones is no `color` stone, when the
/// count did not run out.
proof fn lemma_count_stop(m: GridModel, r: int, c: int, dr: int, dc: int, color: u8, fuel: nat)
    requires
        -1 <= dr <= 1,
        -1 <= dc <= 1,
        m.count(r, c, dr, dc, color, fuel) < fuel,
    ensures
        m.code(
            step(r, dr, m.count(r, c, dr, dc, color, fuel) as int + 1),
            step(c, dc, m.count(r, c, dr, dc, color, fuel) as int + 1),
        ) != color,
    decreases fuel,
{
    if m.code(r + dr, c + dc) == color {
        let k = m.count(r + dr, c + dc, dr, dc, color, (fuel - 1) as nat) as int;
        lemma_count_stop(m, r + dr, c + dc, dr, dc, color, (fuel - 1) as nat);
        assert(step(r + dr, dr, k + 1) == step(r, dr, k + 2));
        assert(step(c + dc, dc, k + 1) == step(c, dc, k + 2));
    }
}

/// A count of stones never runs out of fuel: the ray leaves the board first.
proof fn lemma_count_short(m: GridModel, r: int, c: int, dr: int, dc: int, color: u8)
    requires
        -1 <= dr <= 1,
        -1 <= dc <= 1,
        dr != 0 || dc != 0,
        color != OFF,
        m.w >= 0,
        m.h >= 0,
    ensures
        m.count(r, c, dr, dc, color, m.fuel()) < m.fuel(),
    decreases m.fuel(),
{
    let f = m.fuel();
    if m.count(r, c, dr, dc, color, f) >= f {
        lemma_count_cells(m, r, c, dr, dc, color, f, 1);
        lemma_count_cells(m, r, c, dr, dc, color, f, f as int);
        assert(m.has(step(r, dr, 1), step(c, dc, 1)));
        assert(m.has(step(r, dr, f as int), step(c, dc, f as int)));
    }
}

/// A run of exactly five black stones through `(r, c)` along direction `k`
/// is an exact five of the window.
proof fn lemma_five_window(m: GridModel, r: int, c: int, k: int)
    requires
        0 <= k < 4,
        m.w >= 0,
        m.h >= 0,
        m.run(r, c, k, BLACK) == 5,
    ensures
        exact_five(window(m, r, c, k)),
{
    let l = window(m, r, c, k);
    let dr = dir_r(k);
    let dc = dir_c(k);
    let f = m.fuel();
    let fw = m.count(r, c, dr, dc, BLACK, f) as int;
    let bw = m.count(r, c, -dr, -dc, BLACK, f) as int;
    lemma_count_short(m, r, c, dr, dc, BLACK);
    lemma_count_short(m, r, c, -dr, -dc, BLACK);
    lemma_count_stop(m, r, c, dr, dc, BLACK, f);
    lemma_count_stop(m, r, c, -dr, -dc, BLACK, f);
    let a = 5 - bw;
    assert forall|i: int| 6 <= i <= 5 + fw implies #[trigger] l[i] == BLACK by {
        lemma_count_cells(m, r, c, dr, dc, BLACK, f, i - 5);
    }
    assert forall|i: int| 5 - bw <= i <= 4 implies #[trigger] l[i] == BLACK by {
        lemma_count_cells(m, r, c, -dr, -dc, BLACK, f, 5 - i);
        assert(step(r, -dr, 5 - i) == step(r, dr, i - 5));
        assert(step(c, -dc, 5 - i) == step(c, dc, i - 5));
    }
    assert(l[a - 1] != BLACK) by {
        assert(step(r, -dr, bw + 1) == step(r, dr, -(bw + 1)));
        assert(step(c, -dc, bw + 1) == step(c, dc, -(bw + 1)));
    }
    assert(l[a + 5] != BLACK);
    assert(l[a] == BLACK);
    assert(l[a + 1] == BLACK);
    assert(l[a + 2] == BLACK);
    assert(l[a + 3] == BLACK);
    assert(l[a + 4] == BLACK);
    assert(five_from(l, a));
}

/// Black's exact five is never a foul: the five wins, whatever overline,
/// fours or threes come with it.
pub proof fn lemma_five_is_no_foul(m: GridModel, r: int, c: int)
    requires
        m.w >= 0,
        m.h >= 0,
        wins_under(m, r, c, BLACK, WinRule::ExactFive),
    ensures
        !foul(m, r, c),
{
    if m.run(r, c, 0, BLACK) == 5 {
        lemma_five_window(m, r, c, 0);
    } else if m.run(r, c, 1, BLACK) == 5 {
        lemma_five_window(m, r, c, 1);
    } else if m.run(r, c, 2, BLACK) == 5 {
        lemma_five_window(m, r, c, 2);
    } else {
        lemma_five_window(m, r, c, 3);
    }
}

/// `x` moved `k` steps (`k` may be negative) in direction `d`.
fn shift(x: i32, d: i32, k: i32) -> (r: i32)
    requires
        -1 <= d <= 1,
        0 <= x <= 255,
        -5 <= k <= 5,
    ensures
        r == step(x as int, d as int, k as int),
{
    if d == 1 {
        x + k
    } else if d == -1 {
        x - k
    } else {
        x
    }
}

/// The code of `(r, c)`: empty, black, white, or off the board.
fn code_on(board: &Board, r: i32, c: i32) -> (v: u8)
    ensures
        v == board_model(*board).code(r as int, c as int),
{
    proof {
        lemma_board_model(*board);
    }
    if r < 0 || c < 0 || r >= board.height() as i32 || c >= board.width() as i32 {
        OFF
    } else {
        proof {
            assert(board_model(*board).code(r as int, c as int) == cell_code(board.at(r as int, c as int)));
        }
        match board.get(Position::new(r as u8, c as u8)) {
            Some(Cell::Stone(Color::Black)) => BLACK,
            Some(Cell::Stone(Color::White)) => WHITE,
            _ => EMPTY,
        }
    }
}

/// The window of a black stone on `pos` along direction `d`.
fn window_at(board: &Board, pos: Position, d: usize) -> (l: Vec<u8>)
    requires
        d < 4,
    ensures
        l@ == window(board_model(*board), pos.row as int, pos.col as int, d as int),
{
    let (dr, dc) = dir(d);
    let r = pos.row as i32;
    let c = pos.col as i32;
    let mut l: Vec<u8> = Vec::new();
    let mut i: usize = 0;
    while i < SPAN
        invariant
            i <= 11,
            dr == dir_r(d as int),
            dc == dir_c(d as int),
            r == pos.row,
            c == pos.col,
            l@.len() == i,
            forall|j: int| 0 <= j < i ==> l@[j] == #[trigger] window(board_model(*board), r as int, c as int, d as int)[j],
        decreases 11 - i,
    {
        let v = if i == CENTRE {
            BLACK
        } else {
            let k = i as i32 - 5;
            code_on(board, shift(r, dr, k), shift(c, dc, k))
        };
        l.push(v);
        i = i + 1;
    }
    proof {
        assert(l@ =~= window(board_model(*board), r as int, c as int, d as int));
    }
    l
}

/// Whether exactly five black stones lie on `a ..= a + 4`.
fn five_from_at(l: &Vec<u8>, a: usize) -> (b: bool)
    requires
        l@.len() == 11,
        1 <= a <= 5,
    ensures
        b == five_from(l@, a as int),
{
    l[a - 1] != BLACK && l[a] == BLACK && l[a + 1] == BLACK && l[a + 2] == BLACK && l[a + 3] == BLACK
        && l[a + 4] == BLACK && l[a + 5] != BLACK
}

/// Whether the centre of the window is part of exactly five.
fn exact_five_in(l: &Vec<u8>) -> (b: bool)
    requires
        l@.len() == 11,
    ensures
        b == exact_five(l@),
{
    let mut a: usize = 1;
    while a <= 5
        invariant
            l@.len() == 11,
            1 <= a <= 6,
            forall|x: int| 1 <= x < a ==> !#[trigger] five_from(l@, x),
        decreases 6 - a,
    {
        if five_from_at(l, a) {
            return true;
        }
        a = a + 1;
    }
    false
}

/// Whether the centre of the window is part of an overline.
fn overline_in(l: &Vec<u8>) -> (b: bool)
    requires
        l@.len() == 11,
    ensures
        b == overline(l@),
{
    let mut a: usize = 0;
    while a <= 5
        invariant
            l@.len() == 11,
            a <= 6,
            forall|x: int| 0 <= x < a ==> !#[trigger] six_from(l@, x),
        decreases 6 - a,
    {
        if l[a] == BLACK && l[a + 1] == BLACK && l[a + 2] == BLACK && l[a + 3] == BLACK && l[a + 4] == BLACK
            && l[a + 5] == BLACK {
            proof {
                assert(six_from(l@, a as int));
            }
            return true;
        }
        a = a + 1;
    }
    false
}

/// The window with the point `q` black.
fn filled(l: &Vec<u8>, q: usize) -> (t: Vec<u8>)
    requires
        q < l@.len(),
    ensures
        t@ == l@.update(q as int, BLACK),
{
    let mut t: Vec<u8> = Vec::new();
    let mut i: usize = 0;
    while i < l.len()
        invariant
            q < l@.len(),
            i <= l@.len(),
            t@.len() == i,
            forall|j: int| 0 <= j < i ==> t@[j] == #[trigger] l@.update(q as int, BLACK)[j],
        decreases l@.len() - i,
    {
        if i == q {
            t.push(BLACK);
        } else {
            t.push(l[i]);
        }
        i = i + 1;
    }
    proof {
        assert(t@ =~= l@.update(q as int, BLACK));
    }
    t
}

/// Whether the point `q` is a completion of the window.
fn completes_at(l: &Vec<u8>, q: usize) -> (b: bool)
    requires
        l@.len() == 11,
    ensures
        b == completes(l@, q as int),
{
    if q < 1 || q > 9 || q == CENTRE || l[q] != EMPTY {
        false
    } else {
        let t = filled(l, q);
        exact_five_in(&t)
    }
}

/// The number of fours through the centre of the window.
fn fours_in(l: &Vec<u8>) -> (n: u32)
    requires
        l@.len() == 11,
    ensures
        n == fours(l@),
        n <= 9,
{
    let mut n: u32 = 0;
    let mut q: usize = 1;
    while q <= 9
        invariant
            l@.len() == 11,
            1 <= q <= 10,
            n == fours_below(l@, q as int),
            n < q,
        decreases 10 - q,
    {
        let here = completes_at(l, q);
        let partner = if q >= 6 {
            completes_at(l, q - 5)
        } else {
            false
        };
        if here && !partner {
            n = n + 1;
        }
        q = q + 1;
    }
    n
}

/// Whether the centre of the window is part of a straight four.
fn straight_four_in(l: &Vec<u8>) -> (b: bool)
    requires
        l@.len() == 11,
    ensures
        b == straight_four(l@),
{
    let mut a: usize = 1;
    while a <= 4
        invariant
            l@.len() == 11,
            1 <= a <= 5,
            forall|x: int| 1 <= x < a ==> !(#[trigger] completes(l@, x) && completes(l@, x + 5)),
        decreases 5 - a,
    {
        if completes_at(l, a) && completes_at(l, a + 5) {
            return true;
        }
        a = a + 1;
    }
    false
}

/// Whether the centre of the window is part of a three.
fn three_in(l: &Vec<u8>) -> (b: bool)
    requires
        l@.len() == 11,
    ensures
        b == three(l@),
{
    if fours_in(l) != 0 {
        return false;
    }
    let mut q: usize = 1;
    while q <= 9
        invariant
            l@.len() == 11,
            1 <= q <= 10,
            fours(l@) == 0,
            forall|x: int| x < q ==> !#[trigger] makes_straight(l@, x),
        decreases 10 - q,
    {
        if q != CENTRE && l[q] == EMPTY {
            let t = filled(l, q);
            if straight_four_in(&t) {
                proof {
                    assert(makes_straight(l@, q as int));
                }
                return true;
            }
        }
        q = q + 1;
    }
    false
}

/// The windows' parts that decide a foul.
struct Shape {
    five: bool,
    long: bool,
    fours: u32,
    three: bool,
}

/// The shape of the window of `pos` along direction `d`.
fn shape_at(board: &Board, pos: Position, d: usize) -> (s: Shape)
    requires
        d < 4,
    ensures
        s.five == exact_five(window(board_model(*board), pos.row as int, pos.col as int, d as int)),
        s.long == overline(window(board_model(*board), pos.row as int, pos.col as int, d as int)),
        s.fours == fours(window(board_model(*board), pos.row as int, pos.col as int, d as int)),
        s.fours <= 9,
        s.three == three(window(board_model(*board), pos.row as int, pos.col as int, d as int)),
{
    let l = window_at(board, pos, d);
    Shape { five: exact_five_in(&l), long: overline_in(&l), fours: fours_in(&l), three: three_in(&l) }
}

/// Whether a black stone on `pos` would be a foul. The point's own content
/// is not read.
pub fn is_foul(board: &Board, pos: Position) -> (b: bool)
    ensures
        b == foul(board_model(*board), pos.row as int, pos.col as int),
{
    let s0 = shape_at(board, pos, 0);
    let s1 = shape_at(board, pos, 1);
    let s2 = shape_at(board, pos, 2);
    let s3 = shape_at(board, pos, 3);
    if s0.five || s1.five || s2.five || s3.five {
        return false;
    }
    let threes: u32 = (if s0.three { 1u32 } else { 0u32 }) + (if s1.three { 1u32 } else { 0u32 }) + (if s2.three {
        1u32
    } else {
        0u32
    }) + (if s3.three { 1u32 } else { 0u32 });
    s0.long || s1.long || s2.long || s3.long || s0.fours + s1.fours + s2.fours + s3.fours >= 2 || threes >= 2
}

} // verus!
