//! The terminal front end's own logic: time and result texts, the board's
//! star points, mouse clicks to board points, the review cursor, and the
//! parsing of openings and of an engine's `ABOUT` line.

use std::time::Duration;

use vstd::prelude::*;

use crate::arbiter::event::Event;
use crate::arbiter::match_run::{ply_color, replay_cell};
use crate::bot::clock::as_nanos;
use crate::mobile::last_index;
use crate::model::{AbortCause, Board, Cell, Color, ForfeitCause, GameResult, Move, Position, Termination, Win};
use crate::model::notation::{parse, parse_spec};
use crate::opening::auto_sequence;
use crate::text::{
    chars_of, decimal, is_whitespace, is_ws, lead_ws, parse_u8, parse_u8_range, push_char, push_chars,
    push_decimal_u64, trim, trim_range,
};

verus! {

/// Two decimal digits of `n < 100`, zero-padded.
pub open spec fn two_digits(n: nat) -> Seq<char> {
    if n < 10 {
        seq!['0'] + decimal(n)
    } else {
        decimal(n)
    }
}

/// The clock text of `secs` seconds and `millis` more milliseconds:
/// `m:ss` from a minute on, else seconds with one decimal and `s`.
pub open spec fn fmt_dur_spec(secs: nat, millis: nat) -> Seq<char> {
    if secs >= 60 {
        decimal(secs / 60) + seq![':'] + two_digits(secs % 60)
    } else {
        decimal(secs) + seq!['.'] + decimal(millis / 100) + seq!['s']
    }
}

/// The clock text of `secs` seconds and `millis < 1000` more milliseconds.
pub fn fmt_dur_parts(secs: u64, millis: u32) -> (s: String)
    ensures
        s@ == fmt_dur_spec(secs as nat, millis as nat),
{
    let mut s = String::new();
    if secs >= 60 {
        push_decimal_u64(&mut s, secs / 60);
        push_char(&mut s, ':');
        let r = secs % 60;
        if r < 10 {
            push_char(&mut s, '0');
        }
        push_decimal_u64(&mut s, r);
    } else {
        push_decimal_u64(&mut s, secs);
        push_char(&mut s, '.');
        push_decimal_u64(&mut s, (millis / 100) as u64);
        push_char(&mut s, 's');
    }
    proof {
        assert(s@ =~= fmt_dur_spec(secs as nat, millis as nat));
    }
    s
}

/// The clock text of a duration: `m:ss` from a minute on, else seconds
/// with one decimal, such as `2.3s`.
pub fn fmt_dur(d: Duration) -> String {
    let n = as_nanos(&d);
    let secs: u128 = n / 1_000_000_000;
    let millis: u128 = (n % 1_000_000_000) / 1_000_000;
    fmt_dur_parts(secs as u64, millis as u32)
}

/// The index of a color's slot in two-element arrays: black 0, white 1.
pub fn slot(color: Color) -> (i: usize)
    ensures
        i == (match color {
            Color::Black => 0usize,
            Color::White => 1usize,
        }),
{
    match color {
        Color::Black => 0,
        Color::White => 1,
    }
}

/// The board point under the mouse at `(mx, my)` on a board block drawn
/// from `(area_x, area_y)`: inside the frame, the first line is the top
/// border and line `row + 1` shows row `row`; each line starts with four
/// columns of row label and bar, then three columns per point. Borders,
/// labels and points off the board give `None`.
pub open spec fn cell_at_spec(area_x: u16, area_y: u16, width: u8, height: u8, mx: u16, my: u16) -> Option<Position> {
    let inner_x = area_x + 1;
    let inner_y = area_y + 1;
    if inner_x > u16::MAX || inner_y > u16::MAX || inner_x + 4 > u16::MAX {
        None
    } else if my < inner_y + 1 || mx < inner_x + 4 {
        None
    } else {
        let row = my - inner_y - 1;
        let col = (mx - inner_x - 4) / 3;
        if row >= height || col >= width {
            None
        } else {
            Some(Position { row: row as u8, col: col as u8 })
        }
    }
}

/// The board point under the mouse (see [`cell_at_spec`]).
pub fn cell_at(area_x: u16, area_y: u16, width: u8, height: u8, mx: u16, my: u16) -> (p: Option<Position>)
    ensures
        p == cell_at_spec(area_x, area_y, width, height, mx, my),
{
    let inner_x = match area_x.checked_add(1) {
        Some(v) => v,
        None => return None,
    };
    let inner_y = match area_y.checked_add(1) {
        Some(v) => v,
        None => return None,
    };
    let left = match inner_x.checked_add(4) {
        Some(v) => v,
        None => return None,
    };
    if my < inner_y || my - inner_y < 1 || mx < left {
        return None;
    }
    let row: u16 = my - inner_y - 1;
    let col: u16 = (mx - left) / 3;
    if row >= height as u16 || col >= width as u16 {
        return None;
    }
    Some(Position::new(row as u8, col as u8))
}

/// The review cursor moved one ply forward (at most `max`) or back (at
/// least zero).
pub fn review_step(ply: usize, max: usize, forward: bool) -> (r: usize)
    ensures
        forward ==> r == (if ply + 1 < max { ply + 1 } else { max as int }),
        !forward ==> r == (if ply > 0 { ply - 1 } else { 0int }),
{
    if forward {
        if ply < max && ply + 1 < max {
            ply + 1
        } else {
            max
        }
    } else if ply > 0 {
        ply - 1
    } else {
        0
    }
}

/// The ply an undo returns to: two plies back, the undoing side's own
/// previous decision; `None` before two moves.
pub fn undo_target(len: usize) -> (r: Option<usize>)
    ensures
        len >= 2 ==> r == Some((len - 2) as usize),
        len < 2 ==> r is None,
{
    if len >= 2 {
        Some(len - 2)
    } else {
        None
    }
}

/// `x` kept within `0 ..= hi`.
pub open spec fn clamp_spec(x: int, hi: int) -> int {
    if x < 0 {
        0
    } else if x > hi {
        hi
    } else {
        x
    }
}

fn clamp_i32(x: i32, hi: i32) -> (r: i32)
    requires
        0 <= hi <= 254,
    ensures
        r == clamp_spec(x as int, hi as int),
        0 <= r <= hi,
{
    if x < 0 {
        0
    } else if x > hi {
        hi
    } else {
        x
    }
}

/// The cursor moved by `(d_row, d_col)`, kept on a `width` x `height` board.
pub fn cursor_step(cursor: Position, d_row: i32, d_col: i32, width: u8, height: u8) -> (p: Position)
    requires
        width >= 1,
        height >= 1,
        -255 <= d_row <= 255,
        -255 <= d_col <= 255,
    ensures
        p.row == clamp_spec(cursor.row + d_row, height - 1),
        p.col == clamp_spec(cursor.col + d_col, width - 1),
{
    let row = clamp_i32(cursor.row as i32 + d_row, height as i32 - 1);
    let col = clamp_i32(cursor.col as i32 + d_col, width as i32 - 1);
    Position::new(row as u8, col as u8)
}

/// The result line of a finished game, with the stone marks of the two
/// sides: who won (and by what forfeit), a draw, an abort, or `finished`
/// when no result is known.
pub open spec fn result_spec(t: Option<Termination>, black_mark: Seq<char>, white_mark: Seq<char>) -> Seq<char> {
    match t {
        Some(Termination::Completed { result }) => match result {
            GameResult::Win(Win::BlackWin) => black_mark + " wins"@,
            GameResult::Win(Win::WhiteWin) => white_mark + " wins"@,
            GameResult::Draw => "draw"@,
        },
        Some(Termination::Forfeit { winner, cause }) => (if winner == Color::Black {
            black_mark
        } else {
            white_mark
        }) + " wins by forfeit ("@ + forfeit_debug(cause) + ")"@,
        Some(Termination::Aborted { cause, .. }) => "aborted ("@ + abort_debug(cause) + ")"@,
        None => "finished"@,
    }
}

/// The result line of a finished game (see [`result_spec`]).
pub fn result_text(t: Option<Termination>, black_mark: &str, white_mark: &str) -> (s: String)
    ensures
        s@ == result_spec(t, black_mark@, white_mark@),
{
    let mut s = String::new();
    match t {
        Some(Termination::Completed { result }) => match result {
            GameResult::Win(Win::BlackWin) => {
                s.append(black_mark);
                s.append(" wins");
            },
            GameResult::Win(Win::WhiteWin) => {
                s.append(white_mark);
                s.append(" wins");
            },
            GameResult::Draw => {
                s.append("draw");
            },
        },
        Some(Termination::Forfeit { winner, cause }) => {
            if winner == Color::Black {
                s.append(black_mark);
            } else {
                s.append(white_mark);
            }
            s.append(" wins by forfeit (");
            s.append(forfeit_debug_str(cause));
            s.append(")");
        },
        Some(Termination::Aborted { cause, .. }) => {
            s.append("aborted (");
            s.append(abort_debug_str(cause));
            s.append(")");
        },
        None => {
            s.append("finished");
        },
    }
    proof {
        assert(s@ =~= result_spec(t, black_mark@, white_mark@));
    }
    s
}

/// The board after the first `ply` moves of `history`, colored black and
/// white in turn from black (moves off the board are left out).
pub fn board_at(width: u8, height: u8, history: &Vec<Move>, ply: usize) -> (b: Board)
    ensures
        b.w() == width,
        b.h() == height,
        forall|r: int, c: int|
            b.has(r, c) ==> b.at(r, c) == replay_cell(
                history@.take(if ply < history@.len() { ply as int } else { history@.len() as int }),
                r,
                c,
            ),
{
    let mut board = Board::rect(width, height);
    let n: usize = if ply < history.len() {
        ply
    } else {
        history.len()
    };
    let mut i: usize = 0;
    while i < n
        invariant
            n <= history@.len(),
            i <= n,
            board.w() == width,
            board.h() == height,
            forall|r: int, c: int| board.has(r, c) ==> board.at(r, c) == replay_cell(history@.take(i as int), r, c),
        decreases n - i,
    {
        let color = if i % 2 == 0 {
            Color::Black
        } else {
            Color::White
        };
        let mv = history[i];
        board.set(mv.position(), Cell::Stone(color));
        proof {
            let h1 = history@.take(i as int + 1);
            assert(h1.drop_last() =~= history@.take(i as int));
            assert(h1.last() == mv);
            assert(color == ply_color(i as int));
        }
        i = i + 1;
    }
    board
}

/// The point of the last move of the first `ply` moves, if `ply > 0` and
/// there is such a move.
pub fn move_at(history: &Vec<Move>, ply: usize) -> (p: Option<Position>)
    ensures
        p == (if 0 < ply <= history@.len() { Some(history@[ply - 1].pos()) } else { None::<Position> }),
{
    if ply == 0 || ply > history.len() {
        None
    } else {
        Some(history[ply - 1].position())
    }
}

/// The termination of a finishing event.
pub open spec fn termination_of(e: Event) -> Termination {
    match e {
        Event::MatchFinished { termination, .. } => termination,
        _ => arbitrary(),
    }
}

/// The termination of the last finishing event of a game, if any.
pub fn final_termination(events: &Vec<Event>) -> (t: Option<Termination>)
    ensures
        ({
            let i = last_index(events@, events@.len() as int, |e: Event| e is MatchFinished);
            t == (if i >= 0 { Some(termination_of(events@[i])) } else { None::<Termination> })
        }),
{
    let ghost p = |e: Event| e is MatchFinished;
    let mut k: usize = events.len();
    while k > 0
        invariant
            k <= events@.len(),
            p == (|e: Event| e is MatchFinished),
            forall|j: int| k <= j < events@.len() ==> !(#[trigger] events@[j] is MatchFinished),
            last_index(events@, events@.len() as int, p) == last_index(events@, k as int, p),
        decreases k,
    {
        if let Event::MatchFinished { termination, .. } = &events[k - 1] {
            return Some(*termination);
        }
        k = k - 1;
    }
    None
}

/// The winning color of a termination, if it has one.
pub open spec fn winner_of(t: Termination) -> Option<Color> {
    match t {
        Termination::Completed { result } => match result {
            GameResult::Win(w) => Some(w.color()),
            GameResult::Draw => None,
        },
        Termination::Forfeit { winner, .. } => Some(winner),
        Termination::Aborted { .. } => None,
    }
}

/// The winning color of a game's events: none for a draw, an abort or no
/// result.
pub fn winner_color(events: &Vec<Event>) -> (c: Option<Color>)
    ensures
        ({
            let i = last_index(events@, events@.len() as int, |e: Event| e is MatchFinished);
            c == (if i >= 0 { winner_of(termination_of(events@[i])) } else { None::<Color> })
        }),
{
    match final_termination(events) {
        None => None,
        Some(t) => match t {
            Termination::Completed { result } => match result {
                GameResult::Win(w) => Some(w.winner()),
                GameResult::Draw => None,
            },
            Termination::Forfeit { winner, .. } => Some(winner),
            Termination::Aborted { .. } => None,
        },
    }
}

/// The star points of a square board of side `size`: none below 9; the
/// four corner stars `edge` points from the edges (`edge` 3 from 13 up,
/// else 2); on odd sizes also the centre, and from 19 up also the four
/// side stars.
pub open spec fn star_spec(size: u8) -> Seq<(u8, u8)> {
    if size < 9 {
        Seq::empty()
    } else {
        let lo: u8 = if size >= 13 { 3 } else { 2 };
        let hi: u8 = (size - 1 - lo) as u8;
        let c: u8 = size / 2;
        let corners = seq![(lo, lo), (lo, hi), (hi, lo), (hi, hi)];
        if size % 2 == 1 {
            if size >= 19 {
                corners + seq![(c, c), (lo, c), (hi, c), (c, lo), (c, hi)]
            } else {
                corners.push((c, c))
            }
        } else {
            corners
        }
    }
}

/// The star points of a square board of side `size`.
pub fn star_points(size: u8) -> (pts: Vec<(u8, u8)>)
    ensures
        pts@ == star_spec(size),
{
    if size < 9 {
        return Vec::new();
    }
    let edge: u8 = if size >= 13 {
        3
    } else {
        2
    };
    let lo = edge;
    let hi = size - 1 - edge;
    let center = size / 2;
    let mut pts = vec![(lo, lo), (lo, hi), (hi, lo), (hi, hi)];
    if size % 2 == 1 {
        pts.push((center, center));
        if size >= 19 {
            pts.push((lo, center));
            pts.push((hi, center));
            pts.push((center, lo));
            pts.push((center, hi));
        }
    }
    proof {
        assert(pts@ =~= star_spec(size));
    }
    pts
}

/// What a point of the board view shows.
#[derive(Debug, Clone, Copy, PartialEq, Eq, Structural)]
pub enum Glyph {
    Black,
    White,
    /// An empty star point.
    Star,
    Empty,
}

/// A point of the board view: what it shows, and whether it holds the
/// last move or the cursor.
#[derive(Debug, Clone, Copy, PartialEq, Eq, Structural)]
pub struct ViewCell {
    pub glyph: Glyph,
    pub last: bool,
    pub cursor: bool,
}

/// The star points drawn on a board: those of its side when it is square.
pub open spec fn board_stars(board: Board) -> Seq<(u8, u8)> {
    if board.w() == board.h() {
        star_spec(board.w() as u8)
    } else {
        Seq::empty()
    }
}

/// The view of the on-board point `(y, x)`: its stone, else a star or an
/// empty point, with the last move and the cursor marked.
pub open spec fn view_cell(board: Board, y: int, x: int, last: Option<Position>, cursor: Option<Position>) -> ViewCell {
    let pos = Position { row: y as u8, col: x as u8 };
    ViewCell {
        glyph: match board.at(y, x) {
            Cell::Stone(Color::Black) => Glyph::Black,
            Cell::Stone(Color::White) => Glyph::White,
            Cell::Empty => if board_stars(board).contains((y as u8, x as u8)) {
                Glyph::Star
            } else {
                Glyph::Empty
            },
        },
        last: last == Some(pos),
        cursor: cursor == Some(pos),
    }
}

/// Whether `p` is one of `pts`.
fn listed_point(pts: &Vec<(u8, u8)>, p: (u8, u8)) -> (b: bool)
    ensures
        b == pts@.contains(p),
{
    let mut i: usize = 0;
    while i < pts.len()
        invariant
            i <= pts@.len(),
            forall|j: int| 0 <= j < i ==> pts@[j] != p,
        decreases pts@.len() - i,
    {
        if pts[i].0 == p.0 && pts[i].1 == p.1 {
            proof {
                assert(pts@[i as int] == p);
            }
            return true;
        }
        i = i + 1;
    }
    false
}

/// Whether `a` holds the point `p`.
fn marks(a: Option<Position>, p: Position) -> (b: bool)
    ensures
        b == (a == Some(p)),
{
    match a {
        Some(q) => q.row == p.row && q.col == p.col,
        None => false,
    }
}

/// The board view, row by row from the top: see [`view_cell`].
pub fn board_cells(board: &Board, last: Option<Position>, cursor: Option<Position>) -> (g: Vec<Vec<ViewCell>>)
    ensures
        g@.len() == board.h(),
        forall|y: int|
            0 <= y < board.h() ==> (#[trigger] g@[y])@.len() == board.w() && forall|x: int|
                0 <= x < board.w() ==> (#[trigger] g@[y]@[x]) == view_cell(*board, y, x, last, cursor),
{
    let stars = match board.square_size() {
        Some(n) => star_points(n),
        None => Vec::new(),
    };
    proof {
        board.lemma_dims();
    }
    let mut g: Vec<Vec<ViewCell>> = Vec::new();
    let mut y: u8 = 0;
    while y < board.height()
        invariant
            y <= board.h(),
            0 <= board.w() <= 255,
            g@.len() == y,
            stars@ == board_stars(*board),
            forall|yy: int|
                0 <= yy < y ==> (#[trigger] g@[yy])@.len() == board.w() && forall|x: int|
                    0 <= x < board.w() ==> (#[trigger] g@[yy]@[x]) == view_cell(*board, yy, x, last, cursor),
        decreases board.h() - y,
    {
        let mut row: Vec<ViewCell> = Vec::new();
        let mut x: u8 = 0;
        while x < board.width()
            invariant
                y < board.h(),
                0 <= board.w() <= 255,
                x <= board.w(),
                row@.len() == x,
                stars@ == board_stars(*board),
                forall|xx: int| 0 <= xx < x ==> #[trigger] row@[xx] == view_cell(*board, y as int, xx, last, cursor),
            decreases board.w() - x,
        {
            let pos = Position::new(y, x);
            let glyph = match board.get(pos) {
                Some(Cell::Stone(Color::Black)) => Glyph::Black,
                Some(Cell::Stone(Color::White)) => Glyph::White,
                _ => if listed_point(&stars, (y, x)) {
                    Glyph::Star
                } else {
                    Glyph::Empty
                },
            };
            row.push(ViewCell { glyph, last: marks(last, pos), cursor: marks(cursor, pos) });
            x = x + 1;
        }
        g.push(row);
        y = y + 1;
    }
    g
}

/// The debug name of a forfeit cause.
pub open spec fn forfeit_debug(c: ForfeitCause) -> Seq<char> {
    match c {
        ForfeitCause::Resign => "Resign"@,
        ForfeitCause::Timeout => "Timeout"@,
        ForfeitCause::IllegalMove => "IllegalMove"@,
        ForfeitCause::Disconnect => "Disconnect"@,
        ForfeitCause::Malformed => "Malformed"@,
        ForfeitCause::Crash => "Crash"@,
    }
}

/// The debug name of an abort cause.
pub open spec fn abort_debug(c: AbortCause) -> Seq<char> {
    match c {
        AbortCause::Timeout => "Timeout"@,
        AbortCause::Disconnect => "Disconnect"@,
        AbortCause::Malformed => "Malformed"@,
        AbortCause::Crash => "Crash"@,
        AbortCause::UserAbort => "UserAbort"@,
    }
}

fn forfeit_debug_str(c: ForfeitCause) -> (s: &'static str)
    ensures
        s@ == forfeit_debug(c),
{
    match c {
        ForfeitCause::Resign => "Resign",
        ForfeitCause::Timeout => "Timeout",
        ForfeitCause::IllegalMove => "IllegalMove",
        ForfeitCause::Disconnect => "Disconnect",
        ForfeitCause::Malformed => "Malformed",
        ForfeitCause::Crash => "Crash",
    }
}

fn abort_debug_str(c: AbortCause) -> (s: &'static str)
    ensures
        s@ == abort_debug(c),
{
    match c {
        AbortCause::Timeout => "Timeout",
        AbortCause::Disconnect => "Disconnect",
        AbortCause::Malformed => "Malformed",
        AbortCause::Crash => "Crash",
        AbortCause::UserAbort => "UserAbort",
    }
}

/// The "who won" phrase of a result: the winner's name and stone mark,
/// `Draw`, or the abort cause.
pub open spec fn outcome_spec(
    t: Termination,
    black_mark: Seq<char>,
    white_mark: Seq<char>,
    black: Seq<char>,
    white: Seq<char>,
) -> Seq<char> {
    match t {
        Termination::Completed { result } => match result {
            GameResult::Win(Win::BlackWin) => black + " ("@ + black_mark + ") wins"@,
            GameResult::Win(Win::WhiteWin) => white + " ("@ + white_mark + ") wins"@,
            GameResult::Draw => "Draw"@,
        },
        Termination::Forfeit { winner, cause } => {
            let (name, mark) = if winner == Color::Black {
                (black, black_mark)
            } else {
                (white, white_mark)
            };
            name + " ("@ + mark + ") wins by forfeit ("@ + forfeit_debug(cause) + ")"@
        },
        Termination::Aborted { cause, .. } => "aborted ("@ + abort_debug(cause) + ")"@,
    }
}

/// The "who won" phrase of a result, naming players by their display
/// names and stone marks.
pub fn outcome_text(t: Termination, stones: (&str, &str), black: &str, white: &str) -> (s: String)
    ensures
        s@ == outcome_spec(t, stones.0@, stones.1@, black@, white@),
{
    let mut s = String::new();
    match t {
        Termination::Completed { result } => match result {
            GameResult::Win(Win::BlackWin) => {
                s.append(black);
                s.append(" (");
                s.append(stones.0);
                s.append(") wins");
            },
            GameResult::Win(Win::WhiteWin) => {
                s.append(white);
                s.append(" (");
                s.append(stones.1);
                s.append(") wins");
            },
            GameResult::Draw => {
                s.append("Draw");
            },
        },
        Termination::Forfeit { winner, cause } => {
            let (name, mark) = if winner == Color::Black {
                (black, stones.0)
            } else {
                (white, stones.1)
            };
            s.append(name);
            s.append(" (");
            s.append(mark);
            s.append(") wins by forfeit (");
            s.append(forfeit_debug_str(cause));
            s.append(")");
        },
        Termination::Aborted { cause, .. } => {
            s.append("aborted (");
            s.append(abort_debug_str(cause));
            s.append(")");
        },
    }
    proof {
        assert(s@ =~= outcome_spec(t, stones.0@, stones.1@, black@, white@));
    }
    s
}

/// `pat` occurs in `s` at `i`.
pub open spec fn occurs_at(s: Seq<char>, pat: Seq<char>, i: int) -> bool {
    0 <= i && i + pat.len() <= s.len() && s.subrange(i, i + pat.len()) == pat
}

/// The first occurrence of the non-empty `pat` in `s` at or after `from`,
/// or -1.
pub open spec fn find_from(s: Seq<char>, pat: Seq<char>, from: int) -> int
    decreases s.len() - from,
{
    if from < 0 || pat.len() == 0 || from + pat.len() > s.len() {
        -1
    } else if occurs_at(s, pat, from) {
        from
    } else {
        find_from(s, pat, from + 1)
    }
}

/// The first index at or after `k` of a double quote in `s`, else its length.
pub open spec fn first_quote(s: Seq<char>, k: int) -> int
    decreases s.len() - k,
{
    if k < 0 || k >= s.len() {
        s.len() as int
    } else if s[k] == '"' {
        k
    } else {
        first_quote(s, k + 1)
    }
}

/// The first index at or after `k` of a comma or a space in `s`, else its
/// length.
pub open spec fn first_sep(s: Seq<char>, k: int) -> int
    decreases s.len() - k,
{
    if k < 0 || k >= s.len() {
        s.len() as int
    } else if s[k] == ',' || s[k] == ' ' {
        k
    } else {
        first_sep(s, k + 1)
    }
}

/// The engine name in an `ABOUT` reply: the text after the first
/// `name=` (up to a second `name=`), without leading whitespace; if it
/// starts with a double quote, up to the closing quote, else up to the
/// first comma or space; trimmed; `None` if empty or without `name=`.
pub open spec fn about_name_spec(line: Seq<char>) -> Option<Seq<char>> {
    let i = find_from(line, "name="@, 0);
    if i < 0 {
        None
    } else {
        let start = i + 5;
        let j = find_from(line, "name="@, start);
        let piece = line.subrange(start, if j < 0 { line.len() as int } else { j });
        let rest = piece.skip(lead_ws(piece) as int);
        let name = if rest.len() > 0 && rest[0] == '"' {
            let q = rest.drop_first();
            q.take(first_quote(q, 0))
        } else {
            rest.take(first_sep(rest, 0))
        };
        if trim(name).len() == 0 {
            None
        } else {
            Some(trim(name))
        }
    }
}

/// A found occurrence lies at or after the start and fits in the string.
pub proof fn lemma_find_from_range(s: Seq<char>, pat: Seq<char>, from: int)
    ensures
        find_from(s, pat, from) == -1 || (from <= find_from(s, pat, from) && find_from(s, pat, from) + pat.len()
            <= s.len()),
    decreases s.len() - from,
{
    if !(from < 0 || pat.len() == 0 || from + pat.len() > s.len()) && !occurs_at(s, pat, from) {
        lemma_find_from_range(s, pat, from + 1);
    }
}

fn matches_at(v: &Vec<char>, pat: &Vec<char>, i: usize) -> (b: bool)
    requires
        i + pat@.len() <= v@.len(),
    ensures
        b == occurs_at(v@, pat@, i as int),
{
    let n = v.len();
    let mut k: usize = 0;
    while k < pat.len()
        invariant
            k <= pat@.len(),
            i + pat@.len() <= v@.len(),
            n == v@.len(),
            forall|j: int| 0 <= j < k ==> v@[i + j] == pat@[j],
        decreases pat@.len() - k,
    {
        if v[i + k] != pat[k] {
            proof {
                assert(v@.subrange(i as int, i + pat@.len())[k as int] != pat@[k as int]);
            }
            return false;
        }
        k = k + 1;
    }
    proof {
        assert(v@.subrange(i as int, i + pat@.len()) =~= pat@);
    }
    true
}

fn find_in(v: &Vec<char>, pat: &Vec<char>, from: usize) -> (r: Option<usize>)
    requires
        pat@.len() > 0,
        from <= v@.len(),
    ensures
        match r {
            Some(i) => i as int == find_from(v@, pat@, from as int) && i + pat@.len() <= v@.len(),
            None => find_from(v@, pat@, from as int) == -1,
        },
{
    let mut i: usize = from;
    while pat.len() <= v.len() && i <= v.len() - pat.len()
        invariant
            from <= i <= v@.len(),
            pat@.len() > 0,
            find_from(v@, pat@, from as int) == find_from(v@, pat@, i as int),
        decreases v@.len() - i,
    {
        if matches_at(v, pat, i) {
            return Some(i);
        }
        i = i + 1;
    }
    None
}

fn skip_ws(v: &Vec<char>, from: usize, to: usize) -> (a: usize)
    requires
        from <= to <= v@.len(),
    ensures
        from <= a <= to,
        v@.subrange(a as int, to as int) == v@.subrange(from as int, to as int).skip(
            lead_ws(v@.subrange(from as int, to as int)) as int,
        ),
{
    let ghost s = v@.subrange(from as int, to as int);
    let mut a = from;
    while a < to && is_whitespace(v[a])
        invariant
            from <= a <= to <= v@.len(),
            s == v@.subrange(from as int, to as int),
            lead_ws(s) == (a - from) + lead_ws(v@.subrange(a as int, to as int)),
        decreases to - a,
    {
        proof {
            let t = v@.subrange(a as int, to as int);
            assert(t.drop_first() =~= v@.subrange(a + 1, to as int));
        }
        a = a + 1;
    }
    proof {
        let t = v@.subrange(a as int, to as int);
        if a < to {
            assert(t[0] == v@[a as int]);
        }
        assert(lead_ws(t) == 0);
        assert(s.skip(lead_ws(s) as int) =~= t);
    }
    a
}

fn find_quote(v: &Vec<char>, from: usize, to: usize) -> (k: usize)
    requires
        from <= to <= v@.len(),
    ensures
        from <= k <= to,
        k - from == first_quote(v@.subrange(from as int, to as int), 0),
{
    let ghost s = v@.subrange(from as int, to as int);
    let mut k = from;
    while k < to && v[k] != '"'
        invariant
            from <= k <= to <= v@.len(),
            s == v@.subrange(from as int, to as int),
            first_quote(s, 0) == first_quote(s, k - from),
        decreases to - k,
    {
        k = k + 1;
    }
    k
}

fn find_sep(v: &Vec<char>, from: usize, to: usize) -> (k: usize)
    requires
        from <= to <= v@.len(),
    ensures
        from <= k <= to,
        k - from == first_sep(v@.subrange(from as int, to as int), 0),
{
    let ghost s = v@.subrange(from as int, to as int);
    let mut k = from;
    while k < to && v[k] != ',' && v[k] != ' '
        invariant
            from <= k <= to <= v@.len(),
            s == v@.subrange(from as int, to as int),
            first_sep(s, 0) == first_sep(s, k - from),
        decreases to - k,
    {
        k = k + 1;
    }
    k
}

/// The engine name of an `ABOUT` reply line such as
/// `name="Rapfi", version="1"` (also `name=X,` without quotes).
pub fn parse_about_name(line: &str) -> (r: Option<String>)
    ensures
        r is Some <==> about_name_spec(line@) is Some,
        r matches Some(name) ==> name@ == about_name_spec(line@)->Some_0,
{
    let v = chars_of(line);
    let n = v.len();
    let pat = chars_of("name=");
    proof {
        reveal_strlit("name=");
    }
    let i = match find_in(&v, &pat, 0) {
        None => {
            return None;
        },
        Some(i) => i,
    };
    assert(pat@.len() == 5);
    assert(i + 5 <= n);
    let start = i + 5;
    proof {
        lemma_find_from_range(v@, pat@, start as int);
    }
    let end = match find_in(&v, &pat, start) {
        None => v.len(),
        Some(j) => j,
    };
    let ghost piece = v@.subrange(start as int, end as int);
    let a = skip_ws(&v, start, end);
    let ghost rest = v@.subrange(a as int, end as int);
    let (nf, nt) = if a < end && v[a] == '"' {
        let k = find_quote(&v, a + 1, end);
        proof {
            assert(rest.drop_first() =~= v@.subrange(a + 1, end as int));
            assert(rest.drop_first().take(first_quote(rest.drop_first(), 0)) =~= v@.subrange(a + 1, k as int));
        }
        (a + 1, k)
    } else {
        let k = find_sep(&v, a, end);
        proof {
            assert(rest.take(first_sep(rest, 0)) =~= v@.subrange(a as int, k as int));
        }
        (a, k)
    };
    let (lo, hi) = trim_range(&v, nf, nt);
    if lo == hi {
        return None;
    }
    let mut out = String::new();
    push_chars(&mut out, &v, lo, hi);
    proof {
        assert(out@ =~= v@.subrange(lo as int, hi as int));
    }
    Some(out)
}

/// ASCII lower case.
pub open spec fn lower(c: char) -> char {
    if 'A' <= c && c <= 'Z' {
        ((c as int) + 32) as char
    } else {
        c
    }
}

/// `s` equals `t` ignoring ASCII case.
pub open spec fn eq_ignore_case(s: Seq<char>, t: Seq<char>) -> bool {
    s.len() == t.len() && forall|i: int| 0 <= i < s.len() ==> lower(#[trigger] s[i]) == lower(t[i])
}

/// The escaped form of one character inside a debug-quoted string.
pub open spec fn escape_char(c: char) -> Seq<char> {
    if c == '"' {
        seq!['\\', '"']
    } else if c == '\\' {
        seq!['\\', '\\']
    } else if c == '\n' {
        seq!['\\', 'n']
    } else if c == '\r' {
        seq!['\\', 'r']
    } else if c == '\t' {
        seq!['\\', 't']
    } else if c == '\0' {
        seq!['\\', '0']
    } else {
        seq![c]
    }
}

/// The escaped characters of `s`.
pub open spec fn escape_seq(s: Seq<char>) -> Seq<char>
    decreases s.len(),
{
    if s.len() == 0 {
        Seq::empty()
    } else {
        escape_seq(s.drop_last()) + escape_char(s.last())
    }
}

/// `s` in double quotes, with quotes, backslashes and the common control
/// characters escaped.
pub open spec fn quoted(s: Seq<char>) -> Seq<char> {
    seq!['"'] + escape_seq(s) + seq!['"']
}

fn push_escaped(out: &mut String, c: char)
    ensures
        final(out)@ == old(out)@ + escape_char(c),
{
    if c == '"' {
        push_char(out, '\\');
        push_char(out, '"');
    } else if c == '\\' {
        push_char(out, '\\');
        push_char(out, '\\');
    } else if c == '\n' {
        push_char(out, '\\');
        push_char(out, 'n');
    } else if c == '\r' {
        push_char(out, '\\');
        push_char(out, 'r');
    } else if c == '\t' {
        push_char(out, '\\');
        push_char(out, 't');
    } else if c == '\0' {
        push_char(out, '\\');
        push_char(out, '0');
    } else {
        push_char(out, c);
    }
    proof {
        assert(out@ =~= old(out)@ + escape_char(c));
    }
}

/// `prefix` followed by the quoted `v[from..to]`.
fn quoted_message(prefix: &str, v: &Vec<char>, from: usize, to: usize) -> (m: String)
    requires
        from <= to <= v@.len(),
    ensures
        m@ == prefix@ + quoted(v@.subrange(from as int, to as int)),
{
    let mut m = prefix.to_owned();
    push_char(&mut m, '"');
    let mut i = from;
    while i < to
        invariant
            from <= i <= to <= v@.len(),
            m@ == prefix@ + seq!['"'] + escape_seq(v@.subrange(from as int, i as int)),
        decreases to - i,
    {
        push_escaped(&mut m, v[i]);
        proof {
            let t = v@.subrange(from as int, i + 1);
            assert(t.drop_last() =~= v@.subrange(from as int, i as int));
            assert(t.last() == v@[i as int]);
        }
        i = i + 1;
    }
    push_char(&mut m, '"');
    proof {
        assert(m@ =~= prefix@ + quoted(v@.subrange(from as int, to as int)));
    }
    m
}

/// The index of the first comma of `s` at or after `k`, else its length.
pub open spec fn first_comma(s: Seq<char>, k: int) -> int
    decreases s.len() - k,
{
    if k < 0 || k >= s.len() {
        s.len() as int
    } else if s[k] == ',' {
        k
    } else {
        first_comma(s, k + 1)
    }
}

/// The first comma search stays within the string.
pub proof fn lemma_first_comma_range(s: Seq<char>, k: int)
    ensures
        0 <= first_comma(s, k) <= s.len(),
        0 <= k <= s.len() ==> k <= first_comma(s, k),
    decreases s.len() - k,
{
    if 0 <= k < s.len() && s[k] != ',' {
        lemma_first_comma_range(s, k + 1);
    }
}

/// The points of a comma-separated list of board coordinates, or the
/// message naming the first bad one.
pub open spec fn coordinates_spec(s: Seq<char>, size: u8) -> Result<Seq<Position>, Seq<char>>
    decreases s.len(),
{
    let k = first_comma(s, 0);
    let tok = s.take(k);
    match parse_spec(tok, size) {
        None => Err("bad opening coordinate: "@ + quoted(tok)),
        Some(p) => if k >= s.len() {
            Ok(seq![p])
        } else {
            proof {
                lemma_first_comma_range(s, 0);
            }
            match coordinates_spec(s.skip(k + 1), size) {
                Ok(ps) => Ok(seq![p] + ps),
                Err(e) => Err(e),
            }
        },
    }
}

/// What an opening option gives on a board of side `size`: `none` (any
/// case) for no stones; `auto:N` for the first `N` points of the built-in
/// opening (at most five); else a comma-separated list of board
/// coordinates such as `H8,I9`. The option is trimmed first.
pub open spec fn opening_spec(spec: Seq<char>, size: u8) -> Result<Seq<Position>, Seq<char>> {
    let t = trim(spec);
    if eq_ignore_case(t, "none"@) {
        Ok(Seq::empty())
    } else if t.len() >= 5 && t.take(5) == "auto:"@ {
        let n = t.skip(5);
        match parse_u8(trim(n)) {
            None => Err("bad opening count: "@ + quoted(n)),
            Some(c) => Ok(auto_sequence(size).take(if c < 5 { c as int } else { 5 })),
        }
    } else {
        coordinates_spec(t, size)
    }
}

fn parse_coordinates(v: &Vec<char>, from: usize, to: usize, size: u8) -> (r: Result<Vec<Position>, String>)
    requires
        from <= to <= v@.len(),
    ensures
        match (r, coordinates_spec(v@.subrange(from as int, to as int), size)) {
            (Ok(ps), Ok(want)) => ps@ == want,
            (Err(m), Err(want)) => m@ == want,
            _ => false,
        },
    decreases to - from,
{
    let ghost s = v@.subrange(from as int, to as int);
    let mut k = from;
    while k < to && v[k] != ','
        invariant
            from <= k <= to <= v@.len(),
            s == v@.subrange(from as int, to as int),
            first_comma(s, 0) == first_comma(s, k - from),
        decreases to - k,
    {
        k = k + 1;
    }
    let mut tok = String::new();
    push_chars(&mut tok, v, from, k);
    proof {
        assert(s.take(k - from) =~= v@.subrange(from as int, k as int));
        assert(tok@ =~= v@.subrange(from as int, k as int));
    }
    match parse(tok.as_str(), size) {
        None => Err(quoted_message("bad opening coordinate: ", v, from, k)),
        Some(p) => {
            if k >= to {
                let mut out: Vec<Position> = Vec::new();
                out.push(p);
                proof {
                    assert(out@ =~= seq![p]);
                }
                Ok(out)
            } else {
                proof {
                    assert(s.skip(k - from + 1) =~= v@.subrange(k + 1, to as int));
                }
                match parse_coordinates(v, k + 1, to, size) {
                    Ok(rest) => {
                        let mut out: Vec<Position> = Vec::new();
                        out.push(p);
                        let mut i: usize = 0;
                        while i < rest.len()
                            invariant
                                i <= rest@.len(),
                                out@ == seq![p] + rest@.take(i as int),
                            decreases rest@.len() - i,
                        {
                            out.push(rest[i]);
                            proof {
                                assert(rest@.take(i + 1) =~= rest@.take(i as int).push(rest@[i as int]));
                            }
                            i = i + 1;
                        }
                        proof {
                            assert(rest@.take(rest@.len() as int) =~= rest@);
                        }
                        Ok(out)
                    },
                    Err(m) => Err(m),
                }
            }
        },
    }
}

/// Whether `v[lo..hi]` is `none` in any ASCII case.
fn is_none_word(v: &Vec<char>, lo: usize, hi: usize) -> (b: bool)
    requires
        lo <= hi <= v@.len(),
    ensures
        b == eq_ignore_case(v@.subrange(lo as int, hi as int), "none"@),
{
    let ghost t = v@.subrange(lo as int, hi as int);
    proof {
        reveal_strlit("none");
    }
    if hi - lo != 4 {
        return false;
    }
    let b = lower_eq(v[lo], 'n') && lower_eq(v[lo + 1], 'o') && lower_eq(v[lo + 2], 'n') && lower_eq(v[lo + 3], 'e');
    proof {
        assert(t[0] == v@[lo as int]);
        assert(t[1] == v@[lo + 1]);
        assert(t[2] == v@[lo + 2]);
        assert(t[3] == v@[lo + 3]);
        if b {
            assert forall|i: int| 0 <= i < t.len() implies lower(#[trigger] t[i]) == lower("none"@[i]) by {}
        } else {
            if eq_ignore_case(t, "none"@) {
                assert(lower(t[0]) == lower("none"@[0]));
                assert(lower(t[1]) == lower("none"@[1]));
                assert(lower(t[2]) == lower("none"@[2]));
                assert(lower(t[3]) == lower("none"@[3]));
            }
        }
    }
    b
}

/// Whether `v[lo..hi]` starts with `auto:`.
fn has_auto_prefix(v: &Vec<char>, lo: usize, hi: usize) -> (b: bool)
    requires
        lo <= hi <= v@.len(),
    ensures
        b == (hi - lo >= 5 && v@.subrange(lo as int, hi as int).take(5) == "auto:"@),
{
    let ghost t = v@.subrange(lo as int, hi as int);
    proof {
        reveal_strlit("auto:");
    }
    if hi - lo < 5 {
        return false;
    }
    let b = v[lo] == 'a' && v[lo + 1] == 'u' && v[lo + 2] == 't' && v[lo + 3] == 'o' && v[lo + 4] == ':';
    proof {
        if b {
            assert(t.take(5) =~= "auto:"@);
        } else if t.take(5) == "auto:"@ {
            assert(t.take(5)[0] == v@[lo as int]);
            assert(t.take(5)[1] == v@[lo + 1]);
            assert(t.take(5)[2] == v@[lo + 2]);
            assert(t.take(5)[3] == v@[lo + 3]);
            assert(t.take(5)[4] == v@[lo + 4]);
        }
    }
    b
}

/// The points of the built-in opening of `count` stones.
fn auto_points(count: u8, size: u8) -> (out: Vec<Position>)
    ensures
        out@ == auto_sequence(size).take(if count < 5 { count as int } else { 5 }),
{
    let opening = crate::opening::auto(count, size);
    let pts = opening.positions();
    let mut out: Vec<Position> = Vec::new();
    let mut i: usize = 0;
    while i < pts.len()
        invariant
            i <= pts@.len(),
            out@ == pts@.take(i as int),
        decreases pts@.len() - i,
    {
        out.push(pts[i]);
        proof {
            assert(pts@.take(i + 1) =~= pts@.take(i as int).push(pts@[i as int]));
        }
        i = i + 1;
    }
    proof {
        assert(pts@.take(pts@.len() as int) =~= pts@);
    }
    out
}

/// The opening stones of an opening option on a board of side `size`
/// (see [`opening_spec`]), or why the option is bad.
pub fn parse_opening(spec: &str, size: u8) -> (r: Result<Vec<Position>, String>)
    ensures
        match (r, opening_spec(spec@, size)) {
            (Ok(ps), Ok(want)) => ps@ == want,
            (Err(m), Err(want)) => m@ == want,
            _ => false,
        },
{
    let v = chars_of(spec);
    let (lo, hi) = trim_range(&v, 0, v.len());
    proof {
        assert(v@.subrange(0, v@.len() as int) =~= v@);
    }
    let ghost t = v@.subrange(lo as int, hi as int);
    if is_none_word(&v, lo, hi) {
        return Ok(Vec::new());
    }
    if has_auto_prefix(&v, lo, hi) {
        proof {
            assert(t.skip(5) =~= v@.subrange(lo + 5, hi as int));
        }
        let (nlo, nhi) = trim_range(&v, lo + 5, hi);
        match parse_u8_range(&v, nlo, nhi) {
            None => {
                return Err(quoted_message("bad opening count: ", &v, lo + 5, hi));
            },
            Some(count) => {
                return Ok(auto_points(count, size));
            },
        }
    }
    parse_coordinates(&v, lo, hi, size)
}

/// ASCII-case-insensitive equality of `c` with the lower-case letter `l`.
fn lower_eq(c: char, l: char) -> (b: bool)
    requires
        'a' <= l <= 'z',
    ensures
        b == (lower(c) == lower(l)),
{
    if c == l {
        true
    } else if 'A' <= c && c <= 'Z' {
        (c as u32) + 32 == (l as u32)
    } else {
        false
    }
}

/// The options of a titan seat: a thinking budget and a search depth, each
/// set by its last `time=` or `depth=` option.
#[derive(Debug, Clone, Copy, PartialEq, Eq, Structural)]
pub struct TitanOptions {
    pub time_ms: Option<u64>,
    pub depth: Option<i32>,
}

/// What `<i32 as FromStr>::from_str` gives.
pub open spec fn parse_i32(s: Seq<char>) -> Option<i32> {
    match crate::text::parse_i64(s) {
        Some(n) => if i32::MIN <= n <= i32::MAX {
            Some(n as i32)
        } else {
            None
        },
        None => None,
    }
}

/// The options `opts`, read in order (a later option overrides an earlier
/// one), or the message of the first bad one.
pub open spec fn titan_spec(opts: Seq<Seq<char>>) -> Result<TitanOptions, Seq<char>>
    decreases opts.len(),
{
    if opts.len() == 0 {
        Ok(TitanOptions { time_ms: None, depth: None })
    } else {
        match titan_spec(opts.drop_last()) {
            Err(e) => Err(e),
            Ok(o) => {
                let opt = opts.last();
                let k = first_eq(opt, 0);
                if k >= opt.len() {
                    Err("titan: bad option "@ + quoted(opt) + " (expected key=value)"@)
                } else {
                    let key = opt.take(k);
                    let value = opt.skip(k + 1);
                    if key == "time"@ {
                        match crate::text::parse_bounded(value, 0xFFFF_FFFF_FFFF_FFFF) {
                            Some(ms) => Ok(TitanOptions { time_ms: Some(ms as u64), ..o }),
                            None => Err("titan: bad time "@ + quoted(value)),
                        }
                    } else if key == "depth"@ {
                        match parse_i32(value) {
                            Some(d) => Ok(TitanOptions { depth: Some(d), ..o }),
                            None => Err("titan: bad depth "@ + quoted(value)),
                        }
                    } else {
                        Err("titan: unknown option "@ + quoted(key) + " (try time|depth)"@)
                    }
                }
            },
        }
    }
}

/// The index of the first `=` of `s` at or after `k`, else its length.
pub open spec fn first_eq(s: Seq<char>, k: int) -> int
    decreases s.len() - k,
{
    if k < 0 || k >= s.len() {
        s.len() as int
    } else if s[k] == '=' {
        k
    } else {
        first_eq(s, k + 1)
    }
}

/// One titan option applied to `o`.
fn titan_option(o: TitanOptions, opt: &String) -> (r: Result<TitanOptions, String>)
    ensures
        ({
            let k = first_eq(opt@, 0);
            let key = opt@.take(k);
            let value = opt@.skip(k + 1);
            match r {
                Ok(n) => k < opt@.len() && ((key == "time"@ && crate::text::parse_bounded(value, 0xFFFF_FFFF_FFFF_FFFF)
                    is Some && n == TitanOptions {
                    time_ms: Some(crate::text::parse_bounded(value, 0xFFFF_FFFF_FFFF_FFFF)->Some_0 as u64),
                    ..o
                }) || (key == "depth"@ && parse_i32(value) is Some && n == TitanOptions {
                    depth: Some(parse_i32(value)->Some_0),
                    ..o
                })),
                Err(m) => if k >= opt@.len() {
                    m@ == "titan: bad option "@ + quoted(opt@) + " (expected key=value)"@
                } else if key == "time"@ {
                    crate::text::parse_bounded(value, 0xFFFF_FFFF_FFFF_FFFF) is None && m@ == "titan: bad time "@
                        + quoted(value)
                } else if key == "depth"@ {
                    parse_i32(value) is None && m@ == "titan: bad depth "@ + quoted(value)
                } else {
                    m@ == "titan: unknown option "@ + quoted(key) + " (try time|depth)"@
                },
            }
        }),
{
    let v = chars_of(opt.as_str());
    let n = v.len();
    let mut k: usize = 0;
    while k < n && v[k] != '='
        invariant
            k <= n,
            n == v@.len(),
            v@ == opt@,
            first_eq(v@, 0) == first_eq(v@, k as int),
        decreases n - k,
    {
        k = k + 1;
    }
    proof {
        assert(v@.subrange(0, n as int) =~= v@);
    }
    if k >= n {
        let mut m = quoted_message("titan: bad option ", &v, 0, n);
        m.append(" (expected key=value)");
        return Err(m);
    }
    let mut key = String::new();
    push_chars(&mut key, &v, 0, k);
    proof {
        assert(key@ =~= opt@.take(k as int));
        assert(opt@.skip(k + 1) =~= v@.subrange(k + 1, n as int));
    }
    if crate::text::same_text(key.as_str(), "time") {
        match crate::text::parse_bounded_range(&v, k + 1, n, 0xFFFF_FFFF_FFFF_FFFFu64) {
            Some(ms) => Ok(TitanOptions { time_ms: Some(ms), ..o }),
            None => Err(quoted_message("titan: bad time ", &v, k + 1, n)),
        }
    } else if crate::text::same_text(key.as_str(), "depth") {
        match parse_i32_range(&v, k + 1, n) {
            Some(d) => Ok(TitanOptions { depth: Some(d), ..o }),
            None => Err(quoted_message("titan: bad depth ", &v, k + 1, n)),
        }
    } else {
        let mut m = quoted_message("titan: unknown option ", &v, 0, k);
        m.append(" (try time|depth)");
        Err(m)
    }
}

/// `<i32 as FromStr>::from_str` on `v[from..to]`.
fn parse_i32_range(v: &Vec<char>, from: usize, to: usize) -> (r: Option<i32>)
    requires
        from <= to <= v@.len(),
    ensures
        r == parse_i32(v@.subrange(from as int, to as int)),
{
    match crate::bot::protocol::parse_i64_range(v, from, to) {
        Some(n) => if -2147483648 <= n && n <= 2147483647 {
            Some(n as i32)
        } else {
            None
        },
        None => None,
    }
}

/// The options of a titan seat (`time=<ms>`, `depth=<n>`), or the message
/// of the first bad one.
pub fn titan_options(opts: &Vec<String>) -> (r: Result<TitanOptions, String>)
    ensures
        match (r, titan_spec(opts@.map_values(|o: String| o@))) {
            (Ok(o), Ok(want)) => o == want,
            (Err(m), Err(want)) => m@ == want,
            _ => false,
        },
{
    let ghost all = opts@.map_values(|o: String| o@);
    let mut o = TitanOptions { time_ms: None, depth: None };
    let mut i: usize = 0;
    while i < opts.len()
        invariant
            i <= opts@.len(),
            all == opts@.map_values(|o: String| o@),
            titan_spec(all.take(i as int)) == Ok::<TitanOptions, Seq<char>>(o),
        decreases opts@.len() - i,
    {
        let ghost pre = all.take(i as int);
        proof {
            assert(all.take(i + 1).drop_last() =~= pre);
            assert(all.take(i + 1).last() == opts@[i as int]@);
            reveal_strlit("time");
            reveal_strlit("depth");
            assert("time"@.len() != "depth"@.len());
        }
        match titan_option(o, &opts[i]) {
            Ok(next) => {
                o = next;
            },
            Err(m) => {
                proof {
                    let k = i + 1;
                    assert(titan_spec(all.take(k)) == Err::<TitanOptions, Seq<char>>(m@));
                    assert forall|j: int| k <= j <= all.len() implies titan_spec(all.take(j)) == Err::<
                        TitanOptions,
                        Seq<char>,
                    >(m@) by {
                        lemma_titan_err_sticks(all, k, j, m@);
                    }
                    assert(all.take(all.len() as int) =~= all);
                }
                return Err(m);
            },
        }
        i = i + 1;
    }
    proof {
        assert(all.take(all.len() as int) =~= all);
    }
    Ok(o)
}

/// Once an option is bad, every longer list fails with its message.
proof fn lemma_titan_err_sticks(all: Seq<Seq<char>>, k: int, j: int, m: Seq<char>)
    requires
        0 <= k <= j <= all.len(),
        titan_spec(all.take(k)) == Err::<TitanOptions, Seq<char>>(m),
    ensures
        titan_spec(all.take(j)) == Err::<TitanOptions, Seq<char>>(m),
    decreases j - k,
{
    if j > k {
        lemma_titan_err_sticks(all, k, j - 1, m);
        assert(all.take(j).drop_last() =~= all.take(j - 1));
    }
}

/// `s` in the ANSI style `code` when `styled`, else plain.
pub open spec fn wrap_spec(s: Seq<char>, code: Seq<char>, styled: bool) -> Seq<char> {
    if styled {
        "\x1b["@ + code + "m"@ + s + "\x1b[0m"@
    } else {
        s
    }
}

/// Appends `s` in the ANSI style `code` when `styled`, else plain.
fn push_styled(out: &mut String, s: &str, code: &str, styled: bool)
    ensures
        final(out)@ == old(out)@ + wrap_spec(s@, code@, styled),
{
    if styled {
        out.append("\x1b[");
        out.append(code);
        out.append("m");
        out.append(s);
        out.append("\x1b[0m");
    } else {
        out.append(s);
    }
    proof {
        assert(out@ =~= old(out)@ + wrap_spec(s@, code@, styled));
    }
}

/// The glyphs of a board drawing: empty point, black, white, then the
/// frame's corners (top left, top right, bottom left, bottom right), its
/// vertical and its horizontal bar.
pub open spec fn glyphs(ascii: bool) -> Seq<char> {
    if ascii {
        seq!['.', 'X', 'O', '+', '+', '+', '+', '|', '-']
    } else {
        seq!['·', '●', '○', '┌', '┐', '└', '┘', '│', '─']
    }
}

fn glyph_table(ascii: bool) -> (g: Vec<char>)
    ensures
        g@ == glyphs(ascii),
{
    let g = if ascii {
        vec!['.', 'X', 'O', '+', '+', '+', '+', '|', '-']
    } else {
        vec!['·', '●', '○', '┌', '┐', '└', '┘', '│', '─']
    };
    proof {
        assert(g@ =~= glyphs(ascii));
    }
    g
}

/// The star points drawn on `board`: those of its side if it is square.
pub open spec fn stars_of(board: Board) -> Seq<(u8, u8)> {
    if board.w() == board.h() {
        star_spec(board.w() as u8)
    } else {
        Seq::empty()
    }
}

/// The glyph of point `(r, c)`: its stone, else `+` on a star point, else
/// the empty point.
pub open spec fn glyph_spec(board: Board, ascii: bool, r: int, c: int) -> char {
    match board.at(r, c) {
        Cell::Stone(Color::Black) => glyphs(ascii)[1],
        Cell::Stone(Color::White) => glyphs(ascii)[2],
        Cell::Empty => if stars_of(board).contains((r as u8, c as u8)) {
            '+'
        } else {
            glyphs(ascii)[0]
        },
    }
}

/// The drawing of point `(r, c)`: the last move in bright brackets, a
/// stone in bold, an empty point faint.
pub open spec fn point_spec(board: Board, ascii: bool, last: Option<Position>, styled: bool, r: int, c: int) -> Seq<
    char,
> {
    let g = glyph_spec(board, ascii, r, c);
    if last == Some(Position { row: r as u8, col: c as u8 }) {
        wrap_spec("["@, "37"@, styled) + wrap_spec(seq![g], "1;33"@, styled) + wrap_spec("]"@, "37"@, styled)
    } else if board.at(r, c) is Stone {
        wrap_spec(seq![' ', g, ' '], "1"@, styled)
    } else {
        wrap_spec(seq![' ', g, ' '], "2"@, styled)
    }
}

/// In a board drawing a black stone shows the black glyph and a white
/// stone the white one (`X` and `O` in ASCII, `●` and `○` otherwise), so
/// stones of the two colours never look alike and no stone looks like an
/// empty point; unstyled and away from the last move, the point reads as
/// its glyph between two spaces.
pub proof fn lemma_stone_glyphs(
    board: Board,
    ascii: bool,
    last: Option<Position>,
    r1: int,
    c1: int,
    r2: int,
    c2: int,
)
    ensures
        board.at(r1, c1) == Cell::Stone(Color::Black) ==> glyph_spec(board, ascii, r1, c1) == (if ascii {
            'X'
        } else {
            '●'
        }),
        board.at(r1, c1) == Cell::Stone(Color::White) ==> glyph_spec(board, ascii, r1, c1) == (if ascii {
            'O'
        } else {
            '○'
        }),
        board.at(r1, c1) is Stone && board.at(r2, c2) is Stone && board.at(r1, c1) != board.at(r2, c2) ==> glyph_spec(
            board,
            ascii,
            r1,
            c1,
        ) != glyph_spec(board, ascii, r2, c2),
        board.at(r1, c1) is Stone && board.at(r2, c2) is Empty ==> glyph_spec(board, ascii, r1, c1) != glyph_spec(
            board,
            ascii,
            r2,
            c2,
        ),
        board.at(r1, c1) is Stone && last != Some(Position { row: r1 as u8, col: c1 as u8 }) ==> point_spec(
            board,
            ascii,
            last,
            false,
            r1,
            c1,
        ) == seq![' ', glyph_spec(board, ascii, r1, c1), ' '],
{
}

/// The points `0..k` of row `r`.
pub open spec fn points_spec(board: Board, ascii: bool, last: Option<Position>, styled: bool, r: int, k: int) -> Seq<
    char,
>
    decreases k,
{
    if k <= 0 {
        Seq::empty()
    } else {
        points_spec(board, ascii, last, styled, r, k - 1) + point_spec(board, ascii, last, styled, r, k - 1)
    }
}

/// A row label right-aligned in two columns.
pub open spec fn pad2(n: nat) -> Seq<char> {
    if decimal(n).len() < 2 {
        seq![' '] + decimal(n)
    } else {
        decimal(n)
    }
}

/// Row `r` of the drawing: its label (rows count from the bottom), the
/// frame, the points, the frame.
pub open spec fn row_spec(board: Board, ascii: bool, last: Option<Position>, styled: bool, r: int) -> Seq<char> {
    let g = glyphs(ascii);
    wrap_spec(pad2((board.h() - r) as nat) + seq![' ', g[7]], "2"@, styled) + points_spec(
        board,
        ascii,
        last,
        styled,
        r,
        board.w(),
    ) + wrap_spec(seq![g[7]], "2"@, styled) + "\n"@
}

/// Rows `0..k` of the drawing.
pub open spec fn rows_spec(board: Board, ascii: bool, last: Option<Position>, styled: bool, k: int) -> Seq<char>
    decreases k,
{
    if k <= 0 {
        Seq::empty()
    } else {
        rows_spec(board, ascii, last, styled, k - 1) + row_spec(board, ascii, last, styled, k - 1)
    }
}

/// The column letters `0..k`, three columns each.
pub open spec fn letters_spec(k: int) -> Seq<char>
    decreases k,
{
    if k <= 0 {
        Seq::empty()
    } else {
        letters_spec(k - 1) + seq![' ', ((65 + k - 1) as char), ' ']
    }
}

/// The whole drawing: the top frame, the rows, the bottom frame, then the
/// column letters.
pub open spec fn render_spec(board: Board, ascii: bool, last: Option<Position>, styled: bool) -> Seq<char> {
    let g = glyphs(ascii);
    let bar = Seq::new((board.w() * 3) as nat, |i: int| g[8]);
    wrap_spec("   "@ + seq![g[3]] + bar + seq![g[4]], "2"@, styled) + "\n"@ + rows_spec(
        board,
        ascii,
        last,
        styled,
        board.h(),
    ) + wrap_spec("   "@ + seq![g[5]] + bar + seq![g[6]], "2"@, styled) + "\n"@ + wrap_spec(
        "    "@ + letters_spec(board.w()),
        "2"@,
        styled,
    ) + "\n"@
}

/// Appends the drawing of point `(y, x)`.
fn push_point(
    out: &mut String,
    board: &Board,
    g: &Vec<char>,
    stars: &Vec<(u8, u8)>,
    ascii: bool,
    last_move: Option<Position>,
    styled: bool,
    y: u8,
    x: u8,
)
    requires
        g@ == glyphs(ascii),
        stars@ == stars_of(*board),
        board.has(y as int, x as int),
    ensures
        final(out)@ == old(out)@ + point_spec(*board, ascii, last_move, styled, y as int, x as int),
{
    let pos = Position::new(y, x);
    let cell = board.get(pos);
    let glyph = match cell {
        Some(Cell::Stone(Color::Black)) => g[1],
        Some(Cell::Stone(Color::White)) => g[2],
        _ => if contains_point(stars, y, x) {
            '+'
        } else {
            g[0]
        },
    };
    let is_last = match last_move {
        Some(p) => p.row == y && p.col == x,
        None => false,
    };
    proof {
        assert(glyph == glyph_spec(*board, ascii, y as int, x as int));
        assert(is_last == (last_move == Some(Position { row: y, col: x })));
    }
    if is_last {
        let mut one = String::new();
        push_char(&mut one, glyph);
        push_styled(out, "[", "37", styled);
        push_styled(out, one.as_str(), "1;33", styled);
        push_styled(out, "]", "37", styled);
    } else {
        let mut three = String::new();
        push_char(&mut three, ' ');
        push_char(&mut three, glyph);
        push_char(&mut three, ' ');
        proof {
            assert(three@ =~= seq![' ', glyph, ' ']);
        }
        match cell {
            Some(Cell::Stone(_)) => push_styled(out, three.as_str(), "1", styled),
            _ => push_styled(out, three.as_str(), "2", styled),
        }
    }
    proof {
        assert(out@ =~= old(out)@ + point_spec(*board, ascii, last_move, styled, y as int, x as int));
    }
}

/// Appends row `y` of the drawing.
fn push_row(
    out: &mut String,
    board: &Board,
    g: &Vec<char>,
    stars: &Vec<(u8, u8)>,
    ascii: bool,
    last_move: Option<Position>,
    styled: bool,
    y: u8,
)
    requires
        g@ == glyphs(ascii),
        stars@ == stars_of(*board),
        y < board.h(),
    ensures
        final(out)@ == old(out)@ + row_spec(*board, ascii, last_move, styled, y as int),
{
    let w = board.width();
    let h = board.height();
    let mut label = String::new();
    let row_label: u8 = h - y;
    proof {
        crate::text::lemma_decimal(row_label as nat);
    }
    if row_label < 10 {
        push_char(&mut label, ' ');
    }
    crate::text::push_decimal(&mut label, row_label);
    push_char(&mut label, ' ');
    push_char(&mut label, g[7]);
    proof {
        assert(label@ =~= pad2((board.h() - y) as nat) + seq![' ', g@[7]]);
    }
    push_styled(out, label.as_str(), "2", styled);
    let ghost after_label = out@;
    let mut x: u8 = 0;
    while x < w
        invariant
            x <= w,
            y < board.h(),
            w == board.w(),
            g@ == glyphs(ascii),
            stars@ == stars_of(*board),
            out@ == after_label + points_spec(*board, ascii, last_move, styled, y as int, x as int),
        decreases w - x,
    {
        push_point(out, board, g, stars, ascii, last_move, styled, y, x);
        proof {
            assert(out@ =~= after_label + points_spec(*board, ascii, last_move, styled, y as int, x + 1));
        }
        x = x + 1;
    }
    let mut vbar = String::new();
    push_char(&mut vbar, g[7]);
    push_styled(out, vbar.as_str(), "2", styled);
    out.append("\n");
    proof {
        assert(vbar@ =~= seq![g@[7]]);
        assert(out@ =~= old(out)@ + row_spec(*board, ascii, last_move, styled, y as int));
    }
}

/// A frame line: three spaces, a corner, the bar, a corner.
fn frame_line(left: char, bar: &String, right: char) -> (l: String)
    ensures
        l@ == "   "@ + seq![left] + bar@ + seq![right],
{
    let mut l = "   ".to_owned();
    push_char(&mut l, left);
    l.append(bar.as_str());
    push_char(&mut l, right);
    proof {
        assert(l@ =~= "   "@ + seq![left] + bar@ + seq![right]);
    }
    l
}

/// The horizontal bar of a `w` wide drawing.
fn bar_of(w: u8, c: char) -> (bar: String)
    ensures
        bar@ == Seq::new((w * 3) as nat, |j: int| c),
{
    let n: usize = (w as usize) * 3;
    let mut bar = String::new();
    let mut i: usize = 0;
    while i < n
        invariant
            n == w * 3,
            i <= n,
            bar@ == Seq::new(i as nat, |j: int| c),
        decreases n - i,
    {
        push_char(&mut bar, c);
        i = i + 1;
        proof {
            assert(bar@ =~= Seq::new(i as nat, |j: int| c));
        }
    }
    bar
}

/// The column letters of a `w` wide drawing, after four spaces.
fn letters_line(w: u8) -> (l: String)
    requires
        w <= 191,
    ensures
        l@ == "    "@ + letters_spec(w as int),
{
    let mut letters = "    ".to_owned();
    let mut x: u8 = 0;
    while x < w
        invariant
            x <= w,
            w <= 191,
            letters@ == "    "@ + letters_spec(x as int),
        decreases w - x,
    {
        push_char(&mut letters, ' ');
        push_char(&mut letters, (65 + x) as char);
        push_char(&mut letters, ' ');
        proof {
            assert(letters@ =~= "    "@ + letters_spec(x + 1));
        }
        x = x + 1;
    }
    letters
}

/// The text drawing of a position: a framed board three columns a point,
/// rows numbered from the bottom and columns lettered from `A`; the last
/// move in brackets; with ANSI styles (faint frame and empty points, bold
/// stones, a bright last move) when `styled`. `ascii` draws `. X O` and a
/// `+|-` frame instead of `· ● ○` and box lines.
pub fn render_board(state: &crate::model::GameState, ascii: bool, last_move: Option<Position>, styled: bool) -> (s: String)
    requires
        state.board.w() <= 191,
    ensures
        s@ == render_spec(state.board, ascii, last_move, styled),
{
    let board = &state.board;
    let g = glyph_table(ascii);
    let stars = match board.square_size() {
        Some(n) => star_points(n),
        None => Vec::new(),
    };
    let w = board.width();
    let h = board.height();
    let bar = bar_of(w, g[8]);
    let mut out = String::new();
    let top = frame_line(g[3], &bar, g[4]);
    push_styled(&mut out, top.as_str(), "2", styled);
    out.append("\n");
    let ghost head = out@;
    let mut y: u8 = 0;
    while y < h
        invariant
            y <= h,
            h == board.h(),
            g@ == glyphs(ascii),
            stars@ == stars_of(*board),
            out@ == head + rows_spec(*board, ascii, last_move, styled, y as int),
        decreases h - y,
    {
        push_row(&mut out, board, &g, &stars, ascii, last_move, styled, y);
        proof {
            assert(out@ =~= head + rows_spec(*board, ascii, last_move, styled, y + 1));
        }
        y = y + 1;
    }
    let bottom = frame_line(g[5], &bar, g[6]);
    push_styled(&mut out, bottom.as_str(), "2", styled);
    out.append("\n");
    let letters = letters_line(w);
    push_styled(&mut out, letters.as_str(), "2", styled);
    out.append("\n");
    proof {
        assert(out@ =~= render_spec(*board, ascii, last_move, styled));
    }
    out
}

/// Whether `(r, c)` is one of the points `pts`.
fn contains_point(pts: &Vec<(u8, u8)>, r: u8, c: u8) -> (b: bool)
    ensures
        b == pts@.contains((r, c)),
{
    let mut i: usize = 0;
    while i < pts.len()
        invariant
            i <= pts@.len(),
            forall|j: int| 0 <= j < i ==> pts@[j] != (r, c),
        decreases pts@.len() - i,
    {
        if pts[i].0 == r && pts[i].1 == c {
            proof {
                assert(pts@[i as int] == (r, c));
            }
            return true;
        }
        i = i + 1;
    }
    false
}

} // verus!
