//! The human board notation `Position <-> "H8"`: a letter column (`A` on
//! the left) and a row number counted from the bottom (`1` at the bottom).
//! For display and human input only; the wire protocol and game records use
//! the numeric `X,Y` form of [`crate::model::coord`]. Row numbers depend on
//! the board height, so both directions take it.

use vstd::prelude::*;

use super::position::Position;
use crate::text::{
    chars_of, decimal, is_ws, lemma_decimal, lemma_parse_decimal, lemma_trim_noop, parse_u8,
    parse_u8_range, push_char, push_decimal, trim, trim_range,
};

verus! {

/// The column letter of column `col` (`A` for 0).
pub open spec fn column_letter(col: int) -> char {
    (65 + col) as char
}

/// `char::to_ascii_uppercase`.
pub open spec fn upper(c: char) -> char {
    if 'a' <= c && c <= 'z' {
        ((c as int) - 32) as char
    } else {
        c
    }
}

/// The text of `pos` on a board `height` rows high.
pub open spec fn format_spec(pos: Position, height: u8) -> Seq<char> {
    seq![column_letter(pos.col as int)] + decimal((height - pos.row) as nat)
}

/// What `parse` gives for the characters `s` on a board `height` rows high:
/// trim, an ASCII letter (either case) for the column, then a `u8` row
/// number between 1 and `height`.
pub open spec fn parse_spec(s: Seq<char>, height: u8) -> Option<Position> {
    let t = trim(s);
    if t.len() == 0 {
        None
    } else {
        let l = upper(t[0]);
        if !('A' <= l && l <= 'Z') {
            None
        } else {
            match parse_u8(t.drop_first()) {
                None => None,
                Some(label) => if label == 0 || label > height {
                    None
                } else {
                    Some(Position { row: (height - label) as u8, col: ((l as int) - 65) as u8 })
                },
            }
        }
    }
}

/// Formats `pos` in the standard notation, such as `"H8"`. `height` is the
/// number of rows (row numbers run bottom-up).
pub fn format(pos: Position, height: u8) -> (r: String)
    requires
        pos.col <= 190,
        pos.row <= height,
    ensures
        r@ == format_spec(pos, height),
{
    let code: u8 = 65 + pos.col;
    let letter = code as char;
    let label: u8 = height - pos.row;
    let mut s = String::new();
    push_char(&mut s, letter);
    push_decimal(&mut s, label);
    proof {
        assert(s@ =~= format_spec(pos, height));
    }
    s
}

/// Parses the standard notation (`"H8"` or `"h8"`); `None` for malformed or
/// out-of-range text. `height` turns the bottom-up row number back into the
/// top-down row index.
pub fn parse(text: &str, height: u8) -> (r: Option<Position>)
    ensures
        r == parse_spec(text@, height),
{
    let v = chars_of(text);
    let n = v.len();
    let (lo, hi) = trim_range(&v, 0, n);
    let ghost t = v@.subrange(lo as int, hi as int);
    proof {
        assert(v@.subrange(0, n as int) =~= v@);
    }
    if lo == hi {
        return None;
    }
    let c = v[lo];
    let letter = if 'a' <= c && c <= 'z' {
        let code: u8 = (c as u8) - 32;
        code as char
    } else {
        c
    };
    proof {
        assert(t[0] == c);
        assert(letter == upper(t[0]));
    }
    if !('A' <= letter && letter <= 'Z') {
        return None;
    }
    let col: u8 = ((letter as u32) - 65) as u8;
    proof {
        assert(t.drop_first() =~= v@.subrange(lo + 1, hi as int));
    }
    let label = match parse_u8_range(&v, lo + 1, hi) {
        Some(l) => l,
        None => {
            return None;
        },
    };
    if label == 0 || label > height {
        return None;
    }
    Some(Position::new(height - label, col))
}

/// A column letter and its column correspond.
pub proof fn lemma_column_letter(col: int)
    requires
        0 <= col < 26,
    ensures
        column_letter(col) as int == 65 + col,
        'A' <= column_letter(col) && column_letter(col) <= 'Z',
        upper(column_letter(col)) == column_letter(col),
        !is_ws(column_letter(col)),
{
    assert((65 + col) as char as int == 65 + col);
}

/// Parsing the notation of an on-board position gives the position back.
pub proof fn lemma_parse_format(pos: Position, height: u8)
    requires
        pos.row < height,
        pos.col < 26,
    ensures
        parse_spec(format_spec(pos, height), height) == Some(pos),
{
    let s = format_spec(pos, height);
    let label = (height - pos.row) as u8;
    lemma_column_letter(pos.col as int);
    lemma_decimal(label as nat);
    let d = decimal(label as nat);
    assert(s.last() == d.last());
    lemma_trim_noop(s);
    assert(s.drop_first() =~= d);
    lemma_parse_decimal(label);
}

} // verus!
