//! The `"X,Y"` text form of a position (Gomocup protocol coordinates):
//! `X` is the column, `Y` the row, both 0-based. Example: row 7, column 7
//! is `"7,7"`.

use vstd::prelude::*;

use super::position::Position;
use crate::text::{
    chars_of, decimal, lemma_decimal, lemma_parse_decimal, lemma_trim_noop, parse_u8,
    parse_u8_range, push_char, push_decimal, trim, trim_range,
};

verus! {

/// `k` is the index of the first `,` in `s`.
pub open spec fn is_first_comma(s: Seq<char>, k: int) -> bool {
    &&& 0 <= k < s.len()
    &&& s[k] == ','
    &&& forall|j: int| 0 <= j < k ==> s[j] != ','
}

/// What `decode` gives for the characters `s`: split at the first `,`,
/// trim both halves, and parse each as a `u8` (column, then row).
pub open spec fn decode_spec(s: Seq<char>) -> Option<Position> {
    if exists|k: int| is_first_comma(s, k) {
        let k = choose|k: int| is_first_comma(s, k);
        let x = parse_u8(trim(s.take(k)));
        let y = parse_u8(trim(s.skip(k + 1)));
        if x is Some && y is Some {
            Some(Position { row: y->0, col: x->0 })
        } else {
            None
        }
    } else {
        None
    }
}

/// The text of `pos`: column, `,`, row, in decimal.
pub open spec fn encode_spec(pos: Position) -> Seq<char> {
    decimal(pos.col as nat) + seq![','] + decimal(pos.row as nat)
}

/// Encodes a position as `"X,Y"` (0-based), such as `"7,7"`.
pub fn encode(pos: Position) -> (r: String)
    ensures
        r@ == encode_spec(pos),
{
    let mut s = String::new();
    push_decimal(&mut s, pos.col);
    push_char(&mut s, ',');
    push_decimal(&mut s, pos.row);
    proof {
        assert(s@ =~= encode_spec(pos));
    }
    s
}

/// Parses `"X,Y"` (0-based); `None` for malformed text. Bounds against a
/// board are the caller's business.
pub fn decode(text: &str) -> (r: Option<Position>)
    ensures
        r == decode_spec(text@),
{
    let v = chars_of(text);
    let n = v.len();
    let mut k: usize = 0;
    while k < n && v[k] != ','
        invariant
            n == v@.len(),
            k <= n,
            forall|j: int| 0 <= j < k ==> v@[j] != ',',
        decreases n - k,
    {
        k = k + 1;
    }
    if k == n {
        proof {
            assert forall|j: int| !is_first_comma(v@, j) by {}
        }
        return None;
    }
    proof {
        assert(is_first_comma(v@, k as int));
        let c = choose|c: int| is_first_comma(v@, c);
        if c < k {
            assert(v@[c] != ',');
        } else if c > k {
            assert(v@[k as int] != ',');
        }
        assert(v@.take(k as int) =~= v@.subrange(0, k as int));
        assert(v@.skip(k + 1) =~= v@.subrange(k + 1, n as int));
    }
    let (xl, xh) = trim_range(&v, 0, k);
    let (yl, yh) = trim_range(&v, k + 1, n);
    let x = parse_u8_range(&v, xl, xh);
    let y = parse_u8_range(&v, yl, yh);
    match (x, y) {
        (Some(col), Some(row)) => Some(Position::new(row, col)),
        _ => None,
    }
}

/// Decoding the text of a position gives the position back.
pub proof fn lemma_decode_encode(pos: Position)
    ensures
        decode_spec(encode_spec(pos)) == Some(pos),
{
    let s = encode_spec(pos);
    let dc = decimal(pos.col as nat);
    let dr = decimal(pos.row as nat);
    lemma_decimal(pos.col as nat);
    lemma_decimal(pos.row as nat);
    let k = dc.len() as int;
    assert(s[k] == ',');
    assert forall|j: int| 0 <= j < k implies s[j] != ',' by {
        assert(s[j] == dc[j]);
    }
    assert(is_first_comma(s, k));
    let c = choose|c: int| is_first_comma(s, c);
    if c < k {
        assert(s[c] == dc[c]);
    } else if c > k {
        assert(s[k] == ',');
    }
    assert(s.take(k) =~= dc);
    assert(s.skip(k + 1) =~= dr);
    lemma_trim_noop(dc);
    lemma_trim_noop(dr);
    lemma_parse_decimal(pos.col);
    lemma_parse_decimal(pos.row);
}

} // verus!
