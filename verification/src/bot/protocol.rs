//! The Gomocup text protocol between a manager and a brain: the
//! manager's commands as the brain reads them, the brain's replies as it
//! writes them, and the brain's reply lines as a manager reads them.
//!
//! A command is a line: a keyword (any ASCII case) and its argument;
//! `BOARD` and `SWAP2BOARD` are followed by one `x,y,field` line per stone
//! up to `DONE`. Coordinates are `x,y`: column, then row.

use vstd::prelude::*;

use super::serve::{BrainCommand, BrainReply, Field};
use crate::model::coord::{decode, decode_spec, encode, encode_spec};
use crate::model::notation::upper;
use crate::model::Position;
use crate::text::{
    chars_of, digits_value, is_whitespace, is_ws, parse_bounded, parse_bounded_range, parse_i64, parse_u8,
    parse_u8_range, push_chars, trim, trim_range,
};

verus! {

/// Why a command could not be read.
#[derive(Debug, Clone, PartialEq, Eq)]
pub enum ProtocolError {
    /// An unknown keyword (answered `UNKNOWN <keyword>`).
    Unknown(String),
    /// A known keyword with a bad argument (answered `ERROR <keyword>`).
    Malformed(String),
}

/// The first index at or after `k` of `ch` in `s`, else its length.
pub open spec fn first_at(s: Seq<char>, k: int, ch: char) -> int
    decreases s.len() - k,
{
    if k < 0 || k >= s.len() {
        s.len() as int
    } else if s[k] == ch {
        k
    } else {
        first_at(s, k + 1, ch)
    }
}

/// The first index at or after `k` of whitespace in `s`, else its length.
pub open spec fn first_ws_at(s: Seq<char>, k: int) -> int
    decreases s.len() - k,
{
    if k < 0 || k >= s.len() {
        s.len() as int
    } else if is_ws(s[k]) {
        k
    } else {
        first_ws_at(s, k + 1)
    }
}

/// A search from `k` stays between `k` and the end.
pub proof fn lemma_first_at_range(s: Seq<char>, k: int, ch: char)
    ensures
        0 <= first_at(s, k, ch) <= s.len(),
        0 <= k <= s.len() ==> k <= first_at(s, k, ch),
        first_at(s, k, ch) < s.len() ==> s[first_at(s, k, ch)] == ch,
    decreases s.len() - k,
{
    if 0 <= k < s.len() && s[k] != ch {
        lemma_first_at_range(s, k + 1, ch);
    }
}

/// `s` is the upper-case `word` in any ASCII case.
pub open spec fn is_word(s: Seq<char>, word: Seq<char>) -> bool {
    s.len() == word.len() && forall|i: int| 0 <= i < s.len() ==> upper(#[trigger] s[i]) == word[i]
}

/// The keyword of a command line: its first word once trimmed.
pub open spec fn keyword_of(line: Seq<char>) -> Seq<char> {
    let t = trim(line);
    t.take(first_ws_at(t, 0))
}

/// The argument of a command line: what follows the keyword, trimmed.
pub open spec fn argument_of(line: Seq<char>) -> Seq<char> {
    let t = trim(line);
    trim(t.skip(first_ws_at(t, 0)))
}

/// The first line of a block.
pub open spec fn first_line(s: Seq<char>) -> Seq<char> {
    s.take(first_at(s, 0, '\n'))
}

/// The value of a `BOARD` field code.
pub open spec fn field_of(s: Seq<char>) -> Option<Field> {
    if s == "1"@ {
        Some(Field::Own)
    } else if s == "2"@ {
        Some(Field::Opp)
    } else if s == "3"@ {
        Some(Field::Winning)
    } else {
        None
    }
}

/// A `BOARD` line `x,y,field` (each part trimmed).
pub open spec fn cell_spec(t: Seq<char>) -> Option<(Position, Field)> {
    let k1 = first_at(t, 0, ',');
    let k2 = first_at(t, k1 + 1, ',');
    if k1 >= t.len() || k2 >= t.len() {
        None
    } else {
        let x = parse_u8(trim(t.subrange(0, k1)));
        let y = parse_u8(trim(t.subrange(k1 + 1, k2)));
        let f = field_of(trim(t.subrange(k2 + 1, t.len() as int)));
        if x is Some && y is Some && f is Some {
            Some((Position { row: y->Some_0, col: x->Some_0 }, f->Some_0))
        } else {
            None
        }
    }
}

/// The stones of the lines `s` of a block, up to `DONE` (or the end):
/// blank lines are skipped; `None` at the first bad line.
pub open spec fn cells_spec(s: Seq<char>) -> Option<Seq<(Position, Field)>>
    decreases s.len(),
{
    if s.len() == 0 {
        Some(Seq::empty())
    } else {
        let k = first_at(s, 0, '\n');
        let t = trim(s.take(k));
        let rest = if k < s.len() { s.skip(k + 1) } else { Seq::empty() };
        if is_word(t, "DONE"@) {
            Some(Seq::empty())
        } else {
            proof {
                lemma_first_at_range(s, 0, '\n');
            }
            let more = cells_spec(rest);
            if t.len() == 0 {
                more
            } else {
                match (cell_spec(t), more) {
                    (Some(c), Some(cs)) => Some(seq![c] + cs),
                    _ => None,
                }
            }
        }
    }
}

/// The `INFO` command of an argument `key value`.
pub open spec fn info_spec(arg: Seq<char>) -> Option<BrainCommand> {
    let key = arg.take(first_ws_at(arg, 0));
    let value = trim(arg.skip(first_ws_at(arg, 0)));
    if key == "rule"@ {
        match parse_bounded(value, 0xFFFF_FFFF) {
            Some(n) => Some(BrainCommand::InfoRule(n as u32)),
            None => None,
        }
    } else if key == "timeout_turn"@ {
        match parse_i64(value) {
            Some(n) => Some(BrainCommand::InfoTimeoutTurn(n)),
            None => None,
        }
    } else if key == "time_left"@ {
        match parse_i64(value) {
            Some(n) => Some(BrainCommand::InfoTimeLeft(n)),
            None => None,
        }
    } else {
        Some(BrainCommand::InfoOther)
    }
}

/// The lines after the first line of a block.
pub open spec fn body_of(s: Seq<char>) -> Seq<char> {
    if first_at(s, 0, '\n') < s.len() {
        s.skip(first_at(s, 0, '\n') + 1)
    } else {
        Seq::empty()
    }
}

/// The keyword a command is written with.
pub open spec fn cmd_word(cmd: BrainCommand) -> Seq<char> {
    match cmd {
        BrainCommand::Start(_) => "START"@,
        BrainCommand::RectStart { .. } => "RECTSTART"@,
        BrainCommand::Restart => "RESTART"@,
        BrainCommand::Begin => "BEGIN"@,
        BrainCommand::About => "ABOUT"@,
        BrainCommand::End => "END"@,
        BrainCommand::Turn(_) => "TURN"@,
        BrainCommand::Play(_) => "PLAY"@,
        BrainCommand::TakeBack(_) => "TAKEBACK"@,
        BrainCommand::Board(_) => "BOARD"@,
        BrainCommand::Swap2Board(_) => "SWAP2BOARD"@,
        _ => "INFO"@,
    }
}

/// `cmd` is what a command line with keyword `kw` and argument `arg`,
/// followed by the lines `body`, says.
pub open spec fn parts_match(kw: Seq<char>, arg: Seq<char>, body: Seq<char>, cmd: BrainCommand) -> bool {
    &&& is_word(kw, cmd_word(cmd))
    &&& match cmd {
        BrainCommand::Start(n) => parse_u8(arg) == Some(n),
        BrainCommand::RectStart { width, height } => decode_spec(arg) == Some(Position { row: height, col: width }),
        BrainCommand::Turn(p) => decode_spec(arg) == Some(p),
        BrainCommand::Play(p) => decode_spec(arg) == Some(p),
        BrainCommand::TakeBack(p) => decode_spec(arg) == Some(p),
        BrainCommand::Board(cells) => cells_spec(body) == Some(cells@),
        BrainCommand::Swap2Board(cells) => cells_spec(body) == Some(cells@),
        BrainCommand::InfoRule(_) => info_spec(arg) == Some(cmd),
        BrainCommand::InfoTimeoutTurn(_) => info_spec(arg) == Some(cmd),
        BrainCommand::InfoTimeLeft(_) => info_spec(arg) == Some(cmd),
        BrainCommand::InfoOther => info_spec(arg) == Some(cmd),
        _ => true,
    }
}

/// `cmd` is what the block `s` says, `cmd` being read from its first line
/// and, for a board, its following lines.
pub open spec fn command_matches(s: Seq<char>, cmd: BrainCommand) -> bool {
    parts_match(keyword_of(first_line(s)), argument_of(first_line(s)), body_of(s), cmd)
}

/// The keywords the brain knows.
pub open spec fn known_keyword(kw: Seq<char>) -> bool {
    ||| is_word(kw, "START"@)
    ||| is_word(kw, "RECTSTART"@)
    ||| is_word(kw, "RESTART"@)
    ||| is_word(kw, "INFO"@)
    ||| is_word(kw, "BEGIN"@)
    ||| is_word(kw, "TURN"@)
    ||| is_word(kw, "BOARD"@)
    ||| is_word(kw, "ABOUT"@)
    ||| is_word(kw, "END"@)
    ||| is_word(kw, "PLAY"@)
    ||| is_word(kw, "TAKEBACK"@)
    ||| is_word(kw, "SWAP2BOARD"@)
}

/// `e` is why a command line with keyword `kw` and argument `arg`,
/// followed by `body`, cannot be read.
pub open spec fn parts_error(kw: Seq<char>, arg: Seq<char>, body: Seq<char>, e: ProtocolError) -> bool {
    match e {
        ProtocolError::Unknown(k) => !known_keyword(kw) && k@ == kw,
        ProtocolError::Malformed(k) => known_keyword(kw) && k@ == kw && forall|c: BrainCommand|
            !#[trigger] parts_match(kw, arg, body, c),
    }
}

/// `e` is why the block `s` cannot be read.
pub open spec fn error_matches(s: Seq<char>, e: ProtocolError) -> bool {
    parts_error(keyword_of(first_line(s)), argument_of(first_line(s)), body_of(s), e)
}

/// A keyword matches at most one upper-case word.
pub proof fn lemma_is_word_unique(kw: Seq<char>, a: Seq<char>, b: Seq<char>)
    requires
        is_word(kw, a),
        is_word(kw, b),
    ensures
        a == b,
{
    assert forall|i: int| 0 <= i < a.len() implies a[i] == b[i] by {
        assert(upper(kw[i]) == a[i]);
    }
    assert(a =~= b);
}

/// The index of the first `ch` in `v[from..to]`, as an index of `v`,
/// counting from `base`.
fn find_char(v: &Vec<char>, base: usize, from: usize, to: usize, ch: char) -> (k: usize)
    requires
        base <= from <= to <= v@.len(),
    ensures
        from <= k <= to,
        k - base == first_at(v@.subrange(base as int, to as int), from - base, ch),
{
    let ghost s = v@.subrange(base as int, to as int);
    let mut k = from;
    while k < to && v[k] != ch
        invariant
            base <= from <= k <= to <= v@.len(),
            s == v@.subrange(base as int, to as int),
            first_at(s, from - base, ch) == first_at(s, k - base, ch),
        decreases to - k,
    {
        proof {
            assert(s[k - base] == v@[k as int]);
        }
        k = k + 1;
    }
    proof {
        if k < to {
            assert(s[k - base] == v@[k as int]);
        }
    }
    k
}

/// The index of the first whitespace in `v[from..to]`, counting from `base`.
fn find_ws(v: &Vec<char>, base: usize, from: usize, to: usize) -> (k: usize)
    requires
        base <= from <= to <= v@.len(),
    ensures
        from <= k <= to,
        k - base == first_ws_at(v@.subrange(base as int, to as int), from - base),
{
    let ghost s = v@.subrange(base as int, to as int);
    let mut k = from;
    while k < to && !is_whitespace(v[k])
        invariant
            base <= from <= k <= to <= v@.len(),
            s == v@.subrange(base as int, to as int),
            first_ws_at(s, from - base) == first_ws_at(s, k - base),
        decreases to - k,
    {
        proof {
            assert(s[k - base] == v@[k as int]);
        }
        k = k + 1;
    }
    proof {
        if k < to {
            assert(s[k - base] == v@[k as int]);
        }
    }
    k
}

/// ASCII upper case.
fn to_upper(c: char) -> (u: char)
    ensures
        u == upper(c),
{
    if 'a' <= c && c <= 'z' {
        ((c as u32) - 32) as u8 as char
    } else {
        c
    }
}

/// Whether `v[from..to]` is the upper-case `word` in any ASCII case.
fn word_is(v: &Vec<char>, from: usize, to: usize, word: &str) -> (b: bool)
    requires
        from <= to <= v@.len(),
    ensures
        b == is_word(v@.subrange(from as int, to as int), word@),
{
    let w = chars_of(word);
    let ghost s = v@.subrange(from as int, to as int);
    if to - from != w.len() {
        return false;
    }
    let mut i: usize = 0;
    while i < w.len()
        invariant
            w@ == word@,
            s == v@.subrange(from as int, to as int),
            to - from == w@.len(),
            from <= to <= v@.len(),
            i <= w@.len(),
            forall|j: int| 0 <= j < i ==> upper(#[trigger] s[j]) == w@[j],
        decreases w@.len() - i,
    {
        if to_upper(v[from + i]) != w[i] {
            proof {
                assert(s[i as int] == v@[from + i]);
            }
            return false;
        }
        proof {
            assert(s[i as int] == v@[from + i]);
        }
        i = i + 1;
    }
    true
}

/// The field of a `BOARD` line's last part `v[lo..hi]`.
fn field_at(v: &Vec<char>, lo: usize, hi: usize) -> (f: Option<Field>)
    requires
        lo <= hi <= v@.len(),
    ensures
        f == field_of(v@.subrange(lo as int, hi as int)),
{
    let ghost t = v@.subrange(lo as int, hi as int);
    proof {
        reveal_strlit("1");
        reveal_strlit("2");
        reveal_strlit("3");
    }
    if hi - lo != 1 {
        proof {
            assert(t.len() != 1);
        }
        return None;
    }
    let c = v[lo];
    proof {
        assert(t =~= seq![c]);
    }
    if c == '1' {
        proof {
            assert(t =~= "1"@);
        }
        Some(Field::Own)
    } else if c == '2' {
        proof {
            assert(t =~= "2"@);
        }
        Some(Field::Opp)
    } else if c == '3' {
        proof {
            assert(t =~= "3"@);
        }
        Some(Field::Winning)
    } else {
        proof {
            assert(t != "1"@ && t != "2"@ && t != "3"@) by {
                if t == "1"@ {
                    assert(t[0] == "1"@[0]);
                }
                if t == "2"@ {
                    assert(t[0] == "2"@[0]);
                }
                if t == "3"@ {
                    assert(t[0] == "3"@[0]);
                }
            }
        }
        None
    }
}

/// A `BOARD` line `v[lo..hi]` (already trimmed).
fn parse_cell(v: &Vec<char>, lo: usize, hi: usize) -> (r: Option<(Position, Field)>)
    requires
        lo <= hi <= v@.len(),
    ensures
        r == cell_spec(v@.subrange(lo as int, hi as int)),
{
    let ghost t = v@.subrange(lo as int, hi as int);
    let k1 = find_char(v, lo, lo, hi, ',');
    if k1 >= hi {
        return None;
    }
    let k2 = find_char(v, lo, k1 + 1, hi, ',');
    if k2 >= hi {
        return None;
    }
    proof {
        assert(t.subrange(0, k1 - lo) =~= v@.subrange(lo as int, k1 as int));
        assert(t.subrange(k1 - lo + 1, k2 - lo) =~= v@.subrange(k1 + 1, k2 as int));
        assert(t.subrange(k2 - lo + 1, t.len() as int) =~= v@.subrange(k2 + 1, hi as int));
    }
    let (xa, xb) = trim_range(v, lo, k1);
    let (ya, yb) = trim_range(v, k1 + 1, k2);
    let (fa, fb) = trim_range(v, k2 + 1, hi);
    let x = parse_u8_range(v, xa, xb);
    let y = parse_u8_range(v, ya, yb);
    let f = field_at(v, fa, fb);
    match (x, y, f) {
        (Some(x), Some(y), Some(f)) => Some((Position::new(y, x), f)),
        _ => None,
    }
}

/// The stones of the block lines `v[from..to]` (see [`cells_spec`]).
fn parse_cells(v: &Vec<char>, from: usize, to: usize) -> (r: Option<Vec<(Position, Field)>>)
    requires
        from <= to <= v@.len(),
    ensures
        match (r, cells_spec(v@.subrange(from as int, to as int))) {
            (Some(cs), Some(want)) => cs@ == want,
            (None, None) => true,
            _ => false,
        },
    decreases to - from,
{
    let ghost s = v@.subrange(from as int, to as int);
    if from == to {
        return Some(Vec::new());
    }
    let k = find_char(v, from, from, to, '\n');
    proof {
        assert(s.take(k - from) =~= v@.subrange(from as int, k as int));
        lemma_first_at_range(s, 0, '\n');
        if k < to {
            assert(s.skip(k - from + 1) =~= v@.subrange(k + 1, to as int));
        }
    }
    let (lo, hi) = trim_range(v, from, k);
    if word_is(v, lo, hi, "DONE") {
        return Some(Vec::new());
    }
    let more = if k < to {
        parse_cells(v, k + 1, to)
    } else {
        proof {
            assert(v@.subrange(to as int, to as int) =~= Seq::<char>::empty());
        }
        parse_cells(v, to, to)
    };
    if lo == hi {
        return more;
    }
    let cell = parse_cell(v, lo, hi);
    match (cell, more) {
        (Some(c), Some(cs)) => {
            let mut out: Vec<(Position, Field)> = Vec::new();
            out.push(c);
            let mut i: usize = 0;
            while i < cs.len()
                invariant
                    i <= cs@.len(),
                    out@ == seq![c] + cs@.take(i as int),
                decreases cs@.len() - i,
            {
                out.push(cs[i]);
                proof {
                    assert(cs@.take(i + 1) =~= cs@.take(i as int).push(cs@[i as int]));
                    assert(out@ =~= seq![c] + cs@.take(i + 1));
                }
                i = i + 1;
            }
            proof {
                assert(cs@.take(cs@.len() as int) =~= cs@);
            }
            Some(out)
        },
        _ => None,
    }
}

/// `<i64 as FromStr>::from_str` on `v[from..to]`.
pub fn parse_i64_range(v: &Vec<char>, from: usize, to: usize) -> (r: Option<i64>)
    requires
        from <= to <= v@.len(),
    ensures
        r == parse_i64(v@.subrange(from as int, to as int)),
{
    let ghost s = v@.subrange(from as int, to as int);
    if from < to && v[from] == '-' {
        let ghost d = s.drop_first();
        proof {
            assert(s[0] == v@[from as int]);
            assert(d =~= v@.subrange(from + 1, to as int));
        }
        if from + 1 < to && v[from + 1] == '+' {
            proof {
                assert(d[0] == v@[from + 1]);
                assert(!crate::text::is_digit(d[0]));
                assert(!crate::text::all_digits(d));
            }
            return None;
        }
        proof {
            if d.len() > 0 {
                assert(d[0] == v@[from + 1]);
            }
        }
        let r = parse_bounded_range(v, from + 1, to, 0x8000_0000_0000_0000u64);
        proof {
            assert(parse_bounded(d, 0x8000_0000_0000_0000) == (if d.len() > 0 && crate::text::all_digits(d)
                && digits_value(d) <= 0x8000_0000_0000_0000 {
                Some(digits_value(d))
            } else {
                None::<int>
            }));
        }
        match r {
            None => {
                assert(parse_i64(s) is None);
                None
            },
            Some(n) => {
                assert(n == digits_value(d));
                if n == 0x8000_0000_0000_0000u64 {
                    assert(parse_i64(s) == Some(i64::MIN));
                    Some(i64::MIN)
                } else {
                    assert(parse_i64(s) == Some((-(n as int)) as i64));
                    Some(-(n as i64))
                }
            },
        }
    } else {
        proof {
            if s.len() > 0 {
                assert(s[0] == v@[from as int]);
            }
        }
        match parse_bounded_range(v, from, to, 0x7FFF_FFFF_FFFF_FFFFu64) {
            None => {
                assert(parse_i64(s) is None);
                None
            },
            Some(n) => {
                assert(parse_i64(s) == Some(n as i64));
                Some(n as i64)
            },
        }
    }
}

/// The `INFO` command of the argument `v[lo..hi]` (see [`info_spec`]).
fn parse_info(v: &Vec<char>, lo: usize, hi: usize) -> (r: Option<BrainCommand>)
    requires
        lo <= hi <= v@.len(),
    ensures
        r == info_spec(v@.subrange(lo as int, hi as int)),
{
    let ghost arg = v@.subrange(lo as int, hi as int);
    let kend = find_ws(v, lo, lo, hi);
    let (va, vb) = trim_range(v, kend, hi);
    let mut key = String::new();
    push_chars(&mut key, v, lo, kend);
    proof {
        assert(arg.take(kend - lo) =~= v@.subrange(lo as int, kend as int));
        assert(arg.skip(kend - lo) =~= v@.subrange(kend as int, hi as int));
    }
    proof {
        assert(key@ == arg.take(first_ws_at(arg, 0)));
        assert(v@.subrange(va as int, vb as int) == trim(arg.skip(first_ws_at(arg, 0))));
    }
    if crate::text::same_text(key.as_str(), "rule") {
        match parse_bounded_range(v, va, vb, 0xFFFF_FFFFu64) {
            Some(n) => Some(BrainCommand::InfoRule(n as u32)),
            None => None,
        }
    } else if crate::text::same_text(key.as_str(), "timeout_turn") {
        match parse_i64_range(v, va, vb) {
            Some(n) => Some(BrainCommand::InfoTimeoutTurn(n)),
            None => None,
        }
    } else if crate::text::same_text(key.as_str(), "time_left") {
        match parse_i64_range(v, va, vb) {
            Some(n) => Some(BrainCommand::InfoTimeLeft(n)),
            None => None,
        }
    } else {
        Some(BrainCommand::InfoOther)
    }
}


/// A keyword spelled as one command's word is no other command's word,
/// except among the `INFO` commands.
proof fn lemma_word_determines(kw: Seq<char>, c: BrainCommand, w: Seq<char>)
    requires
        is_word(kw, cmd_word(c)),
        is_word(kw, w),
    ensures
        w == cmd_word(c),
{
    lemma_is_word_unique(kw, cmd_word(c), w);
}

/// Facts about the literal keywords: their lengths and first letters.
proof fn lemma_words()
    ensures
        "START"@.len() == 5 && "START"@[0] == 'S' && "START"@[1] == 'T',
        "RECTSTART"@.len() == 9,
        "RESTART"@.len() == 7,
        "INFO"@.len() == 4 && "INFO"@[0] == 'I',
        "BEGIN"@.len() == 5 && "BEGIN"@[0] == 'B' && "BEGIN"@[1] == 'E',
        "TURN"@.len() == 4 && "TURN"@[0] == 'T',
        "BOARD"@.len() == 5 && "BOARD"@[0] == 'B' && "BOARD"@[1] == 'O',
        "ABOUT"@.len() == 5 && "ABOUT"@[0] == 'A',
        "END"@.len() == 3,
        "PLAY"@.len() == 4 && "PLAY"@[0] == 'P',
        "TAKEBACK"@.len() == 8,
        "SWAP2BOARD"@.len() == 10,
{
    reveal_strlit("START");
    reveal_strlit("RECTSTART");
    reveal_strlit("RESTART");
    reveal_strlit("INFO");
    reveal_strlit("BEGIN");
    reveal_strlit("TURN");
    reveal_strlit("BOARD");
    reveal_strlit("ABOUT");
    reveal_strlit("END");
    reveal_strlit("PLAY");
    reveal_strlit("TAKEBACK");
    reveal_strlit("SWAP2BOARD");
}

/// Two keywords that differ in length or in a letter are different.
proof fn lemma_words_differ()
    ensures
        "START"@ != "RECTSTART"@,
        "START"@ != "RESTART"@,
        "START"@ != "INFO"@,
        "START"@ != "BEGIN"@,
        "START"@ != "TURN"@,
        "START"@ != "BOARD"@,
        "START"@ != "ABOUT"@,
        "START"@ != "END"@,
        "START"@ != "PLAY"@,
        "START"@ != "TAKEBACK"@,
        "START"@ != "SWAP2BOARD"@,
        "RECTSTART"@ != "RESTART"@,
        "RECTSTART"@ != "INFO"@,
        "RECTSTART"@ != "BEGIN"@,
        "RECTSTART"@ != "TURN"@,
        "RECTSTART"@ != "BOARD"@,
        "RECTSTART"@ != "ABOUT"@,
        "RECTSTART"@ != "END"@,
        "RECTSTART"@ != "PLAY"@,
        "RECTSTART"@ != "TAKEBACK"@,
        "RECTSTART"@ != "SWAP2BOARD"@,
        "RESTART"@ != "INFO"@,
        "RESTART"@ != "BEGIN"@,
        "RESTART"@ != "TURN"@,
        "RESTART"@ != "BOARD"@,
        "RESTART"@ != "ABOUT"@,
        "RESTART"@ != "END"@,
        "RESTART"@ != "PLAY"@,
        "RESTART"@ != "TAKEBACK"@,
        "RESTART"@ != "SWAP2BOARD"@,
        "INFO"@ != "BEGIN"@,
        "INFO"@ != "TURN"@,
        "INFO"@ != "BOARD"@,
        "INFO"@ != "ABOUT"@,
        "INFO"@ != "END"@,
        "INFO"@ != "PLAY"@,
        "INFO"@ != "TAKEBACK"@,
        "INFO"@ != "SWAP2BOARD"@,
        "BEGIN"@ != "TURN"@,
        "BEGIN"@ != "BOARD"@,
        "BEGIN"@ != "ABOUT"@,
        "BEGIN"@ != "END"@,
        "BEGIN"@ != "PLAY"@,
        "BEGIN"@ != "TAKEBACK"@,
        "BEGIN"@ != "SWAP2BOARD"@,
        "TURN"@ != "BOARD"@,
        "TURN"@ != "ABOUT"@,
        "TURN"@ != "END"@,
        "TURN"@ != "PLAY"@,
        "TURN"@ != "TAKEBACK"@,
        "TURN"@ != "SWAP2BOARD"@,
        "BOARD"@ != "ABOUT"@,
        "BOARD"@ != "END"@,
        "BOARD"@ != "PLAY"@,
        "BOARD"@ != "TAKEBACK"@,
        "BOARD"@ != "SWAP2BOARD"@,
        "ABOUT"@ != "END"@,
        "ABOUT"@ != "PLAY"@,
        "ABOUT"@ != "TAKEBACK"@,
        "ABOUT"@ != "SWAP2BOARD"@,
        "END"@ != "PLAY"@,
        "END"@ != "TAKEBACK"@,
        "END"@ != "SWAP2BOARD"@,
        "PLAY"@ != "TAKEBACK"@,
        "PLAY"@ != "SWAP2BOARD"@,
        "TAKEBACK"@ != "SWAP2BOARD"@,
{
    lemma_words();
}

/// A line whose keyword is `w` but matches no command of that keyword
/// matches no command at all.
proof fn lemma_only_candidates(kw: Seq<char>, arg: Seq<char>, body: Seq<char>, w: Seq<char>)
    requires
        is_word(kw, w),
        forall|c: BrainCommand| cmd_word(c) == w ==> !#[trigger] parts_match(kw, arg, body, c),
    ensures
        forall|c: BrainCommand| !#[trigger] parts_match(kw, arg, body, c),
{
    assert forall|c: BrainCommand| !#[trigger] parts_match(kw, arg, body, c) by {
        if parts_match(kw, arg, body, c) {
            lemma_word_determines(kw, c, w);
        }
    }
}

/// Reads the command of a line with keyword `v[lo..kend]` and argument
/// `v[alo..ahi]`, followed by the lines `v[body..n]`.
fn decode_parts(v: &Vec<char>, lo: usize, kend: usize, alo: usize, ahi: usize, body: usize, n: usize) -> (r: Result<
    BrainCommand,
    ProtocolError,
>)
    requires
        lo <= kend <= v@.len(),
        alo <= ahi <= v@.len(),
        body <= n == v@.len(),
    ensures
        match r {
            Ok(cmd) => parts_match(
                v@.subrange(lo as int, kend as int),
                v@.subrange(alo as int, ahi as int),
                v@.subrange(body as int, n as int),
                cmd,
            ),
            Err(e) => parts_error(
                v@.subrange(lo as int, kend as int),
                v@.subrange(alo as int, ahi as int),
                v@.subrange(body as int, n as int),
                e,
            ),
        },
{
    let ghost kw = v@.subrange(lo as int, kend as int);
    let ghost arg = v@.subrange(alo as int, ahi as int);
    let ghost bd = v@.subrange(body as int, n as int);
    let mut keyword = String::new();
    push_chars(&mut keyword, v, lo, kend);
    let mut argument = String::new();
    push_chars(&mut argument, v, alo, ahi);
    proof {
        assert(keyword@ =~= kw);
        assert(argument@ =~= arg);
        lemma_words_differ();
    }
    if word_is(v, lo, kend, "START") {
        match parse_u8_range(v, alo, ahi) {
            Some(size) => Ok(BrainCommand::Start(size)),
            None => {
                proof {
                    lemma_only_candidates(kw, arg, bd, "START"@);
                }
                Err(ProtocolError::Malformed(keyword))
            },
        }
    } else if word_is(v, lo, kend, "RECTSTART") {
        match decode(argument.as_str()) {
            Some(p) => Ok(BrainCommand::RectStart { width: p.col, height: p.row }),
            None => {
                proof {
                    lemma_only_candidates(kw, arg, bd, "RECTSTART"@);
                }
                Err(ProtocolError::Malformed(keyword))
            },
        }
    } else if word_is(v, lo, kend, "RESTART") {
        Ok(BrainCommand::Restart)
    } else if word_is(v, lo, kend, "INFO") {
        match parse_info(v, alo, ahi) {
            Some(c) => {
                proof {
                    lemma_info_word(arg, c);
                }
                Ok(c)
            },
            None => {
                proof {
                    lemma_only_candidates(kw, arg, bd, "INFO"@);
                }
                Err(ProtocolError::Malformed(keyword))
            },
        }
    } else if word_is(v, lo, kend, "BEGIN") {
        Ok(BrainCommand::Begin)
    } else if word_is(v, lo, kend, "TURN") {
        match decode(argument.as_str()) {
            Some(p) => Ok(BrainCommand::Turn(p)),
            None => {
                proof {
                    lemma_only_candidates(kw, arg, bd, "TURN"@);
                }
                Err(ProtocolError::Malformed(keyword))
            },
        }
    } else {
        decode_more(v, lo, kend, alo, ahi, body, n, keyword, argument)
    }
}

/// An `INFO` argument reads as an `INFO` command.
proof fn lemma_info_word(arg: Seq<char>, c: BrainCommand)
    requires
        info_spec(arg) == Some(c),
    ensures
        cmd_word(c) == "INFO"@,
{
}

fn decode_more(
    v: &Vec<char>,
    lo: usize,
    kend: usize,
    alo: usize,
    ahi: usize,
    body: usize,
    n: usize,
    keyword: String,
    argument: String,
) -> (r: Result<BrainCommand, ProtocolError>)
    requires
        lo <= kend <= v@.len(),
        alo <= ahi <= v@.len(),
        body <= n == v@.len(),
        keyword@ == v@.subrange(lo as int, kend as int),
        argument@ == v@.subrange(alo as int, ahi as int),
        !is_word(v@.subrange(lo as int, kend as int), "START"@),
        !is_word(v@.subrange(lo as int, kend as int), "RECTSTART"@),
        !is_word(v@.subrange(lo as int, kend as int), "RESTART"@),
        !is_word(v@.subrange(lo as int, kend as int), "INFO"@),
        !is_word(v@.subrange(lo as int, kend as int), "BEGIN"@),
        !is_word(v@.subrange(lo as int, kend as int), "TURN"@),
    ensures
        match r {
            Ok(cmd) => parts_match(
                v@.subrange(lo as int, kend as int),
                v@.subrange(alo as int, ahi as int),
                v@.subrange(body as int, n as int),
                cmd,
            ),
            Err(e) => parts_error(
                v@.subrange(lo as int, kend as int),
                v@.subrange(alo as int, ahi as int),
                v@.subrange(body as int, n as int),
                e,
            ),
        },
{
    let ghost kw = v@.subrange(lo as int, kend as int);
    let ghost arg = v@.subrange(alo as int, ahi as int);
    let ghost bd = v@.subrange(body as int, n as int);
    proof {
        lemma_words_differ();
    }
    if word_is(v, lo, kend, "BOARD") {
        match parse_cells(v, body, n) {
            Some(cells) => Ok(BrainCommand::Board(cells)),
            None => {
                proof {
                    lemma_only_candidates(kw, arg, bd, "BOARD"@);
                }
                Err(ProtocolError::Malformed(keyword))
            },
        }
    } else if word_is(v, lo, kend, "ABOUT") {
        Ok(BrainCommand::About)
    } else if word_is(v, lo, kend, "END") {
        Ok(BrainCommand::End)
    } else if word_is(v, lo, kend, "PLAY") {
        match decode(argument.as_str()) {
            Some(p) => Ok(BrainCommand::Play(p)),
            None => {
                proof {
                    lemma_only_candidates(kw, arg, bd, "PLAY"@);
                }
                Err(ProtocolError::Malformed(keyword))
            },
        }
    } else if word_is(v, lo, kend, "TAKEBACK") {
        match decode(argument.as_str()) {
            Some(p) => Ok(BrainCommand::TakeBack(p)),
            None => {
                proof {
                    lemma_only_candidates(kw, arg, bd, "TAKEBACK"@);
                }
                Err(ProtocolError::Malformed(keyword))
            },
        }
    } else if word_is(v, lo, kend, "SWAP2BOARD") {
        match parse_cells(v, body, n) {
            Some(cells) => Ok(BrainCommand::Swap2Board(cells)),
            None => {
                proof {
                    lemma_only_candidates(kw, arg, bd, "SWAP2BOARD"@);
                }
                Err(ProtocolError::Malformed(keyword))
            },
        }
    } else {
        Err(ProtocolError::Unknown(keyword))
    }
}

/// Reads a manager's command: the first line's keyword and argument and,
/// for a board, the stone lines after it.
pub fn decode_command(block: &str) -> (r: Result<BrainCommand, ProtocolError>)
    ensures
        match r {
            Ok(cmd) => command_matches(block@, cmd),
            Err(e) => error_matches(block@, e),
        },
{
    let v = chars_of(block);
    let n = v.len();
    let ghost s = v@;
    let k = find_char(&v, 0, 0, n, '\n');
    proof {
        assert(v@.subrange(0, n as int) =~= s);
        assert(s.take(k as int) =~= v@.subrange(0, k as int));
        lemma_first_at_range(s, 0, '\n');
    }
    let (lo, hi) = trim_range(&v, 0, k);
    let kend = find_ws(&v, lo, lo, hi);
    let (alo, ahi) = trim_range(&v, kend, hi);
    let body = if k < n {
        k + 1
    } else {
        n
    };
    proof {
        let t = trim(first_line(s));
        assert(t == v@.subrange(lo as int, hi as int));
        assert(t.take(kend - lo) =~= v@.subrange(lo as int, kend as int));
        assert(t.skip(kend - lo) =~= v@.subrange(kend as int, hi as int));
        if k < n {
            assert(s.skip(k + 1) =~= v@.subrange(body as int, n as int));
        } else {
            assert(Seq::<char>::empty() =~= v@.subrange(body as int, n as int));
        }
    }
    decode_parts(&v, lo, kend, alo, ahi, body, n)
}

/// The line a brain writes for a reply; none for silence or stopping.
pub open spec fn reply_text(r: BrainReply) -> Option<Seq<char>> {
    match r {
        BrainReply::Ack => Some("OK"@),
        BrainReply::Coord(p) => Some(encode_spec(p)),
        BrainReply::About(a) => Some(a@),
        BrainReply::Unknown(m) => Some("UNKNOWN "@ + m@),
        BrainReply::Error(m) => Some("ERROR "@ + m@),
        BrainReply::Silent => None,
        BrainReply::Quit => None,
    }
}

/// The line a brain writes for a reply; none for silence or stopping.
pub fn encode_reply(r: &BrainReply) -> (line: Option<String>)
    ensures
        match (line, reply_text(*r)) {
            (Some(l), Some(t)) => l@ == t,
            (None, None) => true,
            _ => false,
        },
{
    match r {
        BrainReply::Ack => Some("OK".to_owned()),
        BrainReply::Coord(p) => Some(encode(*p)),
        BrainReply::About(a) => Some(a.clone()),
        BrainReply::Unknown(m) => {
            let mut l = "UNKNOWN ".to_owned();
            l.append(m.as_str());
            Some(l)
        },
        BrainReply::Error(m) => {
            let mut l = "ERROR ".to_owned();
            l.append(m.as_str());
            Some(l)
        },
        BrainReply::Silent => None,
        BrainReply::Quit => None,
    }
}

/// The line a brain writes for a command it cannot read: `UNKNOWN` and
/// the keyword, or `ERROR` and the keyword with a bad argument.
pub fn error_reply(e: &ProtocolError) -> (line: String)
    ensures
        line@ == (match *e {
            ProtocolError::Unknown(k) => "UNKNOWN "@ + k@,
            ProtocolError::Malformed(k) => "ERROR bad "@ + k@,
        }),
{
    match e {
        ProtocolError::Unknown(k) => {
            let mut l = "UNKNOWN ".to_owned();
            l.append(k.as_str());
            l
        },
        ProtocolError::Malformed(k) => {
            let mut l = "ERROR bad ".to_owned();
            l.append(k.as_str());
            l
        },
    }
}

/// Whether a line starts a multi-line block (`BOARD` or `SWAP2BOARD`,
/// in any case), read up to `DONE`.
pub fn is_block_start(line: &str) -> (b: bool)
    ensures
        b == (is_word(keyword_of(line@), "BOARD"@) || is_word(keyword_of(line@), "SWAP2BOARD"@)),
{
    let v = chars_of(line);
    let n = v.len();
    let (lo, hi) = trim_range(&v, 0, n);
    let kend = find_ws(&v, lo, lo, hi);
    proof {
        assert(v@.subrange(0, n as int) =~= v@);
        let t = trim(line@);
        assert(t.take(kend - lo) =~= v@.subrange(lo as int, kend as int));
    }
    word_is(&v, lo, kend, "BOARD") || word_is(&v, lo, kend, "SWAP2BOARD")
}

/// Whether a block line is `DONE` (in any case, trimmed).
pub fn is_done(line: &str) -> (b: bool)
    ensures
        b == is_word(trim(line@), "DONE"@),
{
    let v = chars_of(line);
    let n = v.len();
    let (lo, hi) = trim_range(&v, 0, n);
    proof {
        assert(v@.subrange(0, n as int) =~= v@);
    }
    word_is(&v, lo, hi, "DONE")
}

/// A brain's reply line, as a manager reads it.
#[derive(Debug, Clone, PartialEq, Eq)]
pub enum BrainAnswer {
    /// A move `x,y`.
    Coord(Position),
    /// `SUGGEST x,y`.
    Suggest(Position),
    /// `OK`.
    Ack,
    /// `ERROR` and a message.
    Error(String),
    /// `UNKNOWN` and a message.
    Unknown(String),
    /// `MESSAGE` and a message.
    Message(String),
    /// `DEBUG` and a message.
    Debug(String),
    /// Anything else (such as an `ABOUT` line), trimmed.
    Other(String),
}

/// What a manager reads from a brain's line: a move if the trimmed line
/// is `x,y`; else by its keyword (any case).
pub open spec fn answer_matches(line: Seq<char>, a: BrainAnswer) -> bool {
    let t = trim(line);
    let kw = keyword_of(line);
    let arg = argument_of(line);
    if decode_spec(t) is Some {
        a == BrainAnswer::Coord(decode_spec(t)->Some_0)
    } else if is_word(kw, "OK"@) {
        a == BrainAnswer::Ack
    } else if is_word(kw, "ERROR"@) {
        a matches BrainAnswer::Error(m) && m@ == arg
    } else if is_word(kw, "UNKNOWN"@) {
        a matches BrainAnswer::Unknown(m) && m@ == arg
    } else if is_word(kw, "MESSAGE"@) {
        a matches BrainAnswer::Message(m) && m@ == arg
    } else if is_word(kw, "DEBUG"@) {
        a matches BrainAnswer::Debug(m) && m@ == arg
    } else if is_word(kw, "SUGGEST"@) && decode_spec(arg) is Some {
        a == BrainAnswer::Suggest(decode_spec(arg)->Some_0)
    } else {
        a matches BrainAnswer::Other(m) && m@ == t
    }
}

/// Reads a brain's reply line.
pub fn decode_answer(line: &str) -> (a: BrainAnswer)
    ensures
        answer_matches(line@, a),
{
    let v = chars_of(line);
    let n = v.len();
    let (lo, hi) = trim_range(&v, 0, n);
    let kend = find_ws(&v, lo, lo, hi);
    let (alo, ahi) = trim_range(&v, kend, hi);
    let mut trimmed = String::new();
    push_chars(&mut trimmed, &v, lo, hi);
    let mut argument = String::new();
    push_chars(&mut argument, &v, alo, ahi);
    proof {
        assert(v@.subrange(0, n as int) =~= v@);
        let t = trim(line@);
        assert(t.take(kend - lo) =~= v@.subrange(lo as int, kend as int));
        assert(t.skip(kend - lo) =~= v@.subrange(kend as int, hi as int));
        assert(trimmed@ =~= t);
        assert(argument@ =~= argument_of(line@));
    }
    if let Some(p) = decode(trimmed.as_str()) {
        return BrainAnswer::Coord(p);
    }
    if word_is(&v, lo, kend, "OK") {
        BrainAnswer::Ack
    } else if word_is(&v, lo, kend, "ERROR") {
        BrainAnswer::Error(argument)
    } else if word_is(&v, lo, kend, "UNKNOWN") {
        BrainAnswer::Unknown(argument)
    } else if word_is(&v, lo, kend, "MESSAGE") {
        BrainAnswer::Message(argument)
    } else if word_is(&v, lo, kend, "DEBUG") {
        BrainAnswer::Debug(argument)
    } else if word_is(&v, lo, kend, "SUGGEST") {
        match decode(argument.as_str()) {
            Some(p) => BrainAnswer::Suggest(p),
            None => BrainAnswer::Other(trimmed),
        }
    } else {
        BrainAnswer::Other(trimmed)
    }
}

/// `prefix` followed by the decimal `n`.
fn with_number(prefix: &str, n: u64) -> (l: String)
    ensures
        l@ == prefix@ + crate::text::decimal(n as nat),
{
    let mut l = prefix.to_owned();
    crate::text::push_decimal_u64(&mut l, n);
    l
}

/// `START <size>`.
pub fn start_line(size: u8) -> (l: String)
    ensures
        l@ == "START "@ + crate::text::decimal(size as nat),
{
    with_number("START ", size as u64)
}

/// `INFO rule <code>`.
pub fn info_rule_line(code: u32) -> (l: String)
    ensures
        l@ == "INFO rule "@ + crate::text::decimal(code as nat),
{
    with_number("INFO rule ", code as u64)
}

/// `INFO <key> <ms>` for a time in milliseconds (`timeout_turn`,
/// `timeout_match`, `time_left`); negative values are written with a sign.
pub fn info_time_line(key: &str, ms: i64) -> (l: String)
    ensures
        ms >= 0 ==> l@ == "INFO "@ + key@ + " "@ + crate::text::decimal(ms as nat),
        ms < 0 ==> l@ == "INFO "@ + key@ + " -"@ + crate::text::decimal((-(ms as int)) as nat),
{
    let mut l = "INFO ".to_owned();
    l.append(key);
    if ms >= 0 {
        l.append(" ");
        crate::text::push_decimal_u64(&mut l, ms as u64);
    } else {
        l.append(" -");
        let m: u64 = if ms == i64::MIN {
            0x8000_0000_0000_0000u64
        } else {
            (-ms) as u64
        };
        crate::text::push_decimal_u64(&mut l, m);
    }
    l
}

/// The `BOARD` line of a stone: `x,y,field` (1 own, 2 the opponent's).
pub open spec fn board_line(p: Position, own: bool) -> Seq<char> {
    encode_spec(p) + (if own { ",1\n"@ } else { ",2\n"@ })
}

/// The lines of the stones of `board` in row-major order, as the brain
/// playing `me` sees them.
pub open spec fn board_lines(board: crate::model::Board, me: crate::model::Color, k: int) -> Seq<char>
    decreases k,
{
    if k <= 0 || board.w() == 0 {
        Seq::empty()
    } else {
        let i = k - 1;
        let p = Position { row: (i / board.w()) as u8, col: (i % board.w()) as u8 };
        board_lines(board, me, i) + match board.at(i / board.w(), i % board.w()) {
            crate::model::Cell::Stone(c) => board_line(p, c == me),
            crate::model::Cell::Empty => Seq::empty(),
        }
    }
}

/// The `BOARD` block of a position for the brain playing `me`: every stone,
/// row by row, then `DONE`.
pub fn board_block(board: &crate::model::Board, me: crate::model::Color) -> (l: String)
    ensures
        l@ == "BOARD\n"@ + board_lines(*board, me, board.w() * board.h()) + "DONE"@,
{
    let w = board.width();
    let h = board.height();
    let mut l = "BOARD\n".to_owned();
    let mut row: u8 = 0;
    proof {
        crate::model::board::lemma_u8_product(w, h);
    }
    while row < h
        invariant
            w == board.w(),
            h == board.h(),
            row <= h,
            l@ == "BOARD\n"@ + board_lines(*board, me, row * w),
        decreases h - row,
    {
        let mut col: u8 = 0;
        while col < w
            invariant
                w == board.w(),
                h == board.h(),
                row < h,
                col <= w,
                l@ == "BOARD\n"@ + board_lines(*board, me, row * w + col),
            decreases w - col,
        {
            let p = Position::new(row, col);
            let ghost i = row * w + col;
            proof {
                assert(i / (w as int) == row && i % (w as int) == col) by (nonlinear_arith)
                    requires
                        i == row * w + col,
                        0 <= col < w,
                        0 <= row,
                ;
            }
            match board.stone_at(p) {
                Some(c) => {
                    l.append(encode(p).as_str());
                    if c == me {
                        l.append(",1\n");
                    } else {
                        l.append(",2\n");
                    }
                },
                None => {},
            }
            proof {
                assert(l@ =~= "BOARD\n"@ + board_lines(*board, me, i + 1));
            }
            col = col + 1;
        }
        proof {
            assert(row * w + w == (row + 1) * w) by (nonlinear_arith);
        }
        row = row + 1;
    }
    proof {
        assert(row * w == board.w() * board.h()) by (nonlinear_arith)
            requires
                row == h,
                w == board.w(),
                h == board.h(),
        ;
    }
    l.append("DONE");
    l
}

/// A move the brain writes is read back by the manager as that move.
pub proof fn lemma_move_reply_round_trip(p: Position)
    ensures
        reply_text(BrainReply::Coord(p)) == Some(encode_spec(p)),
        answer_matches(encode_spec(p), BrainAnswer::Coord(p)),
{
    crate::model::coord::lemma_decode_encode(p);
    let s = encode_spec(p);
    crate::text::lemma_decimal(p.col as nat);
    crate::text::lemma_decimal(p.row as nat);
    let dc = crate::text::decimal(p.col as nat);
    let dr = crate::text::decimal(p.row as nat);
    assert(s[0] == dc[0]);
    assert(s[s.len() - 1] == dr[dr.len() - 1]);
    assert(!is_ws(','));
    crate::text::lemma_trim_noop(s);
}

} // verus!
