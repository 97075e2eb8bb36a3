//! Openings: how the first stones are laid before free play, a dimension
//! of its own beside the win rule and the board size.
//!
//! [`Opening::Plain`] is the plain opening; [`Opening::Fixed`] has the
//! manager lay given points before play. Opening stones are colored black
//! first, alternating (black, white, black, ...).

use vstd::prelude::*;

use crate::model::Position;

verus! {

/// An opening protocol.
#[derive(Debug, Clone, PartialEq, Eq)]
pub enum Opening {
    /// Plain: black moves first, freely, with no balancing.
    Plain,
    /// Automatic opening: these points are laid before play (black first,
    /// alternating), then play goes on as usual.
    Fixed(Vec<Position>),
}

impl Opening {
    /// The points laid before play, in order; the order is the coloring
    /// order (black, white, black, ...).
    pub open spec fn positions_spec(&self) -> Seq<Position> {
        match self {
            Opening::Plain => Seq::empty(),
            Opening::Fixed(p) => p@,
        }
    }

    /// The points laid before play (none for [`Opening::Plain`]).
    pub fn positions(&self) -> (out: &[Position])
        ensures
            out@ == self.positions_spec(),
    {
        match self {
            Opening::Plain => &[],
            Opening::Fixed(positions) => positions.as_slice(),
        }
    }
}

impl Default for Opening {
    fn default() -> (o: Self)
        ensures
            o == Opening::Plain,
    {
        Opening::Plain
    }
}

/// The compact centred sequence of the built-in opening on a board of side
/// `size`: the centre `c = size / 2`, then `(c, c+1)`, `(c+1, c)`,
/// `(c-1, c+1)`, `(c+1, c-1)`, each coordinate saturating at the ends of
/// `u8`. No three of them are collinear with a gap-free run of five.
pub open spec fn auto_sequence(size: u8) -> Seq<Position> {
    let c = size / 2;
    let up = if c < 255 { (c + 1) as u8 } else { 255u8 };
    let down = if c > 0 { (c - 1) as u8 } else { 0u8 };
    seq![
        Position { row: c, col: c },
        Position { row: c, col: up },
        Position { row: up, col: c },
        Position { row: down, col: up },
        Position { row: up, col: down },
    ]
}

/// On a board of side at least three, the built-in opening starts at the
/// centre and its points are distinct and on the board.
pub proof fn lemma_auto_sequence_on_board(size: u8)
    requires
        size >= 3,
    ensures
        auto_sequence(size)[0] == (Position { row: size / 2, col: size / 2 }),
        forall|i: int| 0 <= i < 5 ==> (#[trigger] auto_sequence(size)[i]).row < size && auto_sequence(size)[i].col < size,
        forall|i: int, j: int| 0 <= i < j < 5 ==> #[trigger] auto_sequence(size)[i] != #[trigger] auto_sequence(size)[j],
{
}

/// The built-in automatic opening: the first `count` points of
/// [`auto_sequence`] (all five when `count` is larger). Deterministic.
pub fn auto(count: u8, size: u8) -> (o: Opening)
    ensures
        o is Fixed,
        o.positions_spec() == auto_sequence(size).take(if count < 5 { count as int } else { 5 }),
{
    let c = size / 2;
    let up = c.saturating_add(1);
    let down = c.saturating_sub(1);
    let all: [(u8, u8); 5] = [(c, c), (c, up), (up, c), (down, up), (up, down)];
    let take: usize = if count < 5 {
        count as usize
    } else {
        5
    };
    let ghost want = auto_sequence(size);
    let mut positions: Vec<Position> = Vec::new();
    let mut i: usize = 0;
    while i < take
        invariant
            take <= 5,
            i <= take,
            want == auto_sequence(size),
            all@ =~= seq![(c, c), (c, up), (up, c), (down, up), (up, down)],
            c == size / 2,
            up == (if c < 255 { (c + 1) as u8 } else { 255u8 }),
            down == (if c > 0 { (c - 1) as u8 } else { 0u8 }),
            positions@ =~= want.take(i as int),
        decreases take - i,
    {
        let (row, col) = all[i];
        positions.push(Position::new(row, col));
        proof {
            assert(want.take(i as int + 1) =~= want.take(i as int).push(want[i as int]));
        }
        i = i + 1;
    }
    Opening::Fixed(positions)
}

} // verus!
