//! The brain side of the Gomocup protocol: the local game a bot keeps
//! while a manager drives it, one command at a time. Reading and writing
//! the lines is the caller's part; [`Brain::handle`] decides.

use std::time::Duration;

use vstd::prelude::*;

use super::clock::from_millis;
use super::move_source::MoveSource;
use super::stop::StopFlag;
use crate::game::{legal_at, legal_moves, playable};
use crate::rules::lemma_board_model_eq;
use crate::model::color::other;
use crate::model::ruleset::{freestyle_spec, from_mask_spec};
use crate::model::state::same_board;
use crate::model::{Board, Cell, Color, GameState, Move, Position, RuleSet, TurnContext};

verus! {

/// What a point of a `BOARD` block holds, seen from the brain.
#[derive(Debug, Clone, Copy, PartialEq, Eq, Structural)]
pub enum Field {
    Own,
    Opp,
    /// A winning-line mark of continuous games, ignored here.
    Winning,
}

/// A manager's command, as the brain understands it.
#[derive(Debug, Clone, PartialEq, Eq)]
pub enum BrainCommand {
    Start(u8),
    RectStart { width: u8, height: u8 },
    Restart,
    /// `INFO rule`: the Gomocup rule mask.
    InfoRule(u32),
    /// `INFO timeout_turn`, in milliseconds.
    InfoTimeoutTurn(i64),
    /// `INFO time_left`, in milliseconds.
    InfoTimeLeft(i64),
    /// Any other `INFO` key.
    InfoOther,
    Begin,
    Turn(Position),
    Board(Vec<(Position, Field)>),
    About,
    End,
    Play(Position),
    TakeBack(Position),
    Swap2Board(Vec<(Position, Field)>),
}

/// The brain's answer to a command.
#[derive(Debug, Clone, PartialEq, Eq)]
pub enum BrainReply {
    /// Answered `OK`.
    Ack,
    /// The brain's move.
    Coord(Position),
    About(String),
    /// A command the brain does not implement.
    Unknown(String),
    /// A command the brain refuses.
    Error(String),
    /// Nothing to write.
    Silent,
    /// Stop serving.
    Quit,
}

/// An `INFO` time in milliseconds: none when not positive.
pub fn millis_opt(ms: i64) -> (d: Option<Duration>)
    ensures
        d is Some <==> ms > 0,
{
    if ms > 0 {
        Some(from_millis(ms as u64))
    } else {
        None
    }
}

/// `b` is an empty board of the given dimensions.
pub open spec fn empty_board(b: Board, w: int, h: int) -> bool {
    &&& b.w() == w
    &&& b.h() == h
    &&& forall|r: int, c: int| b.has(r, c) ==> b.at(r, c) == Cell::Empty
}

/// `after` is `before` with `cell` on `p` (unchanged if `p` is off it).
pub open spec fn set_on(before: Board, after: Board, p: Position, cell: Cell) -> bool {
    &&& after.w() == before.w()
    &&& after.h() == before.h()
    &&& forall|r: int, c: int|
        #![trigger after.at(r, c)]
        after.has(r, c) ==> after.at(r, c) == (if before.has(p.row as int, p.col as int) && r == p.row && c
            == p.col {
            cell
        } else {
            before.at(r, c)
        })
}

/// The color the brain plays after a `BOARD` block with `own + opp`
/// stones: black on an even count, else white.
pub open spec fn board_side(n: int) -> Color {
    if n % 2 == 0 {
        Color::Black
    } else {
        Color::White
    }
}

/// The stone a `BOARD` cell puts down for a brain playing `me`.
pub open spec fn field_cell(f: Field, me: Color) -> Option<Cell> {
    match f {
        Field::Own => Some(Cell::Stone(me)),
        Field::Opp => Some(Cell::Stone(other(me))),
        Field::Winning => None,
    }
}

/// The number of own and opponent cells of a block.
pub open spec fn stone_count(cells: Seq<(Position, Field)>) -> int
    decreases cells.len(),
{
    if cells.len() == 0 {
        0
    } else {
        stone_count(cells.drop_last()) + if cells.last().1 == Field::Winning {
            0int
        } else {
            1int
        }
    }
}

/// The board of a `BOARD` block: the cells set in order on an empty
/// board, winning marks left out.
pub open spec fn block_cell(cells: Seq<(Position, Field)>, me: Color, w: int, h: int, r: int, c: int) -> Cell
    decreases cells.len(),
{
    if cells.len() == 0 {
        Cell::Empty
    } else {
        let (p, f) = cells.last();
        if p.row == r && p.col == c && p.row < h && p.col < w && f != Field::Winning {
            field_cell(f, me)->Some_0
        } else {
            block_cell(cells.drop_last(), me, w, h, r, c)
        }
    }
}

/// After a `BOARD` block on a `w x h` board under `rules`: either no
/// point of the block's board is playable for the brain and `b` is that
/// board, or the brain answered `p` and `b` is the block's board with the
/// brain's stone on `p`.
pub open spec fn block_reply(
    cells: Seq<(Position, Field)>,
    w: int,
    h: int,
    rules: RuleSet,
    b: Board,
    reply: BrainReply,
) -> bool {
    let me = board_side(stone_count(cells));
    &&& b.w() == w
    &&& b.h() == h
    &&& match reply {
        BrainReply::Silent => (forall|r: int, c: int| b.has(r, c) ==> b.at(r, c) == block_cell(cells, me, w, h, r, c))
            && !(exists|q: Position| playable(b, me, rules, q)),
        BrainReply::Coord(p) => forall|r: int, c: int|
            b.has(r, c) ==> b.at(r, c) == (if p.row < h && p.col < w && r == p.row && c == p.col {
                Cell::Stone(me)
            } else {
                block_cell(cells, me, w, h, r, c)
            }),
        _ => false,
    }
}

/// After the manager's move `pos` on `before` with `side` to move, under
/// `rules`: either no point is playable for the brain after that move and
/// `b` holds the manager's stone, or the brain answered `p` and `b` holds
/// both stones.
pub open spec fn turn_reply(before: Board, side: Color, pos: Position, rules: RuleSet, b: Board, reply: BrainReply) -> bool {
    let on = |q: Position, r: int, c: int| before.has(q.row as int, q.col as int) && r == q.row && c == q.col;
    &&& b.w() == before.w()
    &&& b.h() == before.h()
    &&& match reply {
        BrainReply::Silent => (forall|r: int, c: int|
            b.has(r, c) ==> b.at(r, c) == (if on(pos, r, c) {
                Cell::Stone(side)
            } else {
                before.at(r, c)
            })) && !(exists|q: Position| playable(b, other(side), rules, q)),
        BrainReply::Coord(p) => forall|r: int, c: int|
            b.has(r, c) ==> b.at(r, c) == (if on(p, r, c) {
                Cell::Stone(other(side))
            } else if on(pos, r, c) {
                Cell::Stone(side)
            } else {
                before.at(r, c)
            }),
        _ => false,
    }
}

/// The brain: a bot with the game as the manager has shown it.
pub struct Brain<B> {
    pub bot: B,
    pub name: String,
    pub board: Board,
    /// The color to move on the local board.
    pub side: Color,
    pub rules: RuleSet,
    /// The brain's color, once known.
    pub my_color: Option<Color>,
    pub timeout_turn: Option<Duration>,
    pub time_left: Option<Duration>,
}

impl<B: MoveSource> Brain<B> {
    /// A brain on an empty 15 x 15 board under freestyle, black to move.
    pub fn new(bot: B, name: &str) -> (b: Self)
        ensures
            b.name@ == name@,
            empty_board(b.board, 15, 15),
            b.side == Color::Black,
            b.rules == freestyle_spec(),
            b.my_color is None,
            b.timeout_turn is None,
            b.time_left is None,
    {
        Brain {
            bot,
            name: name.to_owned(),
            board: Board::square(15),
            side: Color::Black,
            rules: RuleSet::freestyle(),
            my_color: None,
            timeout_turn: None,
            time_left: None,
        }
    }

    fn reset(&mut self, board: Board)
        ensures
            final(self).board == board,
            final(self).side == Color::Black,
            final(self).my_color is None,
            final(self).rules == old(self).rules,
            final(self).name == old(self).name,
    {
        self.board = board;
        self.side = Color::Black;
        self.my_color = None;
    }

    /// Puts a stone of the side to move on `pos` and passes the move.
    fn place(&mut self, pos: Position)
        ensures
            set_on(old(self).board, final(self).board, pos, Cell::Stone(old(self).side)),
            final(self).side == other(old(self).side),
            final(self).my_color == old(self).my_color,
            final(self).rules == old(self).rules,
            final(self).name == old(self).name,
    {
        self.board.set(pos, Cell::Stone(self.side));
        self.side = self.side.opposite();
    }

    /// The turn the bot is asked to play: the brain's board with its side
    /// to move, the given legal moves, the rule set and the time limits, and
    /// no history.
    pub fn turn_context(&self, legal: Vec<Move>) -> (ctx: TurnContext)
        ensures
            same_board(ctx.board, self.board),
            ctx.side_to_move == self.side,
            ctx.move_history@.len() == 0,
            ctx.legal_moves@ == legal@,
            ctx.rule_set == self.rules,
            ctx.timeout_turn == self.timeout_turn,
            ctx.time_left == self.time_left,
    {
        TurnContext {
            board: self.board.clone(),
            side_to_move: self.side,
            move_history: Vec::new(),
            legal_moves: legal,
            rule_set: self.rules,
            timeout_turn: self.timeout_turn,
            time_left: self.time_left,
        }
    }

    /// The brain's own move: asks the bot for a move among the legal ones
    /// and plays it; nothing when no move is legal.
    pub fn play(&mut self) -> (reply: BrainReply)
        ensures
            final(self).my_color == old(self).my_color,
            final(self).rules == old(self).rules,
            final(self).name == old(self).name,
            final(self).board.w() == old(self).board.w(),
            final(self).board.h() == old(self).board.h(),
            !(exists|p: Position| playable(old(self).board, old(self).side, old(self).rules, p)) ==> reply
                == BrainReply::Silent && final(self).board == old(self).board && final(self).side == old(self).side,
            (exists|p: Position| playable(old(self).board, old(self).side, old(self).rules, p)) ==> (reply matches BrainReply::Coord(p) && set_on(
                old(self).board,
                final(self).board,
                p,
                Cell::Stone(old(self).side),
            ) && final(self).side == other(old(self).side)),
    {
        let state = GameState::new(self.board.clone(), self.side);
        proof {
            lemma_board_model_eq(state.board, self.board);
        }
        let legal = legal_moves(&state, self.rules);
        if legal.len() == 0 {
            proof {
                assert forall|p: Position| !playable(self.board, self.side, self.rules, p) by {
                    if playable(self.board, self.side, self.rules, p) {
                        let mv = crate::model::Move::Place(p);
                        assert(legal_at(state, self.rules, mv.pos()));
                        assert(legal@.contains(mv));
                    }
                }
            }
            return BrainReply::Silent;
        }
        proof {
            let mv = legal@[0];
            assert(legal@.contains(mv));
            assert(legal_at(state, self.rules, mv.pos()));
            assert(playable(self.board, self.side, self.rules, mv.pos()));
            assert(!self.board.full());
        }
        let ctx = self.turn_context(legal);
        let mv = self.bot.next_move(&ctx, &StopFlag::new());
        let pos = mv.position();
        self.place(pos);
        BrainReply::Coord(pos)
    }

    /// The brain's `ABOUT` line.
    pub fn about(&self) -> (s: String)
        ensures
            s@ == "name=\""@ + self.name@ + "\", version=\"0.0.1\""@,
    {
        let mut s = "name=\"".to_owned();
        s.append(self.name.as_str());
        s.append("\", version=\"0.0.1\"");
        s
    }

    /// Sets up the board of a `BOARD` block and plays.
    fn take_board(&mut self, cells: &Vec<(Position, Field)>) -> (reply: BrainReply)
        ensures
            final(self).my_color == Some(board_side(stone_count(cells@))),
            final(self).rules == old(self).rules,
            final(self).name == old(self).name,
            final(self).board.w() == old(self).board.w(),
            final(self).board.h() == old(self).board.h(),
            block_reply(cells@, old(self).board.w(), old(self).board.h(), old(self).rules, final(self).board, reply),
    {
        let mut n: usize = 0;
        let mut i: usize = 0;
        while i < cells.len()
            invariant
                i <= cells@.len(),
                n == stone_count(cells@.take(i as int)),
                n <= i,
            decreases cells@.len() - i,
        {
            proof {
                assert(cells@.take(i as int + 1).drop_last() =~= cells@.take(i as int));
            }
            if cells[i].1 != Field::Winning {
                n = n + 1;
            }
            i = i + 1;
        }
        proof {
            assert(cells@.take(cells@.len() as int) =~= cells@);
        }
        let me = if n % 2 == 0 {
            Color::Black
        } else {
            Color::White
        };
        let w = self.board.width();
        let h = self.board.height();
        let mut board = Board::rect(w, h);
        let mut k: usize = 0;
        while k < cells.len()
            invariant
                k <= cells@.len(),
                board.w() == w,
                board.h() == h,
                forall|r: int, c: int|
                    board.has(r, c) ==> board.at(r, c) == block_cell(cells@.take(k as int), me, w as int, h as int, r, c),
            decreases cells@.len() - k,
        {
            let (p, f) = cells[k];
            let ghost before = board;
            match f {
                Field::Own => board.set(p, Cell::Stone(me)),
                Field::Opp => board.set(p, Cell::Stone(me.opposite())),
                Field::Winning => {},
            }
            proof {
                let t = cells@.take(k as int + 1);
                assert(t.drop_last() =~= cells@.take(k as int));
                assert(t.last() == cells@[k as int]);
            }
            k = k + 1;
        }
        self.board = board;
        self.side = me;
        self.my_color = Some(me);
        self.play()
    }

    /// Handles one command: starts, options, the manager's moves (then the
    /// brain's own move), `ABOUT` and `END`.
    pub fn handle(&mut self, command: BrainCommand) -> (reply: BrainReply)
        ensures
            final(self).name == old(self).name,
            match command {
                BrainCommand::Start(size) => reply == BrainReply::Ack && empty_board(
                    final(self).board,
                    size as int,
                    size as int,
                ) && final(self).side == Color::Black && final(self).my_color is None,
                BrainCommand::RectStart { width, height } => reply == BrainReply::Ack && empty_board(
                    final(self).board,
                    width as int,
                    height as int,
                ) && final(self).side == Color::Black && final(self).my_color is None,
                BrainCommand::Restart => reply == BrainReply::Ack && empty_board(
                    final(self).board,
                    old(self).board.w(),
                    old(self).board.h(),
                ) && final(self).side == Color::Black && final(self).my_color is None,
                BrainCommand::InfoRule(mask) => reply == BrainReply::Silent && final(self).rules == from_mask_spec(
                    mask,
                ),
                BrainCommand::InfoTimeoutTurn(ms) => reply == BrainReply::Silent && (final(self).timeout_turn is Some
                    <==> ms > 0),
                BrainCommand::InfoTimeLeft(ms) => reply == BrainReply::Silent && (final(self).time_left is Some <==> ms
                    > 0),
                BrainCommand::InfoOther => reply == BrainReply::Silent,
                BrainCommand::Begin => final(self).my_color == Some(Color::Black) && ((exists|p: Position|
                    playable(old(self).board, Color::Black, old(self).rules, p)) ==> (
                reply matches BrainReply::Coord(p) && set_on(
                    old(self).board,
                    final(self).board,
                    p,
                    Cell::Stone(Color::Black),
                ))),
                BrainCommand::Turn(pos) => final(self).my_color == (match old(self).my_color {
                    Some(c) => Some(c),
                    None => Some(other(old(self).side)),
                }) && turn_reply(old(self).board, old(self).side, pos, old(self).rules, final(self).board, reply),
                BrainCommand::Board(cells) => final(self).my_color == Some(board_side(stone_count(cells@)))
                    && block_reply(cells@, old(self).board.w(), old(self).board.h(), old(self).rules, final(self).board, reply),
                BrainCommand::About => reply matches BrainReply::About(s) && s@ == "name=\""@ + old(self).name@
                    + "\", version=\"0.0.1\""@,
                BrainCommand::End => reply == BrainReply::Quit,
                _ => reply matches BrainReply::Unknown(s) && s@ == "not implemented"@,
            },
    {
        match command {
            BrainCommand::Start(size) => {
                self.reset(Board::square(size));
                BrainReply::Ack
            },
            BrainCommand::RectStart { width, height } => {
                self.reset(Board::rect(width, height));
                BrainReply::Ack
            },
            BrainCommand::Restart => {
                let w = self.board.width();
                let h = self.board.height();
                self.reset(Board::rect(w, h));
                BrainReply::Ack
            },
            BrainCommand::InfoRule(mask) => {
                self.rules = RuleSet::from_gomocup_rule(mask);
                BrainReply::Silent
            },
            BrainCommand::InfoTimeoutTurn(ms) => {
                self.timeout_turn = millis_opt(ms);
                BrainReply::Silent
            },
            BrainCommand::InfoTimeLeft(ms) => {
                self.time_left = millis_opt(ms);
                BrainReply::Silent
            },
            BrainCommand::InfoOther => BrainReply::Silent,
            BrainCommand::Begin => {
                self.my_color = Some(Color::Black);
                self.side = Color::Black;
                self.play()
            },
            BrainCommand::Turn(pos) => {
                if self.my_color.is_none() {
                    self.my_color = Some(self.side.opposite());
                }
                self.place(pos);
                self.play()
            },
            BrainCommand::Board(cells) => self.take_board(&cells),
            BrainCommand::About => BrainReply::About(self.about()),
            BrainCommand::End => BrainReply::Quit,
            _ => BrainReply::Unknown("not implemented".to_owned()),
        }
    }
}

} // verus!
