//! The game rules as pure functions of `(GameState, RuleSet)`: the rule
//! set of a `ruleSetId`, the starting position, the legal moves, and the
//! result of playing a move.
//!
//! A move is legal on an empty on-board point that is no renju foul for
//! the side to move (black, under a rule set with fouls). After it, the mover wins if
//! the stone completes a win under the rule set's win rule; otherwise the
//! game is drawn when the board is full or the rule set's move limit is
//! reached; otherwise play continues with the other side.

use vstd::prelude::*;

use crate::model::board::cell_index;
use crate::model::color::other;
use crate::model::state::same_board;
use crate::model::{Board, Cell, Color, GameState, Move, Position, RuleSet, WinRule};
use crate::model::ruleset::{caro_spec, freestyle_spec, renju_spec, standard_spec};
use crate::onyx::grid::{color_code, BLACK};
use crate::renju::{foul, is_foul, lemma_five_is_no_foul};
use crate::rules::{board_model, is_win_for, lemma_board_model};
use crate::text::same_text;
use crate::titan::bitboard::wins_under;

verus! {

/// What follows a move.
#[derive(Debug, Clone, Copy, PartialEq, Eq, Structural)]
pub enum Outcome {
    /// Play goes on.
    Continue,
    /// The mover has won.
    Win(Color),
    /// The game is drawn.
    Draw,
}

/// Why a move was refused.
#[derive(Debug, Clone, Copy, PartialEq, Eq, Structural)]
pub enum IllegalMove {
    /// The point is off the board.
    OffBoard,
    /// The point holds a stone.
    Occupied,
    /// The point is a renju foul for black.
    Forbidden,
}

/// A move that was played: the position after it and what follows.
#[derive(Debug)]
pub struct Applied {
    pub state: GameState,
    pub outcome: Outcome,
}

/// The rule set named by a preset `ruleSetId`.
pub open spec fn rule_set_of(id: Seq<char>) -> Option<RuleSet> {
    if id == "freestyle"@ {
        Some(freestyle_spec())
    } else if id == "standard"@ {
        Some(standard_spec())
    } else if id == "renju"@ {
        Some(renju_spec())
    } else if id == "caro"@ {
        Some(caro_spec())
    } else {
        None
    }
}

/// The rule set of a preset `ruleSetId` (`freestyle`, `standard`, `renju`,
/// `caro`); `None` for any other text.
pub fn parse_rule_set(id: &str) -> (r: Option<RuleSet>)
    ensures
        r == rule_set_of(id@),
{
    if same_text(id, "freestyle") {
        Some(RuleSet::freestyle())
    } else if same_text(id, "standard") {
        Some(RuleSet::standard())
    } else if same_text(id, "renju") {
        Some(RuleSet::renju())
    } else if same_text(id, "caro") {
        Some(RuleSet::caro())
    } else {
        None
    }
}

/// The empty starting position of a `size` board: black to move, no
/// history.
pub open spec fn is_initial(s: GameState, size: int) -> bool {
    &&& s.board.w() == size
    &&& s.board.h() == size
    &&& forall|r: int, c: int| s.board.has(r, c) ==> s.board.at(r, c) == Cell::Empty
    &&& s.side_to_move == Color::Black
    &&& s.move_history@.len() == 0
}

/// The starting position: an empty `board_size` square, black to move.
pub fn initial_state(_rule_set: RuleSet, board_size: u8) -> (s: GameState)
    ensures
        is_initial(s, board_size as int),
{
    GameState::new(Board::square(board_size), Color::Black)
}

/// The point `p` is a foul for the side to move: black, under a rule set
/// with renju fouls.
pub open spec fn forbidden_at(state: GameState, rule_set: RuleSet, p: Position) -> bool {
    &&& rule_set.forbidden_black
    &&& state.side_to_move == Color::Black
    &&& foul(board_model(state.board), p.row as int, p.col as int)
}

/// `side` may play on `p` of `board`: an empty on-board point that is no
/// foul for it.
pub open spec fn playable(board: Board, side: Color, rule_set: RuleSet, p: Position) -> bool {
    &&& board.empty_at(p.row as int, p.col as int)
    &&& !(rule_set.forbidden_black && side == Color::Black && foul(board_model(board), p.row as int, p.col as int))
}

/// The side to move may play on `p`: an empty on-board point that is no
/// foul.
pub open spec fn legal_at(state: GameState, rule_set: RuleSet, p: Position) -> bool {
    playable(state.board, state.side_to_move, rule_set, p)
}

/// Fouls bind black alone, and only under a rule set with them: otherwise
/// every empty point is legal.
pub proof fn lemma_fouls_bind_black_only(state: GameState, rule_set: RuleSet, p: Position)
    requires
        state.side_to_move == Color::White || !rule_set.forbidden_black,
    ensures
        legal_at(state, rule_set, p) == state.board.empty_at(p.row as int, p.col as int),
{
}

/// An exact five is always legal, for black under renju fouls too.
pub proof fn lemma_five_is_legal(state: GameState, rule_set: RuleSet, p: Position)
    requires
        state.board.empty_at(p.row as int, p.col as int),
        wins_under(board_model(state.board), p.row as int, p.col as int, BLACK, WinRule::ExactFive),
    ensures
        legal_at(state, rule_set, p),
{
    lemma_board_model(state.board);
    lemma_five_is_no_foul(board_model(state.board), p.row as int, p.col as int);
}

/// The legal points are exactly those a move is accepted on: a point is
/// refused just when it is off the board, occupied, or a foul.
pub proof fn lemma_legal_is_accepted(state: GameState, rule_set: RuleSet, p: Position)
    ensures
        legal_at(state, rule_set, p) <==> {
            &&& state.board.has(p.row as int, p.col as int)
            &&& state.board.empty_at(p.row as int, p.col as int)
            &&& !forbidden_at(state, rule_set, p)
        },
{
}

/// Whether `pos` is a foul for the side to move.
fn foul_for_mover(state: &GameState, rule_set: RuleSet, pos: Position) -> (b: bool)
    ensures
        b == forbidden_at(*state, rule_set, pos),
{
    match state.side_to_move {
        Color::Black => rule_set.forbidden_black && is_foul(&state.board, pos),
        Color::White => false,
    }
}

/// The legal moves of a position: every empty point that is no foul for
/// the side to move, in row-major order.
pub fn legal_moves(state: &GameState, rule_set: RuleSet) -> (moves: Vec<Move>)
    ensures
        forall|mv: Move| moves@.contains(mv) <==> legal_at(*state, rule_set, mv.pos()),
        forall|i: int, j: int|
            0 <= i < j < moves@.len() ==> cell_index(state.board.w(), moves@[i].pos().row as int, moves@[i].pos().col as int)
                < cell_index(state.board.w(), moves@[j].pos().row as int, moves@[j].pos().col as int),
{
    let empties = state.board.empty_positions();
    let mut moves: Vec<Move> = Vec::new();
    let ghost mut idx: Seq<int> = Seq::empty();
    let mut i: usize = 0;
    while i < empties.len()
        invariant
            i <= empties@.len(),
            forall|p: Position| empties@.contains(p) <==> state.board.empty_at(p.row as int, p.col as int),
            idx.len() == moves@.len(),
            forall|k: int|
                0 <= k < idx.len() ==> 0 <= #[trigger] idx[k] < i && moves@[k] == Move::Place(empties@[idx[k]])
                    && legal_at(*state, rule_set, empties@[idx[k]]),
            forall|a: int, b: int| 0 <= a < b < idx.len() ==> idx[a] < idx[b],
            forall|j: int|
                0 <= j < i && legal_at(*state, rule_set, #[trigger] empties@[j]) ==> exists|k: int|
                    0 <= k < idx.len() && idx[k] == j,
        decreases empties@.len() - i,
    {
        let p = empties[i];
        proof {
            assert(empties@.contains(p));
        }
        if !foul_for_mover(state, rule_set, p) {
            moves.push(Move::Place(p));
            proof {
                let idx0 = idx;
                idx = idx.push(i as int);
                assert forall|j: int|
                    0 <= j < i + 1 && legal_at(*state, rule_set, #[trigger] empties@[j]) implies exists|k: int|
                    0 <= k < idx.len() && idx[k] == j by {
                    if j == i {
                        assert(idx[idx.len() - 1] == j);
                    } else {
                        let k = choose|k: int| 0 <= k < idx0.len() && idx0[k] == j;
                        assert(idx[k] == j);
                    }
                }
            }
        }
        i = i + 1;
    }
    proof {
        assert forall|mv: Move| moves@.contains(mv) <==> legal_at(*state, rule_set, mv.pos()) by {
            if moves@.contains(mv) {
                let k = choose|k: int| 0 <= k < moves@.len() && moves@[k] == mv;
                assert(moves@[k] == Move::Place(empties@[idx[k]]));
            }
            if legal_at(*state, rule_set, mv.pos()) {
                let p = mv.pos();
                assert(empties@.contains(p));
                let j = choose|j: int| 0 <= j < empties@.len() && empties@[j] == p;
                assert(legal_at(*state, rule_set, empties@[j]));
                let k = choose|k: int| 0 <= k < idx.len() && idx[k] == j;
                assert(moves@[k] == Move::Place(p));
                assert(mv == Move::Place(p)) by {
                    match mv {
                        Move::Place(q) => {},
                    }
                }
            }
        }
        assert forall|a: int, b: int| 0 <= a < b < moves@.len() implies cell_index(
            state.board.w(),
            moves@[a].pos().row as int,
            moves@[a].pos().col as int,
        ) < cell_index(state.board.w(), moves@[b].pos().row as int, moves@[b].pos().col as int) by {
            assert(moves@[a] == Move::Place(empties@[idx[a]]));
            assert(moves@[b] == Move::Place(empties@[idx[b]]));
            assert(idx[a] < idx[b]);
        }
    }
    moves
}

/// What follows the stone the mover of `before` placed on `p` in `after`.
pub open spec fn outcome_spec(after: GameState, p: Position, mover: Color, rule_set: RuleSet) -> Outcome {
    if wins_under(board_model(after.board), p.row as int, p.col as int, color_code(mover), rule_set.win_rule) {
        Outcome::Win(mover)
    } else if after.board.full() || (match rule_set.max_moves {
        Some(n) => after.move_history@.len() >= n,
        None => false,
    }) {
        Outcome::Draw
    } else {
        Outcome::Continue
    }
}

/// `after` is `before` with the mover's stone on `p`, the other side to
/// move, and `mv` appended to the history.
pub open spec fn placed(before: GameState, after: GameState, mv: Move) -> bool {
    let p = mv.pos();
    &&& after.board.w() == before.board.w()
    &&& after.board.h() == before.board.h()
    &&& forall|r: int, c: int|
        #![trigger after.board.at(r, c)]
        after.board.has(r, c) ==> after.board.at(r, c) == (if r == p.row && c == p.col {
            Cell::Stone(before.side_to_move)
        } else {
            before.board.at(r, c)
        })
    &&& after.side_to_move == other(before.side_to_move)
    &&& after.move_history@ == before.move_history@.push(mv)
}

/// Plays `mv` for the side to move: refused off the board or on a stone;
/// otherwise the new position and its outcome.
pub fn apply_move(state: &GameState, mv: Move, rule_set: RuleSet) -> (r: Result<Applied, IllegalMove>)
    ensures
        !state.board.has(mv.pos().row as int, mv.pos().col as int) ==> r == Err::<Applied, IllegalMove>(
            IllegalMove::OffBoard,
        ),
        state.board.has(mv.pos().row as int, mv.pos().col as int) && !state.board.empty_at(
            mv.pos().row as int,
            mv.pos().col as int,
        ) ==> r == Err::<Applied, IllegalMove>(IllegalMove::Occupied),
        state.board.empty_at(mv.pos().row as int, mv.pos().col as int) && forbidden_at(*state, rule_set, mv.pos())
            ==> r == Err::<Applied, IllegalMove>(IllegalMove::Forbidden),
        legal_at(*state, rule_set, mv.pos()) ==> (r matches Ok(a) && placed(
            *state,
            a.state,
            mv,
        ) && a.outcome == outcome_spec(a.state, mv.pos(), state.side_to_move, rule_set)),
{
    let pos = mv.position();
    if !state.board.in_bounds(pos) {
        return Err(IllegalMove::OffBoard);
    }
    if !state.board.is_empty_at(pos) {
        return Err(IllegalMove::Occupied);
    }
    if foul_for_mover(state, rule_set, pos) {
        return Err(IllegalMove::Forbidden);
    }
    let color = state.side_to_move;
    let mut board = state.board.clone();
    board.set(pos, Cell::Stone(color));
    let mut history = state.move_history.clone();
    proof {
        assert(history@ =~= state.move_history@);
    }
    history.push(mv);
    let after = GameState { board, side_to_move: color.opposite(), move_history: history };
    proof {
        assert(mv == Move::Place(pos)) by {
            match mv {
                Move::Place(q) => {},
            }
        }
    }
    let outcome = if is_win_for(&after.board, pos, rule_set, color) {
        Outcome::Win(color)
    } else {
        let limit = match rule_set.max_moves {
            Some(n) => after.move_history.len() >= n as usize,
            None => false,
        };
        if after.board.is_full() || limit {
            Outcome::Draw
        } else {
            Outcome::Continue
        }
    };
    Ok(Applied { state: after, outcome })
}

} // verus!
