use vstd::prelude::*;

use super::board::Board;
use super::color::Color;
use super::moves::Move;

verus! {

/// The authoritative position: board, side to move and move history.
#[derive(Debug, PartialEq, Eq)]
pub struct GameState {
    pub board: Board,
    pub side_to_move: Color,
    pub move_history: Vec<Move>,
}

/// Two boards of the same size with the same stones.
pub open spec fn same_board(a: Board, b: Board) -> bool {
    &&& a.w() == b.w()
    &&& a.h() == b.h()
    &&& forall|r: int, c: int| a.has(r, c) ==> a.at(r, c) == b.at(r, c)
}

/// Two positions with the same board, side to move and history.
pub open spec fn same_state(a: GameState, b: GameState) -> bool {
    &&& same_board(a.board, b.board)
    &&& a.side_to_move == b.side_to_move
    &&& a.move_history@ == b.move_history@
}

impl Clone for GameState {
    fn clone(&self) -> (r: Self)
        ensures
            same_state(r, *self),
    {
        let history = self.move_history.clone();
        proof {
            assert(history@ =~= self.move_history@);
        }
        GameState { board: self.board.clone(), side_to_move: self.side_to_move, move_history: history }
    }
}

impl GameState {
    /// A position with an empty move history.
    pub fn new(board: Board, side_to_move: Color) -> (r: Self)
        ensures
            r.board == board,
            r.side_to_move == side_to_move,
            r.move_history@.len() == 0,
    {
        Self { board, side_to_move, move_history: Vec::new() }
    }
}

} // verus!
