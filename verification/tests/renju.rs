use quintara::game::{apply_move, legal_moves, IllegalMove, Outcome};
use quintara::model::{Board, Cell, Color, GameState, Move, Position, RuleSet};
use quintara::renju::is_foul;

fn position(black: &[(u8, u8)], white: &[(u8, u8)], to_move: Color) -> GameState {
    let mut board = Board::square(15);
    for (r, c) in black {
        board.set(Position::new(*r, *c), Cell::Stone(Color::Black));
    }
    for (r, c) in white {
        board.set(Position::new(*r, *c), Cell::Stone(Color::White));
    }
    GameState::new(board, to_move)
}

fn place(r: u8, c: u8) -> Move {
    Move::Place(Position::new(r, c))
}

fn forbidden(state: &GameState, r: u8, c: u8) -> bool {
    matches!(apply_move(state, place(r, c), RuleSet::renju()), Err(IllegalMove::Forbidden))
}

#[test]
fn renju_double_three_is_forbidden_for_black_only() {
    let s = position(&[(7, 6), (7, 8), (6, 7), (8, 7)], &[], Color::Black);
    assert!(is_foul(&s.board, Position::new(7, 7)));
    assert!(forbidden(&s, 7, 7));
    assert!(!legal_moves(&s, RuleSet::renju()).contains(&place(7, 7)));
    assert!(legal_moves(&s, RuleSet::freestyle()).contains(&place(7, 7)));
    assert!(apply_move(&s, place(7, 7), RuleSet::standard()).is_ok());
    let w = position(&[], &[(7, 6), (7, 8), (6, 7), (8, 7)], Color::White);
    assert!(apply_move(&w, place(7, 7), RuleSet::renju()).is_ok());
}

#[test]
fn renju_double_four_is_forbidden() {
    let s = position(&[(7, 4), (7, 5), (7, 6), (4, 7), (5, 7), (6, 7)], &[], Color::Black);
    assert!(forbidden(&s, 7, 7));
}

#[test]
fn renju_double_four_on_one_line_is_forbidden() {
    let s = position(&[(7, 2), (7, 4), (7, 6), (7, 8)], &[], Color::Black);
    assert!(forbidden(&s, 7, 5));
}

#[test]
fn renju_overline_is_forbidden_for_black_and_wins_for_white() {
    let s = position(&[(7, 1), (7, 2), (7, 3), (7, 5), (7, 6)], &[], Color::Black);
    assert!(forbidden(&s, 7, 4));
    let w = position(&[], &[(7, 1), (7, 2), (7, 3), (7, 5), (7, 6)], Color::White);
    let a = apply_move(&w, place(7, 4), RuleSet::renju()).ok().unwrap();
    assert_eq!(a.outcome, Outcome::Win(Color::White));
}

#[test]
fn renju_four_three_is_allowed() {
    let s = position(&[(7, 4), (7, 5), (7, 6), (6, 7), (8, 7)], &[], Color::Black);
    assert!(!is_foul(&s.board, Position::new(7, 7)));
    let a = apply_move(&s, place(7, 7), RuleSet::renju()).ok().unwrap();
    assert_eq!(a.outcome, Outcome::Continue);
}

#[test]
fn renju_five_beats_a_foul() {
    let s = position(&[(7, 3), (7, 4), (7, 5), (7, 6), (4, 7), (5, 7), (6, 7)], &[], Color::Black);
    let a = apply_move(&s, place(7, 7), RuleSet::renju()).ok().unwrap();
    assert_eq!(a.outcome, Outcome::Win(Color::Black));
}

#[test]
fn renju_blocked_three_is_no_three() {
    let s = position(&[(7, 6), (7, 8), (6, 7), (8, 7)], &[(7, 5), (5, 7)], Color::Black);
    assert!(!is_foul(&s.board, Position::new(7, 7)));
    assert!(legal_moves(&s, RuleSet::renju()).contains(&place(7, 7)));
}
