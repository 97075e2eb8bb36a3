use quintara::bot::{MoveSource, StopFlag};
use quintara::model::{Board, Cell, Color, Move, Position, RuleSet, TurnContext};
use quintara::rules::wins_at;
use quintara::sage::eval::shape_score;
use quintara::sage::SageBot;

fn score_after(cells: &[(u8, u8)], pos: (u8, u8), color: Color) -> i64 {
    let mut board = Board::square(15);
    for &(r, c) in cells {
        board.set(Position::new(r, c), Cell::Stone(color));
    }
    shape_score(&board, Position::new(pos.0, pos.1), color)
}

fn ctx(board: Board, side: Color) -> TurnContext {
    let legal = board.empty_positions().into_iter().map(Move::Place).collect();
    TurnContext {
        board,
        side_to_move: side,
        move_history: Vec::new(),
        legal_moves: legal,
        rule_set: RuleSet::freestyle(),
        timeout_turn: None,
        time_left: None,
    }
}

fn board_with(black: &[(u8, u8)], white: &[(u8, u8)]) -> Board {
    let mut board = Board::square(15);
    for &(r, c) in black {
        board.set(Position::new(r, c), Cell::Stone(Color::Black));
    }
    for &(r, c) in white {
        board.set(Position::new(r, c), Cell::Stone(Color::White));
    }
    board
}

#[test]
fn shape_tiers_are_ordered() {
    let two = score_after(&[(7, 7)], (7, 8), Color::Black);
    let open_three = score_after(&[(7, 7), (7, 8)], (7, 9), Color::Black);
    let open_four = score_after(&[(7, 7), (7, 8), (7, 9)], (7, 10), Color::Black);
    assert!(open_four > open_three, "{open_four} !> {open_three}");
    assert!(open_three > two, "{open_three} !> {two}");
    assert!(two > 0);
}

#[test]
fn fork_outscores_single_threat() {
    let fork = score_after(&[(7, 5), (7, 6), (5, 7), (6, 7)], (7, 7), Color::Black);
    let single = score_after(&[(7, 5), (7, 6)], (7, 7), Color::Black);
    assert!(fork > single, "fork {fork} !> single {single}");
}

#[test]
fn sage_takes_the_immediate_win() {
    let board = board_with(&[(7, 7), (7, 8), (7, 9), (7, 10)], &[(0, 0), (0, 1), (0, 2)]);
    let context = ctx(board.clone(), Color::Black);
    let mv = SageBot::new().next_move(&context, &StopFlag::new());
    assert!(
        wins_at(&board, mv.position(), Color::Black, RuleSet::freestyle()),
        "should win immediately, played {:?}",
        mv.position()
    );
}

#[test]
fn sage_blocks_opponent_immediate_win() {
    let board = board_with(&[(0, 0), (0, 1)], &[(7, 7), (7, 8), (7, 9), (7, 10)]);
    let context = ctx(board, Color::Black);
    let mv = SageBot::new().next_move(&context, &StopFlag::new()).position();
    assert!(
        mv == Position::new(7, 6) || mv == Position::new(7, 11),
        "should block the four, played {mv:?}"
    );
}

#[test]
fn winning_beats_blocking() {
    let board = board_with(&[(7, 7), (7, 8), (7, 9), (7, 10)], &[(0, 0), (0, 1), (0, 2), (0, 3)]);
    let context = ctx(board.clone(), Color::Black);
    let mv = SageBot::new().next_move(&context, &StopFlag::new());
    assert!(
        wins_at(&board, mv.position(), Color::Black, RuleSet::freestyle()),
        "should take its own win, played {:?}",
        mv.position()
    );
}

#[test]
fn sage_empty_board_plays_centre() {
    let context = ctx(Board::square(15), Color::Black);
    let mv = SageBot::new().next_move(&context, &StopFlag::new()).position();
    assert_eq!(mv, Position::new(7, 7));
}
