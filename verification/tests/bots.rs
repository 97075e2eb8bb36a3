use quintara::aegis::AegisBot;
use quintara::bot::{MoveSource, StopFlag};
use quintara::greedy::GreedyBot;
use quintara::model::{Board, Cell, Color, Move, Position, RuleSet, TurnContext};
use quintara::random::RandomBot;

fn ctx(board: Board, side: Color) -> TurnContext {
    let legal = board.empty_positions().into_iter().map(Move::Place).collect();
    TurnContext {
        board,
        side_to_move: side,
        move_history: Vec::new(),
        legal_moves: legal,
        rule_set: RuleSet::freestyle(),
        timeout_turn: None,
        time_left: None,
    }
}

fn board_with(black: &[(u8, u8)], white: &[(u8, u8)]) -> Board {
    let mut board = Board::square(15);
    for &(r, c) in black {
        board.set(Position::new(r, c), Cell::Stone(Color::Black));
    }
    for &(r, c) in white {
        board.set(Position::new(r, c), Cell::Stone(Color::White));
    }
    board
}

#[test]
fn picks_near_an_existing_stone() {
    let mut board = Board::square(15);
    board.set(Position::new(7, 7), Cell::Stone(Color::Black));
    let ctx = ctx(board, Color::White);
    let mut bot = RandomBot::from_seed(42);
    for _ in 0..50 {
        let pos = bot.next_move(&ctx, &StopFlag::new()).position();
        let d_row = (i32::from(pos.row) - 7).abs();
        let d_col = (i32::from(pos.col) - 7).abs();
        assert!(d_row <= 2 && d_col <= 2, "picked {pos:?} far from the stone");
        assert!(!(d_row == 0 && d_col == 0), "picked the occupied point");
    }
}

#[test]
fn empty_board_plays_center() {
    let ctx = ctx(Board::square(15), Color::White);
    let mut bot = RandomBot::from_seed(7);
    let pos = bot.next_move(&ctx, &StopFlag::new()).position();
    assert_eq!(pos, Position::new(7, 7));
}

#[test]
fn greedy_extends_its_own_line() {
    let board = board_with(&[(7, 7), (7, 8), (7, 9)], &[(0, 0)]);
    let mv = GreedyBot::new().next_move(&ctx(board, Color::Black), &StopFlag::new()).position();
    assert!(mv == Position::new(7, 6) || mv == Position::new(7, 10), "played {mv:?}");
}

#[test]
fn aegis_wins_blocks_and_opens_centre() {
    let board = board_with(&[(7, 7), (7, 8), (7, 9), (7, 10)], &[(0, 0), (0, 1)]);
    let mv = AegisBot::new().next_move(&ctx(board, Color::Black), &StopFlag::new()).position();
    assert_eq!(mv, Position::new(7, 6), "the first winning candidate in board order");
    let board = board_with(&[(0, 0), (0, 1)], &[(7, 7), (7, 8), (7, 9), (7, 10)]);
    let mv = AegisBot::new().next_move(&ctx(board, Color::Black), &StopFlag::new()).position();
    assert!(mv == Position::new(7, 6) || mv == Position::new(7, 11), "should block, played {mv:?}");
    let mv = AegisBot::new().next_move(&ctx(Board::square(15), Color::Black), &StopFlag::new()).position();
    assert_eq!(mv, Position::new(7, 7));
}
