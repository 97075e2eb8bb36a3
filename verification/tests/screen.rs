use std::time::Duration;

use quintara::arbiter::{Event, SeatInfo, Waiting};
use quintara::model::{
    Board, Cell, Color, GameResult, GameState, Move, Position, RuleSet, Termination, TurnContext, Win,
};
use quintara::screen::{ClockStep, Screen};

fn pos(row: u8, col: u8) -> Position {
    Position::new(row, col)
}

fn screen() -> Screen {
    Screen::new(GameState::new(Board::square(15), Color::Black), true, false, pos(7, 7), "starting".to_string())
}

fn state_after(moves: &[(u8, u8)]) -> GameState {
    let mut board = Board::square(15);
    let mut history = Vec::new();
    for (i, &(r, c)) in moves.iter().enumerate() {
        let color = if i % 2 == 0 { Color::Black } else { Color::White };
        board.set(pos(r, c), Cell::Stone(color));
        history.push(Move::Place(pos(r, c)));
    }
    let side = if moves.len() % 2 == 0 { Color::Black } else { Color::White };
    GameState { board, side_to_move: side, move_history: history }
}

fn request(color: Color, state: &GameState) -> Event {
    Event::MoveRequested {
        color,
        context: TurnContext {
            board: state.board.clone(),
            side_to_move: color,
            move_history: state.move_history.clone(),
            legal_moves: vec![Move::Place(pos(0, 0)), Move::Place(pos(3, 4))],
            rule_set: RuleSet::freestyle(),
            timeout_turn: None,
            time_left: Some(Duration::from_secs(9)),
        },
    }
}

#[test]
fn start_shows_the_seat_names() {
    let mut s = screen();
    let step = s.apply_event(&Event::MatchStarted {
        rule_set_id: "freestyle".to_string(),
        black: SeatInfo { participant_id: 1, display_name: "ann".to_string() },
        white: SeatInfo { participant_id: 2, display_name: "bob".to_string() },
        initial_state: state_after(&[]),
    });
    assert!(matches!(step, ClockStep::Keep));
    assert_eq!(s.name(Color::Black), "ann");
    assert_eq!(s.name(Color::White), "bob");
}

#[test]
fn a_request_to_a_human_lists_the_legal_points_and_starts_the_clock() {
    let mut s = screen();
    let st = state_after(&[]);
    let step = s.apply_event(&request(Color::Black, &st));
    assert_eq!(s.legal, vec![pos(0, 0), pos(3, 4)]);
    assert_eq!(s.active, Some(Color::Black));
    match step {
        ClockStep::Requested { color, time_left } => {
            assert_eq!(color, Color::Black);
            assert_eq!(time_left, Some(Duration::from_secs(9)));
        }
        _ => panic!("expected a request step"),
    }
}

#[test]
fn a_request_to_a_bot_keeps_the_legal_points() {
    let mut s = screen();
    let st = state_after(&[(7, 7)]);
    s.apply_event(&request(Color::White, &st));
    assert!(s.legal.is_empty());
    assert_eq!(s.active, Some(Color::White));
}

#[test]
fn a_move_ends_the_timed_turn_of_its_color() {
    let mut s = screen();
    s.active = Some(Color::Black);
    let step = s.apply_event(&Event::MoveApplied {
        color: Color::Black,
        mv: Move::Place(pos(7, 7)),
        new_state: state_after(&[(7, 7)]),
        elapsed: Duration::from_millis(5),
    });
    match step {
        ClockStep::Moved { color, elapsed, stop_turn } => {
            assert_eq!(color, Color::Black);
            assert_eq!(elapsed, Duration::from_millis(5));
            assert!(stop_turn);
        }
        _ => panic!("expected a move step"),
    }
    assert_eq!(s.last_move, Some(pos(7, 7)));
    assert_eq!(s.active, None);
    assert_eq!(s.state.move_history.len(), 1);
}

#[test]
fn a_move_of_the_other_color_leaves_the_turn_clock() {
    let mut s = screen();
    s.active = Some(Color::White);
    let step = s.apply_event(&Event::MoveApplied {
        color: Color::Black,
        mv: Move::Place(pos(7, 7)),
        new_state: state_after(&[(7, 7)]),
        elapsed: Duration::ZERO,
    });
    assert!(matches!(step, ClockStep::Moved { stop_turn: false, .. }));
}

#[test]
fn a_rewind_shows_the_earlier_last_move() {
    let mut s = screen();
    s.last_move = Some(pos(9, 9));
    let step = s.apply_event(&Event::MatchRewound { new_state: state_after(&[(7, 7), (8, 8)]) });
    assert!(matches!(step, ClockStep::Rewound { plies: 2 }));
    assert_eq!(s.last_move, Some(pos(8, 8)));
    let step = s.apply_event(&Event::MatchRewound { new_state: state_after(&[]) });
    assert!(matches!(step, ClockStep::Rewound { plies: 0 }));
    assert_eq!(s.last_move, None);
}

#[test]
fn waiting_texts_name_the_mover_and_the_result() {
    let mut s = screen();
    s.last_move = Some(pos(2, 3));
    s.show_waiting(Waiting::Human(Color::Black), &Vec::new(), "X", "O");
    assert!(s.show_cursor);
    assert_eq!(s.cursor, pos(2, 3));
    assert_eq!(s.status, "X to move \u{2014} your turn");
    s.show_waiting(Waiting::Bot(Color::White), &Vec::new(), "X", "O");
    assert!(!s.show_cursor);
    assert_eq!(s.status, "O to move \u{2014} thinking\u{2026}");
    s.state = state_after(&[(7, 7), (8, 8), (7, 8)]);
    s.active = Some(Color::White);
    let events = vec![Event::MatchFinished {
        termination: Termination::Completed { result: GameResult::Win(Win::BlackWin) },
        final_state: state_after(&[(7, 7), (8, 8), (7, 8)]),
    }];
    s.show_waiting(Waiting::Done, &events, "X", "O");
    assert_eq!(s.active, None);
    assert_eq!(s.review, Some(3));
    assert_eq!(s.status, "== X wins ==   \u{2190}/\u{2192} review \u{b7} q quit");
}

#[test]
fn a_swapped_seat_takes_its_name() {
    let mut s = screen();
    s.set_seat(Color::White, true, "you".to_string());
    assert!(s.human(Color::White));
    assert!(s.human(Color::Black));
    assert_eq!(s.name(Color::White), "you");
    assert_eq!(s.name(Color::Black), "black");
}
