use std::time::Duration;

use quintara::arbiter::{Arbiter, Command, FailurePolicy, PlayerSeat, Waiting};
use quintara::mobile::{
    bot_search_budget, board_to_dto, check_config, human_input, termination_to_dto, waiting_to_dto, ColorDto,
    Difficulty, MobileError, MobileInput, NewGameConfig, PointDto, SeatSpec, SessionView, TerminationDto,
    WaitingDto,
};
use quintara::arbiter::HumanInput;
use quintara::model::{AbortCause, Board, Cell, Color, ForfeitCause, Position, Termination};

#[test]
fn bot_search_budget_leaves_room_before_mobile_timeout() {
    assert_eq!(bot_search_budget(Duration::from_secs(5)), Duration::from_millis(4_750));
    assert_eq!(bot_search_budget(Duration::from_millis(100)), Duration::from_millis(100));
}

#[test]
fn phone_default_is_human_against_onyx() {
    let c = NewGameConfig::phone_default();
    assert_eq!(c.rule_set_id, "freestyle");
    assert_eq!(c.board_size, 15);
    assert_eq!(c.black, SeatSpec::human("You"));
    assert_eq!(c.white, SeatSpec::bot("Onyx", Difficulty::Hard));
    assert_eq!(c.bot_thinking_time_ms, 5_000);
    assert_eq!(check_config(&c), Ok(()));
}

#[test]
fn config_errors_in_order() {
    let mut c = NewGameConfig::phone_default();
    c.white = SeatSpec::Bot { display_name: "M".to_string(), difficulty: Difficulty::Master, rapfi_asset_dir: None };
    assert_eq!(check_config(&c), Err(MobileError::RapfiUnavailable("missing Rapfi asset directory".to_string())));
    c.rule_set_id = "gomoku".to_string();
    let e = check_config(&c).unwrap_err();
    assert_eq!(e, MobileError::UnknownRuleSet("gomoku".to_string()));
    assert_eq!(e.message(), "unknown rule set: gomoku");
}

#[test]
fn dto_conversions() {
    assert_eq!(human_input(MobileInput::Move { row: 3, col: 4 }), HumanInput::Move(Position::new(3, 4)));
    assert_eq!(human_input(MobileInput::Rewind { to_ply: 2 }), HumanInput::Rewind { to_ply: 2 });
    assert_eq!(waiting_to_dto(Waiting::Bot(Color::White)), WaitingDto::Bot { color: ColorDto::White });
    assert_eq!(
        termination_to_dto(Termination::Forfeit { winner: Color::Black, cause: ForfeitCause::IllegalMove }),
        TerminationDto::Forfeit { winner: ColorDto::Black, cause: "illegal_move" }
    );
    assert_eq!(
        termination_to_dto(Termination::Aborted { cause: AbortCause::UserAbort, faulted_color: None }),
        TerminationDto::Aborted { cause: "user_abort", faulted_color: None }
    );
    let mut board = Board::rect(3, 2);
    board.set(Position::new(1, 2), Cell::Stone(Color::White));
    let dto = board_to_dto(&board);
    assert_eq!((dto.width, dto.height), (3, 2));
    assert_eq!(dto.cells, vec![None, None, None, None, None, Some(ColorDto::White)]);
}

fn seat(id: u32) -> PlayerSeat {
    PlayerSeat { participant_id: id, display_name: format!("p{id}"), failure_policy: FailurePolicy::human() }
}

#[test]
fn session_view_follows_the_game() {
    let mut arbiter = Arbiter::new();
    let mut view = SessionView::new(15);
    let events = arbiter
        .handle(Command::StartMatch {
            rule_set_id: "freestyle".to_string(),
            board_size: 15,
            opening: Vec::new(),
            black: seat(1),
            white: seat(2),
        })
        .unwrap();
    view.apply_step(&events, Waiting::Human(Color::Black));
    let snap = view.snapshot();
    assert_eq!(snap.legal_moves.len(), 225);
    assert_eq!(view.waiting, WaitingDto::Human { color: ColorDto::Black });
    let events = arbiter
        .handle(Command::SubmitMove { participant_id: 1, mv: quintara::model::Move::Place(Position::new(7, 7)) })
        .unwrap();
    view.apply_step(&events, Waiting::Human(Color::White));
    let snap = view.snapshot();
    assert_eq!(snap.last_move, Some(PointDto { row: 7, col: 7 }));
    assert_eq!(snap.side_to_move, ColorDto::White);
    assert_eq!(snap.legal_moves.len(), 224);
    assert_eq!(snap.board.cells[7 * 15 + 7], Some(ColorDto::Black));
    let events = arbiter.handle(Command::Resign { participant_id: 2 }).unwrap();
    view.apply_step(&events, Waiting::Done);
    let snap = view.snapshot();
    assert!(snap.legal_moves.is_empty());
    assert_eq!(snap.termination, Some(TerminationDto::Forfeit { winner: ColorDto::Black, cause: "resign" }));
}
