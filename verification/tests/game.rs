use quintara::arbiter::conductor::{
    human_command, next_station, output_command, rule_code_of, turn_budget, Station, TurnBudget,
};
use quintara::arbiter::{Arbiter, Command, Event, FailurePolicy, HumanInput, PlayerOutput, PlayerSeat};
use quintara::arbiter::failure::{abort_cause, forfeit_cause};
use quintara::game::{apply_move, initial_state, legal_moves, parse_rule_set, IllegalMove, Outcome};
use quintara::model::{AbortCause, Color, ForfeitCause, Move, PlayerLostKind, Position, RuleSet};

fn place(r: u8, c: u8) -> Move {
    Move::Place(Position::new(r, c))
}

#[test]
fn rule_set_ids_and_codes() {
    assert_eq!(parse_rule_set("renju"), Some(RuleSet::renju()));
    assert_eq!(parse_rule_set("Renju"), None);
    assert_eq!(rule_code_of("caro"), 8);
    assert_eq!(rule_code_of("bogus"), 0);
}

#[test]
fn apply_move_outcomes() {
    let mut s = initial_state(RuleSet::standard(), 6);
    assert_eq!(legal_moves(&s, RuleSet::standard()).len(), 36);
    assert!(matches!(apply_move(&s, place(6, 0), RuleSet::standard()), Err(IllegalMove::OffBoard)));
    for (k, c) in [0u8, 1, 2, 3].iter().enumerate() {
        let a = apply_move(&s, place(0, *c), RuleSet::standard()).ok().unwrap();
        assert_eq!(a.outcome, Outcome::Continue);
        let b = apply_move(&a.state, place(5, *c), RuleSet::standard()).ok().unwrap();
        assert_eq!(b.outcome, Outcome::Continue);
        s = b.state;
        assert_eq!(s.move_history.len(), 2 * (k + 1));
    }
    assert!(matches!(apply_move(&s, place(0, 0), RuleSet::standard()), Err(IllegalMove::Occupied)));
    let win = apply_move(&s, place(0, 4), RuleSet::standard()).ok().unwrap();
    assert_eq!(win.outcome, Outcome::Win(Color::Black));
    assert_eq!(win.state.side_to_move, Color::White);
    assert_eq!(legal_moves(&win.state, RuleSet::standard())[0], place(0, 5));
}

#[test]
fn tiny_board_fills_to_a_draw() {
    let s = initial_state(RuleSet::freestyle(), 1);
    let a = apply_move(&s, place(0, 0), RuleSet::freestyle()).ok().unwrap();
    assert_eq!(a.outcome, Outcome::Draw);
}

#[test]
fn lost_kinds_map_to_causes() {
    assert_eq!(forfeit_cause(PlayerLostKind::Disconnect), ForfeitCause::Disconnect);
    assert_eq!(abort_cause(PlayerLostKind::Malformed), AbortCause::Malformed);
    let p = FailurePolicy::human();
    assert_eq!(p.action_for(PlayerLostKind::Timeout), quintara::arbiter::LostAction::Abort);
}

#[test]
fn conductor_decisions() {
    assert!(matches!(human_command(3, HumanInput::Rewind { to_ply: 4 }), Command::Rewind { to_ply: 4 }));
    assert!(matches!(
        output_command(3, PlayerOutput::Lost(PlayerLostKind::Crash)),
        Command::PlayerLost { participant_id: 3, kind: PlayerLostKind::Crash }
    ));
    assert_eq!(turn_budget(100, None, 7), TurnBudget::Go { budget: 100, time_left: None });
    assert_eq!(turn_budget(100, Some(150), 70), TurnBudget::Go { budget: 80, time_left: Some(80) });
    assert_eq!(turn_budget(100, Some(500), 70), TurnBudget::Go { budget: 100, time_left: Some(430) });
    assert_eq!(turn_budget(100, Some(50), 70), TurnBudget::Timeout);

    let mut arbiter = Arbiter::new();
    let seat = |id: u32| PlayerSeat {
        participant_id: id,
        display_name: "x".to_string(),
        failure_policy: FailurePolicy::bot(),
    };
    let events: Vec<Event> = arbiter
        .handle(Command::StartMatch {
            rule_set_id: "freestyle".to_string(),
            board_size: 9,
            opening: vec![Position::new(4, 4)],
            black: seat(1),
            white: seat(2),
        })
        .unwrap();
    assert_eq!(next_station(&events, true, false), Station::Bot { color: Color::White, index: 2 });
    assert_eq!(next_station(&events, false, true), Station::Human { color: Color::White, index: 2 });
    let end = arbiter.handle(Command::AbortMatch).unwrap();
    assert_eq!(next_station(&end, true, true), Station::Finished);
    assert_eq!(next_station(&Vec::new(), true, true), Station::Stay);
}
