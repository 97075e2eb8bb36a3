use quintara::bot::{MoveSource, StopFlag};
use quintara::random::RandomBot;
use quintara::arbiter::{Arbiter, Command, CommandRejected, Event, FailurePolicy, PlayerErrorCode, PlayerSeat};
use quintara::model::{AbortCause, Cell, Color, ForfeitCause, GameResult, Move, PlayerLostKind, Position, Termination, Win};

const BLACK_ID: u32 = 10;
const WHITE_ID: u32 = 20;

fn seat(id: u32, name: &str, policy: FailurePolicy) -> PlayerSeat {
    PlayerSeat { participant_id: id, display_name: name.to_string(), failure_policy: policy }
}

fn start(arbiter: &mut Arbiter, rule_set_id: &str, policy: FailurePolicy) -> Vec<Event> {
    arbiter
        .handle(Command::StartMatch {
            rule_set_id: rule_set_id.to_string(),
            board_size: 15,
            opening: Vec::new(),
            black: seat(BLACK_ID, "black", policy),
            white: seat(WHITE_ID, "white", policy),
        })
        .unwrap()
}

fn place(r: u8, c: u8) -> Move {
    Move::Place(Position::new(r, c))
}

fn submit(arbiter: &mut Arbiter, pid: u32, mv: Move) -> Result<Vec<Event>, CommandRejected> {
    arbiter.handle(Command::SubmitMove { participant_id: pid, mv })
}

#[test]
fn state_machine_unknown_rule_set_is_rejected() {
    let mut arbiter = Arbiter::new();
    let result = arbiter.handle(Command::StartMatch {
        rule_set_id: "bogus".to_string(),
        board_size: 15,
        opening: Vec::new(),
        black: seat(BLACK_ID, "b", FailurePolicy::bot()),
        white: seat(WHITE_ID, "w", FailurePolicy::bot()),
    });
    assert_eq!(result.unwrap_err(), CommandRejected::UnknownRuleSet);
}

#[test]
fn start_emits_started_then_requests_black() {
    let mut arbiter = Arbiter::new();
    let events = start(&mut arbiter, "freestyle", FailurePolicy::bot());
    assert!(matches!(events[0], Event::MatchStarted { .. }));
    assert!(matches!(events[1], Event::MoveRequested { color: Color::Black, .. }));
}

#[test]
fn duplicate_start_is_rejected() {
    let mut arbiter = Arbiter::new();
    start(&mut arbiter, "freestyle", FailurePolicy::bot());
    let again = arbiter.handle(Command::StartMatch {
        rule_set_id: "freestyle".to_string(),
        board_size: 15,
        opening: Vec::new(),
        black: seat(BLACK_ID, "b", FailurePolicy::bot()),
        white: seat(WHITE_ID, "w", FailurePolicy::bot()),
    });
    assert_eq!(again.unwrap_err(), CommandRejected::DuplicateMatch);
}

#[test]
fn legal_move_applies_and_requests_opponent() {
    let mut arbiter = Arbiter::new();
    start(&mut arbiter, "freestyle", FailurePolicy::bot());
    let events = submit(&mut arbiter, BLACK_ID, place(7, 7)).unwrap();
    assert!(matches!(events[0], Event::MoveApplied { color: Color::Black, .. }));
    assert!(matches!(events[1], Event::MoveRequested { color: Color::White, .. }));
}

#[test]
fn out_of_turn_submit_is_unauthorized() {
    let mut arbiter = Arbiter::new();
    start(&mut arbiter, "freestyle", FailurePolicy::bot());
    let events = submit(&mut arbiter, WHITE_ID, place(3, 3)).unwrap();
    assert!(matches!(events[0], Event::PlayerError { code: PlayerErrorCode::Unauthorized, .. }));
}

#[test]
fn black_wins_by_horizontal_five() {
    let mut arbiter = Arbiter::new();
    start(&mut arbiter, "freestyle", FailurePolicy::bot());
    let black = [place(7, 0), place(7, 1), place(7, 2), place(7, 3), place(7, 4)];
    let white = [place(0, 0), place(0, 1), place(0, 2), place(0, 3)];
    for (b, w) in black.iter().take(4).zip(white.iter()) {
        submit(&mut arbiter, BLACK_ID, *b).unwrap();
        submit(&mut arbiter, WHITE_ID, *w).unwrap();
    }
    let events = submit(&mut arbiter, BLACK_ID, black[4]).unwrap();
    let finished = events.iter().find(|e| matches!(e, Event::MatchFinished { .. })).expect("game should finish");
    assert!(matches!(
        finished,
        Event::MatchFinished { termination: Termination::Completed { result: GameResult::Win(Win::BlackWin) }, .. }
    ));
}

#[test]
fn resign_forfeits_to_opponent() {
    let mut arbiter = Arbiter::new();
    start(&mut arbiter, "freestyle", FailurePolicy::bot());
    let events = arbiter.handle(Command::Resign { participant_id: BLACK_ID }).unwrap();
    assert!(matches!(
        events[0],
        Event::MatchFinished { termination: Termination::Forfeit { winner: Color::White, cause: ForfeitCause::Resign }, .. }
    ));
}

#[test]
fn illegal_move_forfeits_under_bot_policy() {
    let mut arbiter = Arbiter::new();
    start(&mut arbiter, "freestyle", FailurePolicy::bot());
    let events = submit(&mut arbiter, BLACK_ID, place(99, 99)).unwrap();
    assert!(matches!(
        events[0],
        Event::MatchFinished {
            termination: Termination::Forfeit { winner: Color::White, cause: ForfeitCause::IllegalMove },
            ..
        }
    ));
}

#[test]
fn illegal_move_retries_under_human_policy() {
    let mut arbiter = Arbiter::new();
    start(&mut arbiter, "freestyle", FailurePolicy::human());
    let events = submit(&mut arbiter, BLACK_ID, place(99, 99)).unwrap();
    assert!(matches!(events[0], Event::PlayerError { code: PlayerErrorCode::IllegalMove, retryable: true, .. }));
    assert!(matches!(events[1], Event::MoveRequested { color: Color::Black, .. }));
    let ok = submit(&mut arbiter, BLACK_ID, place(7, 7)).unwrap();
    assert!(matches!(ok[0], Event::MoveApplied { .. }));
}

#[test]
fn abort_yields_user_abort() {
    let mut arbiter = Arbiter::new();
    start(&mut arbiter, "freestyle", FailurePolicy::bot());
    let events = arbiter.handle(Command::AbortMatch).unwrap();
    assert!(matches!(
        events[0],
        Event::MatchFinished { termination: Termination::Aborted { cause: AbortCause::UserAbort, .. }, .. }
    ));
}

#[test]
fn rewind_rebuilds_earlier_position_and_requests_mover() {
    let mut arbiter = Arbiter::new();
    start(&mut arbiter, "freestyle", FailurePolicy::bot());
    submit(&mut arbiter, BLACK_ID, place(7, 7)).unwrap();
    submit(&mut arbiter, WHITE_ID, place(8, 8)).unwrap();
    let events = arbiter.handle(Command::Rewind { to_ply: 1 }).unwrap();
    match &events[0] {
        Event::MatchRewound { new_state } => {
            assert_eq!(new_state.move_history, vec![place(7, 7)]);
        },
        other => panic!("expected MatchRewound, got {other:?}"),
    }
    assert!(matches!(events[1], Event::MoveRequested { color: Color::White, .. }));
}

#[test]
fn rewind_past_history_is_rejected() {
    let mut arbiter = Arbiter::new();
    start(&mut arbiter, "freestyle", FailurePolicy::bot());
    submit(&mut arbiter, BLACK_ID, place(7, 7)).unwrap();
    let rejected = arbiter.handle(Command::Rewind { to_ply: 5 });
    assert_eq!(rejected.unwrap_err(), CommandRejected::InvalidRewindTarget);
}

#[test]
fn rewind_after_finish_resumes_play() {
    let mut arbiter = Arbiter::new();
    start(&mut arbiter, "freestyle", FailurePolicy::bot());
    let black = [place(7, 0), place(7, 1), place(7, 2), place(7, 3), place(7, 4)];
    let white = [place(0, 0), place(0, 1), place(0, 2), place(0, 3)];
    for (b, w) in black.iter().take(4).zip(white.iter()) {
        submit(&mut arbiter, BLACK_ID, *b).unwrap();
        submit(&mut arbiter, WHITE_ID, *w).unwrap();
    }
    submit(&mut arbiter, BLACK_ID, black[4]).unwrap();
    let rewound = arbiter.handle(Command::Rewind { to_ply: 0 }).unwrap();
    assert!(matches!(rewound[0], Event::MatchRewound { .. }));
    assert!(matches!(rewound[1], Event::MoveRequested { color: Color::Black, .. }));
    let resumed = submit(&mut arbiter, BLACK_ID, place(3, 3)).unwrap();
    assert!(matches!(resumed[0], Event::MoveApplied { .. }));
}

#[test]
fn opening_stones_placed_then_requests_next_mover() {
    let mut arbiter = Arbiter::new();
    let events = arbiter
        .handle(Command::StartMatch {
            rule_set_id: "freestyle".to_string(),
            board_size: 15,
            opening: vec![Position::new(7, 7), Position::new(7, 8), Position::new(8, 8)],
            black: seat(BLACK_ID, "b", FailurePolicy::bot()),
            white: seat(WHITE_ID, "w", FailurePolicy::bot()),
        })
        .unwrap();
    assert!(matches!(events[0], Event::MatchStarted { .. }));
    assert!(matches!(events[1], Event::MoveApplied { color: Color::Black, .. }));
    assert!(matches!(events[2], Event::MoveApplied { color: Color::White, .. }));
    assert!(matches!(events[3], Event::MoveApplied { color: Color::Black, .. }));
    assert!(matches!(events[4], Event::MoveRequested { color: Color::White, .. }));
}

#[test]
fn overlapping_opening_is_rejected() {
    let mut arbiter = Arbiter::new();
    let rejected = arbiter.handle(Command::StartMatch {
        rule_set_id: "freestyle".to_string(),
        board_size: 15,
        opening: vec![Position::new(7, 7), Position::new(7, 7)],
        black: seat(BLACK_ID, "b", FailurePolicy::bot()),
        white: seat(WHITE_ID, "w", FailurePolicy::bot()),
    });
    assert_eq!(rejected.unwrap_err(), CommandRejected::InvalidOpening);
}

#[test]
fn arbiter_rewind_undoes_a_move() {
    let mut arbiter = Arbiter::new();
    start(&mut arbiter, "freestyle", FailurePolicy::bot());
    submit(&mut arbiter, BLACK_ID, place(7, 7)).unwrap();
    let before = arbiter.handle(Command::Rewind { to_ply: 1 }).unwrap();
    submit(&mut arbiter, WHITE_ID, place(8, 8)).unwrap();
    let after = arbiter.handle(Command::Rewind { to_ply: 1 }).unwrap();
    match (&before[0], &after[0]) {
        (Event::MatchRewound { new_state: a }, Event::MatchRewound { new_state: b }) => assert_eq!(a, b),
        other => panic!("expected two rewinds, got {other:?}"),
    }
}

#[test]
fn arbiter_lost_player_follows_policy() {
    let mut arbiter = Arbiter::new();
    start(&mut arbiter, "freestyle", FailurePolicy::human());
    let events = arbiter.handle(Command::PlayerLost { participant_id: WHITE_ID, kind: PlayerLostKind::Crash }).unwrap();
    assert!(matches!(
        events[0],
        Event::MatchFinished {
            termination: Termination::Aborted { cause: AbortCause::Crash, faulted_color: Some(Color::White) },
            ..
        }
    ));
    let late = arbiter.handle(Command::PlayerLost { participant_id: BLACK_ID, kind: PlayerLostKind::Timeout }).unwrap();
    assert!(late.is_empty());
    assert_eq!(arbiter.handle(Command::AbortMatch).unwrap_err(), CommandRejected::MatchNotActive);

    let mut bot = Arbiter::new();
    start(&mut bot, "standard", FailurePolicy::bot());
    let events = bot.handle(Command::PlayerLost { participant_id: BLACK_ID, kind: PlayerLostKind::Timeout }).unwrap();
    assert!(matches!(
        events[0],
        Event::MatchFinished {
            termination: Termination::Forfeit { winner: Color::White, cause: ForfeitCause::Timeout },
            ..
        }
    ));
}

#[test]
fn arbiter_refusals_before_start_and_for_strangers() {
    let mut arbiter = Arbiter::new();
    assert_eq!(submit(&mut arbiter, BLACK_ID, place(1, 1)).unwrap_err(), CommandRejected::NoActiveMatch);
    assert_eq!(arbiter.handle(Command::Rewind { to_ply: 0 }).unwrap_err(), CommandRejected::NoActiveMatch);
    assert_eq!(arbiter.rule_set_id(), None);
    start(&mut arbiter, "caro", FailurePolicy::bot());
    assert_eq!(arbiter.rule_set_id(), Some("caro"));
    assert_eq!(submit(&mut arbiter, 99, place(1, 1)).unwrap_err(), CommandRejected::UnknownParticipant);
    assert_eq!(
        arbiter.handle(Command::Resign { participant_id: 99 }).unwrap_err(),
        CommandRejected::UnknownParticipant
    );
    let occupied = {
        submit(&mut arbiter, BLACK_ID, place(1, 1)).unwrap();
        submit(&mut arbiter, WHITE_ID, place(1, 1)).unwrap()
    };
    assert!(matches!(
        occupied[0],
        Event::MatchFinished {
            termination: Termination::Forfeit { winner: Color::Black, cause: ForfeitCause::IllegalMove },
            ..
        }
    ));
}

#[test]
fn arbiter_offboard_opening_is_rejected() {
    let mut arbiter = Arbiter::new();
    let rejected = arbiter.handle(Command::StartMatch {
        rule_set_id: "freestyle".to_string(),
        board_size: 15,
        opening: vec![Position::new(7, 7), Position::new(15, 0)],
        black: seat(BLACK_ID, "b", FailurePolicy::bot()),
        white: seat(WHITE_ID, "w", FailurePolicy::bot()),
    });
    assert_eq!(rejected.unwrap_err(), CommandRejected::InvalidOpening);
    assert_eq!(arbiter.rule_set_id(), None);
}

#[test]
fn renju_black_double_three_forfeits() {
    let mut arbiter = Arbiter::new();
    start(&mut arbiter, "renju", FailurePolicy::bot());
    let setup_black = [place(7, 6), place(7, 8), place(6, 7)];
    let setup_white = [place(0, 0), place(0, 1), place(0, 2)];
    for (b, w) in setup_black.iter().zip(setup_white.iter()) {
        submit(&mut arbiter, BLACK_ID, *b).unwrap();
        submit(&mut arbiter, WHITE_ID, *w).unwrap();
    }
    submit(&mut arbiter, BLACK_ID, place(8, 7)).unwrap();
    submit(&mut arbiter, WHITE_ID, place(0, 3)).unwrap();
    let events = submit(&mut arbiter, BLACK_ID, place(7, 7)).unwrap();
    assert!(
        matches!(
            events[0],
            Event::MatchFinished {
                termination: Termination::Forfeit { winner: Color::White, cause: ForfeitCause::IllegalMove },
                ..
            }
        ),
        "double-three should be an illegal move for black: {events:?}"
    );
}

fn play_out(rule_set_id: &str, seed_black: u64, seed_white: u64) -> Vec<Event> {
    let mut arbiter = Arbiter::new();
    let mut log = start(&mut arbiter, rule_set_id, FailurePolicy::bot());
    let mut black = RandomBot::from_seed(seed_black);
    let mut white = RandomBot::from_seed(seed_white);
    loop {
        let request = match log.last() {
            Some(Event::MoveRequested { color, context }) => Some((*color, context.clone())),
            _ => None,
        };
        let Some((color, context)) = request else { break };
        let (pid, mv) = match color {
            Color::Black => (BLACK_ID, black.next_move(&context, &StopFlag::new())),
            Color::White => (WHITE_ID, white.next_move(&context, &StopFlag::new())),
        };
        assert!(context.legal_moves.contains(&mv));
        log.extend(submit(&mut arbiter, pid, mv).unwrap());
        assert!(log.len() < 1000);
    }
    log
}

#[test]
fn arbiter_random_bots_play_out_every_rule_set() {
    for (k, id) in ["freestyle", "standard", "renju", "caro"].iter().enumerate() {
        let log = play_out(id, 11 + k as u64, 29 + k as u64);
        let Some(Event::MatchFinished { termination, final_state }) = log.last() else {
            panic!("expected MatchFinished under {id}: {:?}", log.last());
        };
        assert!(matches!(termination, Termination::Completed { .. }), "{termination:?}");
        let applied = log.iter().filter(|e| matches!(e, Event::MoveApplied { .. })).count();
        assert_eq!(applied, final_state.move_history.len());
        for mv in &final_state.move_history {
            assert!(matches!(final_state.board.get(mv.position()), Some(Cell::Stone(_))));
        }
    }
}
