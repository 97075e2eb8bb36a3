use quintara::bot::protocol::{
    board_block, decode_answer, decode_command, encode_reply, error_reply, info_rule_line, info_time_line,
    is_block_start, is_done, start_line, BrainAnswer, ProtocolError,
};
use quintara::bot::serve::{millis_opt, Brain, BrainCommand, BrainReply, Field};
use quintara::model::{Board, Cell, Color, Position, RuleSet};
use quintara::random::RandomBot;

#[test]
fn commands_decode() {
    assert_eq!(decode_command("START 15"), Ok(BrainCommand::Start(15)));
    assert_eq!(decode_command("  start 20 \r"), Ok(BrainCommand::Start(20)));
    assert_eq!(decode_command("RECTSTART 20,15"), Ok(BrainCommand::RectStart { width: 20, height: 15 }));
    assert_eq!(decode_command("INFO timeout_turn 500"), Ok(BrainCommand::InfoTimeoutTurn(500)));
    assert_eq!(decode_command("INFO time_left -1"), Ok(BrainCommand::InfoTimeLeft(-1)));
    assert_eq!(decode_command("INFO rule 4"), Ok(BrainCommand::InfoRule(4)));
    assert_eq!(decode_command("INFO folder /tmp"), Ok(BrainCommand::InfoOther));
    assert_eq!(decode_command("TURN 7,8"), Ok(BrainCommand::Turn(Position::new(8, 7))));
    assert_eq!(decode_command("BEGIN"), Ok(BrainCommand::Begin));
    assert_eq!(decode_command("END"), Ok(BrainCommand::End));
    assert_eq!(
        decode_command("BOARD\n7,7,1\n\n8,8,2\n0,0,3\nDONE"),
        Ok(BrainCommand::Board(vec![
            (Position::new(7, 7), Field::Own),
            (Position::new(8, 8), Field::Opp),
            (Position::new(0, 0), Field::Winning)
        ]))
    );
}

#[test]
fn bad_commands_are_refused() {
    assert_eq!(decode_command("FOO 1"), Err(ProtocolError::Unknown("FOO".to_string())));
    assert_eq!(decode_command("TURN x"), Err(ProtocolError::Malformed("TURN".to_string())));
    assert_eq!(decode_command("BOARD\n7,7\nDONE"), Err(ProtocolError::Malformed("BOARD".to_string())));
    assert_eq!(decode_command("start"), Err(ProtocolError::Malformed("start".to_string())));
    assert_eq!(error_reply(&ProtocolError::Unknown("FOO".to_string())), "UNKNOWN FOO");
    assert_eq!(error_reply(&ProtocolError::Malformed("TURN".to_string())), "ERROR bad TURN");
}

#[test]
fn replies_encode_and_decode() {
    assert_eq!(encode_reply(&BrainReply::Ack).as_deref(), Some("OK"));
    assert_eq!(encode_reply(&BrainReply::Coord(Position::new(8, 7))).as_deref(), Some("7,8"));
    assert_eq!(encode_reply(&BrainReply::Unknown("not implemented".to_string())).as_deref(), Some("UNKNOWN not implemented"));
    assert_eq!(encode_reply(&BrainReply::Silent), None);
    assert_eq!(decode_answer("7,8"), BrainAnswer::Coord(Position::new(8, 7)));
    assert_eq!(decode_answer("MESSAGE depth 4"), BrainAnswer::Message("depth 4".to_string()));
    assert_eq!(decode_answer("ok"), BrainAnswer::Ack);
    assert_eq!(decode_answer("SUGGEST 1,2"), BrainAnswer::Suggest(Position::new(2, 1)));
    assert_eq!(decode_answer("ERROR nope"), BrainAnswer::Error("nope".to_string()));
    assert_eq!(decode_answer(" name=\"x\" "), BrainAnswer::Other("name=\"x\"".to_string()));
    assert!(is_block_start("board"));
    assert!(is_block_start("SWAP2BOARD"));
    assert!(!is_block_start("TURN 1,1"));
    assert!(is_done(" done "));
}

#[test]
fn manager_lines() {
    assert_eq!(start_line(15), "START 15");
    assert_eq!(info_rule_line(4), "INFO rule 4");
    assert_eq!(info_time_line("timeout_turn", 5000), "INFO timeout_turn 5000");
    assert_eq!(info_time_line("time_left", -3), "INFO time_left -3");
    let mut board = Board::rect(3, 2);
    board.set(Position::new(0, 1), Cell::Stone(Color::Black));
    board.set(Position::new(1, 2), Cell::Stone(Color::White));
    assert_eq!(board_block(&board, Color::White), "BOARD\n1,0,2\n2,1,1\nDONE");
}

#[test]
fn brain_plays_the_protocol() {
    let mut brain = Brain::new(RandomBot::from_seed(3), "random");
    assert_eq!(brain.handle(BrainCommand::Start(15)), BrainReply::Ack);
    assert_eq!(brain.handle(BrainCommand::InfoRule(1)), BrainReply::Silent);
    assert_eq!(brain.rules, RuleSet::standard());
    assert_eq!(brain.handle(BrainCommand::InfoTimeoutTurn(0)), BrainReply::Silent);
    assert!(brain.timeout_turn.is_none());
    assert_eq!(brain.handle(BrainCommand::Begin), BrainReply::Coord(Position::new(7, 7)));
    assert_eq!(brain.my_color, Some(Color::Black));
    match brain.handle(BrainCommand::Turn(Position::new(8, 8))) {
        BrainReply::Coord(p) => {
            assert!(p.row.abs_diff(8) <= 2 || p.row.abs_diff(7) <= 2);
            assert!(brain.board.stone_at(p) == Some(Color::Black));
        },
        other => panic!("expected a move, got {other:?}"),
    }
    assert_eq!(brain.board.stone_at(Position::new(8, 8)), Some(Color::White));
    assert_eq!(
        brain.handle(BrainCommand::About),
        BrainReply::About("name=\"random\", version=\"0.0.1\"".to_string())
    );
    assert_eq!(brain.handle(BrainCommand::Start(40)), BrainReply::Ack);
    assert_eq!(brain.board.width(), 40);
    assert_eq!(brain.handle(BrainCommand::Play(Position::new(1, 1))), BrainReply::Unknown("not implemented".to_string()));
    assert_eq!(brain.handle(BrainCommand::End), BrainReply::Quit);
    assert!(millis_opt(-5).is_none());
}

#[test]
fn brain_takes_a_board_block() {
    let mut brain = Brain::new(RandomBot::from_seed(3), "random");
    brain.handle(BrainCommand::Start(15));
    let reply = brain.handle(BrainCommand::Board(vec![
        (Position::new(7, 7), Field::Own),
        (Position::new(7, 8), Field::Opp),
        (Position::new(0, 0), Field::Winning),
    ]));
    assert_eq!(brain.my_color, Some(Color::Black));
    assert!(matches!(reply, BrainReply::Coord(_)));
    assert_eq!(brain.board.stone_at(Position::new(7, 7)), Some(Color::Black));
    assert_eq!(brain.board.stone_at(Position::new(7, 8)), Some(Color::White));
    assert_eq!(brain.board.stone_at(Position::new(0, 0)), None);
}

#[test]
fn brain_hands_the_bot_its_side_and_board() {
    let mut brain = Brain::new(RandomBot::from_seed(3), "random");
    brain.handle(BrainCommand::Start(15));
    brain.handle(BrainCommand::Turn(Position::new(7, 7)));
    let legal = vec![quintara::model::Move::Place(Position::new(0, 0))];
    let ctx = brain.turn_context(legal.clone());
    assert_eq!(ctx.side_to_move, brain.side);
    assert_eq!(ctx.board.stone_at(Position::new(7, 7)), brain.board.stone_at(Position::new(7, 7)));
    assert_eq!(ctx.legal_moves, legal);
    assert!(ctx.move_history.is_empty());
}

#[test]
fn brain_plays_on_a_large_board() {
    let mut brain = Brain::new(RandomBot::from_seed(5), "random");
    assert_eq!(brain.handle(BrainCommand::Start(40)), BrainReply::Ack);
    match brain.handle(BrainCommand::Begin) {
        BrainReply::Coord(p) => assert_eq!(brain.board.stone_at(p), Some(Color::Black)),
        other => panic!("expected a move, got {other:?}"),
    }
}
