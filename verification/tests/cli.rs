use std::time::Duration;

use quintara::arbiter::Event;
use quintara::cli::{board_cells, cursor_step, result_text, titan_options, undo_target, Glyph, TitanOptions, ViewCell};
use quintara::cli::{
    board_at, cell_at, final_termination, fmt_dur, move_at, outcome_text, parse_about_name, parse_opening,
    review_step, slot, star_points, winner_color,
};
use quintara::game::initial_state;
use quintara::model::{
    AbortCause, Board, Cell, Color, ForfeitCause, GameResult, Move, Position, RuleSet, Termination, Win,
};

fn pos(row: u8, col: u8) -> Position {
    Position::new(row, col)
}

#[test]
fn fmt_dur_switches_units() {
    assert_eq!(fmt_dur(Duration::from_millis(2300)), "2.3s");
    assert_eq!(fmt_dur(Duration::from_secs(75)), "1:15");
}

#[test]
fn fmt_dur_pads_seconds_and_truncates_tenths() {
    assert_eq!(fmt_dur(Duration::from_secs(60)), "1:00");
    assert_eq!(fmt_dur(Duration::from_secs(3605)), "60:05");
    assert_eq!(fmt_dur(Duration::from_millis(999)), "0.9s");
    assert_eq!(fmt_dur(Duration::from_millis(0)), "0.0s");
}

#[test]
fn cell_at_maps_clicks_to_cells() {
    assert_eq!(cell_at(0, 0, 15, 15, 5, 2), Some(pos(0, 0)));
    assert_eq!(cell_at(0, 0, 15, 15, 7, 2), Some(pos(0, 0)));
    assert_eq!(cell_at(0, 0, 15, 15, 8, 2), Some(pos(0, 1)));
    assert_eq!(cell_at(0, 0, 15, 15, 5, 16), Some(pos(14, 0)));
}

#[test]
fn cell_at_rejects_borders_and_outside() {
    assert_eq!(cell_at(0, 0, 15, 15, 5, 1), None);
    assert_eq!(cell_at(0, 0, 15, 15, 4, 2), None);
    assert_eq!(cell_at(0, 0, 15, 15, 0, 0), None);
    assert_eq!(cell_at(0, 0, 15, 15, 5, 17), None);
    assert_eq!(cell_at(0, 0, 15, 15, 50, 2), None);
    assert_eq!(cell_at(u16::MAX, 0, 15, 15, 5, 2), None);
}

fn sample_history() -> Vec<Move> {
    vec![Move::Place(pos(7, 7)), Move::Place(pos(7, 8)), Move::Place(pos(8, 8))]
}

#[test]
fn board_at_reconstructs_position() {
    let history = sample_history();
    assert!(board_at(15, 15, &history, 0).stone_at(pos(7, 7)).is_none());
    let b2 = board_at(15, 15, &history, 2);
    assert_eq!(b2.stone_at(pos(7, 7)), Some(Color::Black));
    assert_eq!(b2.stone_at(pos(7, 8)), Some(Color::White));
    assert!(b2.stone_at(pos(8, 8)).is_none());
    assert_eq!(board_at(15, 15, &history, 3).stone_at(pos(8, 8)), Some(Color::Black));
    assert_eq!(move_at(&history, 2), Some(pos(7, 8)));
    assert_eq!(move_at(&history, 0), None);
    assert_eq!(move_at(&history, 4), None);
}

#[test]
fn review_step_clamps_both_ends() {
    let mut ply = 3;
    ply = review_step(ply, 3, true);
    assert_eq!(ply, 3);
    for _ in 0..4 {
        ply = review_step(ply, 3, false);
    }
    assert_eq!(ply, 0);
    assert_eq!(review_step(1, 3, true), 2);
}

#[test]
fn slots_and_star_points() {
    assert_eq!(slot(Color::Black), 0);
    assert_eq!(slot(Color::White), 1);
    assert!(star_points(8).is_empty());
    assert_eq!(star_points(9), vec![(2, 2), (2, 6), (6, 2), (6, 6), (4, 4)]);
    assert_eq!(star_points(15), vec![(3, 3), (3, 11), (11, 3), (11, 11), (7, 7)]);
    assert_eq!(star_points(20), vec![(3, 3), (3, 16), (16, 3), (16, 16)]);
    assert_eq!(
        star_points(19),
        vec![(3, 3), (3, 15), (15, 3), (15, 15), (9, 9), (3, 9), (15, 9), (9, 3), (9, 15)]
    );
}

#[test]
fn outcome_texts_name_the_winner() {
    let stones = ("X", "O");
    let t = Termination::Completed { result: GameResult::Win(Win::WhiteWin) };
    assert_eq!(outcome_text(t, stones, "titan", "sage"), "sage (O) wins");
    let t = Termination::Completed { result: GameResult::Draw };
    assert_eq!(outcome_text(t, stones, "a", "b"), "Draw");
    let t = Termination::Forfeit { winner: Color::Black, cause: ForfeitCause::IllegalMove };
    assert_eq!(outcome_text(t, stones, "a", "b"), "a (X) wins by forfeit (IllegalMove)");
    let t = Termination::Aborted { cause: AbortCause::UserAbort, faulted_color: None };
    assert_eq!(outcome_text(t, stones, "a", "b"), "aborted (UserAbort)");
}

#[test]
fn final_result_of_events() {
    let state = initial_state(RuleSet::freestyle(), 15);
    let finished = |t: Termination| Event::MatchFinished { termination: t, final_state: state.clone() };
    let events = vec![
        Event::MatchRewound { new_state: state.clone() },
        finished(Termination::Forfeit { winner: Color::White, cause: ForfeitCause::Resign }),
    ];
    assert_eq!(
        final_termination(&events),
        Some(Termination::Forfeit { winner: Color::White, cause: ForfeitCause::Resign })
    );
    assert_eq!(winner_color(&events), Some(Color::White));
    let draw = vec![finished(Termination::Completed { result: GameResult::Draw })];
    assert_eq!(winner_color(&draw), None);
    assert_eq!(final_termination(&Vec::new()), None);
}

#[test]
fn about_names_quoted_and_bare() {
    assert_eq!(parse_about_name("name=\"Rapfi\", version=\"1.0\"").as_deref(), Some("Rapfi"));
    assert_eq!(parse_about_name("name=Embryo, author=x").as_deref(), Some("Embryo"));
    assert_eq!(parse_about_name("author=x").as_deref(), None);
    assert_eq!(parse_about_name("name=\"  \"").as_deref(), None);
    assert_eq!(parse_about_name("version=1 name=  Foo Bar").as_deref(), Some("Foo"));
}

#[test]
fn openings_parse_or_say_why() {
    assert_eq!(parse_opening(" None ", 15), Ok(Vec::new()));
    assert_eq!(parse_opening("auto:3", 15), Ok(vec![pos(7, 7), pos(7, 8), pos(8, 7)]));
    assert_eq!(parse_opening("H8,I9", 15), Ok(vec![pos(7, 7), pos(6, 8)]));
    assert_eq!(parse_opening("auto:x", 15), Err("bad opening count: \"x\"".to_string()));
    assert_eq!(parse_opening("H8,Z99", 15), Err("bad opening coordinate: \"Z99\"".to_string()));
    assert_eq!(parse_opening("", 15), Err("bad opening coordinate: \"\"".to_string()));
}

#[test]
fn titan_options_parse_in_order() {
    let opts = |v: &[&str]| v.iter().map(|s| s.to_string()).collect::<Vec<String>>();
    assert_eq!(
        titan_options(&opts(&["time=300", "depth=8", "time=50"])),
        Ok(TitanOptions { time_ms: Some(50), depth: Some(8) })
    );
    assert_eq!(titan_options(&opts(&["depth=-2"])), Ok(TitanOptions { time_ms: None, depth: Some(-2) }));
    assert_eq!(
        titan_options(&opts(&["bogus", "time=x"])),
        Err("titan: bad option \"bogus\" (expected key=value)".to_string())
    );
    assert_eq!(titan_options(&opts(&["time=x"])), Err("titan: bad time \"x\"".to_string()));
    assert_eq!(titan_options(&opts(&["depth=9999999999"])), Err("titan: bad depth \"9999999999\"".to_string()));
    assert_eq!(
        titan_options(&opts(&["speed=1"])),
        Err("titan: unknown option \"speed\" (try time|depth)".to_string())
    );
    assert_eq!(titan_options(&Vec::new()), Ok(TitanOptions { time_ms: None, depth: None }));
}

#[test]
fn undo_goes_back_two_plies() {
    assert_eq!(undo_target(0), None);
    assert_eq!(undo_target(1), None);
    assert_eq!(undo_target(2), Some(0));
    assert_eq!(undo_target(7), Some(5));
}

#[test]
fn cursor_stays_on_the_board() {
    let p = Position::new(0, 14);
    assert_eq!(cursor_step(p, -1, 0, 15, 15), Position::new(0, 14));
    assert_eq!(cursor_step(p, 0, 1, 15, 15), Position::new(0, 14));
    assert_eq!(cursor_step(p, 1, -1, 15, 15), Position::new(1, 13));
    assert_eq!(cursor_step(Position::new(3, 3), 5, 0, 6, 4), Position::new(3, 3));
}

#[test]
fn result_lines_name_the_outcome() {
    let black_wins = Termination::Completed { result: GameResult::Win(Win::BlackWin) };
    assert_eq!(result_text(Some(black_wins), "X", "O"), "X wins");
    let draw = Termination::Completed { result: GameResult::Draw };
    assert_eq!(result_text(Some(draw), "X", "O"), "draw");
    let forfeit = Termination::Forfeit { winner: Color::White, cause: ForfeitCause::Timeout };
    assert_eq!(result_text(Some(forfeit), "●", "○"), "○ wins by forfeit (Timeout)");
    let aborted = Termination::Aborted { cause: AbortCause::UserAbort, faulted_color: None };
    assert_eq!(result_text(Some(aborted), "X", "O"), "aborted (UserAbort)");
    assert_eq!(result_text(None, "X", "O"), "finished");
}

#[test]
fn board_cells_marks_stones_stars_last_move_and_cursor() {
    let mut board = Board::square(15);
    board.set(Position::new(7, 7), Cell::Stone(Color::Black));
    board.set(Position::new(7, 8), Cell::Stone(Color::White));
    let g = board_cells(&board, Some(Position::new(7, 8)), Some(Position::new(0, 0)));
    assert_eq!(g.len(), 15);
    assert!(g.iter().all(|row| row.len() == 15));
    assert_eq!(g[7][7], ViewCell { glyph: Glyph::Black, last: false, cursor: false });
    assert_eq!(g[7][8], ViewCell { glyph: Glyph::White, last: true, cursor: false });
    assert_eq!(g[3][3].glyph, Glyph::Star);
    assert_eq!(g[0][0], ViewCell { glyph: Glyph::Empty, last: false, cursor: true });
}
