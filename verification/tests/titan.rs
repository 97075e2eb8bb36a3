use std::time::{Duration, Instant};

use quintara::bot::{MoveSource, StopFlag};
use quintara::model::{Board, Cell, Color, Move, Position, RuleSet, TurnContext};
use quintara::rules::is_win_for;
use quintara::titan::bitboard::Bits;
use quintara::titan::engine::{budget_nanos, DEFAULT_BUDGET_MS, UNBOUNDED_BUDGET_MS};
use quintara::titan::search::search_best;
use quintara::titan::vcf::vcf_win_move;
use quintara::titan::TitanBot;

fn place(board: &mut Board, r: u8, c: u8, color: Color) {
    board.set(Position::new(r, c), Cell::Stone(color));
}

fn cross_check(black: &[(u8, u8)], white: &[(u8, u8)]) {
    let size = 15u8;
    let mut model = Board::square(size);
    for &(r, c) in black {
        place(&mut model, r, c, Color::Black);
    }
    for &(r, c) in white {
        place(&mut model, r, c, Color::White);
    }
    let bits = Bits::from_board(&model);

    for rule in [RuleSet::freestyle(), RuleSet::standard(), RuleSet::caro()] {
        for r in 0..size {
            for c in 0..size {
                let pos = Position::new(r, c);
                if model.stone_at(pos).is_some() {
                    continue;
                }
                for color in [Color::Black, Color::White] {
                    let mut m = model.clone();
                    place(&mut m, r, c, color);
                    let want = is_win_for(&m, pos, rule, color);
                    let b = bits.clone();
                    let got = b.would_win(color, pos, rule);
                    assert_eq!(got, want, "rule={rule:?} color={color:?} at {pos:?}: bits={got} rules={want}");
                }
            }
        }
    }
}

#[test]
fn matches_rules_on_horizontal_and_vertical() {
    cross_check(&[(7, 5), (7, 6), (7, 7), (7, 8)], &[(0, 0), (8, 8)]);
    cross_check(&[(3, 7), (4, 7), (5, 7), (6, 7)], &[(3, 6), (8, 7)]);
}

#[test]
fn matches_rules_on_diagonals() {
    cross_check(&[(5, 5), (6, 6), (7, 7), (8, 8)], &[(4, 4), (0, 0)]);
    cross_check(&[(8, 4), (7, 5), (6, 6), (5, 7)], &[(9, 3), (4, 8)]);
}

#[test]
fn matches_rules_with_overline_and_blocks() {
    cross_check(&[(7, 4), (7, 5), (7, 6), (7, 7), (7, 9)], &[(7, 3), (7, 10)]);
    cross_check(&[(0, 0), (0, 1), (0, 2), (0, 3)], &[(0, 4)]);
    cross_check(&[(14, 11), (14, 12), (14, 13)], &[(14, 10)]);
}

#[test]
fn incremental_score_is_consistent() {
    let mut b = Bits::from_board(&Board::square(15));
    assert_eq!(b.position_score(Color::Black), 0);
    let moves = [(7, 7, Color::Black), (7, 8, Color::Black), (8, 8, Color::White), (7, 9, Color::Black)];
    for &(r, c, col) in &moves {
        b.toggle(col, r, c);
    }
    let (sb, sw) = (b.position_score(Color::Black), b.position_score(Color::White));
    for &(r, c, col) in moves.iter().rev() {
        b.toggle(col, r, c);
    }
    assert_eq!(b.position_score(Color::Black), 0);
    assert_eq!(b.position_score(Color::White), 0);

    let mut b2 = Bits::from_board(&Board::square(15));
    for &(r, c, col) in &[(8, 8, Color::White), (7, 9, Color::Black), (7, 7, Color::Black), (7, 8, Color::Black)] {
        b2.toggle(col, r, c);
    }
    assert_eq!(b2.position_score(Color::Black), sb);
    assert_eq!(b2.position_score(Color::White), sw);
}

#[test]
fn relevance_tracks_neighbors() {
    let mut b = Bits::from_board(&Board::square(15));
    b.toggle(Color::Black, 7, 7);
    assert!(b.is_relevant(Position::new(7, 9)), "within 2 -> relevant");
    assert!(b.is_relevant(Position::new(5, 5)), "diagonal 2 -> relevant");
    assert!(!b.is_relevant(Position::new(7, 10)), "distance 3 -> not");
    assert!(!b.is_relevant(Position::new(0, 0)), "far -> not");
    b.toggle(Color::Black, 7, 7);
    assert!(!b.is_relevant(Position::new(7, 9)));
    assert!(!b.is_relevant(Position::new(5, 5)));
}

#[test]
fn stone_at_round_trips() {
    let mut model = Board::square(15);
    place(&mut model, 7, 7, Color::Black);
    place(&mut model, 3, 9, Color::White);
    let bits = Bits::from_board(&model);
    assert_eq!(bits.stone_at(7, 7), Some(Color::Black));
    assert_eq!(bits.stone_at(3, 9), Some(Color::White));
    assert_eq!(bits.stone_at(0, 0), None);
}

fn bits_with(black: &[(u8, u8)], white: &[(u8, u8)]) -> Bits {
    let mut board = Board::square(15);
    for &(r, c) in black {
        board.set(Position::new(r, c), Cell::Stone(Color::Black));
    }
    for &(r, c) in white {
        board.set(Position::new(r, c), Cell::Stone(Color::White));
    }
    Bits::from_board(&board)
}

fn deadline() -> Instant {
    Instant::now() + Duration::from_millis(200)
}

#[test]
fn finds_open_four_win() {
    let mut bits = bits_with(&[(7, 7), (7, 8), (7, 9)], &[(0, 0)]);
    let mv = vcf_win_move(&mut bits, Color::Black, RuleSet::freestyle(), &StopFlag::new(), deadline());
    assert!(
        mv == Some(Position::new(7, 6)) || mv == Some(Position::new(7, 10)),
        "should find the open-four win, got {mv:?}"
    );
}

#[test]
fn returns_direct_open_four_not_a_detour() {
    let mut bits = bits_with(&[(7, 7), (8, 8), (6, 6), (9, 7), (7, 9)], &[(7, 8), (8, 7), (6, 7), (8, 9), (9, 9)]);
    let mv = vcf_win_move(&mut bits, Color::Black, RuleSet::freestyle(), &StopFlag::new(), deadline());
    assert!(
        mv == Some(Position::new(6, 10)) || mv == Some(Position::new(10, 6)),
        "should kill directly with the open four, got {mv:?}"
    );
}

#[test]
fn no_false_win_on_quiet_position() {
    let mut bits = bits_with(&[(7, 7), (7, 8)], &[(0, 0), (1, 1)]);
    let mv = vcf_win_move(&mut bits, Color::Black, RuleSet::freestyle(), &StopFlag::new(), deadline());
    assert_eq!(mv, None);
}

fn ctx(board: Board, side: Color) -> TurnContext {
    let legal = board.empty_positions().into_iter().map(Move::Place).collect();
    TurnContext {
        board,
        side_to_move: side,
        move_history: Vec::new(),
        legal_moves: legal,
        rule_set: RuleSet::freestyle(),
        timeout_turn: Some(Duration::from_millis(50)),
        time_left: None,
    }
}

fn board_with(black: &[(u8, u8)], white: &[(u8, u8)]) -> Board {
    let mut board = Board::square(15);
    for &(r, c) in black {
        board.set(Position::new(r, c), Cell::Stone(Color::Black));
    }
    for &(r, c) in white {
        board.set(Position::new(r, c), Cell::Stone(Color::White));
    }
    board
}

#[test]
fn titan_takes_the_immediate_win() {
    let board = board_with(&[(7, 7), (7, 8), (7, 9), (7, 10)], &[(0, 0), (0, 1)]);
    let mv = TitanBot::new().next_move(&ctx(board, Color::Black), &StopFlag::new()).position();
    assert!(mv == Position::new(7, 6) || mv == Position::new(7, 11), "should complete five, played {mv:?}");
}

#[test]
fn titan_blocks_opponent_immediate_win() {
    let board = board_with(&[(0, 0), (0, 1)], &[(7, 7), (7, 8), (7, 9), (7, 10)]);
    let mv = TitanBot::new().next_move(&ctx(board, Color::Black), &StopFlag::new()).position();
    assert!(mv == Position::new(7, 6) || mv == Position::new(7, 11), "should block the four, played {mv:?}");
}

#[test]
fn budget_respects_protocol_timeout_turn() {
    let mut c = ctx(Board::square(15), Color::Black);
    c.timeout_turn = Some(Duration::from_secs(2));
    assert_eq!(TitanBot::new().budget(&c), Duration::from_secs(2));
    assert_eq!(TitanBot::new().with_budget(Duration::from_millis(300)).budget(&c), Duration::from_millis(300));
    assert_eq!(TitanBot::new().with_budget(Duration::from_secs(5)).budget(&c), Duration::from_secs(2));
    c.timeout_turn = None;
    assert_eq!(TitanBot::new().with_max_depth(8).budget(&c), Duration::from_millis(UNBOUNDED_BUDGET_MS));
    assert_eq!(TitanBot::new().budget(&c), Duration::from_millis(DEFAULT_BUDGET_MS));
}

#[test]
fn search_best_keeps_only_the_five_making_roots() {
    let mut bits = bits_with(&[(7, 7), (7, 8), (7, 9), (7, 10)], &[(0, 0), (0, 1)]);
    let roots = [Position::new(7, 6), Position::new(3, 3), Position::new(7, 11), Position::new(10, 10)];
    let far = Instant::now() + Duration::from_secs(5);
    let best = search_best(&mut bits, Color::Black, RuleSet::freestyle(), &roots, 4, &StopFlag::new(), far);
    assert!(!best.is_empty());
    assert!(best.iter().all(|p| *p == Position::new(7, 6) || *p == Position::new(7, 11)), "got {best:?}");
}

#[test]
fn titan_opens_in_the_centre() {
    let mv = TitanBot::new().next_move(&ctx(Board::square(15), Color::Black), &StopFlag::new()).position();
    assert_eq!(mv, Position::new(7, 7));
}

#[test]
fn titan_budget_quarters_the_time_left_exactly() {
    let mut c = ctx(Board::square(15), Color::Black);
    c.timeout_turn = Some(Duration::from_secs(2));
    c.time_left = Some(Duration::from_millis(1001));
    assert_eq!(TitanBot::new().budget(&c), Duration::from_micros(250_250));
}

#[test]
fn titan_budget_nanos_follows_the_caps() {
    assert_eq!(budget_nanos(Some(300), Some(200), false, None), 200);
    assert_eq!(budget_nanos(None, None, false, None), 1_000_000_000);
    assert_eq!(budget_nanos(None, None, true, Some(400)), 100);
}

#[test]
fn toggle_order_does_not_matter() {
    let mut a = bits_with(&[(7, 7)], &[(8, 8)]);
    let mut b = bits_with(&[(7, 7)], &[(8, 8)]);
    a.toggle(Color::Black, 3, 4);
    a.toggle(Color::White, 5, 6);
    b.toggle(Color::White, 5, 6);
    b.toggle(Color::Black, 3, 4);
    assert_eq!(a.hash(), b.hash());
    assert_eq!(a.position_score(Color::Black), b.position_score(Color::Black));
    assert_eq!(a.position_score(Color::White), b.position_score(Color::White));
}

#[test]
fn titan_plays_a_legal_move_on_a_board_wider_than_32() {
    let mut board = Board::square(40);
    board.set(Position::new(20, 20), Cell::Stone(Color::Black));
    let c = ctx(board, Color::White);
    let mv = TitanBot::new().next_move(&c, &StopFlag::new());
    assert!(c.legal_moves.contains(&mv));
}
