use std::time::{Duration, Instant};

use quintara::bot::{MoveSource, StopFlag};
use quintara::model::{Board, Cell, Color, Move, Position, RuleSet, TurnContext};
use quintara::onyx::grid::{Grid, Win, BLACK, WHITE};
use quintara::onyx::{search, vct, OnyxBot};
use quintara::sort::sort_desc;

fn board_with(black: &[(u8, u8)], white: &[(u8, u8)]) -> Board {
    let mut board = Board::square(15);
    for &(r, c) in black {
        board.set(Position::new(r, c), Cell::Stone(Color::Black));
    }
    for &(r, c) in white {
        board.set(Position::new(r, c), Cell::Stone(Color::White));
    }
    board
}

fn ctx(board: Board, side: Color) -> TurnContext {
    let legal = board.empty_positions().into_iter().map(Move::Place).collect();
    TurnContext {
        board,
        side_to_move: side,
        move_history: Vec::new(),
        legal_moves: legal,
        rule_set: RuleSet::freestyle(),
        timeout_turn: Some(Duration::from_millis(500)),
        time_left: None,
    }
}

#[test]
fn lib_takes_the_immediate_win() {
    let board = board_with(&[(7, 7), (7, 8), (7, 9), (7, 10)], &[(0, 0), (0, 1)]);
    let mv = OnyxBot::new()
        .next_move(&ctx(board.clone(), Color::Black), &StopFlag::new())
        .position();
    let grid = Grid::from_board(&board);
    assert!(
        grid.would_win(i32::from(mv.row), i32::from(mv.col), BLACK, Win::Overline),
        "should win immediately, played {mv:?}"
    );
}

#[test]
fn lib_blocks_opponent_immediate_win() {
    let board = board_with(&[(0, 0), (0, 1)], &[(7, 7), (7, 8), (7, 9), (7, 10)]);
    let mv = OnyxBot::new()
        .next_move(&ctx(board, Color::Black), &StopFlag::new())
        .position();
    assert!(
        mv == Position::new(7, 6) || mv == Position::new(7, 11),
        "should block the four, played {mv:?}"
    );
}

#[test]
fn finds_two_step_vcf() {
    let board = board_with(&[(7, 5), (7, 6), (7, 7), (5, 8), (6, 8)], &[(7, 4)]);
    let mut grid = Grid::from_board(&board);
    let deadline = Instant::now() + Duration::from_secs(5);
    let mv = search::vcf_win_move(&mut grid, BLACK, Win::Overline, &StopFlag::new(), deadline, u64::MAX);
    assert_eq!(mv, Some((7, 8)), "expected VCF to start with (7,8)");
}

#[test]
fn incremental_score_and_hash_match_full_recompute() {
    let blacks = [(7, 7), (7, 8), (8, 9), (5, 6), (9, 9), (6, 10)];
    let whites = [(7, 9), (8, 8), (6, 7), (9, 8), (5, 9)];

    let mut base = Grid::from_board(&board_with(&blacks, &whites));
    base.prepare_search();
    let base_eval = base.eval_for(BLACK);
    let base_hash = base.hash();

    let mut inc = Grid::from_board(&Board::square(15));
    inc.prepare_search();
    for &(r, c) in &blacks {
        inc.make(i32::from(r), i32::from(c), BLACK);
    }
    for &(r, c) in &whites {
        inc.make(i32::from(r), i32::from(c), WHITE);
    }
    assert_eq!(inc.eval_for(BLACK), base_eval, "incremental score drifted");
    assert_eq!(inc.hash(), base_hash, "incremental hash drifted");

    let (e0, h0) = (inc.eval_for(BLACK), inc.hash());
    inc.make(0, 0, BLACK);
    inc.unmake(0, 0, BLACK);
    assert_eq!((inc.eval_for(BLACK), inc.hash()), (e0, h0), "round-trip drift");
}

#[test]
fn vct_finds_double_three() {
    let board = board_with(&[(7, 6), (7, 7), (5, 8), (6, 8)], &[]);
    let mut grid = Grid::from_board(&board);
    let deadline = Instant::now() + Duration::from_secs(5);
    let mv = vct::vct_win_move(&mut grid, BLACK, Win::Overline, &StopFlag::new(), deadline, 1_000_000);
    assert_eq!(mv, Some((7, 8)), "expected VCT to find the double-three at (7,8)");
}

#[test]
fn vct_rejects_non_forcing_open_two() {
    let board = board_with(&[(7, 7), (7, 8)], &[]);
    let mut grid = Grid::from_board(&board);
    let deadline = Instant::now() + Duration::from_secs(5);
    let mv = vct::vct_win_move(&mut grid, BLACK, Win::Overline, &StopFlag::new(), deadline, 1_000_000);
    assert_eq!(mv, None, "VCT must not claim a win from a single open two");
}

#[test]
fn quiet_position_returns_legal_move() {
    let board = board_with(&[(7, 7)], &[]);
    let context = ctx(board.clone(), Color::White);
    let mv = OnyxBot::new().next_move(&context, &StopFlag::new()).position();
    assert!(board.is_empty_at(mv), "played onto an occupied/oob cell {mv:?}");
}

#[test]
fn onyx_empty_board_plays_centre() {
    let context = ctx(Board::square(15), Color::Black);
    let mv = OnyxBot::new().next_move(&context, &StopFlag::new()).position();
    assert_eq!(mv, Position::new(7, 7));
}

#[test]
fn onyx_make_unmake_restores_cells() {
    let mut grid = Grid::from_board(&board_with(&[(7, 7)], &[(8, 8)]));
    grid.prepare_search();
    let before: Vec<u8> = (0..15).flat_map(|r| (0..15).map(move |c| (r, c))).map(|(r, c)| grid.code(r, c)).collect();
    let h = grid.hash();
    grid.make(3, 4, WHITE);
    assert_eq!(grid.code(3, 4), WHITE);
    assert_ne!(grid.hash(), h);
    grid.unmake(3, 4, WHITE);
    let after: Vec<u8> = (0..15).flat_map(|r| (0..15).map(move |c| (r, c))).map(|(r, c)| grid.code(r, c)).collect();
    assert_eq!(before, after);
    assert_eq!(grid.hash(), h);
}

#[test]
fn stone_count_counts_every_stone_and_place_unplace_restores_it() {
    let mut board = Board::square(15);
    board.set(Position::new(7, 7), Cell::Stone(Color::Black));
    board.set(Position::new(7, 8), Cell::Stone(Color::White));
    board.set(Position::new(3, 4), Cell::Stone(Color::Black));
    let mut g = Grid::from_board(&board);
    assert_eq!(g.stone_count(), 3);
    g.place(0, 0, WHITE);
    assert_eq!(g.stone_count(), 4);
    g.unplace(0, 0, WHITE);
    assert_eq!(g.stone_count(), 3);
}

#[test]
fn four_moves_lists_each_point_once() {
    let mut board = Board::square(15);
    for c in 5..8 {
        board.set(Position::new(7, c), Cell::Stone(Color::Black));
    }
    let mut g = Grid::from_board(&board);
    let moves = g.four_moves(BLACK, Win::Overline);
    assert!(!moves.is_empty());
    for (i, a) in moves.iter().enumerate() {
        for b in moves.iter().skip(i + 1) {
            assert_ne!(a.0, b.0);
        }
    }
}

#[test]
fn four_moves_lists_only_points_that_add_a_five_point() {
    let board = board_with(&[(7, 3), (7, 4), (7, 5), (7, 6), (3, 3), (3, 4), (3, 5)], &[]);
    let mut g = Grid::from_board(&board);
    let moves = g.four_moves(BLACK, Win::Overline);
    assert!(moves.iter().all(|m| m.0 != (8, 4)));
    assert!(moves.iter().all(|m| m.0 != (7, 2) && m.0 != (7, 7)));
    let open_four = moves.iter().find(|m| m.0 == (3, 6)).expect("(3, 6) makes two new five points");
    assert_eq!(open_four.1, 4);
}

#[test]
fn sort_desc_keeps_equal_keys_in_order() {
    let out = sort_desc(vec![('a', 1), ('b', 3), ('c', 1), ('d', 3), ('e', 2)]);
    assert_eq!(out, vec![('b', 3), ('d', 3), ('e', 2), ('a', 1), ('c', 1)]);
}

fn onyx_plays_an_empty_point_on(size: u8) {
    let mut board = Board::square(size);
    board.set(Position::new(20, 20), Cell::Stone(Color::Black));
    board.set(Position::new(20, 21), Cell::Stone(Color::White));
    let mut c = ctx(board.clone(), Color::Black);
    c.timeout_turn = Some(Duration::from_millis(200));
    let mv = OnyxBot::new().next_move(&c, &StopFlag::new()).position();
    assert!(board.is_empty_at(mv), "played {mv:?}");
}

#[test]
fn onyx_plays_an_empty_point_on_a_board_of_forty() {
    onyx_plays_an_empty_point_on(40);
}

#[test]
fn onyx_plays_an_empty_point_on_a_board_of_sixty() {
    onyx_plays_an_empty_point_on(60);
}

#[test]
fn onyx_search_best_takes_any_depth_cap() {
    let board = board_with(&[(7, 7), (7, 8), (7, 9), (7, 10)], &[(0, 0), (0, 1)]);
    let mut grid = Grid::from_board(&board);
    let roots = [(7, 6), (3, 3)];
    let far = Instant::now() + Duration::from_millis(300);
    let best = search::search_best(&mut grid, BLACK, Win::Overline, &roots, &StopFlag::new(), far, 5000);
    assert!(best == Some((7, 6)) || best == Some((3, 3)));
    assert_eq!(grid.stone_count(), 6);
}

#[test]
fn onyx_search_best_prefers_a_five_listed_second() {
    let board = board_with(&[(7, 7), (7, 8), (7, 9), (7, 10)], &[(0, 0), (0, 1)]);
    let mut grid = Grid::from_board(&board);
    let roots = [(3, 3), (7, 11)];
    let far = Instant::now() + Duration::from_secs(5);
    let best = search::search_best(&mut grid, BLACK, Win::Overline, &roots, &StopFlag::new(), far, 3);
    assert_eq!(best, Some((7, 11)));
}

#[test]
fn vct_move_is_a_threat_that_wins() {
    let board = board_with(&[(7, 7), (7, 8), (7, 9)], &[]);
    let mut grid = Grid::from_board(&board);
    let far = Instant::now() + Duration::from_secs(5);
    let mv = vct::vct_win_move(&mut grid, BLACK, Win::Overline, &StopFlag::new(), far, 1_000_000);
    let (r, c) = mv.expect("an open three with no defender is a win by threats");
    assert!(board.is_empty_at(Position::new(r as u8, c as u8)));
    assert_eq!(grid.stone_count(), 3);
}
