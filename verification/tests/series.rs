use quintara::arbiter::{first_plays_black, players_ok, Tally};
use quintara::model::Color;

#[test]
fn series_needs_two_players() {
    assert!(players_ok(2));
    assert!(!players_ok(1));
    assert!(!players_ok(3));
}

#[test]
fn series_swaps_colours_unless_told_not_to() {
    assert!(first_plays_black(0, false));
    assert!(!first_plays_black(1, false));
    assert!(first_plays_black(2, false));
    assert!(first_plays_black(1, true));
}

#[test]
fn series_tally_follows_the_seats() {
    let mut t = Tally::new();
    t.record(Some(Color::Black), true);
    t.record(Some(Color::Black), false);
    t.record(Some(Color::White), false);
    t.record(None, true);
    assert_eq!((t.first, t.second, t.draws), (2, 1, 1));
}
