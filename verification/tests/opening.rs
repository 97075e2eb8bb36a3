use quintara::opening::Opening;
use quintara::model::Position;

#[test]
fn none_has_no_positions() {
    assert!(Opening::Plain.positions().is_empty());
}

#[test]
fn auto_places_requested_count_centered_and_distinct() {
    for count in [3u8, 5] {
        let opening = quintara::opening::auto(count, 15);
        let positions = opening.positions();
        assert_eq!(positions.len(), count as usize);
        assert_eq!(positions[0], Position::new(7, 7));
        for (i, p) in positions.iter().enumerate() {
            assert!(p.row < 15 && p.col < 15);
            assert!(!positions[..i].contains(p), "duplicate at {p:?}");
        }
    }
}

#[test]
fn auto_truncates_oversized_count() {
    assert_eq!(quintara::opening::auto(9, 15).positions().len(), 5);
}

#[test]
fn auto_sequence_exact_points() {
    let o = quintara::opening::auto(5, 15);
    assert_eq!(
        o.positions(),
        &[
            Position::new(7, 7),
            Position::new(7, 8),
            Position::new(8, 7),
            Position::new(6, 8),
            Position::new(8, 6)
        ]
    );
    assert!(quintara::opening::auto(0, 15).positions().is_empty());
    assert_eq!(Opening::default(), Opening::Plain);
}
