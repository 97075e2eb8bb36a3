use quintara::model::coord::{decode, encode};
use quintara::model::notation::parse;
use quintara::model::{Position, RuleSet, WinRule};

#[test]
fn round_trip_examples() {
    for (pos, text) in [
        (Position::new(0, 0), "0,0"),
        (Position::new(7, 7), "7,7"),
        (Position::new(0, 14), "14,0"),
        (Position::new(19, 0), "0,19"),
    ] {
        assert_eq!(encode(pos), text);
        assert_eq!(decode(text), Some(pos));
    }
}

#[test]
fn decode_rejects_garbage() {
    for bad in ["", "7", "7,", ",7", "a,1", "7,7,7", "7 7"] {
        assert_eq!(decode(bad), None, "should reject {bad:?}");
    }
}

#[test]
fn center_of_15x15_is_h8() {
    let center = Position::new(7, 7);
    assert_eq!(quintara::model::notation::format(center, 15), "H8");
    assert_eq!(parse("H8", 15), Some(center));
    assert_eq!(parse("h8", 15), Some(center));
}

#[test]
fn corners_count_rows_from_bottom() {
    assert_eq!(quintara::model::notation::format(Position::new(0, 0), 15), "A15");
    assert_eq!(quintara::model::notation::format(Position::new(14, 0), 15), "A1");
    assert_eq!(parse("A15", 15), Some(Position::new(0, 0)));
    assert_eq!(parse("A1", 15), Some(Position::new(14, 0)));
}

#[test]
fn round_trip_all_cells() {
    for row in 0..15u8 {
        for col in 0..15u8 {
            let pos = Position::new(row, col);
            assert_eq!(parse(&quintara::model::notation::format(pos, 15), 15), Some(pos));
        }
    }
}

#[test]
fn rejects_garbage_and_out_of_range() {
    for bad in ["", "8", "H", "H0", "H16", "1H", "ZZ"] {
        assert_eq!(parse(bad, 15), None, "should reject {bad:?}");
    }
}

#[test]
fn renju_options_compose_correctly() {
    let renju = RuleSet::renju();
    assert!(renju.forbidden_black);
    assert_eq!(renju.max_moves, Some(200));
    assert_eq!(renju.win_rule, WinRule::Overline);
    assert!(!RuleSet::standard().forbidden_black);
}

#[test]
fn gomocup_codes_and_default_sizes() {
    assert_eq!(RuleSet::freestyle().gomocup_rule_code(), Some(0));
    assert_eq!(RuleSet::standard().gomocup_rule_code(), Some(1));
    assert_eq!(RuleSet::renju().gomocup_rule_code(), Some(4));
    assert_eq!(RuleSet::caro().gomocup_rule_code(), Some(8));
    assert_eq!(RuleSet::freestyle().gomocup_default_size(), 20);
    assert_eq!(RuleSet::renju().gomocup_default_size(), 15);
}

#[test]
fn custom_combination_has_no_preset_name() {
    let custom = RuleSet { win_rule: WinRule::ExactFive, forbidden_black: true, max_moves: None };
    assert_eq!(custom.name(), None);
    assert_eq!(custom.gomocup_rule_code(), None);
}

#[test]
fn gomocup_mask_round_trips_presets() {
    for r in [RuleSet::freestyle(), RuleSet::standard(), RuleSet::renju(), RuleSet::caro()] {
        let code = r.gomocup_rule_code().unwrap();
        assert_eq!(RuleSet::from_gomocup_rule(u32::from(code)), r);
    }
    assert_eq!(RuleSet::from_gomocup_rule(12), RuleSet::renju());
    assert_eq!(RuleSet::from_gomocup_rule(2), RuleSet::freestyle());
}

#[test]
fn notation_trims_and_takes_a_plus_sign() {
    assert_eq!(parse("  h8 ", 15), Some(Position::new(7, 7)));
    assert_eq!(parse("H+8", 15), Some(Position::new(7, 7)));
    assert_eq!(quintara::model::notation::format(Position::new(14, 14), 15), "O1");
}
