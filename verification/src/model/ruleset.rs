//! A rule set is a combination of independent options. The board size is
//! not part of it: it is a separate parameter carried by the board.

use vstd::prelude::*;

verus! {

/// How five in a row wins (one independent option).
#[derive(Debug, Clone, Copy, PartialEq, Eq, Structural)]
pub enum WinRule {
    /// Exactly five wins; an overline (six or more) does not.
    ExactFive,
    /// Five or more wins.
    Overline,
    /// Exactly five, and the five is not blocked by the opponent at both ends.
    Caro,
}

/// A rule set: a combination of independent options, without a board size.
#[derive(Debug, Clone, Copy, PartialEq, Eq, Structural)]
pub struct RuleSet {
    /// How five in a row wins.
    pub win_rule: WinRule,
    /// Whether black is subject to renju fouls (double three, double four, overline).
    pub forbidden_black: bool,
    /// Move count at which a game without a winner is a draw; `None` for full board only.
    pub max_moves: Option<u16>,
}

/// The named presets of the rule sets.
pub open spec fn freestyle_spec() -> RuleSet {
    RuleSet { win_rule: WinRule::Overline, forbidden_black: false, max_moves: None }
}

pub open spec fn standard_spec() -> RuleSet {
    RuleSet { win_rule: WinRule::ExactFive, forbidden_black: false, max_moves: None }
}

pub open spec fn renju_spec() -> RuleSet {
    RuleSet { win_rule: WinRule::Overline, forbidden_black: true, max_moves: Some(200) }
}

pub open spec fn caro_spec() -> RuleSet {
    RuleSet { win_rule: WinRule::Caro, forbidden_black: false, max_moves: None }
}

/// The Gomocup `INFO rule` code of a preset; `None` for other combinations.
pub open spec fn rule_code_spec(r: RuleSet) -> Option<u8> {
    if r == freestyle_spec() {
        Some(0)
    } else if r == standard_spec() {
        Some(1)
    } else if r == renju_spec() {
        Some(4)
    } else if r == caro_spec() {
        Some(8)
    } else {
        None
    }
}

/// The rule set that a Gomocup `INFO rule` mask stands for: bit 4 renju,
/// bit 8 caro, bit 1 exact five, otherwise freestyle (bit 2, continuous
/// games, is not modelled), with renju > caro > standard > freestyle.
pub open spec fn from_mask_spec(mask: u32) -> RuleSet {
    if mask & 4 != 0 {
        renju_spec()
    } else if mask & 8 != 0 {
        caro_spec()
    } else if mask & 1 != 0 {
        standard_spec()
    } else {
        freestyle_spec()
    }
}

impl RuleSet {
    /// Freestyle (Gomocup rule 0): five or more wins, no fouls.
    pub fn freestyle() -> (r: Self)
        ensures
            r == freestyle_spec(),
    {
        Self { win_rule: WinRule::Overline, forbidden_black: false, max_moves: None }
    }

    /// Standard (Gomocup rule 1): exactly five wins, no fouls.
    pub fn standard() -> (r: Self)
        ensures
            r == standard_spec(),
    {
        Self { win_rule: WinRule::ExactFive, forbidden_black: false, max_moves: None }
    }

    /// Renju (Gomocup rule 4): fouls for black, five or more wins, draw at 200 moves.
    pub fn renju() -> (r: Self)
        ensures
            r == renju_spec(),
    {
        Self { win_rule: WinRule::Overline, forbidden_black: true, max_moves: Some(200) }
    }

    /// Caro (Gomocup rule 8): exactly five, not blocked at both ends, no fouls.
    pub fn caro() -> (r: Self)
        ensures
            r == caro_spec(),
    {
        Self { win_rule: WinRule::Caro, forbidden_black: false, max_moves: None }
    }

    /// The `ruleSetId` of the preset this combination equals, if any.
    pub fn name(self) -> (r: Option<&'static str>)
        ensures
            self == freestyle_spec() ==> r == Some("freestyle"),
            self == standard_spec() ==> r == Some("standard"),
            self == renju_spec() ==> r == Some("renju"),
            self == caro_spec() ==> r == Some("caro"),
            r is None <==> rule_code_spec(self) is None,
    {
        if self == Self::freestyle() {
            Some("freestyle")
        } else if self == Self::standard() {
            Some("standard")
        } else if self == Self::renju() {
            Some("renju")
        } else if self == Self::caro() {
            Some("caro")
        } else {
            None
        }
    }

    /// The rule set of a Gomocup `INFO rule` mask.
    pub fn from_gomocup_rule(mask: u32) -> (r: Self)
        ensures
            r == from_mask_spec(mask),
    {
        if mask & 4 != 0 {
            Self::renju()
        } else if mask & 8 != 0 {
            Self::caro()
        } else if mask & 1 != 0 {
            Self::standard()
        } else {
            Self::freestyle()
        }
    }

    /// The Gomocup `INFO rule` value (presets only).
    pub fn gomocup_rule_code(self) -> (r: Option<u8>)
        ensures
            r == rule_code_spec(self),
    {
        if self == Self::freestyle() {
            Some(0)
        } else if self == Self::standard() {
            Some(1)
        } else if self == Self::renju() {
            Some(4)
        } else if self == Self::caro() {
            Some(8)
        } else {
            None
        }
    }

    /// The usual Gomocup board size: 20 for freestyle, 15 otherwise. The
    /// board size stays an independent parameter; this is a suggestion.
    pub fn gomocup_default_size(self) -> (r: u8)
        ensures
            r == (if self == freestyle_spec() { 20u8 } else { 15u8 }),
    {
        if self == Self::freestyle() {
            20
        } else {
            15
        }
    }
}

/// Decoding the Gomocup code of a preset gives the preset back.
pub proof fn lemma_rule_code_round_trip(r: RuleSet)
    requires
        rule_code_spec(r) is Some,
    ensures
        from_mask_spec(rule_code_spec(r)->0 as u32) == r,
{
    if r == freestyle_spec() {
        assert(0u32 & 4 == 0 && 0u32 & 8 == 0 && 0u32 & 1 == 0) by (bit_vector);
    } else if r == standard_spec() {
        assert(1u32 & 4 == 0 && 1u32 & 8 == 0 && 1u32 & 1 != 0) by (bit_vector);
    } else if r == renju_spec() {
        assert(4u32 & 4 != 0) by (bit_vector);
    } else {
        assert(8u32 & 4 == 0 && 8u32 & 8 != 0) by (bit_vector);
    }
}

} // verus!
