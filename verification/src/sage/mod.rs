//! Sage: a one-ply shape heuristic. It tells open from closed shapes,
//! knows fours and open threes, catches double threats by adding the axes,
//! and judges wins by the rule set. No search.

pub mod bot;
pub mod eval;
pub use bot::SageBot;
