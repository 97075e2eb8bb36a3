//! Quintara: a verified Gomoku engine library.
//!
//! The crate holds the game data model, the opening presets, the match
//! failure policies, and the move-search engines (`onyx`, `titan`, `sage`,
//! `greedy`, `random`), each with contracts checked by Verus.

pub mod aegis;
pub mod arbiter;
pub mod bot;
pub mod cli;
pub mod game;
pub mod greedy;
pub mod mobile;
pub mod model;
pub mod onyx;
pub mod opening;
pub mod random;
pub mod renju;
pub mod rules;
pub mod sage;
pub mod screen;
pub mod sort;
pub mod titan;
pub mod text;
