//! Onyx: an attacking engine for freestyle Gomoku.
//!
//! Each move it wins at once if it can, blocks the opponent's immediate
//! win, plays a continuous-four win (VCF) or a continuous-threat win (VCT)
//! when it finds one, filters out moves that let the opponent win by VCF,
//! and otherwise runs an iterative-deepening alpha-beta search.

pub mod engine;
pub mod eval;
pub mod grid;
pub mod search;
pub mod vct;
pub use engine::OnyxBot;
