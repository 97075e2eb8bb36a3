//! Titan: a bitboard engine with iterative-deepening alpha-beta and a VCF
//! search.
//!
//! Each move: the candidates are the empty points within two of a stone
//! (the centre on an empty board); win at once if possible, block the
//! opponent's five point, play a VCF win, drop candidates after which the
//! opponent has a VCF, and search the rest, ties broken at random.

pub mod bitboard;
pub mod engine;
pub mod geometry;
pub mod lines;
pub mod search;
pub mod vcf;
pub use engine::TitanBot;
