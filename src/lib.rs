//! Rules engine and exhaustive-analysis tooling for a two-player
//! trick-taking card game in the style of "Scout".

pub mod cards;
pub mod deals;
pub mod engine;
pub mod moves;
pub mod players;
pub mod shuffle;
pub mod tree;
