//! Verified solvers for a set of small daily text puzzles.
//!
//! The heart of the crate is the staged interval-remapping pipeline in
//! [`pipeline`]: ordered translation stages applied to single values or to
//! huge value domains kept as compact ranges. The remaining modules are the
//! small independent puzzles that share only the plain-text utilities in
//! [`text`].

pub mod camel_cards;
pub mod cube_game;
pub mod digits;
pub mod pipeline;
pub mod races;
pub mod schematic;
pub mod scratchcards;
pub mod text;
