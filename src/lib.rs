//! Conway's Game of Life on a 32 x 32 torus, with detection of repeated
//! boards and a fresh random start whenever a repetition is seen.

pub mod board;
pub mod rules;
