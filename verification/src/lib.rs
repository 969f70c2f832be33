//! Boggle board model: tiles, tile locations, packed paths over a 4x4 board,
//! and a dictionary-driven word search over such paths.

pub mod board;
pub mod bits;
pub mod dictionary;
pub mod solver;
pub mod ranking;
