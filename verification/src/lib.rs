//! A 4x4 crossword-style puzzle generator.
//!
//! Words are sequences of two-character symbols. The library places randomly
//! chosen dictionary words on a 4x4 board so that they interlock through
//! shared symbols, until every row and column reads as a legal word (or is
//! still short enough to be permitted).

pub mod model;
pub mod puzzle;
mod rng;

pub use puzzle::Point;
pub use puzzle::Puzzle;
