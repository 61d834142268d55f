//! Solvers for a series of independent text puzzles, with the shared
//! helpers they rest on. Every solver parses a small text, computes on the
//! parsed value and returns a number.

pub mod days;
pub mod geometry;
pub mod grid;
pub mod math;
pub mod text;
