//! Conway's Game of Life on a square toroidal board, with a report of the
//! cells a renderer has to redraw after each generation.
pub mod rules;
pub mod universe;

pub use universe::{Universe, UniverseError};
