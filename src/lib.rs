//! Solver for the 3×3 sliding-tile puzzle, and the geometry that turns a
//! solution into screen points to click.

pub mod puzzle;
pub mod solver;
pub mod display;
pub mod error;
pub mod input;
