//! Errors reported at the library's boundary.

use vstd::prelude::*;

verus! {

/// What the library refuses before any search or click computation.
#[derive(Clone, Copy, Debug, PartialEq, Eq, Structural)]
pub enum SlideError {
    /// The input does not hold each of `0..=8` exactly once in a 3×3 grid.
    InvalidBoard,
    /// A bounding rectangle or screen size has no usable extent.
    DegenerateGeometry,
}

} // verus!
