//! The ways in which the maze pipeline can fail.

use vstd::prelude::*;

verus! {

/// Why a step of the pipeline could not produce its result.
#[derive(Clone, Copy, Debug, PartialEq, Eq, Structural)]
pub enum MazeError {
    /// What was handed in does not have the shape it must have: a raster
    /// buffer that does not hold exactly four bytes for every cell of the
    /// declared dimensions, a frame longer than its buffer, a rendering with
    /// a character that is neither a glyph nor a line feed.
    MalformedInput,
    /// A coordinate was looked up that the grid does not hold.
    GridIndexMissing,
    /// The border of the grid offers fewer than two openings.
    InsufficientEntrances,
    /// The walk was exhausted without reaching the end coordinate.
    NotFound,
}

} // verus!
