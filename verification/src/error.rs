//! Error kinds reported by the library.

use vstd::prelude::*;

verus! {

/// Why an operation was refused.
#[derive(Clone, Copy, Debug, PartialEq, Eq, Structural)]
pub enum ChunkError {
    /// A coordinate does not fit in a chunk, whose edge is 32 voxels.
    CoordinateOutOfRange,
    /// Every chunk identifier is in use.
    IdSpaceExhausted,
    /// A run inserted directly into the store overlaps a stored run.
    OverlappingRun,
    /// A run inserted directly into the store has length zero along an axis.
    ZeroExtentRun,
    /// The chunk still holds edits that were not merged into its store.
    StaleEncode,
}

} // verus!
