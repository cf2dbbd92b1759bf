//! What the library refuses.

use vstd::prelude::*;

verus! {

/// The reasons for which an operation is refused.
#[derive(Clone, Copy, Debug, PartialEq, Eq, Structural)]
pub enum Error {
    /// An encoding has no filter.
    NoFilters,
    /// A filter of an encoding does not match the encoding's instruction.
    FilterMismatch,
    /// A worker index is not below the number of workers.
    IndexOutOfRange,
    /// An outcome was handed to a worker that awaits none.
    NothingPending,
    /// No worker was asked for.
    NoWorkers,
    /// There are fewer seeds than workers.
    NotEnoughSeeds,
    /// The seeds are not in strictly rising order.
    UnorderedSeeds,
    /// An instruction lies in no worker's range.
    NoOwner,
    /// Saved state does not fit together.
    InvalidState,
}

} // verus!
