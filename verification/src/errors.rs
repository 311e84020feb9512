//! Error kinds surfaced by index construction, queries and the pipeline.

use vstd::prelude::*;

verus! {

/// Everything that can go wrong while building the index or matching a
/// user. An empty result list is never an error: it is a valid outcome.
#[derive(Clone, Copy, Debug, PartialEq, Eq, Structural)]
pub enum MatchError {
    /// An embedding handed to the index builder does not have the
    /// configured dimension.
    InvalidDimension,
    /// A query vector does not have the index dimension.
    DimensionMismatch,
    /// The external encoder produced no embedding for the user text.
    EncoderFailure,
    /// A record violates its own invariants (inverted age range,
    /// negative distance threshold, out-of-range fixed-point value).
    MalformedRecord,
}

} // verus!
