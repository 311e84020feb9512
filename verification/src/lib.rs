//! Semantic company matching over fixed-point embeddings.
//!
//! The crate matches a user against a collection of companies in three
//! stages: a spatial index over company interest embeddings answers
//! k-nearest-neighbour queries, a pure eligibility predicate applies the
//! structured rules (age range, wallet threshold, geographic proximity),
//! and the pipeline glues the two together, returning the eligible
//! companies nearest-first.
//!
//! All quantities are exact fixed-point integers: coordinates, wallet
//! balances, distance thresholds and embedding components are `i64`
//! values in caller-chosen units (for example micro-degrees). Distances
//! are compared through their squares, which is exact in integer
//! arithmetic and order-equivalent to the Euclidean metric because the
//! square root is monotonic. The text-to-vector encoder is an external
//! collaborator: callers hand the already-encoded vectors in.

pub mod distance;
pub mod errors;
pub mod filter;
pub mod index;
pub mod numeric;
pub mod pipeline;
pub mod records;
