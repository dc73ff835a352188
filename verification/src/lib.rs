//! A recommendation scoring engine for a visual-novel catalog.
//!
//! The engine ingests three flat-file tables (titles, ratings, tag
//! associations) into typed in-memory records, builds an item-by-tag sparse
//! profile matrix, and answers stateless queries: deterministic title
//! resolution, co-rating (collaborative) scores, tag-profile cosine
//! similarity scores, and a weighted combination of the two, each shaped
//! into a fixed-length result list.
//!
//! All scores are fixed-point integers: a value `v` stands for the real
//! number `v / SCALE`. Accumulation runs in `i128`, so sums over tables of
//! any in-memory size cannot overflow.

use vstd::prelude::*;

pub mod aggregate;
pub mod data;
pub mod fixed;
pub mod ingest;
pub mod laws;
pub mod matrix;
pub mod ranking;
pub mod recommender;
pub mod scores;
pub mod tabular;
pub mod text;
pub mod title;

verus! {

/// Fixed-point scale: the integer `SCALE` stands for the real number `1.0`.
pub const SCALE: i64 = 1000;

/// Largest magnitude a stored fixed-point value may take (so `VMAX / SCALE`
/// is the largest representable real magnitude). Parsed fields beyond this
/// magnitude count as unparsable; power-curve transforms saturate here.
pub const VMAX: i64 = 1_000_000_000_000;

} // verus!
