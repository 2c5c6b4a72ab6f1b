//! A bucketed ordered set of heterogeneous terms.

use vstd::prelude::*;

pub mod bucket;
pub mod configuration;
pub mod host_term;
pub mod layout;
pub mod report;
pub mod sorted;
pub mod sorted_set;
pub mod supported_term;
pub mod total_order;

verus! {

/// What adding a term to a set reports.
#[derive(Debug, PartialEq, Eq, Structural)]
pub enum AddResult {
    /// The term was inserted and now stands at this global index.
    Added(usize),
    /// An equal term was already present at this global index.
    Duplicate(usize),
}

/// What removing a term from a set reports.
#[derive(Debug, PartialEq, Eq, Structural)]
pub enum RemoveResult {
    /// The term was removed; it stood at this global index.
    Removed(usize),
    /// The set does not hold the term.
    NotFound,
}

/// What looking a term up in a set reports.
#[derive(Debug, PartialEq, Eq, Structural)]
pub enum FindResult {
    /// The set holds the term.
    Found {
        /// Index of the bucket that holds it.
        bucket_idx: usize,
        /// Its index within that bucket.
        inner_idx: usize,
        /// Its global index.
        idx: usize,
    },
    /// The set does not hold the term.
    NotFound,
}

/// What appending a whole bucket to a set reports.
#[derive(Debug, PartialEq, Eq, Structural)]
pub enum AppendBucketResult {
    /// The bucket was appended.
    Appended,
    /// The bucket holds more terms than a bucket may.
    MaxBucketSizeExceeded,
    /// The terms are not strictly ascending, or do not all come after the
    /// terms that the set holds.
    OutOfOrder,
}

} // verus!
