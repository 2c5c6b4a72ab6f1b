//! Tuning parameters of a set.

use vstd::prelude::*;

verus! {

/// Tuning parameters of a set, fixed when the set is made.
#[derive(Clone, Copy, Debug, PartialEq, Eq, Structural)]
pub struct Configuration {
    /// The most terms that a bucket may hold.
    pub max_bucket_size: usize,
    /// The number of buckets to reserve room for when a set is made with
    /// room reserved.
    pub initial_set_capacity: usize,
}

impl Configuration {
    /// The configuration of a set that is expected to hold about
    /// `initial_item_capacity` terms in buckets of at most `max_bucket_size`
    /// terms: room is reserved for as many full buckets as that takes, plus one.
    pub fn new(initial_item_capacity: usize, max_bucket_size: usize) -> (configuration:
        Configuration)
        requires
            max_bucket_size > 0,
            initial_item_capacity / max_bucket_size < usize::MAX,
        ensures
            configuration.max_bucket_size == max_bucket_size,
            configuration.initial_set_capacity == initial_item_capacity / max_bucket_size + 1,
    {
        Configuration {
            max_bucket_size,
            initial_set_capacity: initial_item_capacity / max_bucket_size + 1,
        }
    }
}

} // verus!
