//! The map-timing application tests that map tasks run in parallel.
//! Its map step probes the file system and the machine's processes for
//! concurrently running workers, so it lives with the driver outside
//! the crate; the reduce step is the pure fold below.

use crate::apps::{sort_join, sorted_join};
use vstd::prelude::*;

verus! {

/// Folds one key's values into the sorted, space-joined list.
pub fn reduce(_key: &str, values: Vec<&str>) -> (r: String)
    ensures
        r@ == sorted_join(values.deep_view()),
{
    sort_join(values)
}

} // verus!
