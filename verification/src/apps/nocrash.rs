//! The probe application that never fails: the same records as the
//! crash simulator, without the simulated failures.

use crate::apps::{build_probe_pairs, probe_pairs, sort_join, sorted_join};
use crate::util::{KeyValue, KvView};
use vstd::prelude::*;

verus! {

/// Emits the probe records for one input file.
pub fn map(filename: &str, contents: &str) -> (r: Vec<KeyValue>)
    ensures
        r.deep_view() == probe_pairs(filename@, contents@),
{
    build_probe_pairs(filename, contents)
}

/// Folds one key's values into the sorted, space-joined list.
pub fn reduce(_key: &str, values: Vec<&str>) -> (r: String)
    ensures
        r@ == sorted_join(values.deep_view()),
{
    sort_join(values)
}

} // verus!
