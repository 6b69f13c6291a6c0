//! Fork-join data parallelism: one task per entry of a vector, and all
//! results back before the caller goes on.

use rayon::iter::{IntoParallelRefIterator, ParallelIterator};
use vstd::prelude::*;

verus! {

/// Runs `par_iter`, `copied`, `map` and `collect` of rayon: `task` is called
/// once on each entry, on whatever thread the pool picks, and the results
/// come back in the order of the entries. Each result is one that `task`
/// may give for its entry.
#[verifier::external_body]
pub(crate) fn parallel_map<T, U, F>(entries: &Vec<T>, task: F) -> (results: Vec<U>) where
    T: Copy + Send + Sync,
    U: Send,
    F: Fn(T) -> U + Send + Sync,

    requires
        forall|k: int| 0 <= k < entries.len() ==> call_requires(task, (#[trigger] entries[k],)),
    ensures
        results.len() == entries.len(),
        forall|k: int|
            0 <= k < entries.len() ==> call_ensures(task, (entries[k],), #[trigger] results[k]),
{
    entries.par_iter().copied().map(task).collect()
}

} // verus!
