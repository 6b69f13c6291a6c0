//! The random draws that the search makes, each behind a contract that holds
//! of every outcome.

use rand::rngs::{StdRng, ThreadRng};
use rand::seq::SliceRandom;
use rand::{Rng, SeedableRng};
use vstd::prelude::*;

verus! {

#[verifier::external_type_specification]
#[verifier::external_body]
pub struct ExThreadRng(ThreadRng);

#[verifier::external_type_specification]
#[verifier::external_body]
pub struct ExStdRng(StdRng);

/// `sample` holds entries of `source` taken at pairwise different positions.
pub open spec fn is_sample_of(sample: Seq<(usize, usize)>, source: Seq<(usize, usize)>) -> bool {
    exists|at: Seq<int>|
        #![trigger at.len()]
        at.len() == sample.len() && at.no_duplicates() && forall|k: int|
            0 <= k < sample.len() ==> 0 <= #[trigger] at[k] < source.len() && sample[k]
                == source[at[k]]
}

/// Calls `rand::thread_rng`, which hands out the generator of the calling
/// thread. Nothing is claimed of the numbers it will give.
#[verifier::external_body]
pub(crate) fn thread_generator() -> ThreadRng {
    rand::thread_rng()
}

/// Calls `Rng::gen_range` on the half-open range from 0 to `bound`. The
/// range must not be empty; the number drawn lies in it.
#[verifier::external_body]
pub(crate) fn random_below(rng: &mut ThreadRng, bound: usize) -> (r: usize)
    requires
        bound > 0,
    ensures
        r < bound,
{
    rng.gen_range(0..bound)
}

/// Calls `SeedableRng::seed_from_u64` for `StdRng`, which makes a generator
/// from the seed. Nothing is claimed of the numbers it will give.
#[verifier::external_body]
pub(crate) fn seeded_generator(seed: u64) -> StdRng {
    StdRng::seed_from_u64(seed)
}

/// Calls `Rng::gen_range` of a seeded generator on the half-open range from
/// 0 to `bound`. The range must not be empty; the number drawn lies in it.
#[verifier::external_body]
pub(crate) fn seeded_below(rng: &mut StdRng, bound: usize) -> (r: usize)
    requires
        bound > 0,
    ensures
        r < bound,
{
    rng.gen_range(0..bound)
}

/// Calls `Rng::gen` for a `bool`: either value may come back.
#[verifier::external_body]
pub(crate) fn random_bool(rng: &mut ThreadRng) -> bool {
    rng.gen()
}

/// Calls `SliceRandom::shuffle`, which rearranges the slice in place: the
/// same entries, each as often as before, in some order.
#[verifier::external_body]
pub(crate) fn shuffle_entries(rng: &mut ThreadRng, entries: &mut Vec<usize>)
    ensures
        final(entries)@.to_multiset() == old(entries)@.to_multiset(),
{
    entries.shuffle(rng);
}

/// Calls `SliceRandom::choose_multiple`, which picks `amount` entries at
/// pairwise different positions, or all of them where there are fewer, in
/// some order.
#[verifier::external_body]
pub(crate) fn sample_pairs(rng: &mut ThreadRng, source: &Vec<(usize, usize)>, amount: usize) -> (sample: Vec<(usize, usize)>)
    ensures
        sample.len() == if amount <= source.len() { amount } else { source.len() },
        is_sample_of(sample@, source@),
{
    source.choose_multiple(rng, amount).cloned().collect()
}

} // verus!
