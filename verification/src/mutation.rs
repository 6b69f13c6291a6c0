//! Swap mutation: two positions of a tour change places.

use crate::random::{random_below, thread_generator};
use crate::tour::{is_permutation, lemma_rearranged_permutation};
use rand::rngs::ThreadRng;
use vstd::prelude::*;

verus! {

/// `tour` with the entries at `i` and `j` exchanged.
pub open spec fn swapped(tour: Seq<usize>, i: int, j: int) -> Seq<usize> {
    tour.update(i, tour[j]).update(j, tour[i])
}

/// A swap visits the same cities, each as often as before.
pub proof fn lemma_swap_keeps_cities(tour: Seq<usize>, i: int, j: int)
    requires
        0 <= i < tour.len(),
        0 <= j < tour.len(),
    ensures
        swapped(tour, i, j).len() == tour.len(),
        swapped(tour, i, j).to_multiset() == tour.to_multiset(),
{
    broadcast use vstd::multiset::group_multiset_axioms;

    let first = tour.update(i, tour[j]);
    vstd::seq_lib::to_multiset_update(tour, i, tour[j]);
    vstd::seq_lib::to_multiset_update(first, j, tour[i]);
    vstd::seq_lib::to_multiset_contains(tour, tour[i]);
    vstd::seq_lib::to_multiset_contains(tour, tour[j]);
    assert(tour.contains(tour[i]));
    assert(tour.contains(tour[j]));
    if i == j {
        assert(swapped(tour, i, j) =~= tour);
    } else {
        assert(first[j] == tour[j]);
        assert(swapped(tour, i, j).to_multiset() =~= tour.to_multiset());
    }
}

/// Exchanges the entries at `i` and `j` of `tour`.
pub fn swap_positions(tour: &mut Vec<usize>, i: usize, j: usize)
    requires
        i < old(tour)@.len(),
        j < old(tour)@.len(),
    ensures
        final(tour)@ == swapped(old(tour)@, i as int, j as int),
        final(tour)@.len() == old(tour)@.len(),
        final(tour)@.to_multiset() == old(tour)@.to_multiset(),
        forall|n: nat| is_permutation(old(tour)@, n) ==> is_permutation(final(tour)@, n),
{
    let at_i: usize = tour[i];
    let at_j: usize = tour[j];
    tour.set(i, at_j);
    tour.set(j, at_i);
    proof {
        lemma_swap_keeps_cities(old(tour)@, i as int, j as int);
        assert forall|n: nat| is_permutation(old(tour)@, n) implies is_permutation(tour@, n) by {
            lemma_rearranged_permutation(old(tour)@, tour@, n);
        }
    }
}

/// Swap mutation: two positions are drawn at random and exchanged. A tour
/// without positions is left as it is.
pub fn swap_mutation(tour: &mut Vec<usize>)
    ensures
        final(tour)@.len() == old(tour)@.len(),
        final(tour)@.to_multiset() == old(tour)@.to_multiset(),
        forall|n: nat| is_permutation(old(tour)@, n) ==> is_permutation(final(tour)@, n),
        old(tour)@.len() > 0 ==> exists|i: int, j: int|
            0 <= i < old(tour)@.len() && 0 <= j < old(tour)@.len() && final(tour)@ == swapped(
                old(tour)@,
                i,
                j,
            ),
{
    let mut rng: ThreadRng = thread_generator();
    swap_mutation_with(tour, &mut rng);
}

/// Swap mutation with positions drawn from `rng`.
pub(crate) fn swap_mutation_with(tour: &mut Vec<usize>, rng: &mut ThreadRng)
    ensures
        final(tour)@.len() == old(tour)@.len(),
        final(tour)@.to_multiset() == old(tour)@.to_multiset(),
        forall|n: nat| is_permutation(old(tour)@, n) ==> is_permutation(final(tour)@, n),
        old(tour)@.len() > 0 ==> exists|i: int, j: int|
            0 <= i < old(tour)@.len() && 0 <= j < old(tour)@.len() && final(tour)@ == swapped(
                old(tour)@,
                i,
                j,
            ),
{
    let n: usize = tour.len();
    if n > 0 {
        let i: usize = random_below(rng, n);
        let j: usize = random_below(rng, n);
        swap_positions(tour, i, j);
    }
}

} // verus!
