//! Sequential 2-opt: scan the exchanges in order, make the first one that
//! shortens the tour, start the scan again, and stop when a whole scan finds
//! none.

use crate::geometry::City;
use crate::tour::{
    compute_total_distance, evaluate_exchange, exchange_gain, is_exchange, is_permutation,
    lemma_rearranged_permutation, lemma_rearranged_within, lemma_reversal_cost,
    lemma_reversal_keeps_cities, reverse_segment, reversed_segment, total_distance, visits_within,
};
use vstd::prelude::*;
use vstd::slice::slice_to_vec;

verus! {

/// The exchange `(i, j)` shortens `tour`.
pub open spec fn improves(tour: Seq<usize>, cities: Seq<City>, i: int, j: int) -> bool {
    is_exchange(tour.len() as int, i, j) && exchange_gain(tour, cities, i, j) > 0
}

/// No exchange shortens `tour`.
pub open spec fn is_local_optimum(tour: Seq<usize>, cities: Seq<City>) -> bool {
    forall|i: int, j: int| !#[trigger] improves(tour, cities, i, j)
}

/// The scan meets `(i, j)` before `(i2, j2)`.
pub open spec fn scanned_before(i: int, j: int, i2: int, j2: int) -> bool {
    i < i2 || (i == i2 && j < j2)
}

/// `(i, j)` is the first exchange of the scan that shortens `tour`.
pub open spec fn is_first_improvement(tour: Seq<usize>, cities: Seq<City>, i: int, j: int) -> bool {
    &&& improves(tour, cities, i, j)
    &&& forall|i2: int, j2: int|
        scanned_before(i2, j2, i, j) ==> !#[trigger] improves(tour, cities, i2, j2)
}

/// One round of the search: `tour` after the first exchange that shortens
/// it, or `tour` itself where there is none.
pub open spec fn first_improvement_step(tour: Seq<usize>, cities: Seq<City>) -> Seq<usize> {
    if exists|i: int, j: int| is_first_improvement(tour, cities, i, j) {
        let (i, j) = choose|i: int, j: int| is_first_improvement(tour, cities, i, j);
        reversed_segment(tour, i, j)
    } else {
        tour
    }
}

/// `tour` after `rounds` rounds of the search.
pub open spec fn after_rounds(tour: Seq<usize>, cities: Seq<City>, rounds: nat) -> Seq<usize>
    decreases rounds,
{
    if rounds == 0 {
        tour
    } else {
        first_improvement_step(after_rounds(tour, cities, (rounds - 1) as nat), cities)
    }
}

/// Only one exchange is the first that shortens a tour.
pub proof fn lemma_first_improvement_unique(
    tour: Seq<usize>,
    cities: Seq<City>,
    i: int,
    j: int,
    i2: int,
    j2: int,
)
    requires
        is_first_improvement(tour, cities, i, j),
        is_first_improvement(tour, cities, i2, j2),
    ensures
        i == i2,
        j == j2,
{
    if scanned_before(i, j, i2, j2) {
        assert(!improves(tour, cities, i, j));
    } else if scanned_before(i2, j2, i, j) {
        assert(!improves(tour, cities, i2, j2));
    }
}

/// The round that follows a first improvement makes that exchange.
pub proof fn lemma_step_makes_first_improvement(
    tour: Seq<usize>,
    cities: Seq<City>,
    i: int,
    j: int,
)
    requires
        is_first_improvement(tour, cities, i, j),
    ensures
        first_improvement_step(tour, cities) == reversed_segment(tour, i, j),
{
    let (ci, cj) = choose|ci: int, cj: int| is_first_improvement(tour, cities, ci, cj);
    lemma_first_improvement_unique(tour, cities, i, j, ci, cj);
}

/// A local optimum is a fixed point of the search: no number of rounds
/// changes it.
pub proof fn lemma_local_optimum_is_fixed(tour: Seq<usize>, cities: Seq<City>, rounds: nat)
    requires
        is_local_optimum(tour, cities),
    ensures
        after_rounds(tour, cities, rounds) == tour,
    decreases rounds,
{
    if rounds > 0 {
        lemma_local_optimum_is_fixed(tour, cities, (rounds - 1) as nat);
        if exists|i: int, j: int| is_first_improvement(tour, cities, i, j) {
            let (i, j) = choose|i: int, j: int| is_first_improvement(tour, cities, i, j);
            assert(improves(tour, cities, i, j));
        }
    }
}

/// No round of the search makes a tour longer, and every round keeps its
/// cities.
pub proof fn lemma_rounds_never_lengthen(tour: Seq<usize>, cities: Seq<City>, rounds: nat)
    ensures
        total_distance(after_rounds(tour, cities, rounds), cities) <= total_distance(tour, cities),
        after_rounds(tour, cities, rounds).to_multiset() == tour.to_multiset(),
    decreases rounds,
{
    if rounds > 0 {
        let before = after_rounds(tour, cities, (rounds - 1) as nat);
        lemma_rounds_never_lengthen(tour, cities, (rounds - 1) as nat);
        if exists|i: int, j: int| is_first_improvement(before, cities, i, j) {
            let (i, j) = choose|i: int, j: int| is_first_improvement(before, cities, i, j);
            assert(improves(before, cities, i, j));
            lemma_reversal_cost(before, cities, i, j);
            lemma_reversal_keeps_cities(before, i, j);
        }
    }
}

/// Scans the exchanges of `tour` in order and returns the first that
/// shortens it, or `None` where the tour is a local optimum.
pub fn find_first_improvement(tour: &[usize], cities: &[City]) -> (found: Option<(usize, usize)>)
    requires
        visits_within(tour@, cities@.len()),
    ensures
        match found {
            Some((i, j)) => is_first_improvement(tour@, cities@, i as int, j as int),
            None => is_local_optimum(tour@, cities@),
        },
{
    let n: usize = tour.len();
    let mut i: usize = 1;
    while i < n
        invariant
            1 <= i,
            n == tour@.len(),
            visits_within(tour@, cities@.len()),
            forall|i2: int, j2: int| i2 < i ==> !#[trigger] improves(tour@, cities@, i2, j2),
        decreases n - i,
    {
        let mut j: usize = i + 1;
        while j < n
            invariant
                1 <= i < j,
                i < n,
                n == tour@.len(),
                visits_within(tour@, cities@.len()),
                forall|i2: int, j2: int|
                    scanned_before(i2, j2, i as int, j as int) ==> !#[trigger] improves(
                        tour@,
                        cities@,
                        i2,
                        j2,
                    ),
            decreases n - j,
        {
            let gain: i64 = evaluate_exchange(tour, cities, i, j);
            if gain > 0 {
                return Some((i, j));
            }
            j += 1;
        }
        i += 1;
    }
    None
}

/// 2-opt on `tour`: the tour that the search ends with, a local optimum
/// that visits the same cities and is no longer than `tour`.
pub fn two_opt(tour: &[usize], cities: &[City]) -> (best: Vec<usize>)
    requires
        visits_within(tour@, cities@.len()),
    ensures
        exists|rounds: nat| best@ == after_rounds(tour@, cities@, rounds),
        is_local_optimum(best@, cities@),
        total_distance(best@, cities@) <= total_distance(tour@, cities@),
        best@.to_multiset() == tour@.to_multiset(),
        visits_within(best@, cities@.len()),
        is_permutation(tour@, cities@.len()) ==> is_permutation(best@, cities@.len()),
{
    let mut best: Vec<usize> = slice_to_vec(tour);
    let mut improved: bool = true;
    let ghost mut rounds: nat = 0;
    while improved
        invariant
            best@ == after_rounds(tour@, cities@, rounds),
            visits_within(best@, cities@.len()),
            !improved ==> is_local_optimum(best@, cities@),
        decreases
                total_distance(best@, cities@),
                if improved {
                    1nat
                } else {
                    0nat
                },
    {
        match find_first_improvement(best.as_slice(), cities) {
            Some((i, j)) => {
                proof {
                    lemma_step_makes_first_improvement(best@, cities@, i as int, j as int);
                    lemma_reversal_cost(best@, cities@, i as int, j as int);
                    lemma_reversal_keeps_cities(best@, i as int, j as int);
                    lemma_rearranged_within(
                        best@,
                        reversed_segment(best@, i as int, j as int),
                        cities@.len(),
                    );
                    rounds = rounds + 1;
                }
                reverse_segment(&mut best, i, j);
            },
            None => {
                improved = false;
            },
        }
    }
    proof {
        lemma_rounds_never_lengthen(tour@, cities@, rounds);
        if is_permutation(tour@, cities@.len()) {
            lemma_rearranged_permutation(tour@, best@, cities@.len());
        }
    }
    best
}

/// 2-opt on `tour`, with the cost of the tour it ends with.
pub fn two_opt_seq(tour: &[usize], cities: &[City]) -> (found: (Vec<usize>, u128))
    requires
        visits_within(tour@, cities@.len()),
    ensures
        exists|rounds: nat| found.0@ == after_rounds(tour@, cities@, rounds),
        is_local_optimum(found.0@, cities@),
        found.1 == total_distance(found.0@, cities@),
        found.1 <= total_distance(tour@, cities@),
        found.0@.to_multiset() == tour@.to_multiset(),
        visits_within(found.0@, cities@.len()),
        is_permutation(tour@, cities@.len()) ==> is_permutation(found.0@, cities@.len()),
{
    let best: Vec<usize> = two_opt(tour, cities);
    let cost: u128 = compute_total_distance(best.as_slice(), cities);
    (best, cost)
}

} // verus!
