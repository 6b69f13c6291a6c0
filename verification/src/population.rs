//! Populations: how they are made, ranked by fitness, carried over and
//! refined.

use crate::geometry::{distance_bound, City};
use crate::individual::Individual;
use crate::local_search::{is_local_optimum, two_opt};
use crate::random::thread_generator;
use crate::rank::{
    is_ranked, lemma_ranking_same_entries, rank_entries, ranking_of, ranks_no_later, Ranked,
};
use crate::seeding::random_tour;
use crate::tour::lemma_legs_bound;
use rand::rngs::ThreadRng;
use vstd::prelude::*;

verus! {

/// Every individual of `population` is a tour of all of `cities` with its
/// cost.
pub open spec fn is_population(population: Seq<Individual>, cities: Seq<City>) -> bool {
    forall|k: int| 0 <= k < population.len() ==> (#[trigger] population[k]).describes(cities)
}

/// The keys that rank `population` by fitness: the shortest tour first and,
/// among equals, the individual that stands first.
pub open spec fn length_keys(population: Seq<Individual>) -> Seq<Ranked> {
    Seq::new(
        population.len(),
        |k: int| Ranked { key: population[k].length as i128, index: k as usize },
    )
}

/// `population` ranked by fitness.
pub open spec fn fitness_ranking(population: Seq<Individual>) -> Seq<Ranked> {
    ranking_of(length_keys(population))
}

/// Some entry of `order` names the position `k`.
pub open spec fn names_position(order: Seq<Ranked>, k: int) -> bool {
    exists|r: int| 0 <= r < order.len() && (#[trigger] order[r]).index == k
}

/// No tour of `population` is too long to be a key.
pub open spec fn has_rankable_lengths(population: Seq<Individual>) -> bool {
    forall|k: int| 0 <= k < population.len() ==> (#[trigger] population[k]).length <= i128::MAX
}

/// The cost of a tour over a list of cities is well below the largest key.
pub proof fn lemma_population_rankable(population: Seq<Individual>, cities: Seq<City>)
    requires
        is_population(population, cities),
        cities.len() <= usize::MAX,
    ensures
        has_rankable_lengths(population),
{
    assert forall|k: int| 0 <= k < population.len() implies (#[trigger] population[k]).length
        <= i128::MAX by {
        let one = population[k];
        assert(one.describes(cities));
        lemma_legs_bound(one.tour@, cities, 0, one.tour@.len() as int);
        assert(one.tour@.len() * (distance_bound() - 1) <= 0xffff_ffff_ffff_ffff * 0x1_ffff_ffff)
            by (nonlinear_arith)
            requires
                0 <= one.tour@.len() <= 0xffff_ffff_ffff_ffff,
                distance_bound() - 1 == 0x1_ffff_ffff,
        ;
    }
}

/// A population of `size` random tours of `cities`.
pub fn initial_population(cities: &[City], size: usize) -> (population: Vec<Individual>)
    ensures
        population@.len() == size,
        is_population(population@, cities@),
{
    let mut rng: ThreadRng = thread_generator();
    let mut population: Vec<Individual> = Vec::new();
    let mut k: usize = 0;
    while k < size
        invariant
            k <= size,
            population@.len() == k,
            is_population(population@, cities@),
        decreases size - k,
    {
        let tour: Vec<usize> = random_tour(cities.len(), &mut rng);
        let one: Individual = Individual::new(tour, cities);
        let ghost before = population@;
        population.push(one);
        k += 1;
        assert forall|q: int| 0 <= q < population@.len() implies (
        #[trigger] population@[q]).describes(cities@) by {
            if q < before.len() {
                assert(population@[q] == before[q]);
            }
        }
    }
    population
}

/// `at` is where the fittest of `population` stands: no tour is shorter,
/// and those that stand after it are longer.
pub open spec fn is_fittest(population: Seq<Individual>, at: int) -> bool {
    &&& 0 <= at < population.len()
    &&& forall|k: int|
        0 <= k < population.len() ==> {
            &&& population[at].length <= (#[trigger] population[k]).length
            &&& k > at ==> population[at].length < population[k].length
        }
}

/// Finds the fittest of `population`, and of several equally fit the last.
pub fn fittest_of(population: &[Individual]) -> (at: usize)
    requires
        population@.len() > 0,
    ensures
        is_fittest(population@, at as int),
{
    let mut at: usize = 0;
    let mut k: usize = 1;
    while k < population.len()
        invariant
            1 <= k <= population@.len(),
            at < k,
            forall|q: int|
                0 <= q < k ==> {
                    &&& population@[at as int].length <= (#[trigger] population@[q]).length
                    &&& q > at ==> population@[at as int].length < population@[q].length
                },
        decreases population@.len() - k,
    {
        if population[k].length <= population[at].length {
            at = k;
        }
        k += 1;
    }
    at
}

/// Ranks `population` by fitness: the shortest tour first and, among
/// equals, the individual that stands first.
pub fn fitness_order(population: &[Individual]) -> (order: Vec<Ranked>)
    requires
        has_rankable_lengths(population@),
    ensures
        order@ == fitness_ranking(population@),
        order@.len() == population@.len(),
        is_ranked(order@),
        forall|r: int|
            0 <= r < order@.len() ==> (#[trigger] order@[r]).index < population@.len()
                && order@[r].key == population@[order@[r].index as int].length,
        forall|k: int| 0 <= k < population@.len() ==> #[trigger] names_position(order@, k),
{
    let mut keys: Vec<Ranked> = Vec::new();
    let mut k: usize = 0;
    while k < population.len()
        invariant
            k <= population@.len(),
            has_rankable_lengths(population@),
            keys@ == length_keys(population@).subrange(0, k as int),
        decreases population@.len() - k,
    {
        keys.push(Ranked { key: population[k].length as i128, index: k });
        k += 1;
        assert(keys@ =~= length_keys(population@).subrange(0, k as int));
    }
    assert(keys@ =~= length_keys(population@));
    let order: Vec<Ranked> = rank_entries(&keys);
    proof {
        assert forall|r: int| 0 <= r < order@.len() implies (#[trigger] order@[r]).index
            < population@.len() && order@[r].key == population@[order@[r].index as int].length by {
            assert(order@.contains(order@[r]));
            lemma_ranking_same_entries(order@, keys@, order@[r]);
            let at = choose|at: int| 0 <= at < keys@.len() && keys@[at] == order@[r];
            assert(keys@[at].index == at);
        }
        assert forall|k: int| 0 <= k < population@.len() implies #[trigger] names_position(
            order@,
            k,
        ) by {
            assert(keys@.contains(keys@[k]));
            lemma_ranking_same_entries(order@, keys@, keys@[k]);
            let r = choose|r: int| 0 <= r < order@.len() && order@[r] == keys@[k];
            assert(order@[r].index == k);
        }
    }
    order
}

/// The individual that a ranking puts first is the fittest: no tour of the
/// population is shorter than its tour.
pub proof fn lemma_first_ranked_is_shortest(population: Seq<Individual>, order: Seq<Ranked>, k: int)
    requires
        0 <= k < population.len(),
        order.len() == population.len(),
        is_ranked(order),
        forall|r: int|
            0 <= r < order.len() ==> (#[trigger] order[r]).index < population.len() && order[r].key
                == population[order[r].index as int].length,
        forall|q: int| 0 <= q < population.len() ==> #[trigger] names_position(order, q),
    ensures
        population[order[0].index as int].length <= population[k].length,
{
    assert(names_position(order, k));
    let r = choose|r: int| 0 <= r < order.len() && (#[trigger] order[r]).index == k;
    if r > 0 {
        assert(ranks_no_later(order[0], order[r]));
    }
}

/// Refines an individual with 2-opt.
pub fn refine(one: &Individual, cities: &[City]) -> (refined: Individual)
    requires
        one.describes(cities@),
    ensures
        refined.describes(cities@),
        is_local_optimum(refined.tour@, cities@),
        refined.length <= one.length,
{
    let tour: Vec<usize> = two_opt(one.tour.as_slice(), cities);
    Individual::new(tour, cities)
}

} // verus!
