//! Tournament selection: of a few individuals drawn at random, the fittest
//! wins.

use crate::individual::Individual;
use crate::random::{random_below, thread_generator};
use rand::rngs::ThreadRng;
use vstd::prelude::*;

verus! {

/// Every draw names an individual of a population of `size`.
pub open spec fn draws_within(draws: Seq<usize>, size: nat) -> bool {
    forall|k: int| 0 <= k < draws.len() ==> #[trigger] draws[k] < size
}

/// The winner among the first `upto` draws: the one with the shortest tour,
/// and among equals the one drawn last.
pub open spec fn tournament_winner(population: Seq<Individual>, draws: Seq<usize>, upto: int) -> usize
    decreases upto,
{
    if upto <= 1 {
        draws[0]
    } else {
        let before = tournament_winner(population, draws, upto - 1);
        let challenger = draws[upto - 1];
        if population[challenger as int].length <= population[before as int].length {
            challenger
        } else {
            before
        }
    }
}

/// The winner was drawn, and no individual that was drawn has a shorter
/// tour.
pub proof fn lemma_tournament_winner(population: Seq<Individual>, draws: Seq<usize>, upto: int)
    requires
        1 <= upto <= draws.len(),
    ensures
        exists|k: int| 0 <= k < upto && draws[k] == tournament_winner(population, draws, upto),
        forall|k: int|
            0 <= k < upto ==> population[tournament_winner(population, draws, upto) as int].length
                <= population[#[trigger] draws[k] as int].length,
    decreases upto,
{
    if upto > 1 {
        lemma_tournament_winner(population, draws, upto - 1);
        let before = tournament_winner(population, draws, upto - 1);
        let k0 = choose|k: int| 0 <= k < upto - 1 && draws[k] == before;
        assert(0 <= k0 < upto && draws[k0] == before);
        assert(draws[upto - 1] == draws[upto - 1]);
    } else {
        assert(draws[0] == tournament_winner(population, draws, upto));
    }
}

/// The winner of a tournament among the individuals that `draws` names.
pub fn decide_tournament(population: &[Individual], draws: &[usize]) -> (winner: usize)
    requires
        draws@.len() > 0,
        draws_within(draws@, population@.len()),
    ensures
        winner == tournament_winner(population@, draws@, draws@.len() as int),
        winner < population@.len(),
        exists|k: int| 0 <= k < draws@.len() && draws@[k] == winner,
        forall|k: int|
            0 <= k < draws@.len() ==> population@[winner as int].length <= population@[
            #[trigger] draws@[k] as int].length,
{
    let mut winner: usize = draws[0];
    let mut k: usize = 1;
    while k < draws.len()
        invariant
            1 <= k <= draws@.len(),
            draws_within(draws@, population@.len()),
            winner == tournament_winner(population@, draws@, k as int),
            winner < population@.len(),
        decreases draws@.len() - k,
    {
        let challenger: usize = draws[k];
        if population[challenger].length <= population[winner].length {
            winner = challenger;
        }
        k += 1;
    }
    proof {
        lemma_tournament_winner(population@, draws@, draws@.len() as int);
    }
    winner
}

/// Draws `k` individuals at random, with replacement, and returns the
/// fittest of them.
pub fn tournament_selection(population: &[Individual], k: usize) -> (winner: &Individual)
    requires
        population@.len() > 0,
        k > 0,
    ensures
        exists|draws: Seq<usize>|
            #![trigger draws.len()]
            draws.len() == k && draws_within(draws, population@.len()) && *winner == population@[
            tournament_winner(population@, draws, k as int) as int],
{
    let mut rng: ThreadRng = thread_generator();
    let at: usize = tournament_with(population, k, &mut rng);
    &population[at]
}

/// Runs a tournament of `k` draws from `rng` and returns where the winner
/// stands in the population.
pub(crate) fn tournament_with(population: &[Individual], k: usize, rng: &mut ThreadRng) -> (winner:
    usize)
    requires
        population@.len() > 0,
        k > 0,
    ensures
        winner < population@.len(),
        exists|draws: Seq<usize>|
            #![trigger draws.len()]
            draws.len() == k && draws_within(draws, population@.len()) && winner
                == tournament_winner(population@, draws, k as int),
{
    let mut draws: Vec<usize> = Vec::new();
    let mut d: usize = 0;
    while d < k
        invariant
            d <= k,
            draws@.len() == d,
            population@.len() > 0,
            draws_within(draws@, population@.len()),
        decreases k - d,
    {
        let at: usize = random_below(rng, population.len());
        draws.push(at);
        d += 1;
    }
    let winner: usize = decide_tournament(population, draws.as_slice());
    assert(draws@.len() == k && draws_within(draws@, population@.len()));
    winner
}

} // verus!
