//! Multi-restart search: independent workers, each with a seed tour of its
//! own that it improves by batches of exchanges sampled at random, and the
//! shortest tour of all of them as the result.

use crate::batch::{batch_pass, batch_step, BatchConfig, CommitPolicy, PassOutcome};
use crate::candidates::{all_exchanges, gain_of_pair, is_exchange_pair, scan_order};
use crate::geometry::City;
use crate::parallel::parallel_map;
use crate::random::{is_sample_of, random_below, random_bool, sample_pairs, thread_generator};
use crate::schedule::SearchError;
use crate::seeding::{build_seed, is_seed_from, random_tour, SeedingPolicy};
use crate::tour::{
    compute_total_distance, evaluate_exchange, identity_tour, is_exchange, is_permutation,
    lemma_rearranged_permutation, lemma_rearranged_within, lemma_reversal_cost,
    lemma_reversal_keeps_cities, reverse_segment, reversed_segment, total_distance,
    visits_within,
};
use rand::rngs::ThreadRng;
use vstd::prelude::*;

verus! {

/// The grid steps that make one unit of length, where a threshold of the
/// search is a number of units.
pub const STEPS_PER_UNIT: u32 = 1000;

/// How many workers a search has where the caller names no number.
pub const DEFAULT_WORKERS: usize = 32;

/// A sampled exchange is a candidate if it saves more than this: ten units.
pub const SAMPLED_GAIN_THRESHOLD: i64 = 10_000;

/// A worker goes on while a pass shortens its tour by this much at least:
/// one unit.
pub const MIN_PASS_GAIN: u128 = 1_000;

/// A sampled exchange that is tried on its own is made if it saves more
/// than this: one unit.
pub const SINGLE_GAIN_THRESHOLD: i64 = 1_000;

/// How many rounds of sampling a worker of the first-improvement search
/// makes.
pub const SAMPLING_ROUNDS: usize = 32;

/// A tour of all of `cities` with its cost.
pub open spec fn is_costed_tour(found: (Vec<usize>, u128), cities: Seq<City>) -> bool {
    &&& is_permutation(found.0@, cities.len())
    &&& found.1 == total_distance(found.0@, cities)
}

/// Every pair of a sample of exchanges is an exchange.
pub proof fn lemma_sample_of_exchanges(
    sample: Seq<(usize, usize)>,
    source: Seq<(usize, usize)>,
    len: int,
)
    requires
        is_sample_of(sample, source),
        forall|k: int| 0 <= k < source.len() ==> is_exchange_pair(len, #[trigger] source[k]),
    ensures
        forall|k: int| 0 <= k < sample.len() ==> is_exchange_pair(len, #[trigger] sample[k]),
{
    let at = choose|at: Seq<int>|
        #![trigger at.len()]
        at.len() == sample.len() && at.no_duplicates() && forall|k: int|
            0 <= k < sample.len() ==> 0 <= #[trigger] at[k] < source.len() && sample[k]
                == source[at[k]];
    assert forall|k: int| 0 <= k < sample.len() implies is_exchange_pair(
        len,
        #[trigger] sample[k],
    ) by {
        assert(0 <= at[k] < source.len());
        assert(is_exchange_pair(len, source[at[k]]));
    }
}

/// The settings of the passes of a worker: every candidate of the sample
/// that shares no position with a better one is made, and what the pass
/// builds is kept.
pub open spec fn descent_config(threshold: i64) -> BatchConfig {
    BatchConfig {
        delta_threshold: threshold,
        commit: CommitPolicy::Unconditional,
        swaps_per_pass: usize::MAX,
        max_passes: 1,
    }
}

/// `sample` is a sample of half of `pairs`.
pub open spec fn is_half_sample(sample: Seq<(usize, usize)>, pairs: Seq<(usize, usize)>) -> bool {
    is_sample_of(sample, pairs) && sample.len() == pairs.len() / 2
}

/// `route` after the first `upto` passes, each over its own sample.
pub open spec fn after_sampled_passes(
    route: Seq<usize>,
    cities: Seq<City>,
    samples: Seq<Seq<(usize, usize)>>,
    threshold: i64,
    upto: int,
) -> Seq<usize>
    decreases upto,
{
    if upto <= 0 {
        route
    } else {
        batch_step(
            after_sampled_passes(route, cities, samples, threshold, upto - 1),
            cities,
            samples[upto - 1],
            descent_config(threshold),
        )
    }
}

/// A pass that took the cost of a tour from `before` to `after` earns
/// another: it has saved `min_gain` at least, and has saved something.
pub open spec fn earns_another(before: nat, after: nat, min_gain: u128) -> bool {
    after < before && before - after >= min_gain
}

/// Pass `k` over `samples`, counted from 0, earns another.
pub open spec fn pass_earned(
    seed: Seq<usize>,
    cities: Seq<City>,
    samples: Seq<Seq<(usize, usize)>>,
    threshold: i64,
    min_gain: u128,
    k: int,
) -> bool {
    earns_another(
        total_distance(after_sampled_passes(seed, cities, samples, threshold, k), cities),
        total_distance(after_sampled_passes(seed, cities, samples, threshold, k + 1), cities),
        min_gain,
    )
}

/// `route` is what a worker ends with that starts from `seed` and draws
/// `samples`: one pass over each sample, every pass but the last earning
/// another, and the last earning none.
pub open spec fn is_descent_trace(
    route: Seq<usize>,
    seed: Seq<usize>,
    cities: Seq<City>,
    pairs: Seq<(usize, usize)>,
    threshold: i64,
    min_gain: u128,
    samples: Seq<Seq<(usize, usize)>>,
) -> bool {
    &&& samples.len() >= 1
    &&& forall|k: int| 0 <= k < samples.len() ==> is_half_sample(#[trigger] samples[k], pairs)
    &&& route == after_sampled_passes(seed, cities, samples, threshold, samples.len() as int)
    &&& forall|k: int|
        0 <= k < samples.len() - 1 ==> #[trigger] pass_earned(
            seed,
            cities,
            samples,
            threshold,
            min_gain,
            k,
        )
    &&& !pass_earned(seed, cities, samples, threshold, min_gain, samples.len() - 1)
}

/// `route` is what a worker can end with that starts from `seed`.
pub open spec fn is_descent_from(
    route: Seq<usize>,
    seed: Seq<usize>,
    cities: Seq<City>,
    pairs: Seq<(usize, usize)>,
    threshold: i64,
    min_gain: u128,
) -> bool {
    exists|samples: Seq<Seq<(usize, usize)>>|
        is_descent_trace(route, seed, cities, pairs, threshold, min_gain, samples)
}

/// The passes over the first samples do not depend on the samples after
/// them.
pub proof fn lemma_passes_ignore_later(
    seed: Seq<usize>,
    cities: Seq<City>,
    samples: Seq<Seq<(usize, usize)>>,
    longer: Seq<Seq<(usize, usize)>>,
    threshold: i64,
    upto: int,
)
    requires
        0 <= upto <= samples.len() <= longer.len(),
        forall|k: int| 0 <= k < samples.len() ==> samples[k] == longer[k],
    ensures
        after_sampled_passes(seed, cities, longer, threshold, upto) == after_sampled_passes(
            seed,
            cities,
            samples,
            threshold,
            upto,
        ),
    decreases upto,
{
    if upto > 0 {
        lemma_passes_ignore_later(seed, cities, samples, longer, threshold, upto - 1);
    }
}

/// Improves `route` by batches: every pass samples half of `pairs`, makes
/// the exchanges of the sample that save more than `threshold` and share no
/// position, and the search goes on while a pass shortens the route by
/// `min_gain` at least. Returns the cost of the route it ends with.
pub(crate) fn sampled_descent(
    route: &mut Vec<usize>,
    cities: &[City],
    pairs: &Vec<(usize, usize)>,
    threshold: i64,
    min_gain: u128,
    rng: &mut ThreadRng,
) -> (cost: u128)
    requires
        visits_within(old(route)@, cities@.len()),
        forall|k: int|
            0 <= k < pairs@.len() ==> is_exchange_pair(old(route)@.len() as int, #[trigger] pairs@[k]),
    ensures
        final(route)@.len() == old(route)@.len(),
        final(route)@.to_multiset() == old(route)@.to_multiset(),
        visits_within(final(route)@, cities@.len()),
        cost == total_distance(final(route)@, cities@),
        is_descent_from(final(route)@, old(route)@, cities@, pairs@, threshold, min_gain),
{
    let config: BatchConfig = BatchConfig {
        delta_threshold: threshold,
        commit: CommitPolicy::Unconditional,
        swaps_per_pass: usize::MAX,
        max_passes: 1,
    };
    let sample_size: usize = pairs.len() / 2;
    let mut cost: u128 = compute_total_distance(route.as_slice(), cities);
    let mut going: bool = true;
    let ghost mut samples: Seq<Seq<(usize, usize)>> = Seq::empty();
    while going
        invariant
            route@.len() == old(route)@.len(),
            route@.to_multiset() == old(route)@.to_multiset(),
            visits_within(route@, cities@.len()),
            forall|k: int|
                0 <= k < pairs@.len() ==> is_exchange_pair(
                    old(route)@.len() as int,
                    #[trigger] pairs@[k],
                ),
            cost == total_distance(route@, cities@),
            config == descent_config(threshold),
            sample_size == pairs@.len() / 2,
            forall|k: int| 0 <= k < samples.len() ==> is_half_sample(#[trigger] samples[k], pairs@),
            route@ == after_sampled_passes(
                old(route)@,
                cities@,
                samples,
                threshold,
                samples.len() as int,
            ),
            forall|k: int|
                0 <= k < samples.len() - 1 ==> #[trigger] pass_earned(
                    old(route)@,
                    cities@,
                    samples,
                    threshold,
                    min_gain,
                    k,
                ),
            samples.len() == 0 ==> going,
            samples.len() > 0 ==> going == pass_earned(
                old(route)@,
                cities@,
                samples,
                threshold,
                min_gain,
                samples.len() - 1,
            ),
        decreases
                if going {
                    cost + 1
                } else {
                    0
                },
    {
        let sample: Vec<(usize, usize)> = sample_pairs(rng, pairs, sample_size);
        proof {
            lemma_sample_of_exchanges(sample@, pairs@, route@.len() as int);
        }
        let ghost drawn = samples;
        let _outcome: PassOutcome = batch_pass(route, cities, &sample, &config);
        let after: u128 = compute_total_distance(route.as_slice(), cities);
        going = pass_earns_another(cost, after, min_gain);
        cost = after;
        proof {
            samples = drawn.push(sample@);
            let n = drawn.len() as int;
            assert(samples[n] == sample@);
            lemma_passes_ignore_later(old(route)@, cities@, drawn, samples, threshold, n);
            assert forall|k: int| 0 <= k < samples.len() implies is_half_sample(
                #[trigger] samples[k],
                pairs@,
            ) by {
                if k < n {
                    assert(samples[k] == drawn[k]);
                }
            }
            assert forall|k: int| 0 <= k < samples.len() - 1 implies #[trigger] pass_earned(
                old(route)@,
                cities@,
                samples,
                threshold,
                min_gain,
                k,
            ) by {
                lemma_passes_ignore_later(old(route)@, cities@, drawn, samples, threshold, k);
                lemma_passes_ignore_later(old(route)@, cities@, drawn, samples, threshold, k + 1);
                if k < n - 1 {
                    assert(pass_earned(old(route)@, cities@, drawn, threshold, min_gain, k));
                }
            }
        }
    }
    proof {
        assert(is_descent_trace(route@, old(route)@, cities@, pairs@, threshold, min_gain, samples));
    }
    cost
}

/// `route` after the first `upto` tries: each pair in turn is exchanged if
/// that saves more than `threshold` on the route as it then is.
pub open spec fn after_tries(
    route: Seq<usize>,
    cities: Seq<City>,
    tries: Seq<(usize, usize)>,
    threshold: i64,
    upto: int,
) -> Seq<usize>
    decreases upto,
{
    if upto <= 0 {
        route
    } else {
        let before = after_tries(route, cities, tries, threshold, upto - 1);
        let pair = tries[upto - 1];
        if gain_of_pair(before, cities, pair) > threshold {
            reversed_segment(before, pair.0 as int, pair.1 as int)
        } else {
            before
        }
    }
}

/// `route` is what a worker can end with that starts from `seed` and
/// tries, one after the other, pairs that it has drawn from `pairs`.
pub open spec fn is_tried_from(
    route: Seq<usize>,
    seed: Seq<usize>,
    cities: Seq<City>,
    pairs: Seq<(usize, usize)>,
    threshold: i64,
) -> bool {
    exists|tries: Seq<(usize, usize)>|
        #![trigger tries.len()]
        (forall|k: int| 0 <= k < tries.len() ==> pairs.contains(#[trigger] tries[k])) && route
            == after_tries(seed, cities, tries, threshold, tries.len() as int)
}

/// The first tries do not depend on the tries after them.
pub proof fn lemma_tries_ignore_later(
    seed: Seq<usize>,
    cities: Seq<City>,
    tries: Seq<(usize, usize)>,
    longer: Seq<(usize, usize)>,
    threshold: i64,
    upto: int,
)
    requires
        0 <= upto <= tries.len() <= longer.len(),
        forall|k: int| 0 <= k < tries.len() ==> tries[k] == longer[k],
    ensures
        after_tries(seed, cities, longer, threshold, upto) == after_tries(
            seed,
            cities,
            tries,
            threshold,
            upto,
        ),
    decreases upto,
{
    if upto > 0 {
        lemma_tries_ignore_later(seed, cities, tries, longer, threshold, upto - 1);
    }
}

/// Every pair of a sample is a pair of its source.
pub proof fn lemma_sample_within(sample: Seq<(usize, usize)>, source: Seq<(usize, usize)>)
    requires
        is_sample_of(sample, source),
    ensures
        forall|k: int| 0 <= k < sample.len() ==> source.contains(#[trigger] sample[k]),
{
    let at = choose|at: Seq<int>|
        #![trigger at.len()]
        at.len() == sample.len() && at.no_duplicates() && forall|k: int|
            0 <= k < sample.len() ==> 0 <= #[trigger] at[k] < source.len() && sample[k]
                == source[at[k]];
    assert forall|k: int| 0 <= k < sample.len() implies source.contains(#[trigger] sample[k]) by {
        assert(0 <= at[k] < source.len());
        assert(source[at[k]] == sample[k]);
    }
}

/// Improves `route` by single exchanges: every round samples `sample_size`
/// of `pairs` and makes, one after the other, each exchange of the sample
/// that saves more than `threshold` on the route as it then is. Returns the
/// cost of the route it ends with.
pub(crate) fn sampled_first_improvement(
    route: &mut Vec<usize>,
    cities: &[City],
    pairs: &Vec<(usize, usize)>,
    sample_size: usize,
    threshold: i64,
    rounds: usize,
    rng: &mut ThreadRng,
) -> (cost: u128)
    requires
        visits_within(old(route)@, cities@.len()),
        threshold >= 0,
        forall|k: int|
            0 <= k < pairs@.len() ==> is_exchange_pair(old(route)@.len() as int, #[trigger] pairs@[k]),
    ensures
        final(route)@.len() == old(route)@.len(),
        final(route)@.to_multiset() == old(route)@.to_multiset(),
        visits_within(final(route)@, cities@.len()),
        cost == total_distance(final(route)@, cities@),
        cost <= total_distance(old(route)@, cities@),
        is_tried_from(final(route)@, old(route)@, cities@, pairs@, threshold),
{
    let mut round: usize = 0;
    let ghost mut tries: Seq<(usize, usize)> = Seq::empty();
    while round < rounds
        invariant
            route@.len() == old(route)@.len(),
            route@.to_multiset() == old(route)@.to_multiset(),
            visits_within(route@, cities@.len()),
            threshold >= 0,
            total_distance(route@, cities@) <= total_distance(old(route)@, cities@),
            forall|k: int|
                0 <= k < pairs@.len() ==> is_exchange_pair(
                    old(route)@.len() as int,
                    #[trigger] pairs@[k],
                ),
            forall|k: int| 0 <= k < tries.len() ==> pairs@.contains(#[trigger] tries[k]),
            route@ == after_tries(old(route)@, cities@, tries, threshold, tries.len() as int),
        decreases rounds - round,
    {
        let sample: Vec<(usize, usize)> = sample_pairs(rng, pairs, sample_size);
        proof {
            lemma_sample_of_exchanges(sample@, pairs@, route@.len() as int);
            lemma_sample_within(sample@, pairs@);
        }
        let mut k: usize = 0;
        while k < sample.len()
            invariant
                k <= sample@.len(),
                route@.len() == old(route)@.len(),
                route@.to_multiset() == old(route)@.to_multiset(),
                visits_within(route@, cities@.len()),
                threshold >= 0,
                total_distance(route@, cities@) <= total_distance(old(route)@, cities@),
                forall|q: int|
                    0 <= q < sample@.len() ==> is_exchange_pair(
                        old(route)@.len() as int,
                        #[trigger] sample@[q],
                    ),
                forall|q: int| 0 <= q < sample@.len() ==> pairs@.contains(#[trigger] sample@[q]),
                forall|q: int| 0 <= q < tries.len() ==> pairs@.contains(#[trigger] tries[q]),
                route@ == after_tries(old(route)@, cities@, tries, threshold, tries.len() as int),
            decreases sample@.len() - k,
        {
            let pair: (usize, usize) = sample[k];
            assert(is_exchange_pair(route@.len() as int, pair));
            let gain: i64 = evaluate_exchange(route.as_slice(), cities, pair.0, pair.1);
            let ghost tried = tries;
            let ghost before = route@;
            if gain > threshold {
                proof {
                    lemma_reversal_cost(route@, cities@, pair.0 as int, pair.1 as int);
                    lemma_reversal_keeps_cities(route@, pair.0 as int, pair.1 as int);
                    lemma_rearranged_within(
                        route@,
                        reversed_segment(route@, pair.0 as int, pair.1 as int),
                        cities@.len(),
                    );
                }
                reverse_segment(route, pair.0, pair.1);
            }
            proof {
                tries = tried.push(pair);
                let n = tried.len() as int;
                assert(tries[n] == pair);
                lemma_tries_ignore_later(old(route)@, cities@, tried, tries, threshold, n);
                assert(gain == gain_of_pair(before, cities@, pair));
                assert forall|q: int| 0 <= q < tries.len() implies pairs@.contains(
                    #[trigger] tries[q],
                ) by {
                    if q < n {
                        assert(tries[q] == tried[q]);
                    } else {
                        assert(tries[q] == sample@[k as int]);
                    }
                }
            }
            k += 1;
        }
        round += 1;
    }
    compute_total_distance(route.as_slice(), cities)
}

/// Builds a seed tour of all of `cities` as `policy` says, with a coin, an
/// order and a start drawn from `rng`.
pub(crate) fn seed_tour(cities: &[City], policy: SeedingPolicy, rng: &mut ThreadRng) -> (route:
    Vec<usize>)
    requires
        cities@.len() > 0,
    ensures
        is_permutation(route@, cities@.len()),
        exists|coin: bool, order: Seq<usize>, start: usize|
            is_permutation(order, cities@.len()) && start < cities@.len() && #[trigger] is_seed_from(
                route@,
                policy,
                coin,
                order,
                start,
                cities@,
            ),
{
    let n: usize = cities.len();
    let coin: bool = random_bool(rng);
    let order: Vec<usize> = random_tour(n, rng);
    let start: usize = random_below(rng, n);
    let ghost drawn = order@;
    let route: Vec<usize> = build_seed(policy, coin, order, start, cities);
    assert(is_seed_from(route@, policy, coin, drawn, start, cities@));
    route
}

/// Tells whether a worker goes on after a pass that took the cost of its
/// tour from `before` to `after`: the pass has saved `min_gain` at least,
/// and has saved something.
pub fn pass_earns_another(before: u128, after: u128, min_gain: u128) -> (goes_on: bool)
    ensures
        goes_on == (after < before && before - after >= min_gain),
{
    after < before && before - after >= min_gain
}

/// `seed` is a seed tour that `policy` can give.
pub open spec fn is_worker_seed(seed: Seq<usize>, policy: SeedingPolicy, cities: Seq<City>) -> bool {
    exists|coin: bool, order: Seq<usize>, start: usize|
        is_permutation(order, cities.len()) && start < cities.len() && #[trigger] is_seed_from(
            seed,
            policy,
            coin,
            order,
            start,
            cities,
        )
}

/// `found` is what a worker of the multi-restart search can return: a tour
/// of all of `cities` with its cost, the end of a descent by sampled
/// batches from a seed tour that `policy` can give.
pub open spec fn is_restart_result(
    found: (Vec<usize>, u128),
    cities: Seq<City>,
    policy: SeedingPolicy,
) -> bool {
    &&& is_costed_tour(found, cities)
    &&& exists|seed: Seq<usize>|
        is_worker_seed(seed, policy, cities) && #[trigger] is_descent_from(
            found.0@,
            seed,
            cities,
            scan_order(cities.len() as int),
            SAMPLED_GAIN_THRESHOLD,
            MIN_PASS_GAIN,
        )
}

/// `found` is what a worker of the first-improvement search can return: a
/// tour of all of `cities` with its cost, the end of a row of sampled
/// exchanges tried one by one on a permutation.
pub open spec fn is_sampling_result(found: (Vec<usize>, u128), cities: Seq<City>) -> bool {
    &&& is_costed_tour(found, cities)
    &&& exists|seed: Seq<usize>|
        is_permutation(seed, cities.len()) && #[trigger] is_tried_from(
            found.0@,
            seed,
            cities,
            scan_order(cities.len() as int),
            SINGLE_GAIN_THRESHOLD,
        )
}

/// One worker of the multi-restart search: a seed tour, improved by
/// sampled batches.
pub(crate) fn restart_worker(cities: &[City], pairs: &Vec<(usize, usize)>, policy: SeedingPolicy) -> (found:
    (Vec<usize>, u128))
    requires
        cities@.len() > 0,
        pairs@ == scan_order(cities@.len() as int),
        forall|k: int|
            0 <= k < pairs@.len() ==> is_exchange_pair(cities@.len() as int, #[trigger] pairs@[k]),
    ensures
        is_restart_result(found, cities@, policy),
{
    let mut rng: ThreadRng = thread_generator();
    let mut route: Vec<usize> = seed_tour(cities, policy, &mut rng);
    let ghost seed = route@;
    let cost: u128 = sampled_descent(
        &mut route,
        cities,
        pairs,
        SAMPLED_GAIN_THRESHOLD,
        MIN_PASS_GAIN,
        &mut rng,
    );
    proof {
        lemma_rearranged_permutation(seed, route@, cities@.len());
        assert(is_worker_seed(seed, policy, cities@));
        assert(is_descent_from(
            route@,
            seed,
            cities@,
            scan_order(cities@.len() as int),
            SAMPLED_GAIN_THRESHOLD,
            MIN_PASS_GAIN,
        ));
        assert(exists|seed: Seq<usize>|
            is_worker_seed(seed, policy, cities@) && #[trigger] is_descent_from(
                route@,
                seed,
                cities@,
                scan_order(cities@.len() as int),
                SAMPLED_GAIN_THRESHOLD,
                MIN_PASS_GAIN,
            ));
    }
    let found: (Vec<usize>, u128) = (route, cost);
    assert(is_costed_tour(found, cities@));
    assert(is_restart_result(found, cities@, policy));
    found
}

/// One worker of the first-improvement search: a random tour, improved by
/// sampled single exchanges that save more than a unit.
pub(crate) fn sampling_worker(cities: &[City], pairs: &Vec<(usize, usize)>) -> (found: (
    Vec<usize>,
    u128,
))
    requires
        pairs@ == scan_order(cities@.len() as int),
        forall|k: int|
            0 <= k < pairs@.len() ==> is_exchange_pair(cities@.len() as int, #[trigger] pairs@[k]),
    ensures
        is_sampling_result(found, cities@),
{
    let n: usize = cities.len();
    let mut rng: ThreadRng = thread_generator();
    let mut route: Vec<usize> = random_tour(n, &mut rng);
    let ghost seed = route@;
    let sample_size: usize = if n > usize::MAX / 2 {
        usize::MAX
    } else {
        n * 2
    };
    let cost: u128 = sampled_first_improvement(
        &mut route,
        cities,
        pairs,
        sample_size,
        SINGLE_GAIN_THRESHOLD,
        SAMPLING_ROUNDS,
        &mut rng,
    );
    proof {
        lemma_rearranged_permutation(seed, route@, cities@.len());
        assert(is_tried_from(
            route@,
            seed,
            cities@,
            scan_order(cities@.len() as int),
            SINGLE_GAIN_THRESHOLD,
        ));
        assert(exists|seed: Seq<usize>|
            is_permutation(seed, cities@.len()) && #[trigger] is_tried_from(
                route@,
                seed,
                cities@,
                scan_order(cities@.len() as int),
                SINGLE_GAIN_THRESHOLD,
            ));
    }
    let found: (Vec<usize>, u128) = (route, cost);
    assert(is_costed_tour(found, cities@));
    assert(is_sampling_result(found, cities@));
    found
}

/// `at` is where the first of the cheapest of `found` stands.
pub open spec fn is_first_shortest(found: Seq<(Vec<usize>, u128)>, at: int) -> bool {
    &&& 0 <= at < found.len()
    &&& forall|k: int|
        0 <= k < found.len() ==> {
            &&& found[at].1 <= (#[trigger] found[k]).1
            &&& k < at ==> found[at].1 < found[k].1
        }
}

/// Finds the first of the cheapest tours of `found`.
pub fn first_shortest(found: &Vec<(Vec<usize>, u128)>) -> (at: usize)
    requires
        found@.len() > 0,
    ensures
        is_first_shortest(found@, at as int),
{
    let mut at: usize = 0;
    let mut k: usize = 1;
    while k < found.len()
        invariant
            1 <= k <= found@.len(),
            at < k,
            forall|q: int|
                0 <= q < k ==> {
                    &&& found@[at as int].1 <= (#[trigger] found@[q]).1
                    &&& q < at ==> found@[at as int].1 < found@[q].1
                },
        decreases found@.len() - k,
    {
        if found[k].1 < found[at].1 {
            at = k;
        }
        k += 1;
    }
    at
}


/// What is wrong with the input of a multi-restart search, or `None`.
pub open spec fn restart_fault(cities: nat, workers: nat) -> Option<SearchError> {
    if cities < 2 {
        Some(SearchError::TooFewCities)
    } else if workers == 0 {
        Some(SearchError::NoWorkers)
    } else {
        None
    }
}

/// What is wrong with a tour handed in for its length only, or `None`.
pub open spec fn restart_input_fault(tour: nat, cities: nat) -> Option<SearchError> {
    if cities < 2 {
        Some(SearchError::TooFewCities)
    } else if tour != cities {
        Some(SearchError::TourLengthMismatch)
    } else {
        None
    }
}

/// Multi-restart search over `cities`: `worker_count` workers, each with a
/// seed tour built as `seeding_policy` says and improved by sampled
/// batches, and the shortest of their tours with its cost.
pub fn multi_restart_search(cities: &[City], worker_count: usize, seeding_policy: SeedingPolicy) -> (found:
    Result<(Vec<usize>, u128), SearchError>)
    ensures
        match found {
            Ok(best) => restart_fault(cities@.len(), worker_count as nat).is_none()
                && is_restart_result(best, cities@, seeding_policy),
            Err(fault) => restart_fault(cities@.len(), worker_count as nat) == Some(fault),
        },
{
    let n: usize = cities.len();
    if n < 2 {
        return Err(SearchError::TooFewCities);
    }
    if worker_count == 0 {
        return Err(SearchError::NoWorkers);
    }
    let pairs: Vec<(usize, usize)> = all_exchanges(n);
    assert forall|k: int| 0 <= k < pairs@.len() implies is_exchange_pair(
        n as int,
        #[trigger] pairs@[k],
    ) by {
        assert(is_exchange(n as int, pairs@[k].0 as int, pairs@[k].1 as int));
    }
    let workers: Vec<usize> = identity_tour(worker_count);
    let mut results: Vec<(Vec<usize>, u128)> = parallel_map(
        &workers,
        |_worker: usize| -> (found: (Vec<usize>, u128))
            ensures
                is_restart_result(found, cities@, seeding_policy),
            { restart_worker(cities, &pairs, seeding_policy) }
    );
    let at: usize = first_shortest(&results);
    assert(is_restart_result(results@[at as int], cities@, seeding_policy));
    let best: (Vec<usize>, u128) = results.remove(at);
    Ok(best)
}

/// Multi-restart search with random seed tours. `tour` gives the number of
/// cities to visit and nothing else.
pub fn multi_2opt_optimized1(tour: &[usize], cities: &[City]) -> (found: Result<
    (Vec<usize>, u128),
    SearchError,
>)
    ensures
        match found {
            Ok(best) => restart_input_fault(tour@.len(), cities@.len()).is_none()
                && is_restart_result(best, cities@, SeedingPolicy::Random),
            Err(fault) => restart_input_fault(tour@.len(), cities@.len()) == Some(fault),
        },
{
    if cities.len() >= 2 && tour.len() != cities.len() {
        return Err(SearchError::TourLengthMismatch);
    }
    multi_restart_search(cities, DEFAULT_WORKERS, SeedingPolicy::Random)
}

/// Multi-restart search in which half of the workers, by a coin each,
/// start from a walk to the nearest city. `tour` gives the number of cities
/// to visit and nothing else.
#[allow(non_snake_case)]
pub fn multi_2opt_optimized2_V2(tour: &[usize], cities: &[City]) -> (found: Result<
    (Vec<usize>, u128),
    SearchError,
>)
    ensures
        match found {
            Ok(best) => restart_input_fault(tour@.len(), cities@.len()).is_none()
                && is_restart_result(best, cities@, SeedingPolicy::NearestNeighbor),
            Err(fault) => restart_input_fault(tour@.len(), cities@.len()) == Some(fault),
        },
{
    if cities.len() >= 2 && tour.len() != cities.len() {
        return Err(SearchError::TourLengthMismatch);
    }
    multi_restart_search(cities, DEFAULT_WORKERS, SeedingPolicy::NearestNeighbor)
}

/// Multi-restart search in which half of the workers, by a coin each,
/// start from a cheapest-insertion route. `tour` gives the number of cities
/// to visit and nothing else.
pub fn multi_2opt_random_insert(tour: &[usize], cities: &[City]) -> (found: Result<
    (Vec<usize>, u128),
    SearchError,
>)
    ensures
        match found {
            Ok(best) => restart_input_fault(tour@.len(), cities@.len()).is_none()
                && is_restart_result(best, cities@, SeedingPolicy::CheapestInsertion),
            Err(fault) => restart_input_fault(tour@.len(), cities@.len()) == Some(fault),
        },
{
    if cities.len() >= 2 && tour.len() != cities.len() {
        return Err(SearchError::TourLengthMismatch);
    }
    multi_restart_search(cities, DEFAULT_WORKERS, SeedingPolicy::CheapestInsertion)
}

/// Multi-restart search in which every worker starts from a random tour
/// and tries sampled exchanges one by one. `tour` gives the number of
/// cities to visit and nothing else.
pub fn two_opt_par_ver2(tour: &[usize], cities: &[City]) -> (found: Result<
    (Vec<usize>, u128),
    SearchError,
>)
    ensures
        match found {
            Ok(best) => restart_input_fault(tour@.len(), cities@.len()).is_none()
                && is_sampling_result(best, cities@),
            Err(fault) => restart_input_fault(tour@.len(), cities@.len()) == Some(fault),
        },
{
    let n: usize = cities.len();
    if n < 2 {
        return Err(SearchError::TooFewCities);
    }
    if tour.len() != n {
        return Err(SearchError::TourLengthMismatch);
    }
    let pairs: Vec<(usize, usize)> = all_exchanges(n);
    assert forall|k: int| 0 <= k < pairs@.len() implies is_exchange_pair(
        n as int,
        #[trigger] pairs@[k],
    ) by {
        assert(is_exchange(n as int, pairs@[k].0 as int, pairs@[k].1 as int));
    }
    let workers: Vec<usize> = identity_tour(DEFAULT_WORKERS);
    let mut results: Vec<(Vec<usize>, u128)> = parallel_map(
        &workers,
        |_worker: usize| -> (found: (Vec<usize>, u128))
            ensures
                is_sampling_result(found, cities@),
            { sampling_worker(cities, &pairs) }
    );
    let at: usize = first_shortest(&results);
    assert(is_sampling_result(results@[at as int], cities@));
    let best: (Vec<usize>, u128) = results.remove(at);
    Ok(best)
}

} // verus!
