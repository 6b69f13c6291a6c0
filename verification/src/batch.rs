//! Batch 2-opt: in each pass all exchanges are evaluated at once, a batch
//! of candidates that share no position is made on a copy of the tour, and
//! the copy is kept as the commit policy says.

use crate::candidates::{
    all_exchanges, candidates_above, gain_of_pair, improving_candidates, is_exchange_pair,
    rank_candidates, ranked_by_gain, scan_order,
};
use crate::conflict::{
    apply_exchanges, greedy_selection, is_conflict_free, is_placed, lemma_greedy_takes_first,
    select_conflict_free, with_exchanges, CandidateSwap,
};
use crate::geometry::City;
use crate::local_search::{improves, is_local_optimum};
use crate::tour::{
    compute_total_distance, exchange_gain, is_exchange, is_permutation,
    lemma_rearranged_permutation, lemma_rearranged_within, lemma_reversal_cost, reversed_segment,
    total_distance, visits_within,
};
use vstd::prelude::*;
use vstd::slice::slice_to_vec;

verus! {

/// What becomes of the tour that a pass has built from its batch.
#[derive(Clone, Copy, Debug, PartialEq, Eq, Structural)]
pub enum CommitPolicy {
    /// The tour is kept as it is: the savings of exchanges that share no
    /// position are taken to add up.
    Unconditional,
    /// The tour is kept only if it is shorter than the one before the pass.
    Verified,
}

/// The settings of a batch search.
#[derive(Clone, Copy, Debug, PartialEq, Eq, Structural)]
pub struct BatchConfig {
    /// A candidate must save more than this.
    pub delta_threshold: i64,
    /// What becomes of the tour that a pass has built.
    pub commit: CommitPolicy,
    /// The most exchanges that one pass makes.
    pub swaps_per_pass: usize,
    /// The most passes that a search makes.
    pub max_passes: usize,
}

/// What one pass did.
#[derive(Clone, Copy, Debug, PartialEq, Eq, Structural)]
pub struct PassOutcome {
    /// How many exchanges the pass chose.
    pub selected: usize,
    /// Whether the tour that the pass built was kept.
    pub committed: bool,
}

/// What a batch search ended with.
#[derive(Clone, Debug)]
pub struct BatchReport {
    pub tour: Vec<usize>,
    /// The cost of `tour`.
    pub cost: u128,
    /// The passes that were made.
    pub passes: usize,
    /// Whether the search came to rest: its last pass chose no exchange, or
    /// built a tour that was not kept. Where it did not, the search ended
    /// because `max_passes` passes were made.
    pub settled: bool,
}

/// The exchanges that a pass over `pairs` chooses on `tour`.
pub open spec fn batch_selection(
    tour: Seq<usize>,
    cities: Seq<City>,
    pairs: Seq<(usize, usize)>,
    config: BatchConfig,
) -> Seq<CandidateSwap> {
    let candidates = candidates_above(
        tour,
        cities,
        pairs,
        config.delta_threshold as int,
        pairs.len() as int,
    );
    greedy_selection(
        ranked_by_gain(candidates),
        tour.len() as int,
        config.swaps_per_pass as nat,
        candidates.len() as int,
    )
}

/// The tour that a pass over `pairs` builds from `tour`.
pub open spec fn batch_scratch(
    tour: Seq<usize>,
    cities: Seq<City>,
    pairs: Seq<(usize, usize)>,
    config: BatchConfig,
) -> Seq<usize> {
    let chosen = batch_selection(tour, cities, pairs, config);
    with_exchanges(tour, chosen, chosen.len() as int)
}

/// Whether a pass over `pairs` keeps the tour that it builds from `tour`.
pub open spec fn batch_commits(
    tour: Seq<usize>,
    cities: Seq<City>,
    pairs: Seq<(usize, usize)>,
    config: BatchConfig,
) -> bool {
    config.commit == CommitPolicy::Unconditional || total_distance(
        batch_scratch(tour, cities, pairs, config),
        cities,
    ) < total_distance(tour, cities)
}

/// `tour` after one pass over `pairs`.
pub open spec fn batch_step(
    tour: Seq<usize>,
    cities: Seq<City>,
    pairs: Seq<(usize, usize)>,
    config: BatchConfig,
) -> Seq<usize> {
    if batch_commits(tour, cities, pairs, config) {
        batch_scratch(tour, cities, pairs, config)
    } else {
        tour
    }
}

/// `tour` after `passes` passes over `pairs`.
pub open spec fn after_passes(
    tour: Seq<usize>,
    cities: Seq<City>,
    pairs: Seq<(usize, usize)>,
    config: BatchConfig,
    passes: nat,
) -> Seq<usize>
    decreases passes,
{
    if passes == 0 {
        tour
    } else {
        batch_step(
            after_passes(tour, cities, pairs, config, (passes - 1) as nat),
            cities,
            pairs,
            config,
        )
    }
}

/// A pass at rest: it chooses no exchange, or does not keep what it builds.
pub open spec fn is_at_rest(
    tour: Seq<usize>,
    cities: Seq<City>,
    pairs: Seq<(usize, usize)>,
    config: BatchConfig,
) -> bool {
    batch_selection(tour, cities, pairs, config).len() == 0 || !batch_commits(
        tour,
        cities,
        pairs,
        config,
    )
}

/// One pass on `tour`: the exchanges of `pairs` are evaluated, those that
/// save more than the threshold are ranked, a batch that shares no position
/// is chosen and made on a copy, and the copy replaces `tour` as the commit
/// policy says.
pub fn batch_pass(
    tour: &mut Vec<usize>,
    cities: &[City],
    pairs: &Vec<(usize, usize)>,
    config: &BatchConfig,
) -> (outcome: PassOutcome)
    requires
        visits_within(old(tour)@, cities@.len()),
        forall|k: int| 0 <= k < pairs@.len() ==> is_exchange_pair(old(tour)@.len() as int, #[trigger] pairs@[k]),
    ensures
        final(tour)@ == batch_step(old(tour)@, cities@, pairs@, *config),
        outcome.selected == batch_selection(old(tour)@, cities@, pairs@, *config).len(),
        outcome.committed == batch_commits(old(tour)@, cities@, pairs@, *config),
        is_conflict_free(batch_selection(old(tour)@, cities@, pairs@, *config), old(tour)@.len() as int),
        final(tour)@.len() == old(tour)@.len(),
        final(tour)@.to_multiset() == old(tour)@.to_multiset(),
        visits_within(final(tour)@, cities@.len()),
        config.commit == CommitPolicy::Verified ==> total_distance(final(tour)@, cities@)
            <= total_distance(old(tour)@, cities@),
        config.swaps_per_pass == 1 && config.delta_threshold >= 0 ==> total_distance(
            final(tour)@,
            cities@,
        ) <= total_distance(old(tour)@, cities@),
        config.swaps_per_pass == 1 && config.delta_threshold >= 0 && outcome.selected > 0
            ==> total_distance(final(tour)@, cities@) < total_distance(old(tour)@, cities@),
        outcome.selected == 0 && config.swaps_per_pass > 0 ==> forall|k: int|
            0 <= k < pairs@.len() ==> gain_of_pair(old(tour)@, cities@, #[trigger] pairs@[k])
                <= config.delta_threshold,
{
    assert forall|k: int| 0 <= k < pairs@.len() implies is_exchange(
        tour@.len() as int,
        (#[trigger] pairs@[k]).0 as int,
        pairs@[k].1 as int,
    ) by {
        assert(is_exchange_pair(tour@.len() as int, pairs@[k]));
    }
    let candidates: Vec<CandidateSwap> = improving_candidates(
        tour,
        cities,
        pairs,
        config.delta_threshold,
    );
    let ranked: Vec<CandidateSwap> = rank_candidates(&candidates);
    proof {
        assert forall|k: int| 0 <= k < ranked@.len() implies is_placed(
            #[trigger] ranked@[k],
            tour@.len() as int,
        ) by {
            assert(candidates@.contains(ranked@[k]));
            let at = choose|at: int| 0 <= at < candidates@.len() && candidates@[at] == ranked@[k];
            assert(is_placed(candidates@[at], tour@.len() as int));
        }
    }
    let chosen: Vec<CandidateSwap> = select_conflict_free(
        &ranked,
        tour.len(),
        config.swaps_per_pass,
    );
    let mut scratch: Vec<usize> = tour.clone();
    assert(scratch@ =~= tour@);
    apply_exchanges(&mut scratch, &chosen);
    proof {
        lemma_rearranged_within(tour@, scratch@, cities@.len());
        if chosen@.len() == 0 {
            if config.swaps_per_pass > 0 && ranked@.len() > 0 {
                lemma_greedy_takes_first(
                    ranked@,
                    tour@.len() as int,
                    config.swaps_per_pass as nat,
                    ranked@.len() as int,
                );
            }
        } else if config.swaps_per_pass == 1 && config.delta_threshold >= 0 {
            let c = chosen@[0];
            assert(ranked@.contains(c));
            assert(candidates@.contains(c));
            let at = choose|at: int| 0 <= at < candidates@.len() && candidates@[at] == c;
            assert(candidates@[at].delta > config.delta_threshold);
            assert(with_exchanges(tour@, chosen@, 0) == tour@);
            assert(scratch@ == reversed_segment(tour@, c.i as int, c.j as int));
            lemma_reversal_cost(tour@, cities@, c.i as int, c.j as int);
        }
    }
    let committed: bool = match config.commit {
        CommitPolicy::Unconditional => true,
        CommitPolicy::Verified => {
            let before: u128 = compute_total_distance(tour.as_slice(), cities);
            let after: u128 = compute_total_distance(scratch.as_slice(), cities);
            after < before
        },
    };
    if committed {
        *tour = scratch;
    }
    PassOutcome { selected: chosen.len(), committed }
}


/// The most passes that the searches with a fixed cap make.
pub const MAX_PASSES: usize = 1000;

/// No exchange on `tour` saves more than `threshold`.
pub open spec fn no_exchange_above(tour: Seq<usize>, cities: Seq<City>, threshold: int) -> bool {
    forall|i: int, j: int|
        is_exchange(tour.len() as int, i, j) ==> #[trigger] exchange_gain(tour, cities, i, j)
            <= threshold
}

/// Batch 2-opt over the whole neighbourhood: pass after pass, until one
/// comes to rest or `max_passes` passes are made.
pub fn parallel_batch_2opt(tour: &[usize], cities: &[City], config: &BatchConfig) -> (report:
    BatchReport)
    requires
        visits_within(tour@, cities@.len()),
    ensures
        report.tour@ == after_passes(
            tour@,
            cities@,
            scan_order(tour@.len() as int),
            *config,
            report.passes as nat,
        ),
        report.passes <= config.max_passes,
        report.settled ==> is_at_rest(
            report.tour@,
            cities@,
            scan_order(tour@.len() as int),
            *config,
        ),
        !report.settled ==> report.passes == config.max_passes,
        report.settled && config.commit == CommitPolicy::Unconditional && config.swaps_per_pass > 0
            ==> no_exchange_above(report.tour@, cities@, config.delta_threshold as int),
        report.cost == total_distance(report.tour@, cities@),
        config.commit == CommitPolicy::Verified || (config.swaps_per_pass == 1
            && config.delta_threshold >= 0) ==> report.cost <= total_distance(tour@, cities@),
        report.tour@.len() == tour@.len(),
        report.tour@.to_multiset() == tour@.to_multiset(),
        visits_within(report.tour@, cities@.len()),
        is_permutation(tour@, cities@.len()) ==> is_permutation(report.tour@, cities@.len()),
{
    let n: usize = tour.len();
    let pairs: Vec<(usize, usize)> = all_exchanges(n);
    let mut current: Vec<usize> = slice_to_vec(tour);
    let mut passes: usize = 0;
    let mut settled: bool = false;
    while passes < config.max_passes && !settled
        invariant
            passes <= config.max_passes,
            n == tour@.len(),
            pairs@ == scan_order(tour@.len() as int),
            forall|k: int|
                0 <= k < pairs@.len() ==> is_exchange_pair(tour@.len() as int, #[trigger] pairs@[k]),
            forall|i: int, j: int|
                is_exchange(tour@.len() as int, i, j) ==> pairs@.contains((i as usize, j as usize)),
            current@ == after_passes(tour@, cities@, pairs@, *config, passes as nat),
            current@.len() == tour@.len(),
            current@.to_multiset() == tour@.to_multiset(),
            visits_within(current@, cities@.len()),
            settled ==> is_at_rest(current@, cities@, pairs@, *config),
            settled && config.commit == CommitPolicy::Unconditional && config.swaps_per_pass > 0
                ==> no_exchange_above(current@, cities@, config.delta_threshold as int),
            config.commit == CommitPolicy::Verified || (config.swaps_per_pass == 1
                && config.delta_threshold >= 0) ==> total_distance(current@, cities@)
                <= total_distance(tour@, cities@),
        decreases config.max_passes - passes, if settled { 0nat } else { 1nat },
    {
        let ghost before = current@;
        let outcome: PassOutcome = batch_pass(&mut current, cities, &pairs, config);
        passes += 1;
        if outcome.selected == 0 || !outcome.committed {
            settled = true;
            proof {
                assert(current@ == before);
                if config.commit == CommitPolicy::Unconditional && config.swaps_per_pass > 0 {
                    assert forall|i: int, j: int|
                        is_exchange(current@.len() as int, i, j) implies #[trigger] exchange_gain(
                        current@,
                        cities@,
                        i,
                        j,
                    ) <= config.delta_threshold by {
                        assert(outcome.selected == 0);
                        assert(pairs@.contains((i as usize, j as usize)));
                        let at = choose|at: int|
                            0 <= at < pairs@.len() && pairs@[at] == (i as usize, j as usize);
                        assert(gain_of_pair(before, cities@, pairs@[at]) <= config.delta_threshold);
                        assert(pairs@[at].0 as int == i && pairs@[at].1 as int == j);
                    }
                }
            }
        }
    }
    let cost: u128 = compute_total_distance(current.as_slice(), cities);
    proof {
        if is_permutation(tour@, cities@.len()) {
            lemma_rearranged_permutation(tour@, current@, cities@.len());
        }
    }
    BatchReport { tour: current, cost, passes, settled }
}

/// The batch search that makes the single best exchange of each pass.
pub fn par_prototype(tour: &[usize], cities: &[City]) -> (found: (Vec<usize>, u128))
    requires
        visits_within(tour@, cities@.len()),
    ensures
        exists|passes: nat|
            passes <= MAX_PASSES && found.0@ == after_passes(
                tour@,
                cities@,
                scan_order(tour@.len() as int),
                best_exchange_config(MAX_PASSES),
                passes,
            ) && (passes < MAX_PASSES ==> is_local_optimum(found.0@, cities@)),
        found.1 == total_distance(found.0@, cities@),
        found.1 <= total_distance(tour@, cities@),
        found.0@.len() == tour@.len(),
        found.0@.to_multiset() == tour@.to_multiset(),
        visits_within(found.0@, cities@.len()),
        is_permutation(tour@, cities@.len()) ==> is_permutation(found.0@, cities@.len()),
{
    let config: BatchConfig = BatchConfig {
        delta_threshold: 0,
        commit: CommitPolicy::Unconditional,
        swaps_per_pass: 1,
        max_passes: MAX_PASSES,
    };
    let report: BatchReport = parallel_batch_2opt(tour, cities, &config);
    proof {
        if report.passes < MAX_PASSES {
            assert forall|i: int, j: int| !#[trigger] improves(report.tour@, cities@, i, j) by {
                if is_exchange(report.tour@.len() as int, i, j) {
                    assert(exchange_gain(report.tour@, cities@, i, j) <= 0);
                }
            }
        }
    }
    (report.tour, report.cost)
}

/// The settings of a search that makes the single best exchange of each
/// pass, as long as it shortens the tour.
pub open spec fn best_exchange_config(max_passes: usize) -> BatchConfig {
    BatchConfig {
        delta_threshold: 0,
        commit: CommitPolicy::Unconditional,
        swaps_per_pass: 1,
        max_passes,
    }
}

/// The settings of a search that makes up to `k` exchanges in each pass and
/// keeps what it builds.
pub open spec fn top_k_config(k: usize) -> BatchConfig {
    BatchConfig {
        delta_threshold: 0,
        commit: CommitPolicy::Unconditional,
        swaps_per_pass: k,
        max_passes: MAX_PASSES,
    }
}

/// The settings of a search that makes up to `k` exchanges in each pass,
/// each saving more than `delta_thresh`, and keeps what it builds only if
/// that is shorter.
pub open spec fn top_k_verified_config(k: usize, delta_thresh: i64) -> BatchConfig {
    BatchConfig {
        delta_threshold: delta_thresh,
        commit: CommitPolicy::Verified,
        swaps_per_pass: k,
        max_passes: MAX_PASSES,
    }
}

/// The batch search that makes up to `k` exchanges in each pass and keeps
/// what it builds.
pub fn par_topk(tour: &[usize], cities: &[City], k: usize) -> (found: (Vec<usize>, u128))
    requires
        visits_within(tour@, cities@.len()),
    ensures
        exists|passes: nat|
            passes <= MAX_PASSES && found.0@ == after_passes(
                tour@,
                cities@,
                scan_order(tour@.len() as int),
                top_k_config(k),
                passes,
            ) && (passes < MAX_PASSES && k > 0 ==> is_local_optimum(found.0@, cities@)),
        found.1 == total_distance(found.0@, cities@),
        found.0@.len() == tour@.len(),
        found.0@.to_multiset() == tour@.to_multiset(),
        visits_within(found.0@, cities@.len()),
        is_permutation(tour@, cities@.len()) ==> is_permutation(found.0@, cities@.len()),
{
    let config: BatchConfig = BatchConfig {
        delta_threshold: 0,
        commit: CommitPolicy::Unconditional,
        swaps_per_pass: k,
        max_passes: MAX_PASSES,
    };
    let report: BatchReport = parallel_batch_2opt(tour, cities, &config);
    proof {
        if report.passes < MAX_PASSES && k > 0 {
            assert forall|i: int, j: int| !#[trigger] improves(report.tour@, cities@, i, j) by {
                if is_exchange(report.tour@.len() as int, i, j) {
                    assert(exchange_gain(report.tour@, cities@, i, j) <= 0);
                }
            }
        }
    }
    (report.tour, report.cost)
}

/// The batch search that makes up to `k` exchanges in each pass, each
/// saving more than `delta_thresh`, and keeps what it builds only if that
/// is shorter.
pub fn par_topkplus(tour: &[usize], cities: &[City], k: usize, delta_thresh: i64) -> (found: (
    Vec<usize>,
    u128,
))
    requires
        visits_within(tour@, cities@.len()),
    ensures
        exists|passes: nat|
            passes <= MAX_PASSES && found.0@ == after_passes(
                tour@,
                cities@,
                scan_order(tour@.len() as int),
                top_k_verified_config(k, delta_thresh),
                passes,
            ) && (passes < MAX_PASSES ==> is_at_rest(
                found.0@,
                cities@,
                scan_order(tour@.len() as int),
                top_k_verified_config(k, delta_thresh),
            )),
        found.1 == total_distance(found.0@, cities@),
        found.1 <= total_distance(tour@, cities@),
        found.0@.len() == tour@.len(),
        found.0@.to_multiset() == tour@.to_multiset(),
        visits_within(found.0@, cities@.len()),
        is_permutation(tour@, cities@.len()) ==> is_permutation(found.0@, cities@.len()),
{
    let config: BatchConfig = BatchConfig {
        delta_threshold: delta_thresh,
        commit: CommitPolicy::Verified,
        swaps_per_pass: k,
        max_passes: MAX_PASSES,
    };
    let report: BatchReport = parallel_batch_2opt(tour, cities, &config);
    (report.tour, report.cost)
}

/// Best-improvement 2-opt: each pass evaluates all exchanges at once and
/// makes the one that saves most, until none shortens the tour.
pub fn two_opt_par(tour: &[usize], cities: &[City]) -> (found: (Vec<usize>, u128))
    requires
        visits_within(tour@, cities@.len()),
    ensures
        exists|passes: nat|
            found.0@ == after_passes(
                tour@,
                cities@,
                scan_order(tour@.len() as int),
                best_exchange_config(MAX_PASSES),
                passes,
            ),
        is_local_optimum(found.0@, cities@),
        found.1 == total_distance(found.0@, cities@),
        found.1 <= total_distance(tour@, cities@),
        found.0@.len() == tour@.len(),
        found.0@.to_multiset() == tour@.to_multiset(),
        visits_within(found.0@, cities@.len()),
        is_permutation(tour@, cities@.len()) ==> is_permutation(found.0@, cities@.len()),
{
    let config: BatchConfig = BatchConfig {
        delta_threshold: 0,
        commit: CommitPolicy::Unconditional,
        swaps_per_pass: 1,
        max_passes: MAX_PASSES,
    };
    let n: usize = tour.len();
    let pairs: Vec<(usize, usize)> = all_exchanges(n);
    let mut current: Vec<usize> = slice_to_vec(tour);
    let mut settled: bool = false;
    let ghost mut passes: nat = 0;
    while !settled
        invariant
            config == best_exchange_config(MAX_PASSES),
            n == tour@.len(),
            pairs@ == scan_order(tour@.len() as int),
            forall|k: int|
                0 <= k < pairs@.len() ==> is_exchange_pair(tour@.len() as int, #[trigger] pairs@[k]),
            forall|i: int, j: int|
                is_exchange(tour@.len() as int, i, j) ==> pairs@.contains((i as usize, j as usize)),
            current@ == after_passes(tour@, cities@, pairs@, config, passes),
            current@.len() == tour@.len(),
            current@.to_multiset() == tour@.to_multiset(),
            visits_within(current@, cities@.len()),
            total_distance(current@, cities@) <= total_distance(tour@, cities@),
            settled ==> is_local_optimum(current@, cities@),
        decreases total_distance(current@, cities@), if settled { 0nat } else { 1nat },
    {
        let ghost before = current@;
        let outcome: PassOutcome = batch_pass(&mut current, cities, &pairs, &config);
        proof {
            passes = passes + 1;
        }
        if outcome.selected == 0 {
            settled = true;
            proof {
                assert(current@ == before);
                assert forall|i: int, j: int| !#[trigger] improves(current@, cities@, i, j) by {
                    if is_exchange(current@.len() as int, i, j) {
                        assert(pairs@.contains((i as usize, j as usize)));
                        let at = choose|at: int|
                            0 <= at < pairs@.len() && pairs@[at] == (i as usize, j as usize);
                        assert(gain_of_pair(before, cities@, pairs@[at]) <= 0);
                        assert(pairs@[at].0 as int == i && pairs@[at].1 as int == j);
                    }
                }
            }
        }
    }
    let cost: u128 = compute_total_distance(current.as_slice(), cities);
    proof {
        if is_permutation(tour@, cities@.len()) {
            lemma_rearranged_permutation(tour@, current@, cities@.len());
        }
    }
    (current, cost)
}

} // verus!
