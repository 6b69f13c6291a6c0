//! The genetic algorithm: generations of offspring bred by tournament,
//! order crossover and swap mutation, the fittest carried over, the elite
//! refined with 2-opt when it is due, and a last refinement of the best.

use crate::crossover::order_crossover_with;
use crate::geometry::City;
use crate::individual::Individual;
use crate::local_search::is_local_optimum;
use crate::mutation::swap_mutation_with;
use crate::parallel::parallel_map;
use crate::population::{
    fitness_order, fitness_ranking, fittest_of, has_rankable_lengths, initial_population,
    is_population, lemma_first_ranked_is_shortest, lemma_population_rankable, refine,
};
use crate::random::{random_below, thread_generator};
use crate::rank::{ranks_no_later, Ranked};
use crate::schedule::{
    config_fault, is_refinement_due, lemma_watch_follows, mutation_rate, mutation_rate_at,
    stops_after, validate_config, EarlyStop, SearchConfig, SearchError, DEFAULT_ELITISM,
    DEFAULT_PATIENCE, RATE_SCALE, TOURNAMENT_SIZE,
};
use crate::selection::tournament_with;
use crate::tour::{identity_tour, lemma_rearranged_permutation};
use rand::rngs::ThreadRng;
use vstd::prelude::*;

verus! {

/// What a generation looked like when it was complete.
#[derive(Clone, Debug)]
pub struct GenerationRecord {
    /// The number of the generation, from 0.
    pub generation: usize,
    /// The tour lengths of its individuals, the shortest first.
    pub lengths: Vec<u128>,
    /// The mutation rate it was bred with, in parts of `RATE_SCALE`.
    pub mutation_rate: u32,
}

/// The lengths of `population` in the order of its fitness ranking.
pub open spec fn ranked_lengths(population: Seq<Individual>) -> Seq<u128> {
    Seq::new(population.len(), |r: int| fitness_ranking(population)[r].key as u128)
}

/// Breeds one child: two parents, each the winner of a tournament, order
/// crossover of their tours, and a swap mutation with a chance of `rate`
/// in `RATE_SCALE`.
pub(crate) fn breed(population: &Vec<Individual>, cities: &[City], rate: u32, rng: &mut ThreadRng) -> (child:
    Individual)
    requires
        population@.len() > 0,
        is_population(population@, cities@),
    ensures
        child.describes(cities@),
{
    let first: usize = tournament_with(population.as_slice(), TOURNAMENT_SIZE, rng);
    let second: usize = tournament_with(population.as_slice(), TOURNAMENT_SIZE, rng);
    assert(population@[first as int].describes(cities@));
    assert(population@[second as int].describes(cities@));
    let mut tour: Vec<usize> = order_crossover_with(
        population[first].tour.as_slice(),
        population[second].tour.as_slice(),
        rng,
    );
    let draw: usize = random_below(rng, RATE_SCALE as usize);
    if draw < rate as usize {
        let ghost before = tour@;
        swap_mutation_with(&mut tour, rng);
        proof {
            lemma_rearranged_permutation(before, tour@, cities@.len());
        }
    }
    Individual::new(tour, cities)
}

/// Breeds a generation: as many children as `population` has individuals,
/// one after the other or, where `parallel` is set, all at once.
pub(crate) fn breed_generation(
    population: &Vec<Individual>,
    cities: &[City],
    rate: u32,
    parallel: bool,
) -> (children: Vec<Individual>)
    requires
        population@.len() > 0,
        is_population(population@, cities@),
    ensures
        children@.len() == population@.len(),
        is_population(children@, cities@),
{
    if parallel {
        let slots: Vec<usize> = identity_tour(population.len());
        parallel_map(
            &slots,
            |_slot: usize| -> (child: Individual)
                ensures
                    child.describes(cities@),
                {
                    let mut rng: ThreadRng = thread_generator();
                    breed(population, cities, rate, &mut rng)
                }
        )
    } else {
        let mut rng: ThreadRng = thread_generator();
        let mut children: Vec<Individual> = Vec::new();
        let mut k: usize = 0;
        while k < population.len()
            invariant
                k <= population@.len(),
                population@.len() > 0,
                is_population(population@, cities@),
                children@.len() == k,
                is_population(children@, cities@),
            decreases population@.len() - k,
        {
            let child: Individual = breed(population, cities, rate, &mut rng);
            let ghost before = children@;
            children.push(child);
            k += 1;
            assert forall|q: int| 0 <= q < children@.len() implies (
            #[trigger] children@[q]).describes(cities@) by {
                if q < before.len() {
                    assert(children@[q] == before[q]);
                }
            }
        }
        children
    }
}

/// Elitism: the `elitism_k` fittest of `previous`, in the order of their
/// ranking, take the first places of `next`.
pub fn carry_elite(previous: &Vec<Individual>, next: &mut Vec<Individual>, elitism_k: usize)
    requires
        old(next)@.len() == previous@.len(),
        elitism_k <= previous@.len(),
        has_rankable_lengths(previous@),
    ensures
        final(next)@.len() == old(next)@.len(),
        forall|r: int|
            0 <= r < elitism_k ==> {
                let from = fitness_ranking(previous@)[r].index as int;
                &&& (#[trigger] final(next)@[r]).tour@ == previous@[from].tour@
                &&& final(next)@[r].length == previous@[from].length
            },
        forall|k: int|
            elitism_k <= k < old(next)@.len() ==> #[trigger] final(next)@[k] == old(next)@[k],
        forall|k: int|
            0 <= k < previous@.len() && elitism_k >= 1 ==> final(next)@[0].length <= (
            #[trigger] previous@[k]).length,
        forall|cities: Seq<City>|
            is_population(previous@, cities) && is_population(old(next)@, cities)
                ==> is_population(final(next)@, cities),
{
    let order: Vec<Ranked> = fitness_order(previous.as_slice());
    let mut r: usize = 0;
    while r < elitism_k
        invariant
            r <= elitism_k <= previous@.len(),
            next@.len() == previous@.len(),
            order@ == fitness_ranking(previous@),
            order@.len() == previous@.len(),
            forall|q: int| 0 <= q < order@.len() ==> (#[trigger] order@[q]).index < previous@.len(),
            forall|q: int|
                0 <= q < r ==> {
                    let from = order@[q].index as int;
                    &&& (#[trigger] next@[q]).tour@ == previous@[from].tour@
                    &&& next@[q].length == previous@[from].length
                },
            forall|k: int| r <= k < next@.len() ==> #[trigger] next@[k] == old(next)@[k],
        decreases elitism_k - r,
    {
        let from: usize = order[r].index;
        let elite: Individual = previous[from].duplicate();
        next.set(r, elite);
        r += 1;
    }
    proof {
        if elitism_k >= 1 {
            assert forall|k: int| 0 <= k < previous@.len() implies next@[0].length <= (
            #[trigger] previous@[k]).length by {
                lemma_first_ranked_is_shortest(previous@, order@, k);
            }
        }
        assert forall|cities: Seq<City>|
            is_population(previous@, cities) && is_population(
                old(next)@,
                cities,
            ) implies is_population(next@, cities) by {
            assert forall|k: int| 0 <= k < next@.len() implies (#[trigger] next@[k]).describes(
                cities,
            ) by {
                if k < elitism_k {
                    let from = order@[k].index as int;
                    assert(previous@[from].describes(cities));
                } else {
                    assert(old(next)@[k].describes(cities));
                }
            }
        }
    }
}

/// Refines the `top_n` fittest of `population` with 2-opt, one after the
/// other or, where `parallel` is set, all at once.
pub fn refine_elite(population: &mut Vec<Individual>, cities: &[City], top_n: usize, parallel: bool)
    requires
        is_population(old(population)@, cities@),
        top_n <= old(population)@.len(),
    ensures
        final(population)@.len() == old(population)@.len(),
        is_population(final(population)@, cities@),
        forall|k: int|
            0 <= k < old(population)@.len() ==> (#[trigger] final(population)@[k]).length <= old(
                population,
            )@[k].length,
        forall|r: int|
            0 <= r < top_n ==> is_local_optimum(
                final(population)@[(#[trigger] fitness_ranking(old(population)@)[r]).index as int].tour@,
                cities@,
            ),
{
    let _count: usize = cities.len();
    proof {
        lemma_population_rankable(population@, cities@);
    }
    let order: Vec<Ranked> = fitness_order(population.as_slice());
    let mut targets: Vec<usize> = Vec::new();
    let mut r: usize = 0;
    while r < top_n
        invariant
            r <= top_n <= order@.len(),
            order@.len() == population@.len(),
            forall|q: int| 0 <= q < order@.len() ==> (#[trigger] order@[q]).index < population@.len(),
            targets@.len() == r,
            forall|q: int| 0 <= q < r ==> #[trigger] targets@[q] == order@[q].index,
        decreases top_n - r,
    {
        targets.push(order[r].index);
        r += 1;
    }
    let refined: Vec<Individual> = if parallel {
        let whole: &Vec<Individual> = population;
        parallel_map(
            &targets,
            |at: usize| -> (better: Individual)
                requires
                    at < whole@.len(),
                ensures
                    is_refinement_of(better, whole@[at as int], cities@),
                { refine(&whole[at], cities) }
        )
    } else {
        let mut refined: Vec<Individual> = Vec::new();
        let mut k: usize = 0;
        while k < targets.len()
            invariant
                k <= targets@.len(),
                is_population(population@, cities@),
                forall|q: int| 0 <= q < targets@.len() ==> #[trigger] targets@[q] < population@.len(),
                refined@.len() == k,
                forall|q: int|
                    0 <= q < k ==> is_refinement_of(
                        #[trigger] refined@[q],
                        population@[targets@[q] as int],
                        cities@,
                    ),
            decreases targets@.len() - k,
        {
            let better: Individual = refine(&population[targets[k]], cities);
            refined.push(better);
            k += 1;
        }
        refined
    };
    let mut w: usize = 0;
    while w < targets.len()
        invariant
            w <= targets@.len(),
            targets@.len() == top_n,
            refined@.len() == targets@.len(),
            population@.len() == old(population)@.len(),
            is_population(population@, cities@),
            order@ == fitness_ranking(old(population)@),
            forall|q: int|
                0 <= q < targets@.len() ==> #[trigger] targets@[q] < population@.len()
                    && targets@[q] == order@[q].index,
            forall|q: int|
                0 <= q < targets@.len() ==> is_refinement_of(
                    #[trigger] refined@[q],
                    old(population)@[targets@[q] as int],
                    cities@,
                ),
            forall|k: int|
                0 <= k < population@.len() ==> (#[trigger] population@[k]).length <= old(
                    population,
                )@[k].length,
            forall|q: int|
                0 <= q < w ==> is_local_optimum(
                    population@[#[trigger] targets@[q] as int].tour@,
                    cities@,
                ),
        decreases targets@.len() - w,
    {
        let at: usize = targets[w];
        let better: Individual = refined[w].duplicate();
        assert(is_refinement_of(refined@[w as int], old(population)@[at as int], cities@));
        let ghost before = population@;
        population.set(at, better);
        proof {
            assert forall|k: int| 0 <= k < population@.len() implies (
            #[trigger] population@[k]).describes(cities@) by {
                if k != at {
                    assert(population@[k] == before[k]);
                }
            }
            assert forall|q: int| 0 <= q < w + 1 implies is_local_optimum(
                population@[#[trigger] targets@[q] as int].tour@,
                cities@,
            ) by {
                if targets@[q] != at {
                    assert(population@[targets@[q] as int] == before[targets@[q] as int]);
                } else {
                    assert(is_refinement_of(
                        refined@[w as int],
                        old(population)@[at as int],
                        cities@,
                    ));
                }
            }
        }
        w += 1;
    }
    proof {
        assert forall|r: int| 0 <= r < top_n implies is_local_optimum(
            population@[(#[trigger] fitness_ranking(old(population)@)[r]).index as int].tour@,
            cities@,
        ) by {
            assert(targets@[r] == order@[r].index);
        }
    }
}

/// `better` is a tour of the cities that no exchange shortens and that is
/// no longer than the tour of `one`.
pub open spec fn is_refinement_of(better: Individual, one: Individual, cities: Seq<City>) -> bool {
    &&& better.describes(cities)
    &&& is_local_optimum(better.tour@, cities)
    &&& better.length <= one.length
}

/// The record of generation `generation`, bred with `rate`, whose
/// individuals are `population`.
pub fn record_generation(generation: usize, population: &Vec<Individual>, rate: u32) -> (record:
    GenerationRecord)
    requires
        has_rankable_lengths(population@),
    ensures
        record.generation == generation,
        record.mutation_rate == rate,
        record.lengths@ == ranked_lengths(population@),
        record.lengths@.len() == population@.len(),
        forall|a: int, b: int|
            0 <= a < b < record.lengths@.len() ==> record.lengths@[a] <= record.lengths@[b],
        forall|k: int|
            0 <= k < population@.len() ==> record.lengths@[0] <= (#[trigger] population@[k]).length,
        population@.len() > 0 ==> exists|k: int|
            0 <= k < population@.len() && (#[trigger] population@[k]).length == record.lengths@[0],
{
    let order: Vec<Ranked> = fitness_order(population.as_slice());
    let mut lengths: Vec<u128> = Vec::new();
    let mut r: usize = 0;
    while r < order.len()
        invariant
            r <= order@.len(),
            order@ == fitness_ranking(population@),
            order@.len() == population@.len(),
            forall|q: int|
                0 <= q < order@.len() ==> (#[trigger] order@[q]).index < population@.len()
                    && order@[q].key == population@[order@[q].index as int].length,
            lengths@ == ranked_lengths(population@).subrange(0, r as int),
        decreases order@.len() - r,
    {
        let entry: Ranked = order[r];
        lengths.push(entry.key as u128);
        r += 1;
        assert(lengths@ =~= ranked_lengths(population@).subrange(0, r as int));
    }
    proof {
        assert(lengths@ =~= ranked_lengths(population@));
        assert forall|a: int, b: int| 0 <= a < b < lengths@.len() implies lengths@[a]
            <= lengths@[b] by {
            assert(ranks_no_later(order@[a], order@[b]));
        }
        assert forall|k: int| 0 <= k < population@.len() implies lengths@[0] <= (
        #[trigger] population@[k]).length by {
            lemma_first_ranked_is_shortest(population@, order@, k);
        }
        if population@.len() > 0 {
            let first = order@[0].index as int;
            assert(population@[first].length == lengths@[0]);
        }
    }
    GenerationRecord { generation, lengths, mutation_rate: rate }
}


/// What a run of the genetic algorithm ended with.
#[derive(Clone, Debug)]
pub struct GaOutcome {
    /// The fittest individual of the last generation, refined with 2-opt.
    pub best: Individual,
    /// One record for each generation that was made.
    pub history: Vec<GenerationRecord>,
    /// How many generations were made.
    pub generations_run: usize,
    /// Whether the run was stopped because it no longer improved.
    pub stopped_early: bool,
    /// The shortest tour length of the population that the run began with.
    pub first_best: u128,
}

/// The shortest tour length of each generation of `history`.
pub open spec fn best_lengths(history: Seq<GenerationRecord>) -> Seq<u128> {
    Seq::new(history.len(), |g: int| history[g].lengths@[0])
}

/// `record` is a record of generation `generation` of a run with the
/// settings `config`.
pub open spec fn is_record_of(record: GenerationRecord, config: SearchConfig, generation: int) -> bool {
    &&& record.generation == generation
    &&& record.mutation_rate == mutation_rate_at(
        config.base_mutation_rate,
        generation as nat,
        config.generations as nat,
    )
    &&& record.lengths@.len() == config.population_size
    &&& forall|a: int, b: int|
        0 <= a < b < record.lengths@.len() ==> record.lengths@[a] <= record.lengths@[b]
}

/// `history` holds one record for each generation from 0 on, and no
/// generation before its last would have stopped the run.
pub open spec fn is_history(history: Seq<GenerationRecord>, config: SearchConfig) -> bool {
    &&& history.len() <= config.generations
    &&& forall|g: int| 0 <= g < history.len() ==> is_record_of(#[trigger] history[g], config, g)
    &&& forall|g: int|
        0 < g < history.len() ==> !stops_after(
            #[trigger] best_lengths(history).subrange(0, g),
            config.patience as nat,
        )
    &&& config.elitism_k >= 1 ==> forall|g: int|
        0 < g < history.len() ==> (#[trigger] history[g]).lengths@[0] <= history[g - 1].lengths@[0]
}

/// `length` is the shortest tour length of `population`.
pub open spec fn is_fittest_length(population: Seq<Individual>, length: u128) -> bool {
    &&& forall|k: int| 0 <= k < population.len() ==> length <= (#[trigger] population[k]).length
    &&& exists|k: int| 0 <= k < population.len() && (#[trigger] population[k]).length == length
}

/// `outcome` is what a run over `cities` with the settings `config` can
/// end with.
pub open spec fn is_run_outcome(outcome: GaOutcome, cities: Seq<City>, config: SearchConfig) -> bool {
    &&& outcome.best.describes(cities)
    &&& is_local_optimum(outcome.best.tour@, cities)
    &&& outcome.generations_run == outcome.history@.len()
    &&& is_history(outcome.history@, config)
    &&& outcome.stopped_early == stops_after(best_lengths(outcome.history@), config.patience as nat)
    &&& !outcome.stopped_early ==> outcome.generations_run == config.generations
    &&& outcome.history@.len() > 0 ==> outcome.best.length <= outcome.history@[outcome.history@.len()
        - 1].lengths@[0]
    &&& config.elitism_k >= 1 && outcome.history@.len() > 0 ==> outcome.history@[0].lengths@[0]
        <= outcome.first_best
    &&& config.elitism_k >= 1 ==> outcome.best.length <= outcome.first_best
}

/// Runs the generations of the genetic algorithm from `population` on, and
/// refines the best of the last generation.
pub fn evolve(population: Vec<Individual>, cities: &[City], config: &SearchConfig, parallel: bool) -> (outcome:
    GaOutcome)
    requires
        config_fault(cities@.len(), *config).is_none(),
        population@.len() == config.population_size,
        is_population(population@, cities@),
    ensures
        is_run_outcome(outcome, cities@, *config),
        is_fittest_length(population@, outcome.first_best),
        config.elitism_k >= 1 ==> forall|k: int|
            0 <= k < population@.len() ==> outcome.best.length <= (#[trigger] population@[k]).length,
{
    let _count: usize = cities.len();
    let mut current: Vec<Individual> = population;
    let mut history: Vec<GenerationRecord> = Vec::new();
    let mut watch: EarlyStop = EarlyStop::new(config.patience);
    let mut generation: usize = 0;
    let mut stopped: bool = false;
    let first: usize = fittest_of(current.as_slice());
    let bound: u128 = current[first].length;
    assert(best_lengths(history@) =~= Seq::<u128>::empty());
    while generation < config.generations && !stopped
        invariant
            config_fault(cities@.len(), *config).is_none(),
            cities@.len() <= usize::MAX,
            current@.len() == config.population_size,
            is_population(current@, cities@),
            generation <= config.generations,
            history@.len() == generation,
            is_history(history@, *config),
            watch.patience == config.patience,
            watch.has_seen(best_lengths(history@)),
            stopped == stops_after(best_lengths(history@), config.patience as nat),
            config.elitism_k >= 1 ==> exists|k: int|
                0 <= k < current@.len() && (#[trigger] current@[k]).length <= bound,
            history@.len() > 0 ==> exists|k: int|
                0 <= k < current@.len() && (#[trigger] current@[k]).length
                    <= history@[history@.len() - 1].lengths@[0],
            config.elitism_k >= 1 && history@.len() > 0 ==> history@[0].lengths@[0] <= bound,
        decreases
                config.generations - generation,
                if stopped {
                    0nat
                } else {
                    1nat
                },
    {
        let rate: u32 = mutation_rate(config.base_mutation_rate, generation, config.generations);
        let mut next: Vec<Individual> = breed_generation(&current, cities, rate, parallel);
        proof {
            lemma_population_rankable(current@, cities@);
        }
        let ghost parents = current@;
        carry_elite(&current, &mut next, config.elitism_k);
        proof {
            if config.elitism_k >= 1 {
                let k = choose|k: int|
                    0 <= k < parents.len() && (#[trigger] parents[k]).length <= bound;
                assert(next@[0].length <= parents[k].length);
                if history@.len() > 0 {
                    let h = choose|h: int|
                        0 <= h < parents.len() && (#[trigger] parents[h]).length
                            <= history@[history@.len() - 1].lengths@[0];
                    assert(next@[0].length <= parents[h].length);
                }
            }
        }
        let ghost carried: u128 = next@[0].length;
        current = next;
        if is_refinement_due(config, generation) {
            let ghost unrefined = current@;
            refine_elite(&mut current, cities, config.top_n, parallel);
            proof {
                if config.elitism_k >= 1 {
                    assert(current@[0].length <= unrefined[0].length);
                }
            }
        }
        proof {
            lemma_population_rankable(current@, cities@);
        }
        let record: GenerationRecord = record_generation(generation, &current, rate);
        let best: u128 = record.lengths[0];
        let ghost bests = best_lengths(history@);
        let ghost past = history@;
        proof {
            lemma_watch_follows(watch, bests, best);
        }
        stopped = watch.observe(best);
        history.push(record);
        generation += 1;
        proof {
            let now = best_lengths(history@);
            assert(now =~= bests.push(best));
            assert forall|g: int| 0 <= g < history@.len() implies is_record_of(
                #[trigger] history@[g],
                *config,
                g,
            ) by {
                if g < past.len() {
                    assert(history@[g] == past[g]);
                }
            }
            if config.elitism_k >= 1 {
                assert(best <= current@[0].length);
                assert(current@[0].length <= carried);
                assert forall|g: int| 0 < g < history@.len() implies (
                #[trigger] history@[g]).lengths@[0] <= history@[g - 1].lengths@[0] by {
                    if g < past.len() {
                        assert(history@[g] == past[g]);
                        assert(history@[g - 1] == past[g - 1]);
                    } else {
                        assert(history@[g - 1] == past[g - 1]);
                    }
                }
            }
            assert forall|g: int| 0 < g < history@.len() implies !stops_after(
                #[trigger] now.subrange(0, g),
                config.patience as nat,
            ) by {
                if g < past.len() {
                    assert(now.subrange(0, g) =~= bests.subrange(0, g));
                } else {
                    assert(now.subrange(0, g) =~= bests);
                }
            }
        }
    }
    let at: usize = fittest_of(current.as_slice());
    let best: Individual = refine(&current[at], cities);
    proof {
        if config.elitism_k >= 1 {
            let k = choose|k: int| 0 <= k < current@.len() && (#[trigger] current@[k]).length <= bound;
            assert(current@[at as int].length <= current@[k].length);
        }
        if history@.len() > 0 {
            let k = choose|k: int|
                0 <= k < current@.len() && (#[trigger] current@[k]).length
                    <= history@[history@.len() - 1].lengths@[0];
            assert(current@[at as int].length <= current@[k].length);
        }
    }
    GaOutcome {
        best,
        history,
        generations_run: generation,
        stopped_early: stopped,
        first_best: bound,
    }
}


/// The settings of a run without refinement of the elite: the default
/// elitism and patience, and no generation in which refinement is due.
pub open spec fn baseline_config(
    population_size: usize,
    generations: usize,
    base_mutation_rate: u32,
) -> SearchConfig {
    SearchConfig {
        population_size,
        generations,
        base_mutation_rate,
        elitism_k: DEFAULT_ELITISM,
        refine_start: generations,
        refine_every: 1,
        top_n: 0,
        patience: DEFAULT_PATIENCE,
    }
}

/// The settings of a run with refinement of the elite and the default
/// patience.
pub open spec fn delayed_refinement_config(
    population_size: usize,
    generations: usize,
    base_mutation_rate: u32,
    elitism_k: usize,
    refine_start: usize,
    refine_every: usize,
    top_n: usize,
) -> SearchConfig {
    SearchConfig {
        population_size,
        generations,
        base_mutation_rate,
        elitism_k,
        refine_start,
        refine_every,
        top_n,
        patience: DEFAULT_PATIENCE,
    }
}

/// `run` is what a run over `cities` with the settings `config` returns:
/// the fault of the settings where they have one, and else an outcome of
/// such a run.
pub open spec fn is_run_result(
    run: Result<GaOutcome, SearchError>,
    cities: Seq<City>,
    config: SearchConfig,
) -> bool {
    match run {
        Ok(outcome) => config_fault(cities.len(), config).is_none() && is_run_outcome(
            outcome,
            cities,
            config,
        ),
        Err(fault) => config_fault(cities.len(), config) == Some(fault),
    }
}

/// The hybrid of genetic algorithm and 2-opt: checks the settings, makes a
/// random population and runs its generations, breeding and refining one
/// by one or, where `parallel` is set, all at once.
pub fn run_ga_hybrid(cities: &[City], config: &SearchConfig, parallel: bool) -> (run: Result<
    GaOutcome,
    SearchError,
>)
    ensures
        is_run_result(run, cities@, *config),
{
    match validate_config(cities.len(), config) {
        Err(fault) => Err(fault),
        Ok(_) => {
            let population: Vec<Individual> = initial_population(cities, config.population_size);
            Ok(evolve(population, cities, config, parallel))
        },
    }
}

/// The genetic algorithm with elitism and a last refinement of the best.
/// `base_mutation_rate` is in parts of `RATE_SCALE`.
pub fn run_ga(
    cities: &[City],
    population_size: usize,
    generations: usize,
    base_mutation_rate: u32,
) -> (run: Result<GaOutcome, SearchError>)
    ensures
        is_run_result(run, cities@, baseline_config(population_size, generations, base_mutation_rate)),
{
    let config: SearchConfig = SearchConfig {
        population_size,
        generations,
        base_mutation_rate,
        elitism_k: DEFAULT_ELITISM,
        refine_start: generations,
        refine_every: 1,
        top_n: 0,
        patience: DEFAULT_PATIENCE,
    };
    run_ga_hybrid(cities, &config, false)
}

/// The genetic algorithm with elitism and a last refinement of the best.
/// `base_mutation_rate` is in parts of `RATE_SCALE`.
pub fn run_ga_baseline(
    cities: &[City],
    population_size: usize,
    generations: usize,
    base_mutation_rate: u32,
) -> (run: Result<GaOutcome, SearchError>)
    ensures
        is_run_result(run, cities@, baseline_config(population_size, generations, base_mutation_rate)),
{
    run_ga(cities, population_size, generations, base_mutation_rate)
}

/// The genetic algorithm with delayed refinement of the elite, one
/// individual after the other. `base_mutation_rate` is in parts of
/// `RATE_SCALE`.
pub fn run_ga_config(
    cities: &[City],
    population_size: usize,
    generations: usize,
    base_mutation_rate: u32,
    elitism_k: usize,
    refine_start: usize,
    refine_every: usize,
    top_n: usize,
) -> (run: Result<GaOutcome, SearchError>)
    ensures
        is_run_result(
            run,
            cities@,
            delayed_refinement_config(
                population_size,
                generations,
                base_mutation_rate,
                elitism_k,
                refine_start,
                refine_every,
                top_n,
            ),
        ),
{
    let config: SearchConfig = SearchConfig {
        population_size,
        generations,
        base_mutation_rate,
        elitism_k,
        refine_start,
        refine_every,
        top_n,
        patience: DEFAULT_PATIENCE,
    };
    run_ga_hybrid(cities, &config, false)
}

/// The genetic algorithm with delayed refinement of the elite, breeding
/// and refining in parallel. `base_mutation_rate` is in parts of
/// `RATE_SCALE`.
pub fn run_ga_parallel(
    cities: &[City],
    population_size: usize,
    generations: usize,
    base_mutation_rate: u32,
    elitism_k: usize,
    refine_start: usize,
    refine_every: usize,
    top_n: usize,
) -> (run: Result<GaOutcome, SearchError>)
    ensures
        is_run_result(
            run,
            cities@,
            delayed_refinement_config(
                population_size,
                generations,
                base_mutation_rate,
                elitism_k,
                refine_start,
                refine_every,
                top_n,
            ),
        ),
{
    let config: SearchConfig = SearchConfig {
        population_size,
        generations,
        base_mutation_rate,
        elitism_k,
        refine_start,
        refine_every,
        top_n,
        patience: DEFAULT_PATIENCE,
    };
    run_ga_hybrid(cities, &config, true)
}

} // verus!
