//! The settings of a run and the rules that pace it: which settings are
//! accepted, how the mutation rate decays, when the elite is refined, and
//! when a run that no longer improves is stopped.

use vstd::prelude::*;

verus! {

/// A mutation rate of one: rates are counted in parts of this.
pub const RATE_SCALE: u32 = 1_000_000;

/// How many individuals a tournament draws.
pub const TOURNAMENT_SIZE: usize = 5;

/// How many of the fittest are carried over where the caller names no
/// number.
pub const DEFAULT_ELITISM: usize = 5;

/// How many generations without improvement a run waits before it stops,
/// where the caller names no number.
pub const DEFAULT_PATIENCE: usize = 100;

/// Why a search refused its input.
#[derive(Clone, Copy, Debug, PartialEq, Eq, Structural)]
pub enum SearchError {
    /// There are fewer than two cities.
    TooFewCities,
    /// The tour handed in has not one entry for each city.
    TourLengthMismatch,
    /// The population is empty.
    EmptyPopulation,
    /// More individuals are to be carried over than the population holds.
    ElitismExceedsPopulation,
    /// More individuals are to be refined than the population holds.
    RefinementExceedsPopulation,
    /// Refinement is to come every 0 generations.
    ZeroRefinementInterval,
    /// There is no worker to search.
    NoWorkers,
}

/// The settings of a run of the genetic algorithm.
#[derive(Clone, Copy, Debug, PartialEq, Eq, Structural)]
pub struct SearchConfig {
    /// How many individuals a generation holds.
    pub population_size: usize,
    /// How many generations a run makes at most.
    pub generations: usize,
    /// The mutation rate of generation 0, in parts of `RATE_SCALE`.
    pub base_mutation_rate: u32,
    /// How many of the fittest are carried over unchanged.
    pub elitism_k: usize,
    /// The first generation in which the elite may be refined.
    pub refine_start: usize,
    /// Refinement comes in the generations that this number divides.
    pub refine_every: usize,
    /// How many of the fittest are refined.
    pub top_n: usize,
    /// How many generations without improvement end the run.
    pub patience: usize,
}

/// What is wrong with the settings for `cities` cities: the first fault, in
/// the order of the variants, or `None` where they are accepted.
pub open spec fn config_fault(cities: nat, config: SearchConfig) -> Option<SearchError> {
    if cities < 2 {
        Some(SearchError::TooFewCities)
    } else if config.population_size == 0 {
        Some(SearchError::EmptyPopulation)
    } else if config.elitism_k > config.population_size {
        Some(SearchError::ElitismExceedsPopulation)
    } else if config.top_n > config.population_size {
        Some(SearchError::RefinementExceedsPopulation)
    } else if config.refine_every == 0 {
        Some(SearchError::ZeroRefinementInterval)
    } else {
        None
    }
}

/// Checks the settings of a run for `cities` cities.
pub fn validate_config(cities: usize, config: &SearchConfig) -> (checked: Result<(), SearchError>)
    ensures
        match checked {
            Ok(_) => config_fault(cities as nat, *config).is_none(),
            Err(fault) => config_fault(cities as nat, *config) == Some(fault),
        },
{
    if cities < 2 {
        Err(SearchError::TooFewCities)
    } else if config.population_size == 0 {
        Err(SearchError::EmptyPopulation)
    } else if config.elitism_k > config.population_size {
        Err(SearchError::ElitismExceedsPopulation)
    } else if config.top_n > config.population_size {
        Err(SearchError::RefinementExceedsPopulation)
    } else if config.refine_every == 0 {
        Err(SearchError::ZeroRefinementInterval)
    } else {
        Ok(())
    }
}

/// The mutation rate of generation `generation` of `generations`: the base
/// rate, decaying in a straight line to 0 at the end of the run, rounded
/// down to a part of `RATE_SCALE`.
pub open spec fn mutation_rate_at(base: u32, generation: nat, generations: nat) -> nat {
    if generations == 0 || generation >= generations {
        0
    } else {
        ((base as nat) * ((generations - generation) as nat) / generations) as nat
    }
}

/// The mutation rate of generation `generation` of `generations`.
pub fn mutation_rate(base: u32, generation: usize, generations: usize) -> (rate: u32)
    ensures
        rate == mutation_rate_at(base, generation as nat, generations as nat),
        rate <= base,
{
    if generations == 0 || generation >= generations {
        return 0;
    }
    let left: u128 = (generations - generation) as u128;
    assert(base as nat * left as nat <= 0xffff_ffff * 0xffff_ffff_ffff_ffff) by (nonlinear_arith)
        requires
            base <= 0xffff_ffff,
            left <= 0xffff_ffff_ffff_ffff,
    ;
    let scaled: u128 = base as u128 * left;
    let rate: u128 = scaled / generations as u128;
    assert(rate <= base) by (nonlinear_arith)
        requires
            rate == (base as int * left as int) / (generations as int),
            0 < left <= generations,
            0 <= base,
    ;
    rate as u32
}

/// Whether the elite is refined in generation `generation`.
pub open spec fn refines_at(config: SearchConfig, generation: nat) -> bool {
    config.refine_every > 0 && generation >= config.refine_start && generation
        % (config.refine_every as nat) == 0
}

/// Tells whether the elite is refined in generation `generation`.
pub fn is_refinement_due(config: &SearchConfig, generation: usize) -> (due: bool)
    ensures
        due == refines_at(*config, generation as nat),
{
    config.refine_every > 0 && generation >= config.refine_start && generation
        % config.refine_every == 0
}

/// The shortest tour length among the first `upto` of `bests`.
pub open spec fn best_so_far(bests: Seq<u128>, upto: int) -> u128
    decreases upto,
{
    if upto <= 1 {
        bests[0]
    } else if bests[upto - 1] < best_so_far(bests, upto - 1) {
        bests[upto - 1]
    } else {
        best_so_far(bests, upto - 1)
    }
}

/// How many generations in a row, up to the last of the first `upto`, have
/// brought no tour shorter than any before them. The first generation
/// always counts as an improvement.
pub open spec fn stale_after(bests: Seq<u128>, upto: int) -> nat
    decreases upto,
{
    if upto <= 1 {
        0
    } else if bests[upto - 1] < best_so_far(bests, upto - 1) {
        0
    } else {
        stale_after(bests, upto - 1) + 1
    }
}

/// Whether a run with the best lengths `bests`, one for each generation so
/// far, stops after the last of them.
pub open spec fn stops_after(bests: Seq<u128>, patience: nat) -> bool {
    bests.len() > 0 && stale_after(bests, bests.len() as int) >= patience
}

/// The watch that stops a run which no longer improves.
#[derive(Clone, Copy, Debug, PartialEq, Eq, Structural)]
pub struct EarlyStop {
    /// How many generations without improvement end the run.
    pub patience: usize,
    /// The shortest tour length seen, once a generation was seen.
    pub best: Option<u128>,
    /// How many generations in a row have brought no improvement.
    pub stale: usize,
}

impl EarlyStop {
    /// The watch has seen the generations whose best lengths are `bests`.
    pub open spec fn has_seen(&self, bests: Seq<u128>) -> bool {
        if bests.len() == 0 {
            self.best.is_none() && self.stale == 0
        } else {
            &&& self.best == Some(best_so_far(bests, bests.len() as int))
            &&& self.stale == stale_after(bests, bests.len() as int)
        }
    }

    /// A watch that has seen no generation.
    pub fn new(patience: usize) -> (watch: EarlyStop)
        ensures
            watch.patience == patience,
            watch.has_seen(Seq::empty()),
    {
        EarlyStop { patience, best: None, stale: 0 }
    }

    /// Whether a generation whose shortest tour has length `best` improves
    /// on what the watch has seen.
    pub open spec fn improved_by(&self, best: u128) -> bool {
        match self.best {
            None => true,
            Some(shortest) => best < shortest,
        }
    }

    /// The watch after a generation whose shortest tour has length `best`.
    pub open spec fn after(&self, best: u128) -> EarlyStop {
        if self.improved_by(best) {
            EarlyStop { patience: self.patience, best: Some(best), stale: 0 }
        } else {
            EarlyStop {
                patience: self.patience,
                best: self.best,
                stale: if self.stale < usize::MAX {
                    (self.stale + 1) as usize
                } else {
                    self.stale
                },
            }
        }
    }

    /// Whether the run stops now: as many generations in a row as the
    /// patience have brought no improvement.
    pub open spec fn is_due(&self) -> bool {
        self.stale >= self.patience
    }

    /// Takes note of a generation whose shortest tour has length `best`,
    /// and tells whether the run stops after it.
    pub fn observe(&mut self, best: u128) -> (stop: bool)
        ensures
            *final(self) == old(self).after(best),
            stop == final(self).is_due(),
    {
        let improved: bool = match self.best {
            None => true,
            Some(shortest) => best < shortest,
        };
        if improved {
            self.best = Some(best);
            self.stale = 0;
        } else if self.stale < usize::MAX {
            self.stale = self.stale + 1;
        }
        self.stale >= self.patience
    }
}

/// A watch that has seen the generations `bests` and then one more has
/// seen them all, and stops the run exactly when `stops_after` says so.
pub proof fn lemma_watch_follows(watch: EarlyStop, bests: Seq<u128>, best: u128)
    requires
        watch.has_seen(bests),
        bests.len() < usize::MAX,
    ensures
        watch.after(best).has_seen(bests.push(best)),
        watch.after(best).is_due() == stops_after(bests.push(best), watch.patience as nat),
{
    let seen = bests.push(best);
    assert(seen.len() == bests.len() + 1);
    assert(seen[bests.len() as int] == best);
    if bests.len() > 0 {
        lemma_watch_ignores_later(bests, seen, bests.len() as int);
        lemma_stale_bound(bests, bests.len() as int);
    }
}

/// No more generations are counted than were seen.
pub proof fn lemma_stale_bound(bests: Seq<u128>, upto: int)
    requires
        1 <= upto <= bests.len(),
    ensures
        stale_after(bests, upto) < upto,
    decreases upto,
{
    if upto > 1 {
        lemma_stale_bound(bests, upto - 1);
    }
}

/// What the watch has counted after `upto` generations does not depend on
/// the generations after them.
pub proof fn lemma_watch_ignores_later(bests: Seq<u128>, longer: Seq<u128>, upto: int)
    requires
        1 <= upto <= bests.len() <= longer.len(),
        forall|k: int| 0 <= k < bests.len() ==> bests[k] == longer[k],
    ensures
        best_so_far(longer, upto) == best_so_far(bests, upto),
        stale_after(longer, upto) == stale_after(bests, upto),
    decreases upto,
{
    if upto > 1 {
        lemma_watch_ignores_later(bests, longer, upto - 1);
    }
}

/// Early stopping: where generation `best_gen` brought an improvement and
/// none of the `patience` generations after it did, the count of
/// generations without improvement is `g - best_gen` after each of them,
/// so it reaches `patience` in generation `best_gen + patience` and in none
/// of them before. A run that has come as far as `best_gen` stops there.
pub proof fn lemma_plateau_stops_run(bests: Seq<u128>, best_gen: int, patience: nat)
    requires
        patience >= 1,
        0 <= best_gen,
        best_gen + patience < bests.len(),
        stale_after(bests, best_gen + 1) == 0,
        forall|g: int|
            best_gen < g <= best_gen + patience ==> #[trigger] bests[g] >= best_so_far(
                bests,
                best_gen + 1,
            ),
    ensures
        forall|g: int|
            best_gen <= g <= best_gen + patience ==> #[trigger] stale_after(bests, g + 1) == g
                - best_gen,
        stale_after(bests, best_gen + patience + 1) == patience,
        stops_after(bests.subrange(0, best_gen + patience + 1), patience),
        forall|g: int|
            best_gen <= g < best_gen + patience ==> !stops_after(
                #[trigger] bests.subrange(0, g + 1),
                patience,
            ),
{
    lemma_plateau_counts(bests, best_gen, best_gen + patience);
    assert forall|g: int| best_gen <= g <= best_gen + patience implies #[trigger] stale_after(
        bests,
        g + 1,
    ) == g - best_gen by {
        lemma_plateau_counts(bests, best_gen, g);
    }
    let whole = bests.subrange(0, best_gen + patience + 1);
    lemma_watch_ignores_later(whole, bests, best_gen + patience + 1);
    assert forall|g: int| best_gen <= g < best_gen + patience implies !stops_after(
        #[trigger] bests.subrange(0, g + 1),
        patience,
    ) by {
        let part = bests.subrange(0, g + 1);
        lemma_watch_ignores_later(part, bests, g + 1);
        assert(stale_after(bests, g + 1) == g - best_gen);
    }
}

/// On a plateau that starts after generation `best_gen`, every generation
/// adds one to the count, and the best length stays what it was.
pub proof fn lemma_plateau_counts(bests: Seq<u128>, best_gen: int, g: int)
    requires
        0 <= best_gen <= g < bests.len(),
        stale_after(bests, best_gen + 1) == 0,
        forall|h: int|
            best_gen < h <= g ==> #[trigger] bests[h] >= best_so_far(bests, best_gen + 1),
    ensures
        stale_after(bests, g + 1) == g - best_gen,
        best_so_far(bests, g + 1) == best_so_far(bests, best_gen + 1),
    decreases g - best_gen,
{
    if g > best_gen {
        lemma_plateau_counts(bests, best_gen, g - 1);
        assert(bests[g] >= best_so_far(bests, best_gen + 1));
    }
}

} // verus!
