use rand::rngs::StdRng;
use rand::{Rng, SeedableRng};
use tsp_hybrid::{
    carry_elite, compute_total_distance, evaluate_exchange, evolve, fitness_order, fittest_of,
    initial_population, is_valid_tour, mutation_rate, record_generation, refine, refine_elite,
    run_ga, run_ga_baseline, run_ga_config, run_ga_hybrid, run_ga_parallel, City, GaOutcome,
    Individual, Ranked, SearchConfig, SearchError,
};

fn random_cities(n: usize, seed: u64) -> Vec<City> {
    let mut rng = StdRng::seed_from_u64(seed);
    (0..n)
        .map(|_| {
            let x: f64 = rng.gen_range(0.0..1000.0);
            let y: f64 = rng.gen_range(0.0..1000.0);
            City { x: (x * 1000.0) as i32, y: (y * 1000.0) as i32 }
        })
        .collect()
}

fn is_local_optimum(tour: &[usize], cities: &[City]) -> bool {
    (1..tour.len()).all(|i| (i + 1..tour.len()).all(|j| evaluate_exchange(tour, cities, i, j) <= 0))
}

fn check_outcome(outcome: &GaOutcome, cities: &[City], config: &SearchConfig) {
    assert!(is_valid_tour(&outcome.best.tour, cities.len()));
    assert_eq!(outcome.best.length, compute_total_distance(&outcome.best.tour, cities));
    assert!(is_local_optimum(&outcome.best.tour, cities));
    assert_eq!(outcome.history.len(), outcome.generations_run);
    assert!(outcome.generations_run <= config.generations);
    if !outcome.stopped_early {
        assert_eq!(outcome.generations_run, config.generations);
    }
    for (g, record) in outcome.history.iter().enumerate() {
        assert_eq!(record.generation, g);
        assert_eq!(record.mutation_rate, mutation_rate(config.base_mutation_rate, g, config.generations));
        assert_eq!(record.lengths.len(), config.population_size);
        assert!(record.lengths.windows(2).all(|w| w[0] <= w[1]));
    }
    if let Some(last) = outcome.history.last() {
        assert!(outcome.best.length <= last.lengths[0]);
    }
    if config.elitism_k >= 1 {
        assert!(outcome.best.length <= outcome.first_best);
        let bests: Vec<u128> = outcome.history.iter().map(|record| record.lengths[0]).collect();
        assert!(bests.windows(2).all(|w| w[1] <= w[0]));
        assert!(bests.iter().all(|best| *best <= outcome.first_best));
    }
}

fn settings() -> SearchConfig {
    SearchConfig {
        population_size: 20,
        generations: 100,
        base_mutation_rate: 100_000,
        elitism_k: 2,
        refine_start: 30,
        refine_every: 20,
        top_n: 5,
        patience: 100,
    }
}

#[test]
fn run_ga_is_no_worse_than_the_best_of_its_first_population() {
    let cities = random_cities(10, 121);
    let population = initial_population(&cities, 20);
    let first_best = population.iter().map(|one| one.length).min().unwrap();
    let config = SearchConfig {
        population_size: 20,
        generations: 100,
        base_mutation_rate: 100_000,
        elitism_k: 5,
        refine_start: 100,
        refine_every: 1,
        top_n: 0,
        patience: 100,
    };
    let outcome = evolve(population, &cities, &config, false);
    check_outcome(&outcome, &cities, &config);
    assert_eq!(outcome.first_best, first_best);
    assert!(outcome.best.length <= first_best);
}

#[test]
fn run_ga_reports_the_best_of_its_first_population_and_beats_it() {
    let cities = random_cities(10, 121);
    let outcome = run_ga(&cities, 20, 100, 100_000).unwrap();
    assert!(compute_total_distance(&outcome.best.tour, &cities) <= outcome.first_best);
}

#[test]
fn run_ga_returns_a_refined_tour_of_all_cities() {
    let cities = random_cities(10, 121);
    let outcome = run_ga(&cities, 20, 100, 100_000).unwrap();
    let config = SearchConfig {
        population_size: 20,
        generations: 100,
        base_mutation_rate: 100_000,
        elitism_k: 5,
        refine_start: 100,
        refine_every: 1,
        top_n: 0,
        patience: 100,
    };
    check_outcome(&outcome, &cities, &config);
    let again = run_ga_baseline(&cities, 20, 100, 100_000).unwrap();
    check_outcome(&again, &cities, &config);
}

#[test]
fn the_best_length_of_a_generation_never_grows_under_elitism() {
    let cities = random_cities(12, 7);
    let outcome = run_ga_config(&cities, 20, 60, 100_000, 2, 30, 20, 5).unwrap();
    check_outcome(&outcome, &cities, &SearchConfig { generations: 60, ..settings() });
    let bests: Vec<u128> = outcome.history.iter().map(|record| record.lengths[0]).collect();
    assert!(bests.windows(2).all(|w| w[1] <= w[0]));
}

#[test]
fn the_parallel_run_meets_the_same_contract() {
    let cities = random_cities(12, 7);
    let outcome = run_ga_parallel(&cities, 20, 100, 100_000, 2, 30, 20, 5).unwrap();
    check_outcome(&outcome, &cities, &settings());
    let hybrid = run_ga_hybrid(&cities, &settings(), true).unwrap();
    check_outcome(&hybrid, &cities, &settings());
}

#[test]
fn a_run_stops_early_when_it_no_longer_improves() {
    let cities = random_cities(6, 3);
    let config = SearchConfig { generations: 400, patience: 10, ..settings() };
    let outcome = run_ga_hybrid(&cities, &config, false).unwrap();
    check_outcome(&outcome, &cities, &config);
    assert!(outcome.stopped_early);
    assert!(outcome.generations_run < 400);
    let bests: Vec<u128> = outcome.history.iter().map(|record| record.lengths[0]).collect();
    let last = bests.len() - 1;
    let best_gen = (0..bests.len()).find(|g| bests[*g] == bests[last]).unwrap();
    assert_eq!(last, best_gen + 10);
}

#[test]
fn a_run_without_generations_refines_the_best_of_the_first_population() {
    let cities = random_cities(8, 5);
    let config = SearchConfig { generations: 0, ..settings() };
    let outcome = run_ga_hybrid(&cities, &config, false).unwrap();
    check_outcome(&outcome, &cities, &config);
    assert_eq!(outcome.generations_run, 0);
    assert!(!outcome.stopped_early);
}

#[test]
fn invalid_settings_are_refused_before_anything_runs() {
    let cities = random_cities(10, 121);
    let one_city = random_cities(1, 121);
    assert_eq!(run_ga(&one_city, 20, 100, 100_000).err(), Some(SearchError::TooFewCities));
    assert_eq!(run_ga(&cities, 0, 100, 100_000).err(), Some(SearchError::EmptyPopulation));
    assert_eq!(run_ga(&cities, 4, 100, 100_000).err(), Some(SearchError::ElitismExceedsPopulation));
    assert_eq!(
        run_ga_config(&cities, 20, 100, 100_000, 2, 30, 20, 21).err(),
        Some(SearchError::RefinementExceedsPopulation)
    );
    assert_eq!(
        run_ga_parallel(&cities, 20, 100, 100_000, 2, 30, 0, 5).err(),
        Some(SearchError::ZeroRefinementInterval)
    );
    assert_eq!(
        run_ga_baseline(&[], 20, 100, 100_000).err(),
        Some(SearchError::TooFewCities)
    );
}

#[test]
fn the_first_population_holds_random_tours_with_their_costs() {
    let cities = random_cities(10, 121);
    let population = initial_population(&cities, 20);
    assert_eq!(population.len(), 20);
    for one in &population {
        assert!(is_valid_tour(&one.tour, 10));
        assert_eq!(one.length, compute_total_distance(&one.tour, &cities));
    }
    assert!(initial_population(&cities, 0).is_empty());
}

#[test]
fn the_fittest_has_the_shortest_tour() {
    let population: Vec<Individual> = vec![50, 30, 70, 30, 90]
        .into_iter()
        .map(|length| Individual { tour: vec![0, 1, 2], length })
        .collect();
    assert_eq!(fittest_of(&population), 3);
    assert_eq!(
        fitness_order(&population),
        vec![
            Ranked { key: 30, index: 1 },
            Ranked { key: 30, index: 3 },
            Ranked { key: 50, index: 0 },
            Ranked { key: 70, index: 2 },
            Ranked { key: 90, index: 4 },
        ]
    );
    let record = record_generation(4, &population, 250);
    assert_eq!(record.generation, 4);
    assert_eq!(record.mutation_rate, 250);
    assert_eq!(record.lengths, vec![30, 30, 50, 70, 90]);
}

#[test]
fn the_elite_takes_the_first_places() {
    let previous: Vec<Individual> = vec![50, 30, 70, 20]
        .into_iter()
        .enumerate()
        .map(|(k, length)| Individual { tour: vec![k], length })
        .collect();
    let offspring: Vec<Individual> = vec![1, 2, 3, 4]
        .into_iter()
        .map(|length| Individual { tour: vec![9], length })
        .collect();
    let mut next = offspring.clone();
    carry_elite(&previous, &mut next, 2);
    let seen: Vec<(Vec<usize>, u128)> = next.iter().map(|one| (one.tour.clone(), one.length)).collect();
    assert_eq!(seen, vec![(vec![3], 20), (vec![1], 30), (vec![9], 3), (vec![9], 4)]);
    let mut untouched = offspring.clone();
    carry_elite(&previous, &mut untouched, 0);
    assert_eq!(untouched.iter().map(|one| one.length).collect::<Vec<u128>>(), vec![1, 2, 3, 4]);
}

#[test]
fn refinement_improves_the_fittest_and_leaves_the_rest() {
    let cities = random_cities(10, 121);
    let before = initial_population(&cities, 8);
    let order = fitness_order(&before);
    let mut after = before.clone();
    refine_elite(&mut after, &cities, 3, true);
    for (rank, entry) in order.iter().enumerate() {
        let at = entry.index;
        assert!(is_valid_tour(&after[at].tour, 10));
        assert_eq!(after[at].length, compute_total_distance(&after[at].tour, &cities));
        assert!(after[at].length <= before[at].length);
        if rank < 3 {
            assert!(is_local_optimum(&after[at].tour, &cities));
        } else {
            assert_eq!(after[at].tour, before[at].tour);
        }
    }
    let mut one_by_one = before.clone();
    refine_elite(&mut one_by_one, &cities, 3, false);
    for k in 0..8 {
        assert_eq!(one_by_one[k].tour, after[k].tour);
    }
    let refined = refine(&before[0], &cities);
    assert!(is_local_optimum(&refined.tour, &cities));
    assert!(refined.length <= before[0].length);
}
