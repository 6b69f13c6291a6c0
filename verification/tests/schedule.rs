use tsp_hybrid::{
    is_refinement_due, mutation_rate, validate_config, EarlyStop, SearchConfig, SearchError,
    DEFAULT_ELITISM, DEFAULT_PATIENCE, RATE_SCALE, TOURNAMENT_SIZE,
};

fn config() -> SearchConfig {
    SearchConfig {
        population_size: 20,
        generations: 100,
        base_mutation_rate: 100_000,
        elitism_k: 2,
        refine_start: 30,
        refine_every: 20,
        top_n: 5,
        patience: 100,
    }
}

fn stop_generation(bests: &[u128], patience: usize) -> Option<usize> {
    let mut watch = EarlyStop::new(patience);
    for (generation, best) in bests.iter().enumerate() {
        if watch.observe(*best) {
            return Some(generation);
        }
    }
    None
}

#[test]
fn defaults_are_what_they_are() {
    assert_eq!(RATE_SCALE, 1_000_000);
    assert_eq!(TOURNAMENT_SIZE, 5);
    assert_eq!(DEFAULT_ELITISM, 5);
    assert_eq!(DEFAULT_PATIENCE, 100);
}

#[test]
fn mutation_rate_decays_in_a_straight_line() {
    assert_eq!(mutation_rate(100_000, 0, 100), 100_000);
    assert_eq!(mutation_rate(100_000, 25, 100), 75_000);
    assert_eq!(mutation_rate(100_000, 50, 100), 50_000);
    assert_eq!(mutation_rate(100_000, 99, 100), 1_000);
    assert_eq!(mutation_rate(100_000, 100, 100), 0);
    assert_eq!(mutation_rate(100_000, 150, 100), 0);
}

#[test]
fn mutation_rate_rounds_down() {
    assert_eq!(mutation_rate(1, 1, 3), 0);
    assert_eq!(mutation_rate(10, 1, 3), 6);
    assert_eq!(mutation_rate(u32::MAX, 0, usize::MAX), u32::MAX);
    assert_eq!(mutation_rate(500_000, 0, 0), 0);
}

#[test]
fn refinement_waits_for_its_start_and_comes_at_its_interval() {
    let settings = config();
    assert!(!is_refinement_due(&settings, 0));
    assert!(!is_refinement_due(&settings, 20));
    assert!(!is_refinement_due(&settings, 30));
    assert!(is_refinement_due(&settings, 40));
    assert!(!is_refinement_due(&settings, 41));
    assert!(is_refinement_due(&settings, 60));
    let from_start = SearchConfig { refine_start: 0, refine_every: 1, ..settings };
    assert!(is_refinement_due(&from_start, 0));
    let never = SearchConfig { refine_every: 0, ..settings };
    assert!(!is_refinement_due(&never, 40));
}

#[test]
fn accepted_settings_pass() {
    assert_eq!(validate_config(2, &config()), Ok(()));
    let tight = SearchConfig { population_size: 5, elitism_k: 5, top_n: 5, ..config() };
    assert_eq!(validate_config(10, &tight), Ok(()));
    let no_generations = SearchConfig { generations: 0, ..config() };
    assert_eq!(validate_config(10, &no_generations), Ok(()));
}

#[test]
fn each_fault_is_reported() {
    assert_eq!(validate_config(0, &config()), Err(SearchError::TooFewCities));
    assert_eq!(validate_config(1, &config()), Err(SearchError::TooFewCities));
    let empty = SearchConfig { population_size: 0, elitism_k: 0, top_n: 0, ..config() };
    assert_eq!(validate_config(10, &empty), Err(SearchError::EmptyPopulation));
    let elite = SearchConfig { elitism_k: 21, ..config() };
    assert_eq!(validate_config(10, &elite), Err(SearchError::ElitismExceedsPopulation));
    let refined = SearchConfig { top_n: 21, ..config() };
    assert_eq!(validate_config(10, &refined), Err(SearchError::RefinementExceedsPopulation));
    let interval = SearchConfig { refine_every: 0, ..config() };
    assert_eq!(validate_config(10, &interval), Err(SearchError::ZeroRefinementInterval));
}

#[test]
fn the_first_fault_wins() {
    let many = SearchConfig { population_size: 0, elitism_k: 3, top_n: 3, refine_every: 0, ..config() };
    assert_eq!(validate_config(1, &many), Err(SearchError::TooFewCities));
    assert_eq!(validate_config(2, &many), Err(SearchError::EmptyPopulation));
    let two = SearchConfig { elitism_k: 30, top_n: 30, ..config() };
    assert_eq!(validate_config(2, &two), Err(SearchError::ElitismExceedsPopulation));
}

#[test]
fn a_plateau_stops_the_run_at_the_best_generation_plus_patience() {
    // The best generation is 2; the plateau after it is patience + 1 long.
    let bests: Vec<u128> = vec![10, 9, 8, 8, 8, 8, 8];
    assert_eq!(stop_generation(&bests, 3), Some(5));
    let worse: Vec<u128> = vec![10, 9, 8, 12, 9, 8, 30];
    assert_eq!(stop_generation(&worse, 3), Some(5));
}

#[test]
fn a_long_plateau_stops_a_hundred_generations_after_the_best() {
    let mut bests: Vec<u128> = (0..40).map(|g| 1000 - g).collect();
    let best_gen = bests.len() - 1;
    bests.extend(std::iter::repeat(961).take(101));
    assert_eq!(stop_generation(&bests, 100), Some(best_gen + 100));
}

#[test]
fn an_improvement_starts_the_count_again() {
    let bests: Vec<u128> = vec![10, 10, 10, 9, 9, 9, 8, 8, 8];
    assert_eq!(stop_generation(&bests, 3), None);
    let mut watch = EarlyStop::new(3);
    let stale: Vec<usize> = bests
        .iter()
        .map(|best| {
            watch.observe(*best);
            watch.stale
        })
        .collect();
    assert_eq!(stale, vec![0, 1, 2, 0, 1, 2, 0, 1, 2]);
    assert_eq!(watch.best, Some(8));
}

#[test]
fn no_patience_stops_after_the_first_generation() {
    assert_eq!(stop_generation(&[10, 9, 8], 0), Some(0));
    assert_eq!(stop_generation(&[], 0), None);
    assert_eq!(stop_generation(&[10, 10], 1), Some(1));
}
