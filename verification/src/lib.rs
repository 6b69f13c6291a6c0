//! Tour improvement for the travelling salesman problem on an integer grid:
//! 2-opt local search, conflict-free batches of exchanges, multi-restart
//! search, and a genetic algorithm that refines its elite with 2-opt.

pub mod batch;
pub mod candidates;
pub mod conflict;
pub mod crossover;
pub mod generate;
pub mod genetic;
pub mod geometry;
pub mod individual;
pub mod local_search;
pub mod mutation;
pub mod parallel;
pub mod population;
pub mod random;
pub mod rank;
pub mod restart;
pub mod schedule;
pub mod seeding;
pub mod selection;
pub mod tour;

pub use batch::{
    batch_pass, par_prototype, par_topk, par_topkplus, parallel_batch_2opt, two_opt_par,
    BatchConfig, BatchReport, CommitPolicy, PassOutcome, MAX_PASSES,
};
pub use candidates::{all_exchanges, improving_candidates, rank_candidates};
pub use conflict::{apply_exchanges, select_conflict_free, CandidateSwap};
pub use crossover::{order_crossover, order_crossover_at};
pub use genetic::{
    carry_elite, evolve, record_generation, refine_elite, run_ga, run_ga_baseline, run_ga_config,
    run_ga_hybrid, run_ga_parallel, GaOutcome, GenerationRecord,
};
pub use generate::{generate_cities, generate_random_cities, FIELD_SIDE, SMALL_FIELD_SIDE};
pub use geometry::{euclidean_distance, integer_sqrt, City};
pub use individual::Individual;
pub use local_search::{find_first_improvement, two_opt, two_opt_seq};
pub use mutation::{swap_mutation, swap_positions};
pub use population::{fitness_order, fittest_of, initial_population, refine};
pub use rank::{rank_entries, Ranked};
pub use restart::{
    first_shortest, multi_2opt_optimized1, multi_2opt_optimized2_V2, multi_2opt_random_insert,
    multi_restart_search, pass_earns_another, two_opt_par_ver2, DEFAULT_WORKERS, MIN_PASS_GAIN,
    SAMPLED_GAIN_THRESHOLD, SAMPLING_ROUNDS, SINGLE_GAIN_THRESHOLD, STEPS_PER_UNIT,
};
pub use schedule::{
    is_refinement_due, mutation_rate, validate_config, EarlyStop, SearchConfig, SearchError,
    DEFAULT_ELITISM, DEFAULT_PATIENCE, RATE_SCALE, TOURNAMENT_SIZE,
};
pub use seeding::{
    build_seed, cheapest_insertion_tour, find_cheapest_position, nearest_neighbor_tour,
    shuffle_tour, SeedingPolicy, SEED_SHARE,
};
pub use selection::{decide_tournament, tournament_selection};
pub use tour::{
    compute_total_distance, evaluate_exchange, has_cities_within, identity_tour, is_valid_tour,
    reverse_segment,
};
