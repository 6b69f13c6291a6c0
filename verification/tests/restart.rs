use rand::rngs::StdRng;
use rand::{Rng, SeedableRng};
use tsp_hybrid::{
    build_seed, pass_earns_another, SEED_SHARE, SINGLE_GAIN_THRESHOLD, cheapest_insertion_tour, compute_total_distance, find_cheapest_position, first_shortest,
    is_valid_tour, multi_2opt_optimized1, multi_2opt_optimized2_V2, multi_2opt_random_insert,
    multi_restart_search, nearest_neighbor_tour, two_opt_par_ver2, City, SearchError,
    SeedingPolicy, DEFAULT_WORKERS, MIN_PASS_GAIN, SAMPLED_GAIN_THRESHOLD, STEPS_PER_UNIT,
};

fn random_cities(n: usize, seed: u64) -> Vec<City> {
    let mut rng = StdRng::seed_from_u64(seed);
    (0..n)
        .map(|_| {
            let x: f64 = rng.gen_range(0.0..1000.0);
            let y: f64 = rng.gen_range(0.0..1000.0);
            City { x: (x * 1000.0) as i32, y: (y * 1000.0) as i32 }
        })
        .collect()
}

fn on_a_line(xs: &[i32]) -> Vec<City> {
    xs.iter().map(|x| City { x: *x, y: 0 }).collect()
}

#[test]
fn thresholds_are_counted_in_grid_steps() {
    assert_eq!(STEPS_PER_UNIT, 1000);
    assert_eq!(SAMPLED_GAIN_THRESHOLD, 10 * STEPS_PER_UNIT as i64);
    assert_eq!(MIN_PASS_GAIN, STEPS_PER_UNIT as u128);
    assert_eq!(SINGLE_GAIN_THRESHOLD, STEPS_PER_UNIT as i64);
    assert_eq!(DEFAULT_WORKERS, 32);
    assert_eq!(SEED_SHARE, 100);
}

#[test]
fn a_worker_goes_on_while_a_pass_saves_enough() {
    assert!(pass_earns_another(5000, 4000, 1000));
    assert!(pass_earns_another(5000, 3000, 1000));
    assert!(!pass_earns_another(5000, 4001, 1000));
    assert!(!pass_earns_another(5000, 5000, 1000));
    assert!(!pass_earns_another(5000, 6000, 1000));
    assert!(!pass_earns_another(5000, 5000, 0));
    assert!(pass_earns_another(5000, 4999, 0));
}

#[test]
fn the_seed_is_built_as_policy_and_coin_say() {
    let cities = on_a_line(&[0, 10, 3, 7]);
    let order: Vec<usize> = vec![3, 1, 0, 2];
    assert_eq!(build_seed(SeedingPolicy::Random, true, order.clone(), 1, &cities), order);
    assert_eq!(build_seed(SeedingPolicy::Random, false, order.clone(), 1, &cities), order);
    assert_eq!(build_seed(SeedingPolicy::NearestNeighbor, true, order.clone(), 1, &cities), order);
    assert_eq!(
        build_seed(SeedingPolicy::NearestNeighbor, false, order.clone(), 1, &cities),
        vec![1, 3, 2, 0]
    );
    assert_eq!(build_seed(SeedingPolicy::CheapestInsertion, true, order.clone(), 1, &cities), order);
    // No seeds for four cities: 3, then 1 before it, then 0 after it, then 2 between 3 and 0.
    assert_eq!(
        build_seed(SeedingPolicy::CheapestInsertion, false, order.clone(), 1, &cities),
        vec![1, 3, 2, 0]
    );
}

#[test]
fn nearest_neighbor_walks_to_the_nearest_city_left() {
    let cities = on_a_line(&[0, 10, 3, 7]);
    assert_eq!(nearest_neighbor_tour(0, &cities), vec![0, 2, 3, 1]);
    assert_eq!(nearest_neighbor_tour(1, &cities), vec![1, 3, 2, 0]);
    assert_eq!(nearest_neighbor_tour(0, &on_a_line(&[5])), vec![0]);
}

#[test]
fn nearest_neighbor_takes_the_smaller_number_of_equally_near_cities() {
    let cities = on_a_line(&[0, 4, -4, 8]);
    assert_eq!(nearest_neighbor_tour(0, &cities), vec![0, 1, 3, 2]);
}

#[test]
fn cheapest_position_is_the_first_of_the_cheapest() {
    let cities = on_a_line(&[0, 10, 5]);
    assert_eq!(find_cheapest_position(&vec![], &cities, 1), 0);
    assert_eq!(find_cheapest_position(&vec![0], &cities, 1), 0);
    assert_eq!(find_cheapest_position(&vec![1, 0], &cities, 2), 1);
    assert_eq!(find_cheapest_position(&vec![2, 1], &cities, 0), 0);
    assert_eq!(find_cheapest_position(&vec![1, 2], &cities, 0), 2);
}

#[test]
fn cheapest_insertion_puts_each_city_where_it_costs_least() {
    let cities = on_a_line(&[0, 10, 5]);
    assert_eq!(cheapest_insertion_tour(&[0, 1, 2], 1, &cities), vec![1, 2, 0]);
    assert_eq!(cheapest_insertion_tour(&[0, 1, 2], 0, &cities), vec![1, 2, 0]);
    assert_eq!(cheapest_insertion_tour(&[0, 1, 2], 3, &cities), vec![0, 1, 2]);
    assert_eq!(cheapest_insertion_tour(&[], 0, &cities), Vec::<usize>::new());
}

#[test]
fn cheapest_insertion_keeps_the_cities() {
    let cities = random_cities(30, 11);
    let order: Vec<usize> = (0..30).rev().collect();
    let route = cheapest_insertion_tour(&order, 3, &cities);
    assert!(is_valid_tour(&route, 30));
    assert_eq!(&route_without(&route, &order[3..]), &order[..3]);
}

fn route_without(route: &[usize], later: &[usize]) -> Vec<usize> {
    route.iter().filter(|c| !later.contains(*c)).cloned().collect()
}

#[test]
fn first_shortest_is_the_first_of_the_cheapest() {
    let found: Vec<(Vec<usize>, u128)> =
        vec![(vec![0], 9), (vec![1], 4), (vec![2], 7), (vec![3], 4)];
    assert_eq!(first_shortest(&found), 1);
    assert_eq!(first_shortest(&vec![(vec![0], 9)]), 0);
}

#[test]
fn every_seeding_policy_gives_a_tour_with_its_cost() {
    let cities = random_cities(40, 121);
    for policy in [SeedingPolicy::Random, SeedingPolicy::NearestNeighbor, SeedingPolicy::CheapestInsertion] {
        let (tour, cost) = multi_restart_search(&cities, 4, policy).unwrap();
        assert!(is_valid_tour(&tour, 40));
        assert_eq!(cost, compute_total_distance(&tour, &cities));
    }
}

#[test]
fn restart_searches_give_a_tour_with_its_cost() {
    let cities = random_cities(25, 9);
    let tour: Vec<usize> = (0..25).collect();
    let runs = vec![
        multi_2opt_optimized1(&tour, &cities),
        multi_2opt_optimized2_V2(&tour, &cities),
        multi_2opt_random_insert(&tour, &cities),
        two_opt_par_ver2(&tour, &cities),
    ];
    for run in runs {
        let (best, cost) = run.unwrap();
        assert!(is_valid_tour(&best, 25));
        assert_eq!(cost, compute_total_distance(&best, &cities));
    }
}

#[test]
fn two_cities_are_enough() {
    let cities = on_a_line(&[0, 1000]);
    for policy in [SeedingPolicy::Random, SeedingPolicy::NearestNeighbor, SeedingPolicy::CheapestInsertion] {
        let (tour, cost) = multi_restart_search(&cities, 2, policy).unwrap();
        assert!(is_valid_tour(&tour, 2));
        assert_eq!(cost, 2000);
    }
    assert_eq!(two_opt_par_ver2(&[0, 1], &cities).unwrap().1, 2000);
}

#[test]
fn restart_searches_refuse_bad_input() {
    let cities = random_cities(10, 121);
    let one = random_cities(1, 121);
    assert_eq!(
        multi_restart_search(&one, 4, SeedingPolicy::Random).err(),
        Some(SearchError::TooFewCities)
    );
    assert_eq!(
        multi_restart_search(&cities, 0, SeedingPolicy::Random).err(),
        Some(SearchError::NoWorkers)
    );
    assert_eq!(
        multi_restart_search(&[], 0, SeedingPolicy::NearestNeighbor).err(),
        Some(SearchError::TooFewCities)
    );
    let short: Vec<usize> = vec![0, 1, 2];
    assert_eq!(multi_2opt_optimized1(&short, &cities).err(), Some(SearchError::TourLengthMismatch));
    assert_eq!(multi_2opt_optimized2_V2(&short, &cities).err(), Some(SearchError::TourLengthMismatch));
    assert_eq!(multi_2opt_random_insert(&short, &cities).err(), Some(SearchError::TourLengthMismatch));
    assert_eq!(two_opt_par_ver2(&short, &cities).err(), Some(SearchError::TourLengthMismatch));
    assert_eq!(multi_2opt_optimized1(&[0], &one).err(), Some(SearchError::TooFewCities));
    assert_eq!(two_opt_par_ver2(&[0, 1], &one).err(), Some(SearchError::TooFewCities));
}
