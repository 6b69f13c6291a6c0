use tsp_hybrid::{
    compute_total_distance, evaluate_exchange, find_first_improvement, has_cities_within,
    identity_tour, is_valid_tour, reverse_segment, two_opt, two_opt_seq, City,
};

fn square() -> Vec<City> {
    vec![
        City { x: 0, y: 0 },
        City { x: 0, y: 1000 },
        City { x: 1000, y: 1000 },
        City { x: 1000, y: 0 },
    ]
}

fn line() -> Vec<City> {
    vec![
        City { x: 0, y: 0 },
        City { x: 1000, y: 0 },
        City { x: 2000, y: 0 },
        City { x: 3000, y: 0 },
        City { x: 4000, y: 0 },
    ]
}

fn scattered() -> Vec<City> {
    vec![
        City { x: 120, y: 870 },
        City { x: 940, y: 55 },
        City { x: 431, y: 433 },
        City { x: 15, y: 20 },
        City { x: 777, y: 901 },
        City { x: 650, y: 310 },
        City { x: 300, y: 640 },
        City { x: 880, y: 520 },
        City { x: 205, y: 150 },
        City { x: 560, y: 760 },
    ]
}

fn admits_no_improvement(tour: &[usize], cities: &[City]) -> bool {
    for i in 1..tour.len() {
        for j in i + 1..tour.len() {
            if evaluate_exchange(tour, cities, i, j) > 0 {
                return false;
            }
        }
    }
    true
}

#[test]
fn crossed_square_is_uncrossed() {
    let cities = square();
    let (tour, cost) = two_opt_seq(&[0, 2, 1, 3], &cities);
    assert_eq!(tour, vec![0, 1, 2, 3]);
    assert_eq!(cost, 4000);
}

#[test]
fn collinear_points_end_in_monotonic_order() {
    let cities = line();
    let shuffles: Vec<Vec<usize>> = vec![
        vec![0, 2, 4, 1, 3],
        vec![3, 1, 4, 0, 2],
        vec![2, 0, 3, 1, 4],
        vec![4, 3, 2, 1, 0],
        vec![1, 3, 0, 4, 2],
    ];
    for tour in shuffles {
        let (best, cost) = two_opt_seq(&tour, &cities);
        assert!(is_valid_tour(&best, 5));
        assert_eq!(cost, 8000);
    }
}

#[test]
fn two_opt_never_lengthens_and_keeps_the_cities() {
    let cities = scattered();
    let tour: Vec<usize> = vec![3, 9, 0, 5, 2, 7, 1, 8, 4, 6];
    let before = compute_total_distance(&tour, &cities);
    let best = two_opt(&tour, &cities);
    assert!(is_valid_tour(&best, 10));
    assert!(compute_total_distance(&best, &cities) <= before);
}

#[test]
fn two_opt_ends_in_a_local_optimum() {
    let cities = scattered();
    let tour: Vec<usize> = vec![3, 9, 0, 5, 2, 7, 1, 8, 4, 6];
    let best = two_opt(&tour, &cities);
    assert!(admits_no_improvement(&best, &cities));
    assert_eq!(find_first_improvement(&best, &cities), None);
}

#[test]
fn two_opt_is_a_fixed_point() {
    let cities = scattered();
    let tour: Vec<usize> = vec![3, 9, 0, 5, 2, 7, 1, 8, 4, 6];
    let once = two_opt(&tour, &cities);
    let twice = two_opt(&once, &cities);
    assert_eq!(once, twice);
}

#[test]
fn two_opt_leaves_short_tours_alone() {
    let cities = square();
    assert_eq!(two_opt(&[], &cities), Vec::<usize>::new());
    assert_eq!(two_opt(&[1], &cities), vec![1]);
    assert_eq!(two_opt(&[1, 0], &cities), vec![1, 0]);
    assert_eq!(two_opt(&[2, 0, 1], &cities), vec![2, 0, 1]);
}

#[test]
fn first_improvement_is_the_first_of_the_scan() {
    let cities = square();
    assert_eq!(find_first_improvement(&[0, 2, 1, 3], &cities), Some((1, 2)));
    assert_eq!(find_first_improvement(&[0, 1, 2, 3], &cities), None);
}

#[test]
fn exchange_gain_is_the_change_in_cost() {
    let cities = scattered();
    let tour: Vec<usize> = vec![3, 9, 0, 5, 2, 7, 1, 8, 4, 6];
    let before = compute_total_distance(&tour, &cities) as i128;
    for i in 1..tour.len() {
        for j in i + 1..tour.len() {
            let mut changed = tour.clone();
            reverse_segment(&mut changed, i, j);
            let after = compute_total_distance(&changed, &cities) as i128;
            assert_eq!(evaluate_exchange(&tour, &cities, i, j) as i128, before - after);
        }
    }
}

#[test]
fn exchange_gain_on_the_crossed_square() {
    let cities = square();
    assert_eq!(evaluate_exchange(&[0, 2, 1, 3], &cities, 1, 2), 828);
    assert_eq!(evaluate_exchange(&[0, 1, 2, 3], &cities, 1, 2), -828);
    assert_eq!(evaluate_exchange(&[0, 1, 2, 3], &cities, 1, 3), 0);
}

#[test]
fn reverse_segment_reverses_in_place() {
    let mut tour: Vec<usize> = vec![0, 1, 2, 3, 4, 5];
    reverse_segment(&mut tour, 1, 4);
    assert_eq!(tour, vec![0, 4, 3, 2, 1, 5]);
    reverse_segment(&mut tour, 2, 2);
    assert_eq!(tour, vec![0, 4, 3, 2, 1, 5]);
    reverse_segment(&mut tour, 0, 5);
    assert_eq!(tour, vec![5, 1, 2, 3, 4, 0]);
}

#[test]
fn valid_tours_are_told_from_others() {
    assert!(is_valid_tour(&[2, 0, 1], 3));
    assert!(is_valid_tour(&[], 0));
    assert!(!is_valid_tour(&[2, 0, 2], 3));
    assert!(!is_valid_tour(&[0, 1], 3));
    assert!(!is_valid_tour(&[0, 1, 3], 3));
    assert!(has_cities_within(&[2, 2, 0], 3));
    assert!(!has_cities_within(&[2, 3, 0], 3));
    assert_eq!(identity_tour(4), vec![0, 1, 2, 3]);
}
