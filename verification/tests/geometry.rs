use tsp_hybrid::{
    compute_total_distance, euclidean_distance, generate_cities, generate_random_cities,
    integer_sqrt, City, FIELD_SIDE, SMALL_FIELD_SIDE,
};

fn square() -> Vec<City> {
    vec![
        City { x: 0, y: 0 },
        City { x: 0, y: 1000 },
        City { x: 1000, y: 1000 },
        City { x: 1000, y: 0 },
    ]
}

#[test]
fn distance_rounds_down() {
    let a = City { x: 0, y: 0 };
    let b = City { x: 1000, y: 1000 };
    assert_eq!(euclidean_distance(&a, &b), 1414);
    assert_eq!(euclidean_distance(&b, &a), 1414);
    assert_eq!(euclidean_distance(&a, &a), 0);
}

#[test]
fn distance_of_a_three_four_five_triangle() {
    let a = City { x: -3, y: 0 };
    let b = City { x: 0, y: 4 };
    assert_eq!(euclidean_distance(&a, &b), 5);
}

#[test]
fn distance_between_the_corners_of_the_grid() {
    let a = City { x: i32::MIN, y: i32::MIN };
    let b = City { x: i32::MAX, y: i32::MAX };
    // sqrt(2) * (2^32 - 1), rounded down
    assert_eq!(euclidean_distance(&a, &b), 6_074_000_998);
}

#[test]
fn integer_sqrt_of_squares_and_their_neighbours() {
    assert_eq!(integer_sqrt(0), 0);
    assert_eq!(integer_sqrt(1), 1);
    assert_eq!(integer_sqrt(3), 1);
    assert_eq!(integer_sqrt(4), 2);
    assert_eq!(integer_sqrt(99), 9);
    assert_eq!(integer_sqrt(100), 10);
    assert_eq!(integer_sqrt(1_000_000_000_000), 1_000_000);
    assert_eq!(integer_sqrt(999_999_999_999), 999_999);
}

#[test]
fn total_distance_closes_the_tour() {
    let cities = square();
    assert_eq!(compute_total_distance(&[0, 1, 2, 3], &cities), 4000);
    assert_eq!(compute_total_distance(&[0, 2, 1, 3], &cities), 4828);
}

#[test]
fn total_distance_of_short_tours() {
    let cities = square();
    assert_eq!(compute_total_distance(&[], &cities), 0);
    assert_eq!(compute_total_distance(&[2], &cities), 0);
    assert_eq!(compute_total_distance(&[0, 2], &cities), 2828);
}

#[test]
fn seeded_cities_lie_in_their_field() {
    assert_eq!(FIELD_SIDE, 1_000_000);
    let cities = generate_cities(500, 121);
    assert_eq!(cities.len(), 500);
    assert!(cities.iter().all(|c| 0 <= c.x && c.x < 1_000_000 && 0 <= c.y && c.y < 1_000_000));
    assert!(cities.iter().any(|c| c.x != cities[0].x));
    assert!(generate_cities(0, 121).is_empty());
}

#[test]
fn the_same_seed_gives_the_same_cities() {
    assert_eq!(generate_cities(50, 7), generate_cities(50, 7));
    assert_ne!(generate_cities(50, 7), generate_cities(50, 8));
}

#[test]
fn unseeded_cities_lie_in_the_small_field() {
    assert_eq!(SMALL_FIELD_SIDE, 100_000);
    let cities = generate_random_cities(500);
    assert_eq!(cities.len(), 500);
    assert!(cities.iter().all(|c| 0 <= c.x && c.x < 100_000 && 0 <= c.y && c.y < 100_000));
    assert!(cities.iter().any(|c| c.x != cities[0].x));
}
