use tsp_hybrid::{
    decide_tournament, is_valid_tour, order_crossover, order_crossover_at, shuffle_tour,
    swap_mutation, swap_positions, tournament_selection, City, Individual,
};

fn individual(length: u128) -> Individual {
    Individual { tour: vec![0, 1, 2], length }
}

#[test]
fn crossover_keeps_the_segment_and_fills_in_the_order_of_the_second_parent() {
    let first: Vec<usize> = vec![0, 1, 2, 3, 4, 5];
    let second: Vec<usize> = vec![5, 4, 3, 2, 1, 0];
    assert_eq!(order_crossover_at(&first, &second, 2, 3), vec![5, 4, 2, 3, 1, 0]);
    assert_eq!(order_crossover_at(&first, &second, 0, 0), vec![0, 5, 4, 3, 2, 1]);
    assert_eq!(order_crossover_at(&first, &second, 5, 5), vec![4, 3, 2, 1, 0, 5]);
    assert_eq!(order_crossover_at(&first, &second, 0, 5), first);
}

#[test]
fn crossover_of_any_cut_is_a_permutation_with_the_segment() {
    let first: Vec<usize> = vec![3, 7, 0, 5, 2, 6, 1, 4];
    let second: Vec<usize> = vec![6, 2, 7, 1, 4, 0, 3, 5];
    for start in 0..8 {
        for end in start..8 {
            let child = order_crossover_at(&first, &second, start, end);
            assert!(is_valid_tour(&child, 8));
            assert_eq!(child[start..=end], first[start..=end]);
            let rest: Vec<usize> = child
                .iter()
                .enumerate()
                .filter(|(k, _)| *k < start || *k > end)
                .map(|(_, c)| *c)
                .collect();
            let expected: Vec<usize> =
                second.iter().filter(|c| !first[start..=end].contains(*c)).cloned().collect();
            assert_eq!(rest, expected);
        }
    }
}

#[test]
fn random_crossover_gives_a_permutation() {
    let first: Vec<usize> = vec![3, 7, 0, 5, 2, 6, 1, 4];
    let second: Vec<usize> = vec![6, 2, 7, 1, 4, 0, 3, 5];
    for _ in 0..50 {
        let child = order_crossover(&first, &second);
        assert!(is_valid_tour(&child, 8));
    }
    assert_eq!(order_crossover(&[], &[]), Vec::<usize>::new());
    assert_eq!(order_crossover(&[0], &[0]), vec![0]);
}

#[test]
fn swap_exchanges_two_positions() {
    let mut tour: Vec<usize> = vec![4, 3, 2, 1, 0];
    swap_positions(&mut tour, 1, 3);
    assert_eq!(tour, vec![4, 1, 2, 3, 0]);
    swap_positions(&mut tour, 2, 2);
    assert_eq!(tour, vec![4, 1, 2, 3, 0]);
}

#[test]
fn swap_mutation_changes_two_positions_at_most() {
    for _ in 0..50 {
        let before: Vec<usize> = vec![0, 1, 2, 3, 4, 5, 6];
        let mut tour = before.clone();
        swap_mutation(&mut tour);
        assert!(is_valid_tour(&tour, 7));
        let changed = (0..7).filter(|k| tour[*k] != before[*k]).count();
        assert!(changed == 0 || changed == 2);
    }
    let mut empty: Vec<usize> = Vec::new();
    swap_mutation(&mut empty);
    assert!(empty.is_empty());
}

#[test]
fn shuffle_keeps_the_cities_and_changes_their_order() {
    let before: Vec<usize> = (0..200).collect();
    let mut tour = before.clone();
    shuffle_tour(&mut tour);
    assert!(is_valid_tour(&tour, 200));
    assert_ne!(tour, before);
}

#[test]
fn tournament_goes_to_the_fittest_and_of_equals_to_the_last_drawn() {
    let population = vec![individual(50), individual(30), individual(30), individual(70)];
    assert_eq!(decide_tournament(&population, &[0, 1, 2]), 2);
    assert_eq!(decide_tournament(&population, &[2, 1, 0]), 1);
    assert_eq!(decide_tournament(&population, &[3]), 3);
    assert_eq!(decide_tournament(&population, &[3, 0, 3, 0]), 0);
}

#[test]
fn tournament_selection_returns_an_individual_of_the_population() {
    let population = vec![individual(50), individual(30), individual(70)];
    for _ in 0..20 {
        let winner = tournament_selection(&population, 5);
        assert!(population.iter().any(|one| one.length == winner.length));
    }
    let all = tournament_selection(&population, 200);
    assert_eq!(all.length, 30);
}

#[test]
fn an_individual_holds_the_cost_of_its_tour() {
    let cities = vec![City { x: 0, y: 0 }, City { x: 3, y: 4 }, City { x: 3, y: 0 }];
    let one = Individual::new(vec![0, 1, 2], &cities);
    assert_eq!(one.tour, vec![0, 1, 2]);
    assert_eq!(one.distance(), 12);
    let copy = one.duplicate();
    assert_eq!(copy.tour, one.tour);
    assert_eq!(copy.distance(), 12);
    let longer = Individual { tour: vec![0, 1, 2], length: 13 };
    assert!(one.is_as_fit_as(&longer));
    assert!(!longer.is_as_fit_as(&one));
    assert!(one.is_as_fit_as(&copy));
}
