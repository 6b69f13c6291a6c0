use tsp_hybrid::{
    all_exchanges, apply_exchanges, batch_pass, compute_total_distance, evaluate_exchange,
    improving_candidates, is_valid_tour, par_prototype, par_topk, par_topkplus,
    parallel_batch_2opt, rank_candidates, rank_entries, select_conflict_free, two_opt_par,
    BatchConfig, CandidateSwap, City, CommitPolicy, Ranked, MAX_PASSES,
};

fn square() -> Vec<City> {
    vec![
        City { x: 0, y: 0 },
        City { x: 0, y: 1000 },
        City { x: 1000, y: 1000 },
        City { x: 1000, y: 0 },
    ]
}

fn scattered() -> Vec<City> {
    vec![
        City { x: 120, y: 870 },
        City { x: 940, y: 55 },
        City { x: 431, y: 433 },
        City { x: 15, y: 20 },
        City { x: 777, y: 901 },
        City { x: 650, y: 310 },
        City { x: 300, y: 640 },
        City { x: 880, y: 520 },
        City { x: 205, y: 150 },
        City { x: 560, y: 760 },
        City { x: 90, y: 480 },
        City { x: 700, y: 105 },
    ]
}

fn mixed_tour() -> Vec<usize> {
    vec![3, 9, 0, 5, 11, 2, 7, 1, 8, 4, 10, 6]
}

fn boundary(c: &CandidateSwap, len: usize) -> [usize; 4] {
    [c.i - 1, c.i, c.j, (c.j + 1) % len]
}

fn share_a_position(a: &CandidateSwap, b: &CandidateSwap, len: usize) -> bool {
    boundary(a, len).iter().any(|p| boundary(b, len).contains(p))
}

#[test]
fn all_exchanges_come_in_scan_order() {
    assert_eq!(all_exchanges(0), Vec::<(usize, usize)>::new());
    assert_eq!(all_exchanges(2), Vec::<(usize, usize)>::new());
    assert_eq!(all_exchanges(3), vec![(1, 2)]);
    assert_eq!(all_exchanges(5), vec![(1, 2), (1, 3), (1, 4), (2, 3), (2, 4), (3, 4)]);
}

#[test]
fn candidates_are_the_exchanges_above_the_threshold() {
    let cities = square();
    let tour: Vec<usize> = vec![0, 2, 1, 3];
    let pairs = all_exchanges(4);
    let found = improving_candidates(&tour, &cities, &pairs, 0);
    assert_eq!(found, vec![CandidateSwap { i: 1, j: 2, delta: 828 }]);
    assert_eq!(improving_candidates(&tour, &cities, &pairs, 827), found);
    assert_eq!(improving_candidates(&tour, &cities, &pairs, 828), Vec::<CandidateSwap>::new());
    let all = improving_candidates(&tour, &cities, &pairs, -1);
    assert_eq!(
        all,
        vec![
            CandidateSwap { i: 1, j: 2, delta: 828 },
            CandidateSwap { i: 1, j: 3, delta: 0 },
            CandidateSwap { i: 2, j: 3, delta: 0 },
        ]
    );
}

#[test]
fn candidates_hold_the_gain_of_each_pair() {
    let cities = scattered();
    let tour = mixed_tour();
    let pairs = all_exchanges(tour.len());
    let found = improving_candidates(&tour, &cities, &pairs, i64::MIN);
    assert_eq!(found.len(), pairs.len());
    for (k, c) in found.iter().enumerate() {
        assert_eq!((c.i, c.j), pairs[k]);
        assert_eq!(c.delta, evaluate_exchange(&tour, &cities, c.i, c.j));
    }
}

#[test]
fn ranking_puts_the_largest_saving_first_and_keeps_ties_in_order() {
    let candidates = vec![
        CandidateSwap { i: 1, j: 2, delta: 5 },
        CandidateSwap { i: 1, j: 3, delta: 9 },
        CandidateSwap { i: 2, j: 3, delta: 5 },
        CandidateSwap { i: 2, j: 4, delta: -3 },
        CandidateSwap { i: 3, j: 4, delta: 9 },
    ];
    let ranked = rank_candidates(&candidates);
    assert_eq!(
        ranked,
        vec![
            CandidateSwap { i: 1, j: 3, delta: 9 },
            CandidateSwap { i: 3, j: 4, delta: 9 },
            CandidateSwap { i: 1, j: 2, delta: 5 },
            CandidateSwap { i: 2, j: 3, delta: 5 },
            CandidateSwap { i: 2, j: 4, delta: -3 },
        ]
    );
    assert_eq!(rank_candidates(&Vec::new()), Vec::<CandidateSwap>::new());
}

#[test]
fn rank_entries_sorts_by_key_then_position() {
    let entries = vec![
        Ranked { key: 7, index: 0 },
        Ranked { key: -2, index: 1 },
        Ranked { key: 7, index: 2 },
        Ranked { key: 0, index: 3 },
        Ranked { key: -2, index: 4 },
    ];
    let ranked = rank_entries(&entries);
    assert_eq!(
        ranked,
        vec![
            Ranked { key: -2, index: 1 },
            Ranked { key: -2, index: 4 },
            Ranked { key: 0, index: 3 },
            Ranked { key: 7, index: 0 },
            Ranked { key: 7, index: 2 },
        ]
    );
}

#[test]
fn greedy_selection_skips_what_shares_a_position() {
    let ranked = vec![
        CandidateSwap { i: 2, j: 5, delta: 9 },
        CandidateSwap { i: 5, j: 8, delta: 8 },
        CandidateSwap { i: 7, j: 9, delta: 7 },
        CandidateSwap { i: 3, j: 4, delta: 6 },
        CandidateSwap { i: 8, j: 9, delta: 5 },
    ];
    let chosen = select_conflict_free(&ranked, 10, usize::MAX);
    assert_eq!(
        chosen,
        vec![CandidateSwap { i: 2, j: 5, delta: 9 }, CandidateSwap { i: 8, j: 9, delta: 5 }]
    );
}

#[test]
fn greedy_selection_stops_at_its_limit() {
    let ranked = vec![
        CandidateSwap { i: 2, j: 3, delta: 9 },
        CandidateSwap { i: 6, j: 7, delta: 8 },
        CandidateSwap { i: 10, j: 11, delta: 7 },
    ];
    assert_eq!(select_conflict_free(&ranked, 20, 0), Vec::<CandidateSwap>::new());
    assert_eq!(select_conflict_free(&ranked, 20, 1), vec![ranked[0]]);
    assert_eq!(select_conflict_free(&ranked, 20, 2), vec![ranked[0], ranked[1]]);
    assert_eq!(select_conflict_free(&ranked, 20, 3), ranked);
}

#[test]
fn selected_candidates_never_share_a_position() {
    let cities = scattered();
    let tour = mixed_tour();
    let pairs = all_exchanges(tour.len());
    let ranked = rank_candidates(&improving_candidates(&tour, &cities, &pairs, -100_000));
    let chosen = select_conflict_free(&ranked, tour.len(), usize::MAX);
    assert!(!chosen.is_empty());
    for a in 0..chosen.len() {
        for b in a + 1..chosen.len() {
            assert!(!share_a_position(&chosen[a], &chosen[b], tour.len()));
        }
    }
    for c in &ranked {
        assert!(chosen.contains(c) || chosen.iter().any(|s| share_a_position(s, c, tour.len())));
    }
}

#[test]
fn exchanges_are_applied_one_after_the_other() {
    let mut tour: Vec<usize> = vec![0, 1, 2, 3, 4, 5, 6, 7];
    let chosen = vec![CandidateSwap { i: 1, j: 6, delta: 1 }, CandidateSwap { i: 3, j: 4, delta: 1 }];
    apply_exchanges(&mut tour, &chosen);
    assert_eq!(tour, vec![0, 6, 5, 3, 4, 2, 1, 7]);
}

#[test]
fn a_pass_with_verified_commit_keeps_only_what_is_shorter() {
    let cities = scattered();
    let mut tour = mixed_tour();
    let before = compute_total_distance(&tour, &cities);
    let pairs = all_exchanges(tour.len());
    let config = BatchConfig {
        delta_threshold: -100_000,
        commit: CommitPolicy::Verified,
        swaps_per_pass: usize::MAX,
        max_passes: 1,
    };
    let start = tour.clone();
    let outcome = batch_pass(&mut tour, &cities, &pairs, &config);
    let after = compute_total_distance(&tour, &cities);
    assert!(is_valid_tour(&tour, 12));
    assert!(after <= before);
    assert_eq!(outcome.committed, after < before);
    if !outcome.committed {
        assert_eq!(tour, start);
    }
}

#[test]
fn a_pass_on_the_crossed_square_makes_its_best_exchange() {
    let cities = square();
    let mut tour: Vec<usize> = vec![0, 2, 1, 3];
    let config = BatchConfig {
        delta_threshold: 0,
        commit: CommitPolicy::Unconditional,
        swaps_per_pass: usize::MAX,
        max_passes: 1,
    };
    let outcome = batch_pass(&mut tour, &cities, &all_exchanges(4), &config);
    assert_eq!(outcome.selected, 1);
    assert!(outcome.committed);
    assert_eq!(tour, vec![0, 1, 2, 3]);
}

#[test]
fn batch_search_reports_its_passes() {
    let cities = square();
    let config = BatchConfig {
        delta_threshold: 0,
        commit: CommitPolicy::Unconditional,
        swaps_per_pass: 1,
        max_passes: MAX_PASSES,
    };
    let report = parallel_batch_2opt(&[0, 2, 1, 3], &cities, &config);
    assert_eq!(report.tour, vec![0, 1, 2, 3]);
    assert_eq!(report.cost, 4000);
    assert_eq!(report.passes, 2);
    assert!(report.settled);
}

#[test]
fn batch_search_stops_at_its_cap() {
    let cities = square();
    let config = BatchConfig {
        delta_threshold: 0,
        commit: CommitPolicy::Unconditional,
        swaps_per_pass: 1,
        max_passes: 1,
    };
    let report = parallel_batch_2opt(&[0, 2, 1, 3], &cities, &config);
    assert_eq!(report.tour, vec![0, 1, 2, 3]);
    assert_eq!(report.passes, 1);
    assert!(!report.settled);
    let none = BatchConfig { max_passes: 0, ..config };
    let untouched = parallel_batch_2opt(&[0, 2, 1, 3], &cities, &none);
    assert_eq!(untouched.tour, vec![0, 2, 1, 3]);
    assert_eq!(untouched.cost, 4828);
    assert_eq!(untouched.passes, 0);
    assert!(!untouched.settled);
}

#[test]
fn batch_entry_points_uncross_the_square() {
    let cities = square();
    let tour: Vec<usize> = vec![0, 2, 1, 3];
    assert_eq!(par_prototype(&tour, &cities), (vec![0, 1, 2, 3], 4000));
    assert_eq!(par_topk(&tour, &cities, 2), (vec![0, 1, 2, 3], 4000));
    assert_eq!(par_topkplus(&tour, &cities, 2, 0), (vec![0, 1, 2, 3], 4000));
    assert_eq!(two_opt_par(&tour, &cities), (vec![0, 1, 2, 3], 4000));
}

#[test]
fn a_threshold_no_exchange_reaches_leaves_the_tour() {
    let cities = square();
    let tour: Vec<usize> = vec![0, 2, 1, 3];
    assert_eq!(par_topkplus(&tour, &cities, 2, 828), (vec![0, 2, 1, 3], 4828));
}

#[test]
fn best_improvement_search_ends_in_a_local_optimum() {
    let cities = scattered();
    let tour = mixed_tour();
    let before = compute_total_distance(&tour, &cities);
    let (best, cost) = two_opt_par(&tour, &cities);
    assert!(is_valid_tour(&best, 12));
    assert_eq!(cost, compute_total_distance(&best, &cities));
    assert!(cost <= before);
    for (i, j) in all_exchanges(12) {
        assert!(evaluate_exchange(&best, &cities, i, j) <= 0);
    }
}

#[test]
fn batch_searches_keep_the_cities_and_report_the_cost() {
    let cities = scattered();
    let tour = mixed_tour();
    let before = compute_total_distance(&tour, &cities);
    let (a, cost_a) = par_prototype(&tour, &cities);
    let (b, cost_b) = par_topk(&tour, &cities, 3);
    let (c, cost_c) = par_topkplus(&tour, &cities, 3, 0);
    assert!(is_valid_tour(&a, 12) && is_valid_tour(&b, 12) && is_valid_tour(&c, 12));
    assert_eq!(cost_a, compute_total_distance(&a, &cities));
    assert_eq!(cost_b, compute_total_distance(&b, &cities));
    assert_eq!(cost_c, compute_total_distance(&c, &cities));
    assert!(cost_a <= before);
    assert!(cost_c <= before);
}
