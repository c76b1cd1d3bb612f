use gelnica_chopper::domain::{Cities, Path, Rules, check_distances};
use gelnica_chopper::score::{calculate_score, calculate_scores};

fn small_catalog() -> Cities {
    let names: Vec<String> = (0..5).map(|i| format!("city{}", i)).collect();
    let populations: Vec<u32> = vec![100, 200, 300, 400, 500];
    let excluded: Vec<bool> = vec![false; 5];
    Cities::new(names, populations, excluded).unwrap()
}

fn zero_matrix(n: usize) -> Vec<Vec<u32>> {
    vec![vec![0; n]; n]
}

fn small_rules(depot: usize) -> Rules {
    Rules {
        depot,
        max_distance: 100000,
        penalty_distance: 500,
        penalty_endpoint: 100000,
        penalty_forbidden: 10000,
    }
}

#[test]
fn distance_is_sum_of_hops() {
    let cities = small_catalog();
    let mut distances = zero_matrix(5);
    distances[0][1] = 7;
    distances[1][2] = 9;
    distances[2][0] = 11;
    let rules = small_rules(0);
    let mut p = Path::from_indexes(vec![0, 1, 2, 0]);
    calculate_score(&mut p, &cities, &distances, &rules);
    assert_eq!(p.distance, 7 + 9 + 11);
}

#[test]
fn population_counts_distinct_cities_once() {
    // the same population for a route repeating one city and for the city alone
    let cities = small_catalog();
    let distances = zero_matrix(5);
    let rules = small_rules(0);
    let mut repeated = Path::from_indexes(vec![4, 4, 4]);
    let mut single = Path::from_indexes(vec![4]);
    calculate_score(&mut repeated, &cities, &distances, &rules);
    calculate_score(&mut single, &cities, &distances, &rules);
    assert_eq!(repeated.population, 500);
    assert_eq!(single.population, 500);
    assert_eq!(repeated.population, single.population);
}

#[test]
fn clean_route_scores_its_population() {
    // starts and ends at the depot, within budget, no excluded city
    let cities = small_catalog();
    let distances = zero_matrix(5);
    let rules = small_rules(0);
    let mut p = Path::from_indexes(vec![0, 1, 2, 3, 4, 0]);
    calculate_score(&mut p, &cities, &distances, &rules);
    assert_eq!(p.population, 1500);
    assert_eq!(p.score, 1500);
}

#[test]
fn score_never_negative_even_under_heavy_penalty() {
    let cities = small_catalog();
    let distances = zero_matrix(5);
    let rules = small_rules(0);
    // wrong start and wrong end: two flat penalties dwarf the population
    let mut p = Path::from_indexes(vec![1, 2]);
    calculate_score(&mut p, &cities, &distances, &rules);
    assert_eq!(p.score, 0);
}

#[test]
fn endpoint_penalties_apply_separately() {
    let cities = small_catalog();
    let distances = zero_matrix(5);
    let mut rules = small_rules(0);
    rules.penalty_endpoint = 50;
    // starts at the depot but does not end there: one endpoint penalty
    let mut p = Path::from_indexes(vec![0, 1]);
    calculate_score(&mut p, &cities, &distances, &rules);
    assert_eq!(p.population, 300);
    assert_eq!(p.score, 300 - 50);
}

#[test]
fn distance_overage_costs_per_unit() {
    let cities = small_catalog();
    let mut distances = zero_matrix(5);
    distances[0][1] = 30;
    distances[1][0] = 30;
    let mut rules = small_rules(0);
    rules.max_distance = 50;
    rules.penalty_distance = 10;
    // distance 60, budget 50: overage 10 at 10 per unit = 100
    let mut p = Path::from_indexes(vec![0, 1, 0]);
    calculate_score(&mut p, &cities, &distances, &rules);
    assert_eq!(p.distance, 60);
    assert_eq!(p.population, 300);
    assert_eq!(p.score, 300 - 100);
}

#[test]
fn forbidden_visits_cost_per_occurrence() {
    let names: Vec<String> = (0..3).map(|i| format!("c{}", i)).collect();
    let cities = Cities::new(names, vec![1000, 50, 50], vec![false, true, false]).unwrap();
    let distances = zero_matrix(3);
    let mut rules = small_rules(0);
    rules.penalty_forbidden = 100;
    // city 1 is excluded and visited twice: two penalties, not one
    let mut p = Path::from_indexes(vec![0, 1, 1, 0]);
    calculate_score(&mut p, &cities, &distances, &rules);
    assert_eq!(p.population, 1050);
    assert_eq!(p.score, 1050 - 200);
}

#[test]
fn forbidden_visit_in_last_position_still_counts() {
    let names: Vec<String> = (0..2).map(|i| format!("c{}", i)).collect();
    let cities = Cities::new(names, vec![1000, 50], vec![false, true]).unwrap();
    let distances = zero_matrix(2);
    let mut rules = small_rules(0);
    rules.penalty_endpoint = 100;
    rules.penalty_forbidden = 10;
    // ends away from the depot at an excluded city: the final position is
    // penalized as a forbidden visit too
    let mut p = Path::from_indexes(vec![0, 1]);
    calculate_score(&mut p, &cities, &distances, &rules);
    assert_eq!(p.population, 1050);
    assert_eq!(p.score, 1050 - 100 - 10);
}

#[test]
fn depot_only_route_keeps_both_endpoint_waivers() {
    // depot = city 2, route [2,2,2], zero distances: score equals its population
    let cities = small_catalog();
    let distances = zero_matrix(5);
    let rules = small_rules(2);
    let mut p = Path::from_indexes(vec![2, 2, 2]);
    calculate_score(&mut p, &cities, &distances, &rules);
    assert_eq!(p.distance, 0);
    assert_eq!(p.population, 300);
    assert_eq!(p.score, 300);
}

#[test]
fn degenerate_routes_do_not_crash() {
    let cities = small_catalog();
    let distances = zero_matrix(5);
    let rules = small_rules(0);
    let mut empty = Path::from_indexes(vec![]);
    calculate_score(&mut empty, &cities, &distances, &rules);
    assert_eq!(empty.distance, 0);
    assert_eq!(empty.score, 0);
    let mut lone = Path::from_indexes(vec![0]);
    calculate_score(&mut lone, &cities, &distances, &rules);
    assert_eq!(lone.distance, 0);
    // single visit to the depot: both endpoint penalties waived
    assert_eq!(lone.score, 100);
}

#[test]
fn evaluation_is_idempotent() {
    let cities = small_catalog();
    let mut distances = zero_matrix(5);
    distances[1][3] = 17;
    let rules = small_rules(0);
    let mut p = Path::from_indexes(vec![1, 3, 1, 3]);
    calculate_score(&mut p, &cities, &distances, &rules);
    let first = (p.distance, p.population, p.score);
    calculate_score(&mut p, &cities, &distances, &rules);
    let second = (p.distance, p.population, p.score);
    assert_eq!(first, second);
}

#[test]
fn calculate_scores_sorts_descending_and_keeps_size() {
    let cities = small_catalog();
    let distances = zero_matrix(5);
    let rules = small_rules(0);
    let mut generation = vec![
        Path::from_indexes(vec![1, 2]),
        Path::from_indexes(vec![0, 4, 0]),
        Path::from_indexes(vec![0, 1, 2, 3, 4, 0]),
        Path::from_indexes(vec![3]),
    ];
    calculate_scores(&mut generation, &cities, &distances, &rules);
    assert_eq!(generation.len(), 4);
    for w in generation.windows(2) {
        assert!(w[0].score >= w[1].score);
    }
    assert_eq!(generation[0].score, 1500);
}

#[test]
fn catalog_rejects_mismatched_arrays() {
    let names: Vec<String> = vec!["a".to_string(), "b".to_string()];
    assert!(Cities::new(names, vec![1], vec![false]).is_none());
}

#[test]
fn catalog_rejects_population_overflow() {
    let names: Vec<String> = vec!["a".to_string(), "b".to_string()];
    assert!(Cities::new(names, vec![u32::MAX, 1], vec![false, false]).is_none());
}

#[test]
fn distance_matrix_validation() {
    let square = zero_matrix(3);
    assert!(check_distances(&square, 3));
    let mut ragged = zero_matrix(3);
    ragged[1].pop();
    assert!(!check_distances(&ragged, 3));
    assert!(!check_distances(&square, 4));
}
