use gelnica_chopper::domain::{Cities, Path, Rules};
use gelnica_chopper::engine::{
    battle_royale, do_x_iterations, generate_random_path, generate_random_path_with_rng,
};
use gelnica_chopper::rng::RandomSource;

fn catalog() -> Cities {
    let names: Vec<String> = (0..5).map(|i| format!("city{}", i)).collect();
    Cities::new(names, vec![100, 200, 300, 400, 500], vec![false; 5]).unwrap()
}

fn matrix() -> Vec<Vec<u32>> {
    let mut d = vec![vec![0u32; 5]; 5];
    for a in 0..5 {
        for b in 0..5 {
            if a != b {
                // symmetric, small hop costs
                d[a][b] = 10 + ((a + b) as u32 % 4) * 10;
            }
        }
    }
    d
}

fn rules() -> Rules {
    Rules {
        depot: 0,
        max_distance: 1_000_000,
        penalty_distance: 500,
        penalty_endpoint: 100000,
        penalty_forbidden: 10000,
    }
}

#[test]
fn random_path_has_fixed_length_and_range() {
    let mut rng = RandomSource::from_seed(5);
    let p = generate_random_path_with_rng(&mut rng, 5);
    assert_eq!(p.city_indexes.len(), 10);
    for &c in &p.city_indexes {
        assert!(c < 5);
    }
    assert_eq!((p.population, p.distance, p.score), (0, 0, 0));
    let q = generate_random_path(5);
    assert_eq!(q.city_indexes.len(), 10);
    for &c in &q.city_indexes {
        assert!(c < 5);
    }
}

#[test]
fn one_generation_keeps_size_and_sorts() {
    let cities = catalog();
    let distances = matrix();
    let r = rules();
    let mut rng = RandomSource::from_seed(7);
    let mut generation: Vec<Path> = (0..30)
        .map(|_| generate_random_path_with_rng(&mut rng, 5))
        .collect();
    let best = do_x_iterations(&mut generation, &cities, &distances, &r, 1, &mut rng);
    assert_eq!(generation.len(), 30);
    for w in generation.windows(2) {
        assert!(w[0].score >= w[1].score);
    }
    assert_eq!(best.city_indexes, generation[0].city_indexes);
    assert_eq!(best.score, generation[0].score);
    for p in &generation {
        assert!(best.score >= p.score);
    }
}

#[test]
fn zero_iterations_still_evaluates_and_sorts() {
    let cities = catalog();
    let distances = matrix();
    let r = rules();
    let mut rng = RandomSource::from_seed(9);
    let mut generation: Vec<Path> = (0..8)
        .map(|_| generate_random_path_with_rng(&mut rng, 5))
        .collect();
    let best = do_x_iterations(&mut generation, &cities, &distances, &r, 0, &mut rng);
    assert_eq!(generation.len(), 8);
    for w in generation.windows(2) {
        assert!(w[0].score >= w[1].score);
    }
    assert!(best.score >= generation[7].score);
}

#[test]
fn small_catalog_converges_to_full_coverage() {
    // five cities, generous distance budget, depot 0: a hundred
    // generations should find a depot-to-depot route covering all five
    let cities = catalog();
    let distances = matrix();
    let r = rules();
    let mut found = false;
    for seed in 0..20u64 {
        let mut rng = RandomSource::from_seed(seed);
        let mut generation: Vec<Path> = (0..30)
            .map(|i| {
                let len = 3 + (i % 3);
                let mut seq = Vec::new();
                for _ in 0..len {
                    seq.push(rng.next_below(5));
                }
                Path::from_indexes(seq)
            })
            .collect();
        let best = do_x_iterations(&mut generation, &cities, &distances, &r, 100, &mut rng);
        if best.score == 1500 {
            assert_eq!(*best.city_indexes.first().unwrap(), 0);
            assert_eq!(*best.city_indexes.last().unwrap(), 0);
            found = true;
            break;
        }
    }
    assert!(found);
}

#[test]
fn runs_replay_exactly_under_a_fixed_seed() {
    let cities = catalog();
    let distances = matrix();
    let r = rules();
    let mut results = Vec::new();
    for _ in 0..2 {
        let mut rng = RandomSource::from_seed(21);
        let mut generation: Vec<Path> = (0..12)
            .map(|_| generate_random_path_with_rng(&mut rng, 5))
            .collect();
        let best = do_x_iterations(&mut generation, &cities, &distances, &r, 25, &mut rng);
        results.push((best.city_indexes.clone(), best.score));
    }
    assert_eq!(results[0], results[1]);
}

#[test]
fn battle_royale_returns_an_evaluated_candidate() {
    let cities = catalog();
    let distances = matrix();
    let r = rules();
    let mut rng = RandomSource::from_seed(13);
    let best = battle_royale(&cities, &distances, &r, &mut rng, 2, 10, 10);
    assert!(!best.city_indexes.is_empty());
    for &c in &best.city_indexes {
        assert!(c < 5);
    }
    // an evaluated candidate of this catalog never scores above its total
    assert!(best.score <= 1500);
}
