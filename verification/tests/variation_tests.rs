use gelnica_chopper::domain::Path;
use gelnica_chopper::rng::RandomSource;
use gelnica_chopper::variation::{crossover, crossover_blocks, crossover_cut, mutate};

#[test]
fn mutate_keeps_length_window_and_range() {
    let parent = Path::from_indexes(vec![3, 1, 4, 1, 5, 9, 2, 6]);
    for seed in 0..50u64 {
        let mut rng = RandomSource::from_seed(seed);
        let child = mutate(&parent, 10, 0, &mut rng);
        // at most one deletion per call; at most three insertions
        assert!(child.city_indexes.len() >= parent.city_indexes.len() - 1);
        assert!(child.city_indexes.len() <= parent.city_indexes.len() + 3);
        for &c in &child.city_indexes {
            assert!(c < 10);
        }
    }
}

#[test]
fn mutate_leaves_short_parent_unchanged() {
    let parent = Path::from_indexes(vec![7]);
    let mut rng = RandomSource::from_seed(3);
    let child = mutate(&parent, 10, 0, &mut rng);
    assert_eq!(child.city_indexes, vec![7]);
}

#[test]
fn mutate_actually_edits_some_children() {
    // with a fixed seed, across many draws at least one child differs
    let parent = Path::from_indexes(vec![1, 2, 3]);
    let mut rng = RandomSource::from_seed(0);
    let mut changed = false;
    for _ in 0..50 {
        let child = mutate(&parent, 10, 0, &mut rng);
        if child.city_indexes != parent.city_indexes {
            changed = true;
        }
    }
    assert!(changed);
}

#[test]
fn crossover_child_is_bounded_and_borrowed() {
    let p1 = Path::from_indexes(vec![1, 2, 3, 4, 5]);
    let p2 = Path::from_indexes(vec![6, 7, 8]);
    for seed in 0..50u64 {
        let mut rng = RandomSource::from_seed(seed);
        let child = crossover(&p1, &p2, &mut rng);
        assert!(child.city_indexes.len() >= 1);
        assert!(child.city_indexes.len() <= 5);
        for &c in &child.city_indexes {
            assert!(p1.city_indexes.contains(&c) || p2.city_indexes.contains(&c));
        }
        assert_eq!(child.score, 0);
        assert_eq!(child.population, 0);
        assert_eq!(child.distance, 0);
    }
}

#[test]
fn crossover_is_deterministic_under_a_fixed_source() {
    // the same parents and the same seeded source rebuild the same child
    let p1 = Path::from_indexes(vec![1, 2, 3, 4, 5, 6]);
    let p2 = Path::from_indexes(vec![9, 8, 7]);
    for seed in 0..20u64 {
        let mut rng_a = RandomSource::from_seed(seed);
        let mut rng_b = RandomSource::from_seed(seed);
        let child_a = crossover(&p1, &p2, &mut rng_a);
        let child_b = crossover(&p1, &p2, &mut rng_b);
        assert_eq!(child_a.city_indexes, child_b.city_indexes);
    }
}

#[test]
fn cut_strategy_takes_prefixes_of_both_parents() {
    let p1 = vec![1, 2, 3, 4];
    let p2 = vec![5, 6, 7, 8, 9];
    // target 5, cut 2: two from the first parent, three from the second
    let child = crossover_cut(&p1, &p2, 5, 2);
    assert_eq!(child, vec![1, 2, 5, 6, 7]);
    // target larger than the second parent can fill
    let child = crossover_cut(&p1, &vec![5], 4, 2);
    assert_eq!(child, vec![1, 2, 5]);
}

#[test]
fn block_strategy_follows_the_drawn_choices() {
    let p1 = vec![1, 2, 3, 4];
    let p2 = vec![5, 6, 7, 8];
    // two from the first parent, then two from the second
    let picks = vec![(true, 2), (false, 2), (true, 1), (false, 1)];
    let child = crossover_blocks(&p1, &p2, 0, 0, 4, &picks, 0);
    assert_eq!(child, vec![1, 2, 5, 6]);
    // oversized raw block sizes are clamped to what is still needed
    let picks = vec![(false, 99), (true, 99), (false, 1), (true, 1)];
    let child = crossover_blocks(&p1, &p2, 0, 0, 4, &picks, 0);
    assert_eq!(child, vec![5, 6, 7, 8]);
}

#[test]
fn block_strategy_fills_from_the_other_parent_when_exhausted() {
    let p1 = vec![1];
    let p2 = vec![5, 6, 7, 8];
    let picks = vec![(true, 1), (true, 5), (true, 5), (true, 5)];
    // the first parent is spent after one element; the rest comes from the second
    let child = crossover_blocks(&p1, &p2, 0, 0, 4, &picks, 0);
    assert_eq!(child, vec![1, 5, 6, 7]);
}

#[test]
fn random_source_draws_stay_below_the_bound() {
    let mut rng = RandomSource::from_seed(11);
    let mut seen_distinct = false;
    let mut first = None;
    for _ in 0..100 {
        let d = rng.next_below(10);
        assert!(d < 10);
        match first {
            None => first = Some(d),
            Some(f) => {
                if d != f {
                    seen_distinct = true;
                }
            }
        }
    }
    // a real generator does not return one constant forever
    assert!(seen_distinct);
}
