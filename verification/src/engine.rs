//! The generational loop: each generation keeps an elite band untouched,
//! mutates the next band, refills a band with fresh random candidates,
//! rebuilds the rest by crossover, then re-evaluates and re-sorts the whole
//! population. Crossover parents are sampled from the current array, so a
//! parent may be a candidate already overwritten earlier in the same pass —
//! a deliberate coupling, chosen over snapshotting the previous generation.

use vstd::prelude::*;
use crate::domain::{Cities, Distances, Path, Rules, cities_ok, distances_ok, route_in_range};
use crate::rng::RandomSource;
use crate::score::{calculate_scores, is_evaluated, sorted_desc, route_from,
    lemma_preserved_route_props};
use crate::variation::{mutate, crossover, larger_of};

verus! {

pub const ITERATION_COUNT: u32 = 50000;
pub const GENERATION_SIZE: usize = 100;
pub const BOUNDARY_ELITE: usize = 20;
pub const BOUNDARY_MUTATE: usize = 40;
pub const BOUNDARY_RANDOM: usize = 50;
pub const RANDOM_PATH_LENGTH: usize = 10;
pub const BATTLE_RUNS: usize = 50;
pub const BATTLE_FINAL_ITERATIONS: usize = 10000;

/// A population of candidate routes.
pub type Generation = Vec<Path>;

/// Every candidate's route indexes into a catalog of `n` cities and is
/// non-empty.
pub open spec fn population_ok(s: Seq<Path>, n: int) -> bool {
    forall|i: int|
        0 <= i < s.len() ==> route_in_range((#[trigger] s[i]).route(), n) && s[i].route().len()
            >= 1
}

/// No candidate's route is longer than `cap_len`.
pub open spec fn routes_capped(s: Seq<Path>, cap_len: int) -> bool {
    forall|i: int| 0 <= i < s.len() ==> (#[trigger] s[i]).route().len() <= cap_len
}

/// The length of the longest route in the population (0 when empty).
pub open spec fn max_route_len(s: Seq<Path>) -> int
    decreases s.len(),
{
    if s.len() == 0 {
        0
    } else {
        larger_of(max_route_len(s.drop_last()), s.last().route().len() as int)
    }
}

/// Each route is at most the longest.
pub proof fn lemma_max_route_len_bounds(s: Seq<Path>)
    ensures
        routes_capped(s, max_route_len(s)),
    decreases s.len(),
{
    if s.len() > 0 {
        lemma_max_route_len_bounds(s.drop_last());
        assert forall|i: int| 0 <= i < s.len() implies (#[trigger] s[i]).route().len()
            <= max_route_len(s) by {
            if i < s.len() - 1 {
                assert(s.drop_last()[i] == s[i]);
            } else {
                assert(s.last() == s[i]);
            }
        }
    }
}

/// A pointwise cap bounds the longest route.
pub proof fn lemma_max_route_len_le(s: Seq<Path>, b: int)
    requires
        b >= 0,
        routes_capped(s, b),
    ensures
        max_route_len(s) <= b,
    decreases s.len(),
{
    if s.len() > 0 {
        assert(routes_capped(s.drop_last(), b)) by {
            assert(forall|i: int|
                0 <= i < s.drop_last().len() ==> s.drop_last()[i] == (#[trigger] s[i]));
        }
        lemma_max_route_len_le(s.drop_last(), b);
        assert(s.last() == s[s.len() - 1]);
    }
}

/// A route built from elements of two in-range routes is in range.
proof fn lemma_origin_in_range(child: Seq<usize>, a: Seq<usize>, b: Seq<usize>, n: int)
    requires
        forall|i: int|
            0 <= i < child.len() ==> a.contains(#[trigger] child[i]) || b.contains(child[i]),
        route_in_range(a, n),
        route_in_range(b, n),
    ensures
        route_in_range(child, n),
{
    assert forall|i: int| 0 <= i < child.len() implies (#[trigger] child[i]) < n by {
        if a.contains(child[i]) {
            let j = choose|j: int| 0 <= j < a.len() && a[j] == child[i];
        } else {
            let j = choose|j: int| 0 <= j < b.len() && b[j] == child[i];
        }
    }
}

/// The first index past a band covering `percent` of the population.
fn band_boundary(cap: usize, percent: usize) -> (r: usize)
    requires
        percent <= 100,
        cap <= u32::MAX,
    ensures
        r == cap * percent / 100,
        r <= cap,
{
    proof {
        assert(cap * percent <= cap * 100) by (nonlinear_arith)
            requires
                0 <= cap && percent <= 100,
        ;
        assert(cap * percent / 100 <= cap * 100 / 100) by (nonlinear_arith)
            requires
                cap * percent <= cap * 100,
        ;
        assert(cap * 100 / 100 == cap) by (nonlinear_arith);
    }
    let wide: u64 = cap as u64 * percent as u64 / 100;
    wide as usize
}

/// A fresh random candidate: a route of the fixed short length whose
/// entries are drawn uniformly from the whole catalog, with no validity
/// check — validity is the evaluator's business.
pub fn generate_random_path_with_rng(rng: &mut RandomSource, catalog_len: usize) -> (p: Path)
    requires
        catalog_len >= 1,
    ensures
        p.route().len() == RANDOM_PATH_LENGTH,
        route_in_range(p.route(), catalog_len as int),
        p.population == 0 && p.distance == 0 && p.score == 0,
{
    let mut seq: Vec<usize> = Vec::new();
    let mut i: usize = 0;
    while i < RANDOM_PATH_LENGTH
        invariant
            catalog_len >= 1,
            seq@.len() == i,
            i <= RANDOM_PATH_LENGTH,
            route_in_range(seq@, catalog_len as int),
        decreases RANDOM_PATH_LENGTH - i,
    {
        seq.push(rng.next_below(catalog_len));
        i = i + 1;
    }
    Path::from_indexes(seq)
}

/// A fresh random candidate from an entropy-seeded source.
pub fn generate_random_path(catalog_len: usize) -> (p: Path)
    requires
        catalog_len >= 1,
    ensures
        p.route().len() == RANDOM_PATH_LENGTH,
        route_in_range(p.route(), catalog_len as int),
        p.population == 0 && p.distance == 0 && p.score == 0,
{
    let mut rng = RandomSource::from_entropy();
    generate_random_path_with_rng(&mut rng, catalog_len)
}

/// One full generation pass over the population, whatever order it is in:
/// the elite band is left untouched, the mutate band is replaced by
/// mutated copies, the random band by fresh random candidates, and the
/// crossover band by children of two parents drawn from the front of the
/// current array — which may already hold this pass's mutated or random
/// candidates, a deliberate coupling, chosen over snapshotting. The
/// population is then re-evaluated and re-sorted. Every route of the old
/// elite band survives into the new population.
fn advance_generation(
    generation: &mut Generation,
    cities: &Cities,
    distances: &Distances,
    rules: &Rules,
    rng: &mut RandomSource,
)
    requires
        cities_ok(*cities),
        distances_ok(distances.deep_view(), cities.len_spec()),
        cities.len_spec() >= 1,
        rules.depot < cities.len_spec(),
        1 <= old(generation)@.len() <= u32::MAX,
        population_ok(old(generation)@, cities.len_spec()),
        larger_of(max_route_len(old(generation)@), RANDOM_PATH_LENGTH as int) + 3 <= u32::MAX,
    ensures
        final(generation)@.len() == old(generation)@.len(),
        sorted_desc(final(generation)@),
        forall|i: int|
            0 <= i < final(generation)@.len() ==> is_evaluated(
                #[trigger] final(generation)@[i],
                *cities,
                distances.deep_view(),
                *rules,
            ),
        population_ok(final(generation)@, cities.len_spec()),
        routes_capped(
            final(generation)@,
            larger_of(max_route_len(old(generation)@), RANDOM_PATH_LENGTH as int) + 3,
        ),
        forall|i: int|
            0 <= i < old(generation)@.len() * BOUNDARY_ELITE / 100 ==> route_from(
                final(generation)@,
                (#[trigger] old(generation)@[i]).route(),
            ),
{
    let ghost n = cities.len_spec();
    let ghost dv = distances.deep_view();
    let ghost start = old(generation)@;
    let ghost cap0 = larger_of(max_route_len(start), RANDOM_PATH_LENGTH as int);
    proof {
        lemma_max_route_len_bounds(start);
    }

    let cap = generation.len();
    let catalog_len = cities.len();
    let boundary_elite = band_boundary(cap, BOUNDARY_ELITE);
    let boundary_mutate = band_boundary(cap, BOUNDARY_MUTATE);
    let boundary_random = band_boundary(cap, BOUNDARY_RANDOM);
    proof {
        assert(cap * BOUNDARY_ELITE <= cap * BOUNDARY_MUTATE && cap * BOUNDARY_MUTATE <= cap
            * BOUNDARY_RANDOM) by (nonlinear_arith)
            requires
                cap >= 0,
        ;
        assert(cap * BOUNDARY_ELITE / 100 <= cap * BOUNDARY_MUTATE / 100) by (nonlinear_arith)
            requires
                cap * BOUNDARY_ELITE <= cap * BOUNDARY_MUTATE,
        ;
        assert(cap * BOUNDARY_MUTATE / 100 <= cap * BOUNDARY_RANDOM / 100) by (nonlinear_arith)
            requires
                cap * BOUNDARY_MUTATE <= cap * BOUNDARY_RANDOM,
        ;
    }

    // mutate band: each candidate replaced by a mutated copy of itself
    let mut i = boundary_elite;
    while i < boundary_mutate
        invariant
            cities_ok(*cities),
            n == cities.len_spec(),
            n >= 1,
            catalog_len == n,
            rules.depot < n,
            generation@.len() == cap,
            boundary_elite <= boundary_mutate <= cap,
            boundary_elite <= i <= boundary_mutate,
            population_ok(generation@, n),
            cap0 + 3 <= u32::MAX,
            forall|j: int| 0 <= j < boundary_elite ==> generation@[j] == start[j],
            forall|j: int| 0 <= j < i ==> (#[trigger] generation@[j]).route().len() <= cap0 + 3,
            forall|j: int|
                i <= j < cap ==> (#[trigger] generation@[j]).route().len() <= cap0,
        decreases boundary_mutate - i,
    {
        let child = mutate(&generation[i], catalog_len, rules.depot, rng);
        generation[i] = child;
        i = i + 1;
    }

    // random band: freshly generated candidates
    let mut i = boundary_mutate;
    while i < boundary_random
        invariant
            n >= 1,
            catalog_len == n,
            generation@.len() == cap,
            boundary_elite <= boundary_mutate <= boundary_random <= cap,
            boundary_mutate <= i <= boundary_random,
            population_ok(generation@, n),
            cap0 >= RANDOM_PATH_LENGTH,
            forall|j: int| 0 <= j < boundary_elite ==> generation@[j] == start[j],
            forall|j: int| 0 <= j < i ==> (#[trigger] generation@[j]).route().len() <= cap0 + 3,
            forall|j: int|
                i <= j < cap ==> (#[trigger] generation@[j]).route().len() <= cap0,
        decreases boundary_random - i,
    {
        let fresh = generate_random_path_with_rng(rng, catalog_len);
        generation[i] = fresh;
        i = i + 1;
    }

    // crossover band: children of two parents drawn from the front
    let mut i = boundary_random;
    while i < cap
        invariant
            n >= 1,
            catalog_len == n,
            generation@.len() == cap,
            boundary_elite <= boundary_random <= i <= cap,
            population_ok(generation@, n),
            cap0 + 3 <= u32::MAX,
            forall|j: int| 0 <= j < boundary_elite ==> generation@[j] == start[j],
            forall|j: int| 0 <= j < i ==> (#[trigger] generation@[j]).route().len() <= cap0 + 3,
            forall|j: int|
                i <= j < cap ==> (#[trigger] generation@[j]).route().len() <= cap0,
        decreases cap - i,
    {
        if boundary_random >= 1 {
            let a = rng.next_below(boundary_random);
            let b = rng.next_below(boundary_random);
            let child = crossover(&generation[a], &generation[b], rng);
            proof {
                lemma_origin_in_range(
                    child.route(),
                    generation@[a as int].route(),
                    generation@[b as int].route(),
                    n,
                );
            }
            generation[i] = child;
        }
        i = i + 1;
    }

    // evaluate and re-sort the whole population
    let ghost before = generation@;
    calculate_scores(generation, cities, distances, rules);
    proof {
        lemma_preserved_route_props(before, generation@, n, 1, cap0 + 3);
        // the elite band stood untouched through the bands, and sorting
        // only permutes routes, so each elite route is still present
        crate::score::routes_of(before).to_multiset_ensures();
        crate::score::routes_of(generation@).to_multiset_ensures();
        assert forall|i: int| 0 <= i < start.len() * BOUNDARY_ELITE / 100 implies route_from(
            generation@,
            (#[trigger] start[i]).route(),
        ) by {
            assert(before[i] == start[i]);
            assert(crate::score::routes_of(before)[i] == start[i].route());
            assert(crate::score::routes_of(before).contains(start[i].route()));
            assert(crate::score::routes_of(before).to_multiset().count(start[i].route()) > 0);
            assert(crate::score::routes_of(generation@).contains(start[i].route()));
            let j = choose|j: int|
                0 <= j < crate::score::routes_of(generation@).len() && crate::score::routes_of(
                    generation@,
                )[j] == start[i].route();
            assert(generation@[j].route() == start[i].route());
        }
    }
}

/// Runs `iterations` generations over the population and returns the best
/// candidate. On return the population is evaluated, sorted by
/// non-increasing score, still of its configured size, and every route
/// still indexes into the catalog; the returned candidate is the first
/// (best-scoring) one.
pub fn do_x_iterations(
    generation: &mut Generation,
    cities: &Cities,
    distances: &Distances,
    rules: &Rules,
    iterations: usize,
    rng: &mut RandomSource,
) -> (best: Path)
    requires
        cities_ok(*cities),
        distances_ok(distances.deep_view(), cities.len_spec()),
        cities.len_spec() >= 1,
        rules.depot < cities.len_spec(),
        1 <= old(generation)@.len() <= u32::MAX,
        iterations <= 1_000_000_000,
        population_ok(old(generation)@, cities.len_spec()),
        larger_of(max_route_len(old(generation)@), RANDOM_PATH_LENGTH as int) + 3 * iterations
            <= u32::MAX,
    ensures
        final(generation)@.len() == old(generation)@.len(),
        sorted_desc(final(generation)@),
        forall|i: int|
            0 <= i < final(generation)@.len() ==> is_evaluated(
                #[trigger] final(generation)@[i],
                *cities,
                distances.deep_view(),
                *rules,
            ),
        population_ok(final(generation)@, cities.len_spec()),
        routes_capped(
            final(generation)@,
            larger_of(max_route_len(old(generation)@), RANDOM_PATH_LENGTH as int) + 3
                * iterations,
        ),
        best.route() == final(generation)@[0].route(),
        is_evaluated(best, *cities, distances.deep_view(), *rules),
        forall|i: int|
            0 <= i < final(generation)@.len() ==> best.score >= (
            #[trigger] final(generation)@[i]).score,
{
    let ghost n = cities.len_spec();
    let ghost dv = distances.deep_view();
    let ghost cap0 = larger_of(max_route_len(old(generation)@), RANDOM_PATH_LENGTH as int);
    proof {
        lemma_max_route_len_bounds(old(generation)@);
    }

    let cap = generation.len();

    let ghost pre = generation@;
    calculate_scores(generation, cities, distances, rules);
    proof {
        lemma_preserved_route_props(pre, generation@, n, 1, cap0);
    }

    let mut k: usize = 0;
    while k < iterations
        invariant
            cities_ok(*cities),
            distances_ok(dv, n),
            dv == distances.deep_view(),
            n == cities.len_spec(),
            n >= 1,
            rules.depot < n,
            generation@.len() == cap,
            1 <= cap <= u32::MAX,
            k <= iterations,
            iterations <= 1_000_000_000,
            cap0 >= RANDOM_PATH_LENGTH,
            cap0 + 3 * iterations <= u32::MAX,
            population_ok(generation@, n),
            routes_capped(generation@, cap0 + 3 * k),
            sorted_desc(generation@),
            forall|i: int|
                0 <= i < generation@.len() ==> is_evaluated(
                    #[trigger] generation@[i],
                    *cities,
                    dv,
                    *rules,
                ),
        decreases iterations - k,
    {
        let ghost round_start = generation@;
        proof {
            lemma_max_route_len_le(round_start, cap0 + 3 * k);
        }
        advance_generation(generation, cities, distances, rules, rng);
        proof {
            assert(routes_capped(
                generation@,
                larger_of(max_route_len(round_start), RANDOM_PATH_LENGTH as int) + 3,
            ));
            assert(larger_of(max_route_len(round_start), RANDOM_PATH_LENGTH as int) + 3 <= cap0
                + 3 * (k + 1));
        }
        k = k + 1;
    }

    let best = generation[0].duplicate();
    best
}

/// A tournament of independent runs: each run evolves a fresh random
/// population and its champion is placed into a second-stage population,
/// padded with random candidates; one further run over that population
/// yields the overall best. Returns an evaluated candidate whose route
/// indexes into the catalog.
pub fn battle_royale(
    cities: &Cities,
    distances: &Distances,
    rules: &Rules,
    rng: &mut RandomSource,
    runs: usize,
    iters_per_run: usize,
    final_iters: usize,
) -> (best: Path)
    requires
        cities_ok(*cities),
        distances_ok(distances.deep_view(), cities.len_spec()),
        cities.len_spec() >= 1,
        rules.depot < cities.len_spec(),
        runs <= GENERATION_SIZE,
        iters_per_run <= 1_000_000_000,
        final_iters <= 1_000_000_000,
        RANDOM_PATH_LENGTH + 3 * iters_per_run + 3 * final_iters <= u32::MAX,
    ensures
        is_evaluated(best, *cities, distances.deep_view(), *rules),
        route_in_range(best.route(), cities.len_spec()),
        best.route().len() >= 1,
{
    let ghost n = cities.len_spec();
    let catalog_len = cities.len();
    let ghost champion_cap = RANDOM_PATH_LENGTH + 3 * iters_per_run;

    let mut golden: Generation = Vec::new();
    while golden.len() < GENERATION_SIZE
        invariant
            catalog_len == n,
            n >= 1,
            golden@.len() <= GENERATION_SIZE,
            population_ok(golden@, n),
            routes_capped(golden@, RANDOM_PATH_LENGTH as int),
        decreases GENERATION_SIZE - golden@.len(),
    {
        let fresh = generate_random_path_with_rng(rng, catalog_len);
        golden.push(fresh);
    }

    let mut run: usize = 0;
    while run < runs
        invariant
            cities_ok(*cities),
            distances_ok(distances.deep_view(), n),
            n == cities.len_spec(),
            n >= 1,
            catalog_len == n,
            rules.depot < n,
            run <= runs,
            runs <= GENERATION_SIZE,
            iters_per_run <= 1_000_000_000,
            champion_cap == RANDOM_PATH_LENGTH + 3 * iters_per_run,
            champion_cap + 3 * final_iters <= u32::MAX,
            golden@.len() == GENERATION_SIZE,
            population_ok(golden@, n),
            routes_capped(golden@, champion_cap),
        decreases runs - run,
    {
        let mut generation: Generation = Vec::new();
        while generation.len() < GENERATION_SIZE
            invariant
                catalog_len == n,
                n >= 1,
                generation@.len() <= GENERATION_SIZE,
                population_ok(generation@, n),
                routes_capped(generation@, RANDOM_PATH_LENGTH as int),
            decreases GENERATION_SIZE - generation@.len(),
        {
            let fresh = generate_random_path_with_rng(rng, catalog_len);
            generation.push(fresh);
        }
        proof {
            lemma_max_route_len_le(generation@, RANDOM_PATH_LENGTH as int);
        }
        let champion = do_x_iterations(&mut generation, cities, distances, rules, iters_per_run, rng);
        golden[run] = champion;
        run = run + 1;
    }

    proof {
        lemma_max_route_len_le(golden@, champion_cap);
    }
    let best = do_x_iterations(&mut golden, cities, distances, rules, final_iters, rng);
    best
}

/// The standard tournament: the stock number of runs and generation
/// budgets over the loaded catalog and distance matrix.
pub fn main_battle(cities: &Cities, distances: &Distances, rules: &Rules, rng: &mut RandomSource) -> (best: Path)
    requires
        cities_ok(*cities),
        distances_ok(distances.deep_view(), cities.len_spec()),
        cities.len_spec() >= 1,
        rules.depot < cities.len_spec(),
    ensures
        is_evaluated(best, *cities, distances.deep_view(), *rules),
        route_in_range(best.route(), cities.len_spec()),
        best.route().len() >= 1,
{
    battle_royale(
        cities,
        distances,
        rules,
        rng,
        BATTLE_RUNS,
        ITERATION_COUNT as usize,
        BATTLE_FINAL_ITERATIONS,
    )
}

} // verus!
