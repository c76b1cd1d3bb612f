//! The fitness evaluator: the sole source of truth for comparing candidate
//! routes. A route's score is the population covered by its distinct cities
//! minus penalties for excess distance, wrong endpoints and visits to
//! excluded cities, floored at zero.

use vstd::prelude::*;
use vstd::multiset::Multiset;
use crate::domain::{
    Cities, Distances, Path, Rules, cities_ok, distances_ok, route_in_range,
    population_prefix_sum, lemma_population_prefix_monotone,
};

verus! {

/// Sum of the first `k` hop costs of the route: hops `(0,1) .. (k-1,k)`.
pub open spec fn hop_sum(seq: Seq<usize>, d: Seq<Seq<u32>>, k: int) -> int
    decreases k,
{
    if k <= 0 {
        0
    } else {
        hop_sum(seq, d, k - 1) + d[seq[k - 1] as int][seq[k] as int]
    }
}

/// Total travel cost of the route: the sum over consecutive pairs. A route
/// of length 0 or 1 has distance 0.
pub open spec fn route_distance(seq: Seq<usize>, d: Seq<Seq<u32>>) -> int {
    hop_sum(seq, d, seq.len() - 1)
}

/// Population covered by the cities with index below `c` that the route
/// visits. Each distinct city counts once, however often it is visited.
pub open spec fn covered_upto(seq: Seq<usize>, pops: Seq<u32>, c: int) -> int
    decreases c,
{
    if c <= 0 {
        0
    } else {
        covered_upto(seq, pops, c - 1) + if seq.contains((c - 1) as usize) {
            pops[c - 1] as int
        } else {
            0
        }
    }
}

/// Population covered by the route: the sum of catalog populations over the
/// set of distinct city indices it visits.
pub open spec fn covered_population(seq: Seq<usize>, pops: Seq<u32>) -> int {
    covered_upto(seq, pops, pops.len() as int)
}

/// Number of positions among the first `k` that visit an excluded city.
/// Occurrences are counted per position, not deduplicated.
pub open spec fn forbidden_upto(seq: Seq<usize>, excluded: Seq<bool>, k: int) -> int
    decreases k,
{
    if k <= 0 {
        0
    } else {
        forbidden_upto(seq, excluded, k - 1) + if excluded[seq[k - 1] as int] {
            1int
        } else {
            0int
        }
    }
}

pub open spec fn forbidden_count(seq: Seq<usize>, excluded: Seq<bool>) -> int {
    forbidden_upto(seq, excluded, seq.len() as int)
}

/// The additive penalty of a route: overage beyond the distance budget,
/// a flat penalty for each endpoint that is not the depot (an empty route
/// misses both), and a flat penalty per visit to an excluded city.
pub open spec fn route_penalty(
    seq: Seq<usize>,
    d: Seq<Seq<u32>>,
    excluded: Seq<bool>,
    rules: Rules,
) -> int {
    let dist = route_distance(seq, d);
    (if dist > rules.max_distance {
        (dist - rules.max_distance) * rules.penalty_distance
    } else {
        0
    }) + (if seq.len() == 0 || seq[0] != rules.depot {
        rules.penalty_endpoint as int
    } else {
        0
    }) + (if seq.len() == 0 || seq[seq.len() - 1] != rules.depot {
        rules.penalty_endpoint as int
    } else {
        0
    }) + forbidden_count(seq, excluded) * rules.penalty_forbidden
}

/// The score of a route: covered population minus total penalty, floored
/// at zero.
pub open spec fn route_score(
    seq: Seq<usize>,
    d: Seq<Seq<u32>>,
    pops: Seq<u32>,
    excluded: Seq<bool>,
    rules: Rules,
) -> int {
    let pop = covered_population(seq, pops);
    let pen = route_penalty(seq, d, excluded, rules);
    if pop > pen {
        pop - pen
    } else {
        0
    }
}

/// The derived fields of `p` agree with the evaluator's definition for its
/// current route. The `distance` field is the true distance saturated at
/// `u32::MAX`; penalties are always computed from the true distance.
pub open spec fn is_evaluated(p: Path, c: Cities, d: Seq<Seq<u32>>, rules: Rules) -> bool {
    &&& p.population == covered_population(p.route(), c.populations@)
    &&& p.distance == if route_distance(p.route(), d) > u32::MAX {
        u32::MAX as int
    } else {
        route_distance(p.route(), d)
    }
    &&& p.score == route_score(p.route(), d, c.populations@, c.excluded@, rules)
}

/// Whether the route visits city `x`.
pub fn route_contains(v: &Vec<usize>, x: usize) -> (r: bool)
    ensures
        r == v@.contains(x),
{
    let mut i: usize = 0;
    while i < v.len()
        invariant
            0 <= i <= v@.len(),
            forall|j: int| 0 <= j < i ==> v@[j] != x,
        decreases v@.len() - i,
    {
        if v[i] == x {
            return true;
        }
        i = i + 1;
    }
    false
}

/// Covered population never exceeds the catalog's total population.
pub proof fn lemma_covered_bounded(seq: Seq<usize>, pops: Seq<u32>, c: int)
    ensures
        0 <= covered_upto(seq, pops, c),
        covered_upto(seq, pops, c) <= population_prefix_sum(pops, c),
    decreases c,
{
    if c > 0 {
        lemma_covered_bounded(seq, pops, c - 1);
    }
}

/// The score is never negative, even when the penalty exceeds the covered
/// population.
pub proof fn lemma_score_never_negative(
    seq: Seq<usize>,
    d: Seq<Seq<u32>>,
    pops: Seq<u32>,
    excluded: Seq<bool>,
    rules: Rules,
)
    ensures
        route_score(seq, d, pops, excluded, rules) >= 0,
{
    lemma_covered_bounded(seq, pops, pops.len() as int);
}

proof fn lemma_covered_upto_same_visits(s1: Seq<usize>, s2: Seq<usize>, pops: Seq<u32>, c: int)
    requires
        forall|x: usize| s1.contains(x) <==> s2.contains(x),
    ensures
        covered_upto(s1, pops, c) == covered_upto(s2, pops, c),
    decreases c,
{
    if c > 0 {
        lemma_covered_upto_same_visits(s1, s2, pops, c - 1);
    }
}

/// Covered population depends only on the set of distinct cities visited:
/// routes visiting the same cities cover the same population, so duplicate
/// visits never inflate it.
pub proof fn lemma_covered_population_is_set_sum(s1: Seq<usize>, s2: Seq<usize>, pops: Seq<u32>)
    requires
        forall|x: usize| s1.contains(x) <==> s2.contains(x),
    ensures
        covered_population(s1, pops) == covered_population(s2, pops),
{
    lemma_covered_upto_same_visits(s1, s2, pops, pops.len() as int);
}

proof fn lemma_no_forbidden_visits(seq: Seq<usize>, excluded: Seq<bool>, k: int)
    requires
        forall|i: int| 0 <= i < seq.len() ==> !excluded[(#[trigger] seq[i]) as int],
        k <= seq.len(),
    ensures
        forbidden_upto(seq, excluded, k) == 0,
    decreases k,
{
    if k > 0 {
        lemma_no_forbidden_visits(seq, excluded, k - 1);
    }
}

/// A clean route pays no penalty: if it starts and ends at the depot, stays
/// within the distance budget and visits no excluded city, its score equals
/// its covered population exactly.
pub proof fn lemma_clean_route_scores_population(
    seq: Seq<usize>,
    d: Seq<Seq<u32>>,
    pops: Seq<u32>,
    excluded: Seq<bool>,
    rules: Rules,
)
    requires
        seq.len() >= 1,
        seq[0] == rules.depot,
        seq[seq.len() - 1] == rules.depot,
        route_distance(seq, d) <= rules.max_distance,
        forall|i: int| 0 <= i < seq.len() ==> !excluded[(#[trigger] seq[i]) as int],
    ensures
        route_penalty(seq, d, excluded, rules) == 0,
        route_score(seq, d, pops, excluded, rules) == covered_population(seq, pops),
{
    lemma_no_forbidden_visits(seq, excluded, seq.len() as int);
    lemma_covered_bounded(seq, pops, pops.len() as int);
}

/// Evaluation is idempotent: two evaluated candidates over the same route
/// carry identical derived fields, whatever order or how often the
/// evaluator ran.
pub proof fn lemma_evaluation_idempotent(
    p1: Path,
    p2: Path,
    c: Cities,
    d: Seq<Seq<u32>>,
    rules: Rules,
)
    requires
        p1.route() == p2.route(),
        is_evaluated(p1, c, d, rules),
        is_evaluated(p2, c, d, rules),
    ensures
        p1.population == p2.population,
        p1.distance == p2.distance,
        p1.score == p2.score,
{
}

/// Recomputes the derived fields of `path` from its current route, the
/// catalog and the distance matrix. Pure in effect: the route itself is
/// unchanged, and the fields afterwards are exactly the evaluator's
/// definition, so evaluation is idempotent.
pub fn calculate_score(path: &mut Path, cities: &Cities, distances: &Distances, rules: &Rules)
    requires
        cities_ok(*cities),
        distances_ok(distances.deep_view(), cities.len_spec()),
        route_in_range(old(path).route(), cities.len_spec()),
        old(path).route().len() <= u32::MAX,
    ensures
        final(path).route() == old(path).route(),
        is_evaluated(*final(path), *cities, distances.deep_view(), *rules),
{
    let ghost seq = path.city_indexes@;
    let ghost dv = distances.deep_view();
    let n = cities.populations.len();
    let len = path.city_indexes.len();

    // total travel cost of consecutive hops, exact in u64
    let mut dist_sum: u64 = 0;
    let mut i: usize = 1;
    while i < len
        invariant
            1 <= i,
            len == seq.len(),
            i <= len || i == 1,
            path.city_indexes@ == seq,
            distances_ok(dv, cities.len_spec()),
            dv == distances.deep_view(),
            route_in_range(seq, cities.len_spec()),
            len <= u32::MAX,
            dist_sum == hop_sum(seq, dv, i - 1),
            dist_sum <= (i - 1) * (u32::MAX as int),
        decreases len - i,
    {
        let a = path.city_indexes[i - 1];
        let b = path.city_indexes[i];
        assert(dv[a as int] == distances@[a as int]@);
        let hop = distances[a][b];
        assert(hop == dv[a as int][b as int]);
        proof {
            assert((i as int) * (u32::MAX as int) == (i as int - 1) * (u32::MAX as int)
                + u32::MAX as int) by (nonlinear_arith);
            assert((i as int) * (u32::MAX as int) <= (u32::MAX as int) * (u32::MAX as int))
                by (nonlinear_arith)
                requires
                    1 <= i as int <= u32::MAX as int,
            ;
        }
        dist_sum = dist_sum + hop as u64;
        i = i + 1;
    }
    assert(len >= 2 ==> dist_sum == hop_sum(seq, dv, len - 1));
    assert(len <= 1 ==> dist_sum == 0 && hop_sum(seq, dv, len - 1) == 0);
    assert(dist_sum == route_distance(seq, dv));
    path.distance = if dist_sum > u32::MAX as u64 {
        u32::MAX
    } else {
        dist_sum as u32
    };

    // population covered by distinct visited cities, exact in u64
    let mut pop: u64 = 0;
    let mut c: usize = 0;
    while c < n
        invariant
            0 <= c <= n,
            n == cities.populations@.len(),
            cities_ok(*cities),
            path.city_indexes@ == seq,
            pop == covered_upto(seq, cities.populations@, c as int),
            pop <= population_prefix_sum(cities.populations@, c as int),
        decreases n - c,
    {
        proof {
            lemma_covered_bounded(seq, cities.populations@, c + 1);
            lemma_population_prefix_monotone(
                cities.populations@,
                c + 1,
                cities.populations@.len() as int,
            );
        }
        if route_contains(&path.city_indexes, c) {
            pop = pop + cities.populations[c] as u64;
        }
        c = c + 1;
    }
    path.population = pop as u32;

    // penalized visits to excluded cities, one per position
    let mut forb: u64 = 0;
    let mut k: usize = 0;
    while k < len
        invariant
            0 <= k <= len,
            len == seq.len(),
            cities_ok(*cities),
            path.city_indexes@ == seq,
            route_in_range(seq, cities.len_spec()),
            forb == forbidden_upto(seq, cities.excluded@, k as int),
            forb <= k,
            len <= u32::MAX,
        decreases len - k,
    {
        let city = path.city_indexes[k];
        if cities.excluded[city] {
            forb = forb + 1;
        }
        k = k + 1;
    }

    // total penalty, exact in u128
    let max_d = rules.max_distance as u64;
    proof {
        assert((dist_sum as int - max_d as int) * (rules.penalty_distance as int) <= (
        u64::MAX as int) * (u32::MAX as int)) by (nonlinear_arith)
            requires
                0 <= dist_sum as int - max_d as int <= u64::MAX as int || dist_sum <= max_d,
                rules.penalty_distance <= u32::MAX as int,
                dist_sum as int - max_d as int <= u64::MAX as int,
        ;
        assert((forb as int) * (rules.penalty_forbidden as int) <= (u64::MAX as int) * (
        u32::MAX as int)) by (nonlinear_arith)
            requires
                0 <= forb as int <= u64::MAX as int,
                0 <= rules.penalty_forbidden <= u32::MAX as int,
        ;
    }
    let mut penalty: u128 = if dist_sum > max_d {
        (dist_sum - max_d) as u128 * rules.penalty_distance as u128
    } else {
        0
    };
    if len == 0 || path.city_indexes[0] != rules.depot {
        penalty = penalty + rules.penalty_endpoint as u128;
    }
    if len == 0 || path.city_indexes[len - 1] != rules.depot {
        penalty = penalty + rules.penalty_endpoint as u128;
    }
    penalty = penalty + forb as u128 * rules.penalty_forbidden as u128;
    assert(penalty == route_penalty(seq, dv, cities.excluded@, *rules));

    // score: covered population minus penalty, floored at zero
    if pop as u128 > penalty {
        path.score = (pop as u128 - penalty) as u32;
    } else {
        path.score = 0;
    }
}

/// The routes of a population, in order.
pub open spec fn routes_of(s: Seq<Path>) -> Seq<Seq<usize>> {
    s.map_values(|p: Path| p.city_indexes@)
}

/// Scores are non-increasing along the population.
pub open spec fn sorted_desc(s: Seq<Path>) -> bool {
    forall|i: int, j: int| 0 <= i <= j < s.len() ==> s[i].score >= s[j].score
}

proof fn lemma_routes_of_remove(s: Seq<Path>, i: int)
    requires
        0 <= i < s.len(),
    ensures
        routes_of(s.remove(i)) == routes_of(s).remove(i),
{
    assert(routes_of(s.remove(i)) =~= routes_of(s).remove(i));
}

proof fn lemma_routes_of_push(s: Seq<Path>, p: Path)
    ensures
        routes_of(s.push(p)) == routes_of(s).push(p.city_indexes@),
{
    assert(routes_of(s.push(p)) =~= routes_of(s).push(p.city_indexes@));
}

/// The route `r` occurs somewhere in the population `s0`.
pub open spec fn route_from(s0: Seq<Path>, r: Seq<usize>) -> bool {
    exists|j: int| 0 <= j < s0.len() && r == (#[trigger] s0[j]).route()
}

/// Every route of `s1` already occurs in `s0`: nothing was fabricated.
pub open spec fn routes_preserved(s0: Seq<Path>, s1: Seq<Path>) -> bool {
    forall|i: int| 0 <= i < s1.len() ==> route_from(s0, (#[trigger] s1[i]).route())
}

/// Per-route facts (index range and length window) carry over to any
/// population whose routes were all drawn from the first.
pub proof fn lemma_preserved_route_props(s0: Seq<Path>, s1: Seq<Path>, n: int, lo: int, hi: int)
    requires
        routes_preserved(s0, s1),
        forall|j: int|
            0 <= j < s0.len() ==> route_in_range((#[trigger] s0[j]).route(), n)
                && lo <= s0[j].route().len() <= hi,
    ensures
        forall|i: int|
            0 <= i < s1.len() ==> route_in_range((#[trigger] s1[i]).route(), n)
                && lo <= s1[i].route().len() <= hi,
{
    assert forall|i: int| 0 <= i < s1.len() implies route_in_range(
        (#[trigger] s1[i]).route(),
        n,
    ) && lo <= s1[i].route().len() <= hi by {
        assert(route_from(s0, s1[i].route()));
        let j = choose|j: int| 0 <= j < s0.len() && s1[i].route() == (#[trigger] s0[j]).route();
    }
}

/// Sorts the population by descending score. The result is a permutation of
/// the input: the multiset of routes is unchanged, and every candidate of
/// the result is one of the input's candidates, fields and all.
fn sort_by_score_desc(v: &mut Vec<Path>)
    ensures
        final(v)@.len() == old(v)@.len(),
        sorted_desc(final(v)@),
        final(v)@.to_multiset() == old(v)@.to_multiset(),
        routes_of(final(v)@).to_multiset() == routes_of(old(v)@).to_multiset(),
{
    let ghost orig = v@;
    let mut out: Vec<Path> = Vec::new();
    proof {
        broadcast use vstd::multiset::group_multiset_axioms;

        out@.to_multiset_ensures();
        routes_of(out@).to_multiset_ensures();
        assert(routes_of(out@) =~= Seq::<Seq<usize>>::empty());
        assert(out@.to_multiset() =~= Multiset::<Path>::empty());
        assert(routes_of(out@).to_multiset() =~= Multiset::<Seq<usize>>::empty());
        assert(out@.to_multiset().add(v@.to_multiset()) =~= orig.to_multiset());
        assert(routes_of(out@).to_multiset().add(routes_of(v@).to_multiset()) =~= routes_of(
            orig,
        ).to_multiset());
    }
    while v.len() > 0
        invariant
            out@.len() + v@.len() == orig.len(),
            out@.to_multiset().add(v@.to_multiset()) == orig.to_multiset(),
            routes_of(out@).to_multiset().add(routes_of(v@).to_multiset()) == routes_of(
                orig,
            ).to_multiset(),
            sorted_desc(out@),
            forall|i: int, j: int|
                0 <= i < out@.len() && 0 <= j < v@.len() ==> out@[i].score >= v@[j].score,
        decreases v@.len(),
    {
        // index of a maximal score among the remaining candidates
        let mut m: usize = 0;
        let mut t: usize = 1;
        while t < v.len()
            invariant
                0 <= m < v@.len(),
                1 <= t,
                t <= v@.len() || t == 1,
                forall|j: int| 0 <= j < t && j < v@.len() ==> v@[m as int].score >= v@[j].score,
            decreases v@.len() - t,
        {
            if v[t].score > v[m].score {
                m = t;
            }
            t = t + 1;
        }
        let ghost pre = v@;
        let p = v.remove(m);
        proof {
            broadcast use vstd::multiset::group_multiset_axioms;

            lemma_routes_of_remove(pre, m as int);
            lemma_routes_of_push(out@, p);
            pre.to_multiset_ensures();
            routes_of(pre).to_multiset_ensures();
            out@.to_multiset_ensures();
            routes_of(out@).to_multiset_ensures();
            assert(v@ == pre.remove(m as int));
            assert(pre.contains(p)) by {
                assert(pre[m as int] == p);
            }
            assert(routes_of(pre).contains(p.city_indexes@)) by {
                assert(routes_of(pre)[m as int] == p.city_indexes@);
            }
            assert(out@.to_multiset().insert(p).add(v@.to_multiset()) =~= out@.to_multiset().add(
                pre.to_multiset(),
            ));
            assert(routes_of(out@).to_multiset().insert(p.city_indexes@).add(
                routes_of(v@).to_multiset(),
            ) =~= routes_of(out@).to_multiset().add(routes_of(pre).to_multiset()));
        }
        out.push(p);
    }
    proof {
        broadcast use vstd::multiset::group_multiset_axioms;

        v@.to_multiset_ensures();
        routes_of(v@).to_multiset_ensures();
        assert(v@.to_multiset() =~= Multiset::<Path>::empty());
        assert(routes_of(v@) =~= Seq::<Seq<usize>>::empty());
        assert(routes_of(v@).to_multiset() =~= Multiset::<Seq<usize>>::empty());
        assert(out@.to_multiset() =~= orig.to_multiset());
        assert(routes_of(out@).to_multiset() =~= routes_of(orig).to_multiset());
    }
    *v = out;
}

/// Evaluates every candidate of the population in place, then sorts it by
/// descending score. The multiset of routes is unchanged; afterwards every
/// candidate's derived fields are authoritative, every route still indexes
/// into the catalog, and every surviving route is one of the input routes.
pub fn calculate_scores(generation: &mut Vec<Path>, cities: &Cities, distances: &Distances, rules: &Rules)
    requires
        cities_ok(*cities),
        distances_ok(distances.deep_view(), cities.len_spec()),
        forall|i: int|
            0 <= i < old(generation)@.len() ==> route_in_range(
                (#[trigger] old(generation)@[i]).route(),
                cities.len_spec(),
            ) && old(generation)@[i].route().len() <= u32::MAX,
    ensures
        final(generation)@.len() == old(generation)@.len(),
        sorted_desc(final(generation)@),
        forall|i: int|
            0 <= i < final(generation)@.len() ==> is_evaluated(
                #[trigger] final(generation)@[i],
                *cities,
                distances.deep_view(),
                *rules,
            ),
        routes_of(final(generation)@).to_multiset() == routes_of(old(generation)@).to_multiset(),
        routes_preserved(old(generation)@, final(generation)@),
{
    let ghost orig = generation@;
    let mut i: usize = 0;
    while i < generation.len()
        invariant
            0 <= i <= generation@.len(),
            generation@.len() == orig.len(),
            cities_ok(*cities),
            distances_ok(distances.deep_view(), cities.len_spec()),
            forall|j: int|
                0 <= j < orig.len() ==> route_in_range(
                    (#[trigger] orig[j]).route(),
                    cities.len_spec(),
                ) && orig[j].route().len() <= u32::MAX,
            forall|j: int|
                0 <= j < i ==> (#[trigger] generation@[j]).route() == orig[j].route(),
            forall|j: int|
                0 <= j < i ==> is_evaluated(
                    #[trigger] generation@[j],
                    *cities,
                    distances.deep_view(),
                    *rules,
                ),
            forall|j: int| i <= j < orig.len() ==> generation@[j] == orig[j],
        decreases generation@.len() - i,
    {
        let mut p = generation[i].duplicate();
        assert(p.route() == orig[i as int].route());
        calculate_score(&mut p, cities, distances, rules);
        generation[i] = p;
        i = i + 1;
    }
    assert(routes_of(generation@) =~= routes_of(orig));
    let ghost evaluated = generation@;
    sort_by_score_desc(generation);
    proof {
        generation@.to_multiset_ensures();
        evaluated.to_multiset_ensures();
    }
    assert forall|i: int| 0 <= i < generation@.len() implies is_evaluated(
        #[trigger] generation@[i],
        *cities,
        distances.deep_view(),
        *rules,
    ) by {
        assert(generation@.contains(generation@[i]));
        assert(generation@.to_multiset().count(generation@[i]) > 0);
        assert(evaluated.contains(generation@[i]));
        let j = choose|j: int| 0 <= j < evaluated.len() && evaluated[j] == generation@[i];
    }
    assert forall|i: int| 0 <= i < generation@.len() implies route_from(
        old(generation)@,
        (#[trigger] generation@[i]).route(),
    ) by {
        assert(generation@.contains(generation@[i]));
        assert(generation@.to_multiset().count(generation@[i]) > 0);
        assert(evaluated.contains(generation@[i]));
        let j = choose|j: int| 0 <= j < evaluated.len() && evaluated[j] == generation@[i];
        assert(generation@[i].route() == old(generation)@[j].route());
    }
}

} // verus!
