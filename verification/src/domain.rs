//! Domain data for the route optimizer: the city catalog, the distance
//! matrix, one candidate route (`Path`), and the scoring rules.

use vstd::prelude::*;

verus! {

/// The city catalog: parallel arrays indexed by city id. The index is the
/// city's identity across the catalog and the distance matrix. `excluded`
/// marks cities whose every visit is penalized.
#[derive(Clone)]
pub struct Cities {
    pub names: Vec<String>,
    pub populations: Vec<u32>,
    pub excluded: Vec<bool>,
}

/// Square matrix of pairwise travel costs: `distances[i][j]` is the cost of
/// the hop from city `i` to city `j`.
pub type Distances = Vec<Vec<u32>>;

/// One candidate route: a variable-length sequence of city indices (repeats
/// allowed) plus derived metrics. The derived fields are authoritative only
/// after `score::calculate_score` has run on the current sequence.
#[derive(Clone)]
pub struct Path {
    pub city_indexes: Vec<usize>,
    pub population: u32,
    pub distance: u32,
    pub score: u32,
}

/// Scoring configuration: the mandated start/end city and the penalty
/// schedule applied by the fitness evaluator.
#[derive(Clone)]
pub struct Rules {
    pub depot: usize,
    pub max_distance: u32,
    pub penalty_distance: u32,
    pub penalty_endpoint: u32,
    pub penalty_forbidden: u32,
}

pub const DEPOT_CITY: usize = 91;
pub const MAX_DISTANCE: u32 = 1500;
pub const PENALTY_DISTANCE: u32 = 500;
pub const PENALTY_ENDPOINT: u32 = 100000;
pub const PENALTY_FORBIDDEN: u32 = 10000;

impl Rules {
    /// The standard configuration: depot city 91, a soft distance budget
    /// of 1500, and the stock penalty schedule.
    pub fn reference() -> (r: Rules)
        ensures
            r.depot == DEPOT_CITY,
            r.max_distance == MAX_DISTANCE,
            r.penalty_distance == PENALTY_DISTANCE,
            r.penalty_endpoint == PENALTY_ENDPOINT,
            r.penalty_forbidden == PENALTY_FORBIDDEN,
    {
        Rules {
            depot: DEPOT_CITY,
            max_distance: MAX_DISTANCE,
            penalty_distance: PENALTY_DISTANCE,
            penalty_endpoint: PENALTY_ENDPOINT,
            penalty_forbidden: PENALTY_FORBIDDEN,
        }
    }
}

/// Sum of the first `k` catalog populations.
pub open spec fn population_prefix_sum(pops: Seq<u32>, k: int) -> int
    decreases k,
{
    if k <= 0 {
        0
    } else {
        population_prefix_sum(pops, k - 1) + pops[k - 1]
    }
}

/// Longer prefixes never sum to less: populations are non-negative.
pub proof fn lemma_population_prefix_monotone(pops: Seq<u32>, k1: int, k2: int)
    requires
        k1 <= k2,
    ensures
        population_prefix_sum(pops, k1) <= population_prefix_sum(pops, k2),
    decreases k2,
{
    if k2 > k1 && k2 > 0 {
        lemma_population_prefix_monotone(pops, k1, k2 - 1);
    }
}

/// A well-formed catalog: the parallel arrays agree in length and the total
/// population fits in a `u32`, so covered-population sums never overflow.
pub open spec fn cities_ok(c: Cities) -> bool {
    &&& c.names@.len() == c.populations@.len()
    &&& c.excluded@.len() == c.populations@.len()
    &&& population_prefix_sum(c.populations@, c.populations@.len() as int) <= u32::MAX
}

/// A well-formed distance matrix for a catalog of `n` cities: square, with
/// every row of length `n`.
pub open spec fn distances_ok(d: Seq<Seq<u32>>, n: int) -> bool {
    &&& d.len() == n
    &&& forall|i: int| 0 <= i < n ==> (#[trigger] d[i]).len() == n
}

/// Every index of the route lies inside the catalog.
pub open spec fn route_in_range(seq: Seq<usize>, n: int) -> bool {
    forall|i: int| 0 <= i < seq.len() ==> (#[trigger] seq[i]) < n
}

impl Cities {
    pub open spec fn len_spec(&self) -> int {
        self.populations@.len() as int
    }

    /// Builds a catalog after validating it: the three arrays must agree in
    /// length and the total population must fit in a `u32`. Returns `None`
    /// exactly on ill-formed input.
    pub fn new(names: Vec<String>, populations: Vec<u32>, excluded: Vec<bool>) -> (r: Option<
        Cities,
    >)
        ensures
            match r {
                Some(c) => {
                    &&& cities_ok(c)
                    &&& c.names@ == names@
                    &&& c.populations@ == populations@
                    &&& c.excluded@ == excluded@
                },
                None => {
                    ||| names@.len() != populations@.len()
                    ||| excluded@.len() != populations@.len()
                    ||| population_prefix_sum(populations@, populations@.len() as int) > u32::MAX
                },
            },
    {
        if names.len() != populations.len() || excluded.len() != populations.len() {
            return None;
        }
        let mut total: u64 = 0;
        let mut k: usize = 0;
        while k < populations.len()
            invariant
                0 <= k <= populations@.len(),
                total == population_prefix_sum(populations@, k as int),
                total <= u32::MAX,
            decreases populations@.len() - k,
        {
            total = total + populations[k] as u64;
            k = k + 1;
            if total > u32::MAX as u64 {
                proof {
                    lemma_population_prefix_monotone(
                        populations@,
                        k as int,
                        populations@.len() as int,
                    );
                }
                return None;
            }
        }
        Some(Cities { names, populations, excluded })
    }

    /// Number of cities in the catalog.
    pub fn len(&self) -> (n: usize)
        requires
            cities_ok(*self),
        ensures
            n == self.len_spec(),
    {
        self.populations.len()
    }
}

/// Checks that `d` is a square matrix matching a catalog of `n` cities;
/// returns `true` exactly on well-formed matrices.
pub fn check_distances(d: &Distances, n: usize) -> (r: bool)
    ensures
        r == distances_ok(d.deep_view(), n as int),
{
    if d.len() != n {
        return false;
    }
    let mut i: usize = 0;
    while i < d.len()
        invariant
            0 <= i <= d@.len(),
            d@.len() == n,
            forall|j: int| 0 <= j < i ==> (#[trigger] d.deep_view()[j]).len() == n,
        decreases d@.len() - i,
    {
        if d[i].len() != n {
            assert(d.deep_view()[i as int].len() != n);
            return false;
        }
        assert(d.deep_view()[i as int].len() == n);
        i = i + 1;
    }
    true
}

impl Path {
    /// The route as a mathematical sequence.
    pub open spec fn route(&self) -> Seq<usize> {
        self.city_indexes@
    }

    /// A fresh, not-yet-evaluated candidate over the given route.
    pub fn from_indexes(city_indexes: Vec<usize>) -> (p: Path)
        ensures
            p.route() == city_indexes@,
            p.population == 0,
            p.distance == 0,
            p.score == 0,
    {
        Path { city_indexes, population: 0, distance: 0, score: 0 }
    }

    /// An exact value copy, field by field.
    pub fn duplicate(&self) -> (p: Path)
        ensures
            p.route() == self.route(),
            p.population == self.population,
            p.distance == self.distance,
            p.score == self.score,
    {
        let mut seq: Vec<usize> = Vec::new();
        let mut i: usize = 0;
        while i < self.city_indexes.len()
            invariant
                0 <= i <= self.city_indexes@.len(),
                seq@ == self.city_indexes@.subrange(0, i as int),
            decreases self.city_indexes@.len() - i,
        {
            seq.push(self.city_indexes[i]);
            assert(seq@ == self.city_indexes@.subrange(0, i + 1));
            i = i + 1;
        }
        assert(seq@ == self.city_indexes@);
        Path {
            city_indexes: seq,
            population: self.population,
            distance: self.distance,
            score: self.score,
        }
    }
}

} // verus!
