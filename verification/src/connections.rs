//! Undirected city connections, as edited in the interactive route
//! builder: a symmetric boolean adjacency matrix, a conversion between a
//! route and its edge set, and the per-city display status. Neighbour scans
//! walk city indices in ascending order, so every conversion is
//! deterministic.

use vstd::prelude::*;
use crate::domain::{Path, route_in_range};

verus! {

/// Display status of one city in the interactive builder.
#[derive(Clone, Copy, PartialEq, Eq, Structural, Debug)]
pub enum CityStatus {
    NotConnected,
    ConnectedOne,
    ConnectedTwo,
    Selected,
    Invalid,
}

/// Symmetric boolean adjacency matrix: `connections[a][b]` says whether
/// cities `a` and `b` are joined.
pub type Connections = Vec<Vec<bool>>;

/// A well-formed connection matrix over `n` cities: square and symmetric.
pub open spec fn connections_wf(c: Seq<Seq<bool>>, n: int) -> bool {
    &&& c.len() == n
    &&& forall|a: int| 0 <= a < n ==> (#[trigger] c[a]).len() == n
    &&& forall|a: int, b: int| 0 <= a < n && 0 <= b < n ==> c[a][b] == c[b][a]
}

/// Cities `a` and `b` are joined.
pub open spec fn has_edge(c: Seq<Seq<bool>>, a: int, b: int) -> bool {
    c[a][b]
}

/// Consecutive cities `a`, `b` stand next to each other somewhere in the
/// recorded part of the route (its last hop is not recorded, matching a
/// route whose final element closes the walk).
pub open spec fn route_edge(seq: Seq<usize>, a: int, b: int) -> bool {
    exists|i: int|
        0 <= i < seq.len() - 2 && (((#[trigger] seq[i]) == a && seq[i + 1] == b) || (seq[i] == b
            && seq[i + 1] == a))
}

/// Number of `true` entries among the first `k`.
pub open spec fn true_count(s: Seq<bool>, k: int) -> int
    decreases k,
{
    if k <= 0 {
        0
    } else {
        true_count(s, k - 1) + if s[k - 1] {
            1int
        } else {
            0int
        }
    }
}

/// The status the interactive builder shows for a city: excluded cities
/// are invalid outright, otherwise the connection count decides.
pub open spec fn spec_status(c: Seq<Seq<bool>>, index: int, excluded: Seq<bool>) -> CityStatus {
    if excluded[index] {
        CityStatus::Invalid
    } else {
        let d = true_count(c[index], c[index].len() as int);
        if d == 0 {
            CityStatus::NotConnected
        } else if d == 1 {
            CityStatus::ConnectedOne
        } else if d == 2 {
            CityStatus::ConnectedTwo
        } else {
            CityStatus::Invalid
        }
    }
}

/// An edgeless matrix over `n` cities.
pub fn new_connections(n: usize) -> (c: Connections)
    ensures
        connections_wf(c.deep_view(), n as int),
        forall|a: int, b: int| 0 <= a < n && 0 <= b < n ==> !has_edge(c.deep_view(), a, b),
{
    let mut c: Connections = Vec::new();
    let mut a: usize = 0;
    while a < n
        invariant
            c.deep_view().len() == a,
            a <= n,
            forall|x: int| 0 <= x < a ==> (#[trigger] c.deep_view()[x]).len() == n,
            forall|x: int, y: int|
                0 <= x < a && 0 <= y < n ==> !(#[trigger] c.deep_view()[x][y]),
        decreases n - a,
    {
        let mut row: Vec<bool> = Vec::new();
        let mut b: usize = 0;
        while b < n
            invariant
                row@.len() == b,
                b <= n,
                forall|y: int| 0 <= y < b ==> !(#[trigger] row@[y]),
            decreases n - b,
        {
            row.push(false);
            b = b + 1;
        }
        let ghost dvp = c.deep_view();
        c.push(row);
        assert(c.deep_view() =~~= dvp.push(row@));
        a = a + 1;
    }
    c
}

/// Sets both directions of the pair `(a, b)` to `value`; every other cell
/// is untouched.
fn set_edge(c: &mut Connections, a: usize, b: usize, value: bool)
    requires
        connections_wf(old(c).deep_view(), old(c)@.len() as int),
        a < old(c)@.len(),
        b < old(c)@.len(),
    ensures
        connections_wf(final(c).deep_view(), old(c)@.len() as int),
        final(c)@.len() == old(c)@.len(),
        has_edge(final(c).deep_view(), a as int, b as int) == value,
        forall|x: int, y: int|
            0 <= x < old(c)@.len() && 0 <= y < old(c)@.len() && !(x == a && y == b) && !(x == b
                && y == a) ==> final(c).deep_view()[x][y] == old(c).deep_view()[x][y],
{
    let ghost n = c@.len() as int;
    let ghost dv0 = c.deep_view();
    // read-modify-write each affected row
    let mut row_a: Vec<bool> = Vec::new();
    let mut i: usize = 0;
    let alen = c[a].len();
    while i < alen
        invariant
            a < c@.len(),
            alen == c@[a as int]@.len(),
            row_a@ == c.deep_view()[a as int].subrange(0, i as int),
            i <= alen,
        decreases alen - i,
    {
        row_a.push(c[a][i]);
        assert(row_a@ =~= c.deep_view()[a as int].subrange(0, i + 1));
        i = i + 1;
    }
    assert(row_a@ =~= c.deep_view()[a as int]);
    row_a[b] = value;
    c[a] = row_a;
    assert(c.deep_view() =~~= dv0.update(a as int, dv0[a as int].update(b as int, value)));

    let ghost dv1 = c.deep_view();
    let mut row_b: Vec<bool> = Vec::new();
    let mut i: usize = 0;
    let blen = c[b].len();
    while i < blen
        invariant
            b < c@.len(),
            blen == c@[b as int]@.len(),
            row_b@ == c.deep_view()[b as int].subrange(0, i as int),
            i <= blen,
        decreases blen - i,
    {
        row_b.push(c[b][i]);
        assert(row_b@ =~= c.deep_view()[b as int].subrange(0, i + 1));
        i = i + 1;
    }
    assert(row_b@ =~= c.deep_view()[b as int]);
    row_b[a] = value;
    c[b] = row_b;
    assert(c.deep_view() =~~= dv1.update(b as int, dv1[b as int].update(a as int, value)));
}

/// Whether cities `a` and `b` are currently joined.
pub fn edge_exists(c: &Connections, a: usize, b: usize) -> (r: bool)
    requires
        connections_wf(c.deep_view(), c@.len() as int),
        a < c@.len(),
        b < c@.len(),
    ensures
        r == has_edge(c.deep_view(), a as int, b as int),
{
    assert(c.deep_view()[a as int] =~= c@[a as int]@);
    let v = c[a][b];
    assert(v == c.deep_view()[a as int][b as int]);
    v
}

/// Connection count of one city.
pub fn connection_count(c: &Connections, index: usize) -> (d: u64)
    requires
        connections_wf(c.deep_view(), c@.len() as int),
        index < c@.len(),
    ensures
        d == true_count(c.deep_view()[index as int], c.deep_view()[index as int].len() as int),
{
    let row_len = c[index].len();
    let mut d: u64 = 0;
    let mut i: usize = 0;
    while i < row_len
        invariant
            index < c@.len(),
            row_len == c.deep_view()[index as int].len(),
            i <= row_len,
            d == true_count(c.deep_view()[index as int], i as int),
            d <= i,
        decreases row_len - i,
    {
        if c[index][i] {
            assert(c.deep_view()[index as int][i as int]);
            d = d + 1;
        } else {
            assert(!c.deep_view()[index as int][i as int]);
        }
        i = i + 1;
    }
    d
}

/// Recomputes the shown status of one city from its connection count and
/// its excluded flag; no other city's status changes.
pub fn update_city_status(
    index: usize,
    connections: &Connections,
    city_statuses: &mut Vec<CityStatus>,
    excluded: &Vec<bool>,
)
    requires
        connections_wf(connections.deep_view(), connections@.len() as int),
        index < connections@.len(),
        old(city_statuses)@.len() == connections@.len(),
        excluded@.len() == connections@.len(),
    ensures
        final(city_statuses)@ == old(city_statuses)@.update(
            index as int,
            spec_status(connections.deep_view(), index as int, excluded@),
        ),
{
    let status = if excluded[index] {
        CityStatus::Invalid
    } else {
        let d = connection_count(connections, index);
        if d == 0 {
            CityStatus::NotConnected
        } else if d == 1 {
            CityStatus::ConnectedOne
        } else if d == 2 {
            CityStatus::ConnectedTwo
        } else {
            CityStatus::Invalid
        }
    };
    city_statuses[index] = status;
}

/// Toggles the connection between two cities — removed if present, added
/// if absent — and refreshes both cities' statuses. No other edge and no
/// other city's status changes.
pub fn process_connection(
    index1: usize,
    index2: usize,
    connections: &mut Connections,
    city_statuses: &mut Vec<CityStatus>,
    excluded: &Vec<bool>,
)
    requires
        connections_wf(old(connections).deep_view(), old(connections)@.len() as int),
        index1 < old(connections)@.len(),
        index2 < old(connections)@.len(),
        old(city_statuses)@.len() == old(connections)@.len(),
        excluded@.len() == old(connections)@.len(),
    ensures
        connections_wf(final(connections).deep_view(), old(connections)@.len() as int),
        final(connections)@.len() == old(connections)@.len(),
        has_edge(final(connections).deep_view(), index1 as int, index2 as int) == !has_edge(
            old(connections).deep_view(),
            index1 as int,
            index2 as int,
        ),
        forall|x: int, y: int|
            0 <= x < old(connections)@.len() && 0 <= y < old(connections)@.len() && !(x == index1
                && y == index2) && !(x == index2 && y == index1)
                ==> final(connections).deep_view()[x][y] == old(
                connections,
            ).deep_view()[x][y],
        final(city_statuses)@ == old(city_statuses)@.update(
            index1 as int,
            spec_status(final(connections).deep_view(), index1 as int, excluded@),
        ).update(
            index2 as int,
            spec_status(final(connections).deep_view(), index2 as int, excluded@),
        ),
{
    let exists_now = edge_exists(connections, index1, index2);
    set_edge(connections, index1, index2, !exists_now);
    update_city_status(index1, connections, city_statuses, excluded);
    update_city_status(index2, connections, city_statuses, excluded);
}

/// Records the consecutive pairs of a route as undirected connections.
/// As in the interactive builder, the route's final hop is not recorded.
pub fn path_to_connections(path: &Path, catalog_len: usize) -> (c: Connections)
    requires
        path.route().len() >= 2,
        route_in_range(path.route(), catalog_len as int),
        catalog_len >= 1,
    ensures
        connections_wf(c.deep_view(), catalog_len as int),
        forall|a: int, b: int|
            0 <= a < catalog_len && 0 <= b < catalog_len ==> has_edge(c.deep_view(), a, b)
                == route_edge(path.route(), a, b),
{
    let ghost seq = path.route();
    let mut c = new_connections(catalog_len);
    let len = path.city_indexes.len();
    let mut i: usize = 0;
    while i < len - 2
        invariant
            seq == path.route(),
            len == seq.len(),
            len >= 2,
            catalog_len >= 1,
            route_in_range(seq, catalog_len as int),
            connections_wf(c.deep_view(), catalog_len as int),
            c@.len() == catalog_len,
            i <= len - 2,
            forall|a: int, b: int|
                0 <= a < catalog_len && 0 <= b < catalog_len ==> has_edge(c.deep_view(), a, b)
                    == exists|t: int|
                    0 <= t < i && (((#[trigger] seq[t]) == a && seq[t + 1] == b) || (seq[t]
                        == b && seq[t + 1] == a)),
        decreases len - 2 - i,
    {
        let a = path.city_indexes[i];
        let b = path.city_indexes[i + 1];
        let ghost before = c.deep_view();
        set_edge(&mut c, a, b, true);
        assert forall|x: int, y: int|
            0 <= x < catalog_len && 0 <= y < catalog_len implies has_edge(c.deep_view(), x, y)
            == exists|t: int|
            0 <= t < i + 1 && (((#[trigger] seq[t]) == x && seq[t + 1] == y) || (seq[t] == y && seq[
                t + 1] == x)) by {
            if (x == a && y == b) || (x == b && y == a) {
                assert(has_edge(c.deep_view(), x, y));
                assert((seq[i as int] == x && seq[i + 1] == y) || (seq[i as int] == y && seq[i + 1]
                    == x));
            } else {
                assert(c.deep_view()[x][y] == before[x][y]);
                assert(has_edge(c.deep_view(), x, y) == has_edge(before, x, y));
                assert(has_edge(before, x, y) == exists|t: int|
                    0 <= t < i && (((#[trigger] seq[t]) == x && seq[t + 1] == y) || (seq[t] == y
                        && seq[t + 1] == x)));
                if has_edge(before, x, y) {
                    let t = choose|t: int|
                        0 <= t < i && (((#[trigger] seq[t]) == x && seq[t + 1] == y) || (seq[t]
                            == y && seq[t + 1] == x));
                    assert(0 <= t < i + 1 && ((seq[t] == x && seq[t + 1] == y) || (seq[t] == y
                        && seq[t + 1] == x)));
                } else {
                    assert forall|t: int| 0 <= t < i + 1 implies !(((#[trigger] seq[t]) == x && seq[
                        t + 1] == y) || (seq[t] == y && seq[t + 1] == x)) by {
                        if t < i {
                        } else {
                            assert(seq[t] == a && seq[t + 1] == b);
                        }
                    }
                }
            }
        }
        i = i + 1;
    }
    c
}

/// Number of `false` entries among the first `k`.
pub open spec fn false_count(s: Seq<bool>, k: int) -> int
    decreases k,
{
    if k <= 0 {
        0
    } else {
        false_count(s, k - 1) + if s[k - 1] {
            0int
        } else {
            1int
        }
    }
}

proof fn lemma_false_count_update(s: Seq<bool>, j: int, k: int)
    requires
        0 <= j < s.len(),
        !s[j],
        k <= s.len(),
    ensures
        k <= j ==> false_count(s.update(j, true), k) == false_count(s, k),
        k > j ==> false_count(s.update(j, true), k) == false_count(s, k) - 1,
    decreases k,
{
    if k > 0 {
        lemma_false_count_update(s, j, k - 1);
    }
}

proof fn lemma_false_count_nonneg(s: Seq<bool>, k: int)
    ensures
        false_count(s, k) >= 0,
    decreases k,
{
    if k > 0 {
        lemma_false_count_nonneg(s, k - 1);
    }
}

/// Walks the connections greedily from the depot: at each city the
/// lowest-numbered unvisited neighbour is taken next; a visited neighbour
/// that is the depot closes the walk into the route as an extra stop. The
/// result starts at the depot, stays inside the catalog, and visits no
/// city but the depot more than once.
pub fn connections_to_path(connections: &Connections, depot: usize) -> (p: Path)
    requires
        connections_wf(connections.deep_view(), connections@.len() as int),
        depot < connections@.len(),
    ensures
        p.route().len() >= 1,
        p.route()[0] == depot,
        route_in_range(p.route(), connections@.len() as int),
        forall|i: int, j: int|
            #![trigger p.route()[i], p.route()[j]]
            0 <= i < j < p.route().len() && p.route()[i] == p.route()[j] ==> p.route()[i]
                == depot,
        p.population == 0 && p.distance == 0 && p.score == 0,
{
    let n = connections.len();
    let mut visited: Vec<bool> = Vec::new();
    let mut i: usize = 0;
    while i < n
        invariant
            visited@.len() == i,
            i <= n,
            forall|x: int| 0 <= x < i ==> !(#[trigger] visited@[x]),
        decreases n - i,
    {
        visited.push(false);
        i = i + 1;
    }
    let mut indexes: Vec<usize> = Vec::new();
    visited[depot] = true;
    let mut next: Option<usize> = Some(depot);
    proof {
        lemma_false_count_nonneg(visited@, n as int);
    }

    loop
        invariant
            n == connections@.len(),
            connections_wf(connections.deep_view(), n as int),
            depot < n,
            visited@.len() == n,
            match next {
                Some(city) => city < n,
                None => true,
            },
            route_in_range(indexes@, n as int),
            indexes@.len() >= 1 ==> indexes@[0] == depot,
            indexes@.len() == 0 ==> next == Some(depot),
            visited@[depot as int],
            forall|i: int| 0 <= i < indexes@.len() ==> visited@[(#[trigger] indexes@[i]) as int],
            forall|i: int, j: int|
                #![trigger indexes@[i], indexes@[j]]
                0 <= i < j < indexes@.len() && indexes@[i] == indexes@[j] ==> indexes@[i]
                    == depot,
            match next {
                Some(city) => visited@[city as int] && (city != depot ==> forall|t: int|
                    0 <= t < indexes@.len() ==> (#[trigger] indexes@[t]) != city),
                None => true,
            },
        ensures
            indexes@.len() >= 1,
            indexes@[0] == depot,
            route_in_range(indexes@, n as int),
            forall|i: int, j: int|
                #![trigger indexes@[i], indexes@[j]]
                0 <= i < j < indexes@.len() && indexes@[i] == indexes@[j] ==> indexes@[i]
                    == depot,
        decreases false_count(visited@, n as int) + (if next is Some {
            1int
        } else {
            0int
        }),
    {
        let city = match next {
            Some(c) => c,
            None => {
                break ;
            },
        };
        indexes.push(city);
        next = None;
        let mut nb: usize = 0;
        let ghost visited_at_entry = visited@;
        while nb < n
            invariant
                n == connections@.len(),
                connections_wf(connections.deep_view(), n as int),
                depot < n,
                city < n,
                visited@.len() == n,
                nb <= n,
                route_in_range(indexes@, n as int),
                indexes@.len() >= 1,
                indexes@[0] == depot,
                visited@[depot as int],
                forall|i: int|
                    0 <= i < indexes@.len() ==> visited@[(#[trigger] indexes@[i]) as int],
                forall|i: int, j: int|
                    #![trigger indexes@[i], indexes@[j]]
                    0 <= i < j < indexes@.len() && indexes@[i] == indexes@[j] ==> indexes@[i]
                        == depot,
                match next {
                    Some(c2) => c2 < n && false_count(visited@, n as int) == false_count(
                        visited_at_entry,
                        n as int,
                    ) - 1 && visited@[c2 as int] && (c2 != depot ==> forall|t: int|
                        0 <= t < indexes@.len() ==> (#[trigger] indexes@[t]) != c2),
                    None => visited@ == visited_at_entry,
                },
            decreases n - nb,
        {
            if next.is_none() {
                let joined = edge_exists(connections, city, nb);
                if joined {
                    if !visited[nb] {
                        proof {
                            lemma_false_count_update(visited@, nb as int, n as int);
                        }
                        assert(forall|t: int|
                            0 <= t < indexes@.len() ==> (#[trigger] indexes@[t]) != nb);
                        visited[nb] = true;
                        next = Some(nb);
                    } else if nb == depot {
                        indexes.push(depot);
                    }
                }
            }
            nb = nb + 1;
        }
        proof {
            lemma_false_count_nonneg(visited@, n as int);
        }
    }
    let p = Path::from_indexes(indexes);
    p
}

} // verus!
