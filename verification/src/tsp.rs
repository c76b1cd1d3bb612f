//! An exact dynamic-programming traveling-salesman solver over a small
//! bitmask of visited cities. A standalone utility, unrelated to the
//! genetic optimizer: it computes the cheapest closed tour through every
//! city of a small complete distance matrix.

use vstd::prelude::*;
use vstd::arithmetic::power2::pow2;
use crate::domain::distances_ok;

verus! {

/// Sentinel cost of an impossible combination; real tour costs over the
/// admitted matrices stay far below it, and sums saturate at it.
pub const TSP_UNREACHED: u64 = 0x4000_0000_0000_0000;

/// Bit `i` of `mask`, read arithmetically.
pub open spec fn bit_set(mask: int, i: nat) -> bool {
    (mask / (pow2(i) as int)) % 2 == 1
}

/// A sum of costs, saturated at the sentinel.
pub open spec fn cost_add(a: int, b: int) -> int {
    if a + b > TSP_UNREACHED {
        TSP_UNREACHED as int
    } else {
        a + b
    }
}

/// Cheapest cost of a path that starts at city 0, visits exactly the
/// cities of `mask` (which must contain 0 and `i`), and ends at city `i`;
/// the sentinel when no such path exists.
pub open spec fn best_path(d: Seq<Seq<u32>>, mask: int, i: int) -> int
    decreases mask, 1int, 0int,
{
    if i == 0 {
        if mask == 1 {
            0
        } else {
            TSP_UNREACHED as int
        }
    } else {
        best_over(d, mask, i, d.len() as int)
    }
}

/// Minimum over predecessor cities `p < j` of reaching `i` last.
pub open spec fn best_over(d: Seq<Seq<u32>>, mask: int, i: int, j: int) -> int
    decreases mask, 0int, j,
{
    if j <= 0 {
        TSP_UNREACHED as int
    } else {
        let rest = best_over(d, mask, i, j - 1);
        let mask2 = mask - pow2(i as nat) as int;
        if j - 1 != i && bit_set(mask, (j - 1) as nat) && bit_set(mask, i as nat) && 0 <= mask2
            < mask {
            let cand = cost_add(best_path(d, mask2, j - 1), d[j - 1][i] as int);
            if cand < rest {
                cand
            } else {
                rest
            }
        } else {
            rest
        }
    }
}

/// Minimum over end cities `i` in `1 .. k` of a full tour: the cheapest
/// path visiting every city and ending at `i`, plus the hop home to 0.
pub open spec fn tsp_best(d: Seq<Seq<u32>>, n: int, k: int) -> int
    decreases k,
{
    if k <= 1 {
        TSP_UNREACHED as int
    } else {
        let prev = tsp_best(d, n, k - 1);
        let cand = cost_add(best_path(d, pow2(n as nat) as int - 1, k - 1), d[k - 1][0] as int);
        if cand < prev {
            cand
        } else {
            prev
        }
    }
}

/// `2^i` as a machine word.
fn pow2_exec(i: usize) -> (r: usize)
    requires
        i <= 20,
    ensures
        r == pow2(i as nat),
        r >= 1,
{
    proof {
        vstd::arithmetic::power2::lemma2_to64();
    }
    let mut r: usize = 1;
    let mut k: usize = 0;
    while k < i
        invariant
            k <= i <= 20,
            r == pow2(k as nat),
            r <= pow2(20),
            pow2(20) == 0x100000,
        decreases i - k,
    {
        assert(pow2((k + 1) as nat) == 2 * pow2(k as nat)) by {
            vstd::arithmetic::power2::lemma_pow2_unfold((k + 1) as nat);
        }
        assert(pow2((k + 1) as nat) <= pow2(20)) by {
            if k + 1 < 20 {
                vstd::arithmetic::power2::lemma_pow2_strictly_increases((k + 1) as nat, 20);
            }
        }
        r = r * 2;
        k = k + 1;
    }
    r
}

/// The minimal cost of a closed tour that starts and ends at city 0 and
/// visits every city exactly once, by the bitmask dynamic program; the
/// result is the recurrence's minimum, saturated at `u32::MAX` (which is
/// also the answer for a single-city matrix, whose recurrence has no
/// candidate tour).
pub fn tsp(distances: Vec<Vec<u32>>) -> (r: u32)
    requires
        1 <= distances@.len() <= 20,
        distances_ok(distances.deep_view(), distances@.len() as int),
    ensures
        r == if tsp_best(distances.deep_view(), distances@.len() as int, distances@.len() as int)
            > u32::MAX {
            u32::MAX as int
        } else {
            tsp_best(distances.deep_view(), distances@.len() as int, distances@.len() as int)
        },
{
    let ghost dv = distances.deep_view();
    let n = distances.len();
    let size = pow2_exec(n);
    proof {
        vstd::arithmetic::power2::lemma2_to64();
        if n < 20 {
            vstd::arithmetic::power2::lemma_pow2_strictly_increases(n as nat, 20);
        }
    }

    let mut dp: Vec<Vec<u64>> = Vec::new();
    let mut mask: usize = 0;
    while mask < size
        invariant
            dv == distances.deep_view(),
            distances_ok(dv, n as int),
            1 <= n <= 20,
            n == distances@.len(),
            size == pow2(n as nat),
            size <= 0x100000,
            mask <= size,
            dp.deep_view().len() == mask,
            forall|m: int, i: int|
                0 <= m < mask && 0 <= i < n ==> dp.deep_view()[m][i] == best_path(dv, m, i),
            forall|m: int| 0 <= m < mask ==> (#[trigger] dp.deep_view()[m]).len() == n,
        decreases size - mask,
    {
        let mut row: Vec<u64> = Vec::new();
        let mut i: usize = 0;
        while i < n
            invariant
                dv == distances.deep_view(),
                distances_ok(dv, n as int),
                1 <= n <= 20,
                n == distances@.len(),
                mask < size,
                size == pow2(n as nat),
                i <= n,
                row@.len() == i,
                forall|x: int| 0 <= x < i ==> row@[x] == best_path(dv, mask as int, x),
                dp.deep_view().len() == mask,
                forall|m: int, x: int|
                    0 <= m < mask && 0 <= x < n ==> dp.deep_view()[m][x] == best_path(dv, m, x),
                forall|m: int| 0 <= m < mask ==> (#[trigger] dp.deep_view()[m]).len() == n,
            decreases n - i,
        {
            let value: u64 = if i == 0 {
                if mask == 1 {
                    0
                } else {
                    TSP_UNREACHED
                }
            } else {
                // minimum over predecessors, mirroring the recurrence
                let p2i = pow2_exec(i);
                let mut acc: u64 = TSP_UNREACHED;
                let mut j: usize = 0;
                proof {
                    assert(best_over(dv, mask as int, i as int, 0) == TSP_UNREACHED);
                }
                while j < n
                    invariant
                        dv == distances.deep_view(),
                        distances_ok(dv, n as int),
                        1 <= n <= 20,
                        n == distances@.len(),
                        mask < size,
                        size == pow2(n as nat),
                        0 < i < n,
                        j <= n,
                        p2i == pow2(i as nat),
                        p2i >= 1,
                        acc == best_over(dv, mask as int, i as int, j as int),
                        dp.deep_view().len() == mask,
                        forall|m: int, x: int|
                            0 <= m < mask && 0 <= x < n ==> dp.deep_view()[m][x] == best_path(
                                dv,
                                m,
                                x,
                            ),
                        forall|m: int| 0 <= m < mask ==> (#[trigger] dp.deep_view()[m]).len() == n,
                    decreases n - j,
                {
                    let pred_ok = j != i && (mask / p2i) % 2 == 1 && {
                        let p2j = pow2_exec(j);
                        (mask / p2j) % 2 == 1
                    };
                    if pred_ok {
                        assert(bit_set(mask as int, i as nat) && bit_set(mask as int, j as nat));
                        assert(mask >= p2i) by {
                            assert((mask / p2i) >= 1);
                            assert(mask == (mask / p2i) * p2i + mask % p2i) by (nonlinear_arith)
                                requires
                                    p2i >= 1,
                            ;
                            assert((mask / p2i) * p2i >= p2i) by (nonlinear_arith)
                                requires
                                    mask / p2i >= 1 && p2i >= 1,
                            ;
                        }
                        let mask2 = mask - p2i;
                        assert(0 <= mask2 < mask);
                        assert(dp.deep_view()[mask2 as int][j as int] == best_path(
                            dv,
                            mask2 as int,
                            j as int,
                        ));
                        assert(dv[j as int] == distances@[j as int]@);
                        let prev = dp[mask2][j];
                        let hop = distances[j][i];
                        assert(prev <= TSP_UNREACHED) by {
                            lemma_best_path_bounded(dv, mask2 as int, j as int);
                        }
                        let cand = if prev + hop as u64 > TSP_UNREACHED {
                            TSP_UNREACHED
                        } else {
                            prev + hop as u64
                        };
                        assert(cand == cost_add(
                            best_path(dv, mask2 as int, j as int),
                            dv[j as int][i as int] as int,
                        ));
                        if cand < acc {
                            acc = cand;
                        }
                    }
                    j = j + 1;
                    assert(acc == best_over(dv, mask as int, i as int, j as int));
                }
                acc
            };
            row.push(value);
            i = i + 1;
        }
        let ghost dpp = dp.deep_view();
        dp.push(row);
        assert(dp.deep_view() =~~= dpp.push(row@));
        mask = mask + 1;
    }

    // close the tour: cheapest full path to any city, plus the hop home
    let full = size - 1;
    let mut min_cost: u64 = TSP_UNREACHED;
    let mut i: usize = 1;
    proof {
        assert(tsp_best(dv, n as int, 1) == TSP_UNREACHED);
    }
    while i < n
        invariant
            dv == distances.deep_view(),
            distances_ok(dv, n as int),
            1 <= n <= 20,
            n == distances@.len(),
            size == pow2(n as nat),
            full == size - 1,
            1 <= i <= n,
            min_cost == tsp_best(dv, n as int, i as int),
            dp.deep_view().len() == size,
            forall|m: int, x: int|
                0 <= m < size && 0 <= x < n ==> dp.deep_view()[m][x] == best_path(dv, m, x),
            forall|m: int| 0 <= m < size ==> (#[trigger] dp.deep_view()[m]).len() == n,
        decreases n - i,
    {
        assert(dp.deep_view()[full as int][i as int] == best_path(dv, full as int, i as int));
        assert(dv[i as int] == distances@[i as int]@);
        let prev = dp[full][i];
        let hop = distances[i][0];
        assert(prev <= TSP_UNREACHED) by {
            lemma_best_path_bounded(dv, full as int, i as int);
        }
        let cand = if prev + hop as u64 > TSP_UNREACHED {
            TSP_UNREACHED
        } else {
            prev + hop as u64
        };
        if cand < min_cost {
            min_cost = cand;
        }
        i = i + 1;
        assert(min_cost == tsp_best(dv, n as int, i as int));
    }
    if min_cost > u32::MAX as u64 {
        u32::MAX
    } else {
        min_cost as u32
    }
}

/// Every recurrence value is at most the sentinel.
proof fn lemma_best_path_bounded(d: Seq<Seq<u32>>, mask: int, i: int)
    ensures
        0 <= best_path(d, mask, i) <= TSP_UNREACHED,
    decreases mask, 1int, 0int,
{
    if i != 0 {
        lemma_best_over_bounded(d, mask, i, d.len() as int);
    }
}

proof fn lemma_best_over_bounded(d: Seq<Seq<u32>>, mask: int, i: int, j: int)
    ensures
        0 <= best_over(d, mask, i, j) <= TSP_UNREACHED,
    decreases mask, 0int, j,
{
    if j > 0 {
        lemma_best_over_bounded(d, mask, i, j - 1);
        let mask2 = mask - pow2(i as nat) as int;
        if j - 1 != i && bit_set(mask, (j - 1) as nat) && bit_set(mask, i as nat) && 0 <= mask2
            < mask {
            lemma_best_path_bounded(d, mask2, j - 1);
        }
    }
}

} // verus!
