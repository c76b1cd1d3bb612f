//! Backtracking subset-sum search: finds a set of indices whose values add
//! up exactly to a target. A standalone utility, unrelated to the route
//! optimizer.

use vstd::prelude::*;
use crate::variation::copy_range;

verus! {

/// Sum of `nums` over the index list `ixs`.
pub open spec fn subset_sum(nums: Seq<u32>, ixs: Seq<usize>) -> int
    decreases ixs.len(),
{
    if ixs.len() == 0 {
        0
    } else {
        subset_sum(nums, ixs.drop_last()) + nums[ixs.last() as int]
    }
}

/// The indices are strictly increasing.
pub open spec fn strictly_increasing(ixs: Seq<usize>) -> bool {
    forall|j: int, k: int| 0 <= j < k < ixs.len() ==> ixs[j] < ixs[k]
}

/// All indices lie below `bound`.
pub open spec fn indexes_below(ixs: Seq<usize>, bound: int) -> bool {
    forall|j: int| 0 <= j < ixs.len() ==> (#[trigger] ixs[j]) < bound
}

/// All indices are at least `bound`.
pub open spec fn indexes_at_least(ixs: Seq<usize>, bound: int) -> bool {
    forall|j: int| 0 <= j < ixs.len() ==> (#[trigger] ixs[j]) >= bound
}

/// A correct answer to the search: strictly increasing indices into
/// `nums` whose values sum to `target`.
pub open spec fn valid_subset(nums: Seq<u32>, ixs: Seq<usize>, target: int) -> bool {
    &&& strictly_increasing(ixs)
    &&& indexes_below(ixs, nums.len() as int)
    &&& subset_sum(nums, ixs) == target
}

/// Some strictly increasing index list drawn from `start ..` sums to
/// `remaining`.
pub open spec fn completion_exists(nums: Seq<u32>, start: int, remaining: int) -> bool {
    exists|ext: Seq<usize>| #![trigger subset_sum(nums, ext)]
        strictly_increasing(ext) && indexes_below(ext, nums.len() as int) && indexes_at_least(
            ext,
            start,
        ) && subset_sum(nums, ext) == remaining
}

/// No first index below `cutoff` begins such a completion.
pub open spec fn no_completion_starting_below(
    nums: Seq<u32>,
    start: int,
    cutoff: int,
    remaining: int,
) -> bool {
    forall|ext: Seq<usize>| #![trigger subset_sum(nums, ext)]
        !(strictly_increasing(ext) && indexes_below(ext, nums.len() as int) && indexes_at_least(
            ext,
            start,
        ) && ext.len() > 0 && ext[0] < cutoff && subset_sum(nums, ext) == remaining)
}

/// Valid index lists sum to something non-negative.
proof fn lemma_subset_sum_nonneg(nums: Seq<u32>, ixs: Seq<usize>)
    requires
        indexes_below(ixs, nums.len() as int),
    ensures
        subset_sum(nums, ixs) >= 0,
    decreases ixs.len(),
{
    if ixs.len() > 0 {
        assert(indexes_below(ixs.drop_last(), nums.len() as int)) by {
            assert(forall|j: int|
                0 <= j < ixs.drop_last().len() ==> ixs.drop_last()[j] == (#[trigger] ixs[j]));
        }
        lemma_subset_sum_nonneg(nums, ixs.drop_last());
    }
}

/// The sum decomposes at the front as well as at the back.
proof fn lemma_subset_sum_first(nums: Seq<u32>, ixs: Seq<usize>)
    requires
        ixs.len() > 0,
    ensures
        subset_sum(nums, ixs) == nums[ixs[0] as int] + subset_sum(nums, ixs.drop_first()),
    decreases ixs.len(),
{
    if ixs.len() == 1 {
        assert(ixs.drop_first() =~= Seq::<usize>::empty());
        assert(ixs.drop_last() =~= Seq::<usize>::empty());
    } else {
        let dl = ixs.drop_last();
        lemma_subset_sum_first(nums, dl);
        assert(dl.drop_first() =~= ixs.drop_first().drop_last());
        assert(ixs.drop_first().last() == ixs.last());
        assert(dl[0] == ixs[0]);
    }
}

fn backtrack(
    nums: &Vec<u32>,
    target: u32,
    start: usize,
    current_sum: u32,
    current_subset: &mut Vec<usize>,
    result: &mut Option<Vec<usize>>,
)
    requires
        start <= nums@.len(),
        current_sum <= target,
        current_sum == subset_sum(nums@, old(current_subset)@),
        strictly_increasing(old(current_subset)@),
        indexes_below(old(current_subset)@, start as int),
        (*old(result)) is None,
    ensures
        match *final(result) {
            Some(ixs) => valid_subset(nums@, ixs@, target as int),
            None => final(current_subset)@ == old(current_subset)@ && !completion_exists(
                nums@,
                start as int,
                target - current_sum,
            ),
        },
    decreases nums@.len() - start,
{
    let ghost remaining = target - current_sum as int;
    if current_sum == target {
        let found = copy_range(current_subset, 0, current_subset.len());
        assert(found@ =~= current_subset@);
        assert(indexes_below(found@, nums@.len() as int));
        *result = Some(found);
        return ;
    }
    let mut i = start;
    assert(no_completion_starting_below(nums@, start as int, i as int, remaining));
    while i < nums.len()
        invariant
            start <= i <= nums@.len(),
            current_sum < target,
            remaining == target - current_sum,
            current_sum == subset_sum(nums@, current_subset@),
            strictly_increasing(current_subset@),
            indexes_below(current_subset@, start as int),
            current_subset@ == old(current_subset)@,
            (*result) is None,
            no_completion_starting_below(nums@, start as int, i as int, remaining),
        decreases nums@.len() - i,
    {
        let next = current_sum as u64 + nums[i] as u64;
        let ghost pruned = next > target as u64;
        if next <= target as u64 {
            let ghost before = current_subset@;
            current_subset.push(i);
            proof {
                assert(current_subset@.drop_last() =~= before);
                assert(subset_sum(nums@, current_subset@) == current_sum + nums@[i as int]);
                assert(strictly_increasing(current_subset@)) by {
                    assert forall|j: int, k: int|
                        0 <= j < k < current_subset@.len() implies current_subset@[j]
                        < current_subset@[k] by {
                        if k < current_subset@.len() - 1 {
                            assert(current_subset@[j] == before[j]);
                        } else {
                            assert(current_subset@[k] == i);
                            assert(before[j] < start <= i);
                        }
                    }
                }
            }
            backtrack(nums, target, i + 1, next as u32, current_subset, result);
            if result.is_some() {
                return ;
            }
            current_subset.pop();
            assert(current_subset@ =~= before);
        }
        proof {
            // no completion can begin at `i` either: it was pruned as too
            // large, or the recursive search below it came back empty
            assert forall|ext: Seq<usize>|
                !(strictly_increasing(ext) && indexes_below(ext, nums@.len() as int)
                    && indexes_at_least(ext, start as int) && ext.len() > 0 && ext[0] < i + 1
                    && #[trigger] subset_sum(nums@, ext) == remaining) by {
                if strictly_increasing(ext) && indexes_below(ext, nums@.len() as int)
                    && indexes_at_least(ext, start as int) && ext.len() > 0 && ext[0] < i + 1
                    && subset_sum(nums@, ext) == remaining {
                    if ext[0] < i {
                        assert(false);
                    } else {
                        assert(ext[0] == i);
                        lemma_subset_sum_first(nums@, ext);
                        let tail = ext.drop_first();
                        assert(indexes_below(tail, nums@.len() as int)) by {
                            assert(forall|j: int|
                                0 <= j < tail.len() ==> tail[j] == (#[trigger] ext[j + 1]));
                        }
                        if pruned {
                            lemma_subset_sum_nonneg(nums@, tail);
                            assert(nums@[i as int] > remaining);
                            assert(false);
                        } else {
                            assert(strictly_increasing(tail)) by {
                                assert(forall|j: int|
                                    0 <= j < tail.len() ==> tail[j] == (#[trigger] ext[j + 1]));
                            }
                            assert(indexes_at_least(tail, i + 1)) by {
                                assert forall|j: int| 0 <= j < tail.len() implies (
                                #[trigger] tail[j]) >= i + 1 by {
                                    assert(tail[j] == ext[j + 1]);
                                    assert(ext[0] < ext[j + 1]);
                                }
                            }
                            assert(subset_sum(nums@, tail) == remaining - nums@[i as int]);
                            assert(completion_exists(
                                nums@,
                                i + 1,
                                remaining - nums@[i as int],
                            ));
                            assert(false);
                        }
                    }
                }
            }
        }
        i = i + 1;
    }
    proof {
        assert(!completion_exists(nums@, start as int, remaining)) by {
            if completion_exists(nums@, start as int, remaining) {
                let ext = choose|ext: Seq<usize>| #![trigger subset_sum(nums@, ext)]
                    strictly_increasing(ext) && indexes_below(ext, nums@.len() as int)
                        && indexes_at_least(ext, start as int) && subset_sum(nums@, ext)
                        == remaining;
                if ext.len() == 0 {
                    assert(subset_sum(nums@, ext) == 0);
                    assert(false);
                } else {
                    assert(ext[0] < nums@.len());
                    assert(false);
                }
            }
        }
    }
}

/// Searches for a strictly increasing list of indices into `nums` whose
/// values sum exactly to `target`. Any returned list is such a correct
/// subset, and `None` comes back exactly when no subset of `nums` sums to
/// the target.
pub fn find_subset(nums: &Vec<u32>, target: u32) -> (r: Option<Vec<usize>>)
    ensures
        match r {
            Some(ixs) => valid_subset(nums@, ixs@, target as int),
            None => forall|ixs: Seq<usize>| !valid_subset(nums@, ixs, target as int),
        },
{
    let mut current_subset: Vec<usize> = Vec::new();
    let mut result: Option<Vec<usize>> = None;
    backtrack(nums, target, 0, 0, &mut current_subset, &mut result);
    proof {
        if result is None {
            assert forall|ixs: Seq<usize>| !valid_subset(nums@, ixs, target as int) by {
                if valid_subset(nums@, ixs, target as int) {
                    assert(indexes_at_least(ixs, 0));
                    assert(completion_exists(nums@, 0, target as int));
                    assert(false);
                }
            }
        }
    }
    result
}

} // verus!
