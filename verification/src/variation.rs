//! The variation operators: mutation (one parent, small stochastic edits)
//! and crossover (two parents recombined into one child). Both only
//! rearrange material: neither invents a city index, and neither looks at
//! route validity — bad routes are penalized by the evaluator, not
//! prevented here.

use vstd::prelude::*;
use crate::domain::{Path, route_in_range};
use crate::rng::RandomSource;
use crate::score::route_contains;

verus! {

pub const MUTATION_CHANCE_FIRSTCITY: usize = 5;
pub const MUTATION_CHANCE_LASTCITY: usize = 5;
pub const MUTATION_CHANCE_ADDONE: usize = 50;
pub const MUTATION_CHANCE_REMOVEONE: usize = 50;
pub const MUTATION_CHANCE_REORDERONE: usize = 20;

pub open spec fn smaller_of(a: int, b: int) -> int {
    if a < b {
        a
    } else {
        b
    }
}

pub open spec fn larger_of(a: int, b: int) -> int {
    if a > b {
        a
    } else {
        b
    }
}

/// A raw block size forced into `[1, cap]`.
pub open spec fn clamped_size(raw: usize, cap: int) -> int {
    if raw < 1 {
        1
    } else if raw > cap {
        cap
    } else {
        raw as int
    }
}

/// Inserts `value` at position `pos`; the catalog range is preserved.
fn insert_city(v: &mut Vec<usize>, pos: usize, value: usize, n: usize)
    requires
        pos <= old(v)@.len(),
        value < n,
        route_in_range(old(v)@, n as int),
    ensures
        final(v)@ == old(v)@.insert(pos as int, value),
        route_in_range(final(v)@, n as int),
{
    v.insert(pos, value);
    assert forall|i: int| 0 <= i < v@.len() implies (#[trigger] v@[i]) < n by {
        if i < pos {
            assert(v@[i] == old(v)@[i]);
        } else if i > pos {
            assert(v@[i] == old(v)@[i - 1]);
        }
    }
}

/// Removes the element at position `pos`; the catalog range is preserved.
fn remove_city(v: &mut Vec<usize>, pos: usize, n: usize)
    requires
        pos < old(v)@.len(),
        route_in_range(old(v)@, n as int),
    ensures
        final(v)@ == old(v)@.remove(pos as int),
        route_in_range(final(v)@, n as int),
{
    v.remove(pos);
    assert forall|i: int| 0 <= i < v@.len() implies (#[trigger] v@[i]) < n by {
        if i < pos {
            assert(v@[i] == old(v)@[i]);
        } else {
            assert(v@[i] == old(v)@[i + 1]);
        }
    }
}

/// Takes the element at `from` out of the route and reinserts it at
/// position `to` of the shortened route. The exact rearrangement is pinned
/// and the catalog range is preserved.
pub fn move_element(v: &mut Vec<usize>, from: usize, to: usize, n: usize)
    requires
        from < old(v)@.len(),
        to < old(v)@.len(),
        route_in_range(old(v)@, n as int),
    ensures
        final(v)@ == old(v)@.remove(from as int).insert(to as int, old(v)@[from as int]),
        final(v)@.len() == old(v)@.len(),
        route_in_range(final(v)@, n as int),
{
    let picked = v.remove(from);
    assert(route_in_range(v@, n as int)) by {
        assert forall|i: int| 0 <= i < v@.len() implies (#[trigger] v@[i]) < n by {
            if i < from {
                assert(v@[i] == old(v)@[i]);
            } else {
                assert(v@[i] == old(v)@[i + 1]);
            }
        }
    }
    let ghost mid = v@;
    v.insert(to, picked);
    assert forall|i: int| 0 <= i < v@.len() implies (#[trigger] v@[i]) < n by {
        if i < to {
            assert(v@[i] == mid[i]);
        } else if i > to {
            assert(v@[i] == mid[i - 1]);
        }
    }
}

/// A copy of `src[from .. to]`.
pub fn copy_range(src: &Vec<usize>, from: usize, to: usize) -> (r: Vec<usize>)
    requires
        from <= to <= src@.len(),
    ensures
        r@ == src@.subrange(from as int, to as int),
{
    let mut r: Vec<usize> = Vec::new();
    let mut i: usize = from;
    while i < to
        invariant
            from <= i <= to <= src@.len(),
            r@ == src@.subrange(from as int, i as int),
        decreases to - i,
    {
        r.push(src[i]);
        assert(r@ =~= src@.subrange(from as int, i + 1));
        i = i + 1;
    }
    r
}

/// The child assembled by the single-cut strategy, as a function of the
/// parents, the target length and the cut point: a prefix of the first
/// parent, then the front of the second parent up to the target length.
pub open spec fn spec_cut(p1: Seq<usize>, p2: Seq<usize>, size: int, cut: int) -> Seq<usize> {
    p1.subrange(0, cut) + p2.subrange(0, smaller_of(size - cut, p2.len() as int))
}

/// The child assembled by the alternating-block strategy, as a function of
/// the parents, the per-parent read cursors, the number of elements still
/// wanted, and the drawn block choices (which parent, raw block size). When
/// one parent is exhausted the remainder comes from the other; when both
/// are, the child ends short.
pub open spec fn spec_blocks(
    p1: Seq<usize>,
    p2: Seq<usize>,
    c1: int,
    c2: int,
    need: int,
    picks: Seq<(bool, usize)>,
    k: int,
) -> Seq<usize>
    decreases need,
{
    if need <= 0 {
        Seq::empty()
    } else if c1 >= p1.len() && c2 >= p2.len() {
        Seq::empty()
    } else if c1 >= p1.len() {
        p2.subrange(c2, c2 + smaller_of(need, p2.len() - c2))
    } else if c2 >= p2.len() {
        p1.subrange(c1, c1 + smaller_of(need, p1.len() - c1))
    } else if picks[k].0 {
        let take = clamped_size(picks[k].1, smaller_of(need, p1.len() - c1));
        p1.subrange(c1, c1 + take) + spec_blocks(p1, p2, c1 + take, c2, need - take, picks, k + 1)
    } else {
        let take = clamped_size(picks[k].1, smaller_of(need, p2.len() - c2));
        p2.subrange(c2, c2 + take) + spec_blocks(p1, p2, c1, c2 + take, need - take, picks, k + 1)
    }
}

/// The alternating-block child has exactly the wanted length, as long as
/// the parents' remainders can still supply it.
pub proof fn lemma_spec_blocks_len(
    p1: Seq<usize>,
    p2: Seq<usize>,
    c1: int,
    c2: int,
    need: int,
    picks: Seq<(bool, usize)>,
    k: int,
)
    requires
        0 <= c1 <= p1.len(),
        0 <= c2 <= p2.len(),
        0 <= need <= (p1.len() - c1) + (p2.len() - c2),
    ensures
        spec_blocks(p1, p2, c1, c2, need, picks, k).len() == need,
    decreases need,
{
    if need > 0 {
        if c1 < p1.len() && c2 < p2.len() {
            if picks[k].0 {
                let take = clamped_size(picks[k].1, smaller_of(need, p1.len() - c1));
                lemma_spec_blocks_len(p1, p2, c1 + take, c2, need - take, picks, k + 1);
            } else {
                let take = clamped_size(picks[k].1, smaller_of(need, p2.len() - c2));
                lemma_spec_blocks_len(p1, p2, c1, c2 + take, need - take, picks, k + 1);
            }
        }
    }
}

/// Every element of the alternating-block child comes from one parent.
pub proof fn lemma_spec_blocks_origin(
    p1: Seq<usize>,
    p2: Seq<usize>,
    c1: int,
    c2: int,
    need: int,
    picks: Seq<(bool, usize)>,
    k: int,
)
    requires
        0 <= c1 <= p1.len(),
        0 <= c2 <= p2.len(),
    ensures
        forall|i: int|
            0 <= i < spec_blocks(p1, p2, c1, c2, need, picks, k).len() ==> p1.contains(
                #[trigger] spec_blocks(p1, p2, c1, c2, need, picks, k)[i],
            ) || p2.contains(spec_blocks(p1, p2, c1, c2, need, picks, k)[i]),
    decreases need,
{
    let r = spec_blocks(p1, p2, c1, c2, need, picks, k);
    if need <= 0 || (c1 >= p1.len() && c2 >= p2.len()) {
    } else if c1 >= p1.len() {
        assert forall|i: int| 0 <= i < r.len() implies p1.contains(#[trigger] r[i]) || p2.contains(
            r[i],
        ) by {
            assert(r[i] == p2[c2 + i]);
        }
    } else if c2 >= p2.len() {
        assert forall|i: int| 0 <= i < r.len() implies p1.contains(#[trigger] r[i]) || p2.contains(
            r[i],
        ) by {
            assert(r[i] == p1[c1 + i]);
        }
    } else if picks[k].0 {
        let take = clamped_size(picks[k].1, smaller_of(need, p1.len() - c1));
        lemma_spec_blocks_origin(p1, p2, c1 + take, c2, need - take, picks, k + 1);
        let tail = spec_blocks(p1, p2, c1 + take, c2, need - take, picks, k + 1);
        assert forall|i: int| 0 <= i < r.len() implies p1.contains(#[trigger] r[i]) || p2.contains(
            r[i],
        ) by {
            if i < take {
                assert(r[i] == p1[c1 + i]);
            } else {
                assert(r[i] == tail[i - take]);
            }
        }
    } else {
        let take = clamped_size(picks[k].1, smaller_of(need, p2.len() - c2));
        lemma_spec_blocks_origin(p1, p2, c1, c2 + take, need - take, picks, k + 1);
        let tail = spec_blocks(p1, p2, c1, c2 + take, need - take, picks, k + 1);
        assert forall|i: int| 0 <= i < r.len() implies p1.contains(#[trigger] r[i]) || p2.contains(
            r[i],
        ) by {
            if i < take {
                assert(r[i] == p2[c2 + i]);
            } else {
                assert(r[i] == tail[i - take]);
            }
        }
    }
}

/// The alternating-block recombination, deterministic in the drawn choices:
/// the result is exactly `spec_blocks` of the inputs, so fixed parents and
/// a fixed sequence of draws always rebuild the same child.
pub fn crossover_blocks(
    p1: &Vec<usize>,
    p2: &Vec<usize>,
    c1: usize,
    c2: usize,
    need: usize,
    picks: &Vec<(bool, usize)>,
    k: usize,
) -> (r: Vec<usize>)
    requires
        c1 <= p1@.len(),
        c2 <= p2@.len(),
        k + need <= picks@.len(),
    ensures
        r@ == spec_blocks(p1@, p2@, c1 as int, c2 as int, need as int, picks@, k as int),
    decreases need,
{
    if need == 0 {
        let r: Vec<usize> = Vec::new();
        assert(r@ =~= spec_blocks(p1@, p2@, c1 as int, c2 as int, need as int, picks@, k as int));
        r
    } else if c1 >= p1.len() && c2 >= p2.len() {
        let r: Vec<usize> = Vec::new();
        assert(r@ =~= spec_blocks(p1@, p2@, c1 as int, c2 as int, need as int, picks@, k as int));
        r
    } else if c1 >= p1.len() {
        let avail = p2.len() - c2;
        let take = if need < avail {
            need
        } else {
            avail
        };
        copy_range(p2, c2, c2 + take)
    } else if c2 >= p2.len() {
        let avail = p1.len() - c1;
        let take = if need < avail {
            need
        } else {
            avail
        };
        copy_range(p1, c1, c1 + take)
    } else {
        let picks_len = picks.len();
        assert(k < picks_len);
        let (from_first, raw) = (picks[k].0, picks[k].1);
        if from_first {
            let cap = if need < p1.len() - c1 {
                need
            } else {
                p1.len() - c1
            };
            let take = if raw < 1 {
                1
            } else if raw > cap {
                cap
            } else {
                raw
            };
            let mut head = copy_range(p1, c1, c1 + take);
            let mut tail = crossover_blocks(p1, p2, c1 + take, c2, need - take, picks, k + 1);
            head.append(&mut tail);
            assert(head@ == spec_blocks(
                p1@,
                p2@,
                c1 as int,
                c2 as int,
                need as int,
                picks@,
                k as int,
            ));
            head
        } else {
            let cap = if need < p2.len() - c2 {
                need
            } else {
                p2.len() - c2
            };
            let take = if raw < 1 {
                1
            } else if raw > cap {
                cap
            } else {
                raw
            };
            let mut head = copy_range(p2, c2, c2 + take);
            let mut tail = crossover_blocks(p1, p2, c1, c2 + take, need - take, picks, k + 1);
            head.append(&mut tail);
            assert(head@ == spec_blocks(
                p1@,
                p2@,
                c1 as int,
                c2 as int,
                need as int,
                picks@,
                k as int,
            ));
            head
        }
    }
}

/// The single-cut recombination, deterministic in the drawn choices: a
/// prefix of `cut` elements from the first parent, then the front of the
/// second parent until the target length is reached or the second parent
/// runs out.
pub fn crossover_cut(p1: &Vec<usize>, p2: &Vec<usize>, size: usize, cut: usize) -> (r: Vec<usize>)
    requires
        cut <= p1@.len(),
        cut <= size,
    ensures
        r@ == spec_cut(p1@, p2@, size as int, cut as int),
{
    let head = copy_range(p1, 0, cut);
    let rest = size - cut;
    let take = if rest < p2.len() {
        rest
    } else {
        p2.len()
    };
    let mut r = head;
    let mut tail = copy_range(p2, 0, take);
    r.append(&mut tail);
    r
}

/// Recombines two parents into one child. The target length is drawn from
/// `[1, max(len1, len2)]`; one of the two strategies is drawn; the child is
/// then the deterministic recombination of the parents under those draws,
/// as the last clause below records. Whatever is drawn, the child is
/// non-empty, no longer than the longer parent, carries only cities taken
/// from the parents, and starts unevaluated.
pub fn crossover(parent1: &Path, parent2: &Path, rng: &mut RandomSource) -> (child: Path)
    requires
        parent1.route().len() >= 1,
        parent2.route().len() >= 1,
        parent1.route().len() <= u32::MAX,
        parent2.route().len() <= u32::MAX,
    ensures
        1 <= child.route().len(),
        child.route().len() <= larger_of(
            parent1.route().len() as int,
            parent2.route().len() as int,
        ),
        forall|i: int|
            0 <= i < child.route().len() ==> parent1.route().contains(#[trigger] child.route()[i])
                || parent2.route().contains(child.route()[i]),
        child.population == 0 && child.distance == 0 && child.score == 0,
        (exists|size: int, cut: int|
            1 <= size && 0 <= cut <= parent1.route().len() && child.route()
                == #[trigger] spec_cut(parent1.route(), parent2.route(), size, cut)) || (exists|
            size: int,
            picks: Seq<(bool, usize)>,
        |
            1 <= size && child.route() == #[trigger] spec_blocks(
                parent1.route(),
                parent2.route(),
                0,
                0,
                size,
                picks,
                0,
            )),
{
    let l1 = parent1.city_indexes.len();
    let l2 = parent2.city_indexes.len();
    let longer = if l1 > l2 {
        l1
    } else {
        l2
    };
    let size = 1 + rng.next_below(longer);
    let strategy = rng.next_below(2);
    let seq: Vec<usize> = if strategy == 0 {
        let shorter = if l1 < l2 {
            l1
        } else {
            l2
        };
        let bound = if size < shorter {
            size
        } else {
            shorter
        };
        let cut = rng.next_below(bound);
        let r = crossover_cut(&parent1.city_indexes, &parent2.city_indexes, size, cut);
        assert(r@ == spec_cut(parent1.route(), parent2.route(), size as int, cut as int));
        assert forall|i: int| 0 <= i < r@.len() implies parent1.route().contains(
            #[trigger] r@[i],
        ) || parent2.route().contains(r@[i]) by {
            if i < cut {
                assert(r@[i] == parent1.route()[i]);
            } else {
                assert(r@[i] == parent2.route()[i - cut]);
            }
        }
        r
    } else {
        let mut picks: Vec<(bool, usize)> = Vec::new();
        let mut i: usize = 0;
        while i < size
            invariant
                picks@.len() == i,
                size <= u32::MAX,
                longer >= 1,
            decreases size - i,
        {
            let side = rng.next_below(2) == 0;
            let raw = 1 + rng.next_below(longer);
            picks.push((side, raw));
            i = i + 1;
        }
        let r = crossover_blocks(
            &parent1.city_indexes,
            &parent2.city_indexes,
            0,
            0,
            size,
            &picks,
            0,
        );
        proof {
            lemma_spec_blocks_len(
                parent1.route(),
                parent2.route(),
                0,
                0,
                size as int,
                picks@,
                0,
            );
            lemma_spec_blocks_origin(
                parent1.route(),
                parent2.route(),
                0,
                0,
                size as int,
                picks@,
                0,
            );
            assert(r@ == spec_blocks(
                parent1.route(),
                parent2.route(),
                0,
                0,
                size as int,
                picks@,
                0,
            ));
        }
        r
    };
    Path::from_indexes(seq)
}

/// The decisions of one mutation call: which of the five edits applied,
/// and the drawn positions and city of the insert, delete and move edits.
pub struct MutationChoices {
    pub prepend_depot: bool,
    pub append_depot: bool,
    pub add_city: bool,
    pub add_pos: usize,
    pub add_value: usize,
    pub remove_one: bool,
    pub remove_pos: usize,
    pub move_one: bool,
    pub move_from: usize,
    pub move_to: usize,
}

/// The child of one mutation, as a function of the parent and the drawn
/// choices: the five edits applied in order, each skipped when its guard
/// does not hold. A parent with fewer than two elements is unchanged.
pub open spec fn spec_mutate(parent: Seq<usize>, depot: usize, c: MutationChoices) -> Seq<usize> {
    if parent.len() < 2 {
        parent
    } else {
        let s1 = if c.prepend_depot && parent[0] != depot {
            parent.insert(0, depot)
        } else {
            parent
        };
        let s2 = if c.append_depot && s1[s1.len() - 1] != depot {
            s1.push(depot)
        } else {
            s1
        };
        let s3 = if c.add_city && c.add_pos <= s2.len() {
            s2.insert(c.add_pos as int, c.add_value)
        } else {
            s2
        };
        let s4 = if c.remove_one && c.remove_pos < s3.len() {
            s3.remove(c.remove_pos as int)
        } else {
            s3
        };
        if c.move_one && s4.len() >= 2 && c.move_from < s4.len() && c.move_to < s4.len() {
            s4.remove(c.move_from as int).insert(c.move_to as int, s4[c.move_from as int])
        } else {
            s4
        }
    }
}

/// Mutates one parent into a child by up to five independent edits, each
/// applied with its own drawn chance: prepend the depot if absent, append
/// the depot if absent, insert one unvisited city at a random position,
/// delete one random position, move one element elsewhere. A parent with
/// fewer than two elements is returned unchanged. Whatever is drawn, at
/// most one deletion happens, so the child keeps at least one element less
/// than the parent, it grows by at most three, every index stays inside
/// the catalog, and the child is exactly `spec_mutate` of the parent under
/// the drawn choices.
#[verifier::rlimit(100)]
pub fn mutate(parent: &Path, catalog_len: usize, depot: usize, rng: &mut RandomSource) -> (child:
    Path)
    requires
        catalog_len >= 1,
        depot < catalog_len,
        route_in_range(parent.route(), catalog_len as int),
        parent.route().len() <= u32::MAX,
    ensures
        route_in_range(child.route(), catalog_len as int),
        parent.route().len() < 2 ==> child.route() == parent.route(),
        parent.route().len() >= 2 ==> child.route().len() >= parent.route().len() - 1,
        parent.route().len() >= 2 ==> child.route().len() <= parent.route().len() + 3,
        child.population == parent.population,
        child.distance == parent.distance,
        child.score == parent.score,
        exists|c: MutationChoices|
            child.route() == #[trigger] spec_mutate(parent.route(), depot, c),
{
    let mut child = parent.duplicate();
    if child.city_indexes.len() < 2 {
        proof {
            let c = MutationChoices {
                prepend_depot: false,
                append_depot: false,
                add_city: false,
                add_pos: 0,
                add_value: 0,
                remove_one: false,
                remove_pos: 0,
                move_one: false,
                move_from: 0,
                move_to: 0,
            };
            assert(child.route() == spec_mutate(parent.route(), depot, c));
        }
        return child;
    }
    let ghost len0 = parent.route().len() as int;

    let drew_prepend = rng.next_below(100) < MUTATION_CHANCE_FIRSTCITY;
    if drew_prepend {
        if child.city_indexes[0] != depot {
            insert_city(&mut child.city_indexes, 0, depot, catalog_len);
        }
    }
    let ghost stage1 = child.route();
    assert(len0 <= child.route().len() <= len0 + 1);

    let drew_append = rng.next_below(100) < MUTATION_CHANCE_LASTCITY;
    if drew_append {
        if child.city_indexes[child.city_indexes.len() - 1] != depot {
            child.city_indexes.push(depot);
        }
    }
    let ghost stage2 = child.route();
    assert(len0 <= child.route().len() <= len0 + 2);
    assert(route_in_range(child.route(), catalog_len as int));

    let drew_add = rng.next_below(100) < MUTATION_CHANCE_ADDONE;
    let mut added = false;
    let mut add_pos: usize = 0;
    let mut add_value: usize = 0;
    if drew_add {
        // cities not yet visited anywhere in the route
        let mut unvisited: Vec<usize> = Vec::new();
        let mut c: usize = 0;
        while c < catalog_len
            invariant
                forall|i: int|
                    0 <= i < unvisited@.len() ==> (#[trigger] unvisited@[i]) < catalog_len,
            decreases catalog_len - c,
        {
            if !route_contains(&child.city_indexes, c) {
                unvisited.push(c);
            }
            c = c + 1;
        }
        if unvisited.len() > 0 {
            add_pos = rng.next_below(child.city_indexes.len());
            add_value = unvisited[rng.next_below(unvisited.len())];
            insert_city(&mut child.city_indexes, add_pos, add_value, catalog_len);
            added = true;
        }
    }
    let ghost stage3 = child.route();
    assert(len0 <= child.route().len() <= len0 + 3);

    let drew_remove = rng.next_below(100) < MUTATION_CHANCE_REMOVEONE;
    let mut remove_pos: usize = 0;
    if drew_remove {
        remove_pos = rng.next_below(child.city_indexes.len());
        remove_city(&mut child.city_indexes, remove_pos, catalog_len);
    }
    let ghost stage4 = child.route();
    assert(len0 - 1 <= child.route().len() <= len0 + 3);

    let drew_move = rng.next_below(100) < MUTATION_CHANCE_REORDERONE;
    let mut moved = false;
    let mut move_from: usize = 0;
    let mut move_to: usize = 0;
    if drew_move {
        if child.city_indexes.len() >= 2 {
            let len = child.city_indexes.len();
            move_from = rng.next_below(len);
            let offset = 1 + rng.next_below(len - 1);
            // a second position distinct from `move_from`, by a cyclic step
            move_to = if offset >= len - move_from {
                offset - (len - move_from)
            } else {
                move_from + offset
            };
            assert(move_to < len && move_to != move_from);
            move_element(&mut child.city_indexes, move_from, move_to, catalog_len);
            moved = true;
        }
    }
    assert(len0 - 1 <= child.route().len() <= len0 + 3);

    proof {
        let c = MutationChoices {
            prepend_depot: drew_prepend,
            append_depot: drew_append,
            add_city: added,
            add_pos,
            add_value,
            remove_one: drew_remove,
            remove_pos,
            move_one: moved,
            move_from,
            move_to,
        };
        assert(stage1 == if c.prepend_depot && parent.route()[0] != depot {
            parent.route().insert(0, depot)
        } else {
            parent.route()
        });
        assert(stage2 == if c.append_depot && stage1[stage1.len() - 1] != depot {
            stage1.push(depot)
        } else {
            stage1
        });
        assert(stage3 == if c.add_city && c.add_pos <= stage2.len() {
            stage2.insert(c.add_pos as int, c.add_value)
        } else {
            stage2
        });
        assert(stage4 == if c.remove_one && c.remove_pos < stage3.len() {
            stage3.remove(c.remove_pos as int)
        } else {
            stage3
        });
        assert(child.route() == if c.move_one && stage4.len() >= 2 && c.move_from < stage4.len()
            && c.move_to < stage4.len() {
            stage4.remove(c.move_from as int).insert(c.move_to as int, stage4[c.move_from as int])
        } else {
            stage4
        });
        assert(child.route() == spec_mutate(parent.route(), depot, c));
    }
    child
}

} // verus!
