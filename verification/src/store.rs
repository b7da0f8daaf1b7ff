//! Which pages of a store a tree uses, and which are free to be used again.

use vstd::prelude::*;

use crate::shape::distinct;
use crate::surgery::{lemma_unused_insert, lemma_unused_remove, unused};

verus! {

/// Whether every one of `count` pages is used by the tree, on the free list, or
/// held out by a change under way, and no page is two of these.
pub open spec fn accounted(
    levels: Seq<Seq<usize>>,
    free: Seq<usize>,
    held: Set<usize>,
    count: nat,
) -> bool {
    &&& free.no_duplicates()
    &&& forall|d: int, j: int|
        #![trigger levels[d][j]]
        0 <= d < levels.len() && 0 <= j < levels[d].len() ==> levels[d][j] < count
    &&& forall|k: int|
        0 <= k < free.len() ==> #[trigger] free[k] < count && unused(levels, free[k])
            && !held.contains(free[k])
    &&& forall|id: usize| #[trigger]
        held.contains(id) ==> id < count && unused(levels, id)
    &&& forall|id: usize|
        #![trigger unused(levels, id)]
        #![trigger free.contains(id)]
        id < count && unused(levels, id) && !held.contains(id) ==> free.contains(id)
}

/// The place of a page that is used.
pub proof fn lemma_used(levels: Seq<Seq<usize>>, id: usize) -> (at: (int, int))
    requires
        !unused(levels, id),
    ensures
        0 <= at.0 < levels.len(),
        0 <= at.1 < levels[at.0].len(),
        levels[at.0][at.1] == id,
{
    choose|d: int, j: int|
        #![trigger levels[d][j]]
        0 <= d < levels.len() && 0 <= j < levels[d].len() && levels[d][j] == id
}

/// A page stays used when another page enters a level, and one that enters is
/// used.
pub proof fn lemma_used_insert(
    levels: Seq<Seq<usize>>,
    d: int,
    q: int,
    entering: usize,
    id: usize,
)
    requires
        0 <= d < levels.len(),
        0 <= q <= levels[d].len(),
        !unused(levels, id) || entering == id,
    ensures
        !unused(levels.update(d, levels[d].insert(q, entering)), id),
{
    let next = levels.update(d, levels[d].insert(q, entering));
    if entering == id {
        assert(next[d][q] == id);
    } else {
        let (e, m) = lemma_used(levels, id);
        if e == d && m >= q {
            assert(next[e][m + 1] == levels[e][m]);
        } else {
            assert(next[e][m] == levels[e][m]);
        }
    }
}

/// A page stays used when another page leaves a level.
pub proof fn lemma_used_remove(levels: Seq<Seq<usize>>, d: int, q: int, id: usize)
    requires
        0 <= d < levels.len(),
        0 <= q < levels[d].len(),
        !unused(levels, id),
        levels[d][q] != id,
    ensures
        !unused(levels.update(d, levels[d].remove(q)), id),
{
    let next = levels.update(d, levels[d].remove(q));
    let (e, m) = lemma_used(levels, id);
    if e == d && m > q {
        assert(next[e][m - 1] == levels[e][m]);
    } else {
        assert(next[e][m] == levels[e][m]);
    }
}

/// Taking the last page of the free list.
pub proof fn lemma_taken(
    levels: Seq<Seq<usize>>,
    free: Seq<usize>,
    held: Set<usize>,
    count: nat,
)
    requires
        accounted(levels, free, held, count),
        free.len() > 0,
    ensures
        accounted(levels, free.drop_last(), held.insert(free.last()), count),
        free.last() < count,
        unused(levels, free.last()),
        !held.contains(free.last()),
{
    let id = free.last();
    let rest = free.drop_last();
    assert(free[free.len() - 1] == id);
    assert forall|k: int| 0 <= k < rest.len() implies #[trigger] rest[k] < count && unused(
        levels,
        rest[k],
    ) && !held.insert(id).contains(rest[k]) by {
        assert(rest[k] == free[k]);
    }
    assert forall|other: usize|
        #![trigger unused(levels, other)]
        other < count && unused(levels, other) && !held.insert(id).contains(
            other,
        ) implies rest.contains(other) by {
        assert(free.contains(other));
        let k = choose|k: int| 0 <= k < free.len() && free[k] == other;
        assert(rest[k] == other);
    }
}

/// Adding a page to the store.
pub proof fn lemma_added(
    levels: Seq<Seq<usize>>,
    free: Seq<usize>,
    held: Set<usize>,
    count: usize,
)
    requires
        accounted(levels, free, held, count as nat),
    ensures
        accounted(levels, free, held.insert(count), count as nat + 1),
        unused(levels, count),
        !held.contains(count),
{
    assert(unused(levels, count));
    assert forall|k: int| 0 <= k < free.len() implies #[trigger] free[k] < count as nat + 1
        && unused(levels, free[k]) && !held.insert(count).contains(free[k]) by {}
    assert forall|d: int, j: int|
        #![trigger levels[d][j]]
        0 <= d < levels.len() && 0 <= j < levels[d].len() implies levels[d][j] < count as nat
        + 1 by {}
}

/// A page that was held out enters a level.
pub proof fn lemma_entered(
    levels: Seq<Seq<usize>>,
    free: Seq<usize>,
    count: nat,
    d: int,
    q: int,
    id: usize,
)
    requires
        accounted(levels, free, set![id], count),
        0 <= d < levels.len(),
        0 <= q <= levels[d].len(),
    ensures
        accounted(levels.update(d, levels[d].insert(q, id)), free, Set::empty(), count),
{
    let next = levels.update(d, levels[d].insert(q, id));
    let held: Set<usize> = set![id];
    assert(held.contains(id));
    assert forall|e: int, j: int|
        #![trigger next[e][j]]
        0 <= e < next.len() && 0 <= j < next[e].len() implies next[e][j] < count by {
        if e != d || j < q {
            assert(next[e][j] == levels[e][j]);
        } else if j > q {
            assert(next[e][j] == levels[e][j - 1]);
        }
    }
    assert forall|k: int| 0 <= k < free.len() implies #[trigger] free[k] < count && unused(
        next,
        free[k],
    ) && !Set::<usize>::empty().contains(free[k]) by {
        assert(!held.contains(free[k]));
        lemma_unused_insert(levels, d, q, id, free[k]);
    }
    assert forall|other: usize|
        #![trigger unused(next, other)]
        other < count && unused(next, other) implies free.contains(other) by {
        if !unused(levels, other) || other == id {
            lemma_used_insert(levels, d, q, id, other);
        }
        assert(!held.contains(other));
    }
}

/// A page leaves a level for the free list.
pub proof fn lemma_left(
    levels: Seq<Seq<usize>>,
    free: Seq<usize>,
    count: nat,
    d: int,
    q: int,
)
    requires
        accounted(levels, free, Set::empty(), count),
        distinct(levels),
        0 <= d < levels.len(),
        0 <= q < levels[d].len(),
    ensures
        accounted(
            levels.update(d, levels[d].remove(q)),
            free.push(levels[d][q]),
            Set::empty(),
            count,
        ),
{
    let id = levels[d][q];
    let next = levels.update(d, levels[d].remove(q));
    let more = free.push(id);
    assert forall|e: int, j: int|
        #![trigger next[e][j]]
        0 <= e < next.len() && 0 <= j < next[e].len() implies next[e][j] < count && next[e][j]
        != id by {
        if e != d || j < q {
            assert(next[e][j] == levels[e][j]);
        } else {
            assert(next[e][j] == levels[e][j + 1]);
        }
    }
    assert(unused(next, id));
    lemma_freed(levels, free, count, id);
    assert forall|k: int| 0 <= k < more.len() implies #[trigger] more[k] < count && unused(
        next,
        more[k],
    ) && !Set::<usize>::empty().contains(more[k]) by {
        if k < free.len() {
            assert(more[k] == free[k]);
            lemma_unused_remove(levels, d, q, free[k]);
        }
    }
    assert forall|other: usize|
        #![trigger unused(next, other)]
        other < count && unused(next, other) implies more.contains(other) by {
        if other == id {
            assert(more[free.len() as int] == id);
        } else {
            if !unused(levels, other) {
                lemma_used_remove(levels, d, q, other);
            }
            assert(free.contains(other));
            let k = choose|k: int| 0 <= k < free.len() && free[k] == other;
            assert(more[k] == other);
        }
    }
}

/// A used page is not on the free list, which therefore takes it.
proof fn lemma_freed(levels: Seq<Seq<usize>>, free: Seq<usize>, count: nat, id: usize)
    requires
        accounted(levels, free, Set::empty(), count),
        !unused(levels, id),
    ensures
        free.push(id).no_duplicates(),
{
    assert forall|k: int| 0 <= k < free.len() implies free[k] != id by {
        assert(unused(levels, free[k]));
    }
}

/// The levels of a tree whose root was split below a new one.
pub open spec fn split_levels(
    levels: Seq<Seq<usize>>,
    root: usize,
    right: usize,
    top: usize,
) -> Seq<Seq<usize>> {
    seq![seq![top], seq![root, right]] + levels.skip(1)
}

/// Two pages that were held out enter a tree whose root is split.
pub proof fn lemma_root_entered(
    levels: Seq<Seq<usize>>,
    free: Seq<usize>,
    count: nat,
    right: usize,
    top: usize,
)
    requires
        accounted(levels, free, set![right, top], count),
        levels.len() > 0,
        levels[0].len() == 1,
    ensures
        accounted(
            split_levels(levels, levels[0][0], right, top),
            free,
            Set::empty(),
            count,
        ),
{
    let root = levels[0][0];
    let next = split_levels(levels, root, right, top);
    let held: Set<usize> = set![right, top];
    assert(held.contains(right) && held.contains(top));
    assert(next[0][0] == top);
    assert(next[1][0] == root && next[1][1] == right);
    assert forall|e: int| 2 <= e < next.len() implies #[trigger] next[e] == levels[e - 1] by {}
    assert forall|e: int, j: int|
        #![trigger next[e][j]]
        0 <= e < next.len() && 0 <= j < next[e].len() implies next[e][j] < count && (next[e][j]
        == top || next[e][j] == right || !unused(levels, next[e][j])) by {
        if e >= 2 {
            assert(next[e][j] == levels[e - 1][j]);
        } else if e == 1 && j == 0 {
            assert(levels[0][0] == next[e][j]);
        }
    }
    assert forall|k: int| 0 <= k < free.len() implies #[trigger] free[k] < count && unused(
        next,
        free[k],
    ) && !Set::<usize>::empty().contains(free[k]) by {
        assert(!held.contains(free[k]));
        assert(unused(levels, free[k]));
    }
    assert forall|id: usize|
        #![trigger unused(next, id)]
        id < count && unused(next, id) implies free.contains(id) by {
        if !unused(levels, id) {
            let (e, m) = lemma_used(levels, id);
            if e == 0 {
                assert(next[1][0] == id);
            } else {
                assert(next[e + 1][m] == levels[e][m]);
            }
        }
        assert(!held.contains(id));
    }
}

/// A root leaves a tree, whose next level becomes the first, for the free list.
pub proof fn lemma_root_left(levels: Seq<Seq<usize>>, free: Seq<usize>, count: nat)
    requires
        accounted(levels, free, Set::empty(), count),
        distinct(levels),
        levels.len() > 0,
        levels[0].len() == 1,
    ensures
        accounted(levels.skip(1), free.push(levels[0][0]), Set::empty(), count),
{
    let root = levels[0][0];
    let next = levels.skip(1);
    let more = free.push(root);
    assert forall|e: int, j: int|
        #![trigger next[e][j]]
        0 <= e < next.len() && 0 <= j < next[e].len() implies next[e][j] < count && next[e][j]
        != root by {
        assert(next[e][j] == levels[e + 1][j]);
    }
    assert(unused(next, root));
    lemma_freed(levels, free, count, root);
    assert forall|k: int| 0 <= k < more.len() implies #[trigger] more[k] < count && unused(
        next,
        more[k],
    ) && !Set::<usize>::empty().contains(more[k]) by {
        if k < free.len() {
            assert(more[k] == free[k]);
            assert(unused(levels, free[k]));
            assert forall|e: int, j: int|
                #![trigger next[e][j]]
                0 <= e < next.len() && 0 <= j < next[e].len() implies next[e][j] != free[k] by {
                assert(next[e][j] == levels[e + 1][j]);
            }
        }
    }
    assert forall|id: usize|
        #![trigger unused(next, id)]
        id < count && unused(next, id) implies more.contains(id) by {
        if id == root {
            assert(more[free.len() as int] == id);
        } else {
            if !unused(levels, id) {
                let (e, m) = lemma_used(levels, id);
                assert(e > 0);
                assert(next[e - 1][m] == levels[e][m]);
            }
            assert(free.contains(id));
            let k = choose|k: int| 0 <= k < free.len() && free[k] == id;
            assert(more[k] == id);
        }
    }
}

} // verus!
