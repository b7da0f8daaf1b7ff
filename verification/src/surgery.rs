//! The structural changes of a tree, each of which keeps it good and its
//! records as they are: splitting, rotating and merging pages, and growing
//! and shrinking at the root.

use vstd::prelude::*;

use crate::order::{lawful, lemma_order, lt};
use crate::page::{
    adjacent, between, lemma_borrow_left, lemma_borrow_right, lemma_merge, lemma_split, lemma_unfenced, lemma_with_key, lemma_with_split,
    lemma_without_child, Body, Page,
};
use crate::shape::{
    contents, depth_ok, distinct, edited, flat, items_in, lemma_child, lemma_edit,
    lemma_flat_concat, lemma_flat_one, lemma_flat_same, lemma_page, linked, lows, offset, page_ok,
    same_payload, slots_in, spliced, tree_ok, Pages,
};

verus! {

/// Whether a page has no place in a tree.
pub open spec fn unused(levels: Seq<Seq<usize>>, id: usize) -> bool {
    forall|d: int, j: int|
        #![trigger levels[d][j]]
        0 <= d < levels.len() && 0 <= j < levels[d].len() ==> levels[d][j] != id
}

/// A page stays unused when another page enters a level.
pub proof fn lemma_unused_insert(
    levels: Seq<Seq<usize>>,
    d: int,
    q: int,
    entering: usize,
    id: usize,
)
    requires
        unused(levels, id),
        entering != id,
        0 <= d < levels.len(),
        0 <= q <= levels[d].len(),
    ensures
        unused(levels.update(d, levels[d].insert(q, entering)), id),
{
    let next = levels.update(d, levels[d].insert(q, entering));
    assert forall|e: int, k: int|
        #![trigger next[e][k]]
        0 <= e < next.len() && 0 <= k < next[e].len() implies next[e][k] != id by {
        if e != d || k < q {
            assert(next[e][k] == levels[e][k]);
        } else if k > q {
            assert(next[e][k] == levels[e][k - 1]);
        }
    }
}

/// A page stays unused when another page leaves a level.
pub proof fn lemma_unused_remove(levels: Seq<Seq<usize>>, d: int, q: int, id: usize)
    requires
        unused(levels, id),
        0 <= d < levels.len(),
        0 <= q < levels[d].len(),
    ensures
        unused(levels.update(d, levels[d].remove(q)), id),
{
    let next = levels.update(d, levels[d].remove(q));
    assert forall|e: int, k: int|
        #![trigger next[e][k]]
        0 <= e < next.len() && 0 <= k < next[e].len() implies next[e][k] != id by {
        if e != d || k < q {
            assert(next[e][k] == levels[e][k]);
        } else {
            assert(next[e][k] == levels[e][k + 1]);
        }
    }
}

/// The child `i` of the page at place `j` of the level `d - 1` is split, and
/// its upper half put at `right`.
pub open spec fn child_split<K, V>(
    pages: Pages<K, V>,
    after: Pages<K, V>,
    levels: Seq<Seq<usize>>,
    n: int,
    d: int,
    j: int,
    i: int,
    right: usize,
) -> bool {
    let above = levels[d - 1][j];
    let p = pages[above as int];
    let child = p.children()[i];
    let c = pages[child as int];
    &&& after.len() >= pages.len()
    &&& right < after.len()
    &&& after[above as int] == p.with_split(i, c.split_key(n), right)
    &&& after[child as int] == c.left_half(n, right)
    &&& after[right as int] == c.right_half(n, child)
    &&& c.right matches Some(s) ==> after[s as int] == (Page {
        previous: Some(right),
        ..pages[s as int]
    })
    &&& forall|e: int, k: int|
        #![trigger levels[e][k]]
        0 <= e < levels.len() && 0 <= k < levels[e].len() && levels[e][k] != above && levels[e][k]
            != child && c.right != Some(levels[e][k]) ==> after[levels[e][k] as int]
            == pages[levels[e][k] as int]
}

/// Splitting a full child of a page that is not full keeps a tree good.
#[verifier::rlimit(40)]
pub proof fn lemma_split_child<K: Ord, V>(
    pages: Pages<K, V>,
    after: Pages<K, V>,
    levels: Seq<Seq<usize>>,
    n: int,
    d: int,
    j: int,
    i: int,
    right: usize,
)
    requires
        lawful::<K>(),
        3 <= n,
        tree_ok(pages, levels, n),
        1 <= d < levels.len(),
        0 <= j < levels[d - 1].len(),
        0 <= i < pages[levels[d - 1][j] as int].children().len(),
        pages[levels[d - 1][j] as int].occupancy() < n,
        pages[pages[levels[d - 1][j] as int].children()[i] as int].occupancy() == n,
        unused(levels, right),
        child_split(pages, after, levels, n, d, j, i, right),
    ensures
        ({
            let q = offset(pages, levels, d - 1, j) + i;
            let next = levels.update(d, levels[d].insert(q + 1, right));
            &&& tree_ok(after, next, n)
            &&& contents(after, next) == contents(pages, levels)
        }),
{
    let above = levels[d - 1][j];
    let p = pages[above as int];
    let child = p.children()[i];
    let c = pages[child as int];
    let level = levels[d];
    let q = offset(pages, levels, d - 1, j) + i;
    let fresh = seq![child, right];
    let new = spliced(level, q, 1, fresh);
    let leaf = d + 1 == levels.len();
    lemma_page(pages, levels, n, d - 1, j);
    lemma_child(pages, levels, n, d - 1, j, i);
    lemma_split(c, n, right, child);
    lemma_with_split(p, n, i, c.split_key(n), right);
    assert(new =~= level.insert(q + 1, right));
    assert(level[q] == child);
    assert(levels[d][q] == child);
    assert(levels[d - 1][j] == above);
    assert forall|k: int| 0 <= k < level.len() && k != q implies same_payload(
        pages[#[trigger] level[k] as int],
        after[level[k] as int],
    ) by {
        assert(level[k] == levels[d][k]);
        assert(levels[d][k] != levels[d - 1][j]);
        assert(levels[d][k] != levels[d][q]);
    }
    assert forall|k: int| 0 <= k < new.len() implies #[trigger] page_ok(
        after,
        new,
        k,
        n,
        false,
        leaf,
    ) by {
        let o = if k <= q { k } else { k - 1 };
        assert(page_ok(pages, level, o, n, false, leaf)) by {
            lemma_page(pages, levels, n, d, o);
        }
        if k != q && k != q + 1 {
            assert(new[k] == level[o]);
            assert(level[o] == levels[d][o]);
            assert(levels[d][o] != levels[d - 1][j]);
            assert(levels[d][o] != levels[d][q]);
            if o == q + 1 {
                assert(c.right == Some(level[o]));
            } else {
                assert(c.right != Some(levels[d][o])) by {
                    if q + 1 < level.len() {
                        assert(levels[d][o] != levels[d][q + 1]);
                    }
                }
            }
        }
        if k + 1 < new.len() {
            assert(after[new[k + 1] as int].low == (if k == q {
                Some(c.split_key(n))
            } else {
                pages[level[o + 1] as int].low
            })) by {
                if k + 1 < q {
                    assert(new[k + 1] == level[k + 1]);
                    assert(same_payload(pages[level[k + 1] as int], after[level[k + 1] as int]));
                } else if k + 1 > q + 1 {
                    assert(new[k + 1] == level[k]);
                    assert(same_payload(pages[level[k] as int], after[level[k] as int]));
                }
            }
        }
    }
    assert(level.subrange(q, q + 1) =~= seq![child]);
    lemma_flat_one(slots_in(pages), child);
    lemma_flat_one(items_in(pages), child);
    assert(fresh =~= seq![child] + seq![right]);
    lemma_flat_concat(slots_in(after), seq![child], seq![right]);
    lemma_flat_one(slots_in(after), child);
    lemma_flat_one(slots_in(after), right);
    lemma_flat_concat(items_in(after), seq![child], seq![right]);
    lemma_flat_one(items_in(after), child);
    lemma_flat_one(items_in(after), right);
    assert(after[above as int].slots() =~= p.slots().take(i) + lows(after, fresh)
        + p.slots().skip(i + 1)) by {
        assert(lows(after, fresh) =~= seq![(child, c.low), (right, Some(c.split_key(n)))]);
        assert(p.slots()[i] == (child, c.low));
    }
    assert forall|e: int, k: int|
        #![trigger levels[e][k]]
        0 <= e < levels.len() && 0 <= k < levels[e].len() && e != d && levels[e][k]
            != above implies after[levels[e][k] as int] == pages[levels[e][k] as int] by {
        assert(levels[e][k] != levels[d][q]);
        if c.right is Some {
            assert(levels[e][k] != levels[d][q + 1]);
        }
    }
    assert(edited(pages, after, levels, n, d, j, i, 1, fresh));
    lemma_edit(pages, after, levels, n, d, j, i, 1, fresh);
}

/// The boundary between the children `i` and `i + 1` of the page at place `j`
/// of the level `d - 1` moves to `key`.
pub open spec fn boundary_moved<K: Ord, V>(
    pages: Pages<K, V>,
    after: Pages<K, V>,
    levels: Seq<Seq<usize>>,
    n: int,
    d: int,
    j: int,
    i: int,
    key: K,
) -> bool {
    let above = levels[d - 1][j];
    let p = pages[above as int];
    let left = p.children()[i];
    let right = p.children()[i + 1];
    let l = pages[left as int];
    let r = pages[right as int];
    let l2 = after[left as int];
    let r2 = after[right as int];
    &&& after.len() >= pages.len()
    &&& after[above as int] == p.with_key(i, key)
    &&& p.with_key(i, key).local(n)
    &&& p.with_key(i, key).slots() == p.slots().update(i + 1, (right, Some(key)))
    &&& l2 == (Page { high: Some(key), body: l2.body, ..l })
    &&& r2 == (Page { low: Some(key), body: r2.body, ..r })
    &&& l2.same_kind(l) && r2.same_kind(r)
    &&& l2.local(n) && r2.local(n)
    &&& l2.occupancy() >= l.minimum(n) && r2.occupancy() >= r.minimum(n)
    &&& l2.slots() + r2.slots() == l.slots() + r.slots()
    &&& l2.items() + r2.items() == l.items() + r.items()
    &&& forall|e: int, k: int|
        #![trigger levels[e][k]]
        0 <= e < levels.len() && 0 <= k < levels[e].len() && levels[e][k] != above && levels[e][k]
            != left && levels[e][k] != right ==> after[levels[e][k] as int]
            == pages[levels[e][k] as int]
}

/// Moving the boundary between two siblings keeps a tree good.
#[verifier::rlimit(40)]
pub proof fn lemma_move_boundary<K: Ord, V>(
    pages: Pages<K, V>,
    after: Pages<K, V>,
    levels: Seq<Seq<usize>>,
    n: int,
    d: int,
    j: int,
    i: int,
    key: K,
)
    requires
        lawful::<K>(),
        3 <= n,
        tree_ok(pages, levels, n),
        1 <= d < levels.len(),
        0 <= j < levels[d - 1].len(),
        0 <= i < pages[levels[d - 1][j] as int].children().len() - 1,
        boundary_moved(pages, after, levels, n, d, j, i, key),
    ensures
        tree_ok(after, levels, n),
        contents(after, levels) == contents(pages, levels),
{
    let above = levels[d - 1][j];
    let p = pages[above as int];
    let left = p.children()[i];
    let right = p.children()[i + 1];
    let l = pages[left as int];
    let r = pages[right as int];
    let level = levels[d];
    let q = offset(pages, levels, d - 1, j) + i;
    let fresh = seq![left, right];
    let new = spliced(level, q, 2, fresh);
    let leaf = d + 1 == levels.len();
    lemma_page(pages, levels, n, d - 1, j);
    lemma_child(pages, levels, n, d - 1, j, i);
    lemma_child(pages, levels, n, d - 1, j, i + 1);
    assert(new =~= level);
    assert(levels[d][q] == left);
    assert(levels[d][q + 1] == right);
    assert(levels[d - 1][j] == above);
    assert forall|k: int| 0 <= k < level.len() && !(q <= k < q + 2) implies same_payload(
        pages[#[trigger] level[k] as int],
        after[level[k] as int],
    ) by {
        assert(level[k] == levels[d][k]);
        assert(levels[d][k] != levels[d - 1][j]);
        assert(levels[d][k] != levels[d][q]);
        assert(levels[d][k] != levels[d][q + 1]);
    }
    assert forall|k: int| 0 <= k < new.len() implies #[trigger] page_ok(
        after,
        new,
        k,
        n,
        false,
        leaf,
    ) by {
        assert(page_ok(pages, level, k, n, false, leaf)) by {
            lemma_page(pages, levels, n, d, k);
        }
        if !(q <= k < q + 2) {
            assert(level[k] == levels[d][k]);
            assert(levels[d][k] != levels[d - 1][j]);
            assert(levels[d][k] != levels[d][q]);
            assert(levels[d][k] != levels[d][q + 1]);
        }
        if k + 1 < new.len() && k != q {
            assert(after[level[k + 1] as int].low == pages[level[k + 1] as int].low) by {
                if k + 1 != q {
                    assert(same_payload(pages[level[k + 1] as int], after[level[k + 1] as int]));
                }
            }
        }
    }
    assert(level.subrange(q, q + 2) =~= fresh);
    assert(fresh =~= seq![left] + seq![right]);
    lemma_flat_concat(slots_in(pages), seq![left], seq![right]);
    lemma_flat_one(slots_in(pages), left);
    lemma_flat_one(slots_in(pages), right);
    lemma_flat_concat(items_in(pages), seq![left], seq![right]);
    lemma_flat_one(items_in(pages), left);
    lemma_flat_one(items_in(pages), right);
    lemma_flat_concat(slots_in(after), seq![left], seq![right]);
    lemma_flat_one(slots_in(after), left);
    lemma_flat_one(slots_in(after), right);
    lemma_flat_concat(items_in(after), seq![left], seq![right]);
    lemma_flat_one(items_in(after), left);
    lemma_flat_one(items_in(after), right);
    assert(left != right) by {
        assert(levels[d][q] != levels[d][q + 1]);
    }
    assert(after[above as int].slots() =~= p.slots().take(i) + lows(after, fresh)
        + p.slots().skip(i + 2)) by {
        assert(lows(after, fresh) =~= seq![(left, l.low), (right, Some(key))]);
        assert(p.slots()[i] == (left, l.low));
    }
    assert(edited(pages, after, levels, n, d, j, i, 2, fresh));
    lemma_edit(pages, after, levels, n, d, j, i, 2, fresh);
    assert(levels.update(d, level) =~= levels);
}

/// What is known of two neighbouring children of a page.
pub proof fn lemma_siblings<K: Ord, V>(
    pages: Pages<K, V>,
    levels: Seq<Seq<usize>>,
    n: int,
    d: int,
    j: int,
    i: int,
)
    requires
        lawful::<K>(),
        tree_ok(pages, levels, n),
        1 <= d < levels.len(),
        0 <= j < levels[d - 1].len(),
        0 <= i < pages[levels[d - 1][j] as int].children().len() - 1,
    ensures
        ({
            let p = pages[levels[d - 1][j] as int];
            let q = offset(pages, levels, d - 1, j) + i;
            let l = pages[p.children()[i] as int];
            let r = pages[p.children()[i + 1] as int];
            &&& p.body is Internal
            &&& i < p.keys().len()
            &&& 0 <= q < levels[d].len() - 1
            &&& levels[d][q] == p.children()[i]
            &&& levels[d][q + 1] == p.children()[i + 1]
            &&& page_ok(pages, levels[d], q, n, false, d + 1 == levels.len())
            &&& page_ok(pages, levels[d], q + 1, n, false, d + 1 == levels.len())
            &&& adjacent(l, p.keys()[i], r)
            &&& l.low == p.child_low(i)
            &&& r.high == p.child_high(i + 1)
            &&& between(p.keys()[i], p.child_low(i), p.child_high(i + 1))
            &&& levels[d - 1][j] != levels[d][q]
            &&& levels[d - 1][j] != levels[d][q + 1]
            &&& levels[d][q] != levels[d][q + 1]
        }),
{
    let p = pages[levels[d - 1][j] as int];
    lemma_page(pages, levels, n, d - 1, j);
    lemma_child(pages, levels, n, d - 1, j, i);
    lemma_child(pages, levels, n, d - 1, j, i + 1);
    assert(between(p.keys()[i], p.low, p.high));
    if i > 0 {
        assert(lt(p.keys()[i - 1], p.keys()[i]));
    }
    if i + 1 < p.keys().len() {
        assert(lt(p.keys()[i], p.keys()[i + 1]));
    }
}

/// A page that its left sibling lends its last record or child.
pub proof fn lemma_lend_from_left<K: Ord, V>(
    pages: Pages<K, V>,
    after: Pages<K, V>,
    levels: Seq<Seq<usize>>,
    n: int,
    d: int,
    j: int,
    i: int,
)
    requires
        lawful::<K>(),
        3 <= n,
        tree_ok(pages, levels, n),
        1 <= d < levels.len(),
        0 <= j < levels[d - 1].len(),
        0 <= i < pages[levels[d - 1][j] as int].children().len() - 1,
        after.len() >= pages.len(),
        ({
            let above = levels[d - 1][j];
            let p = pages[above as int];
            let left = p.children()[i];
            let right = p.children()[i + 1];
            let l = pages[left as int];
            let r = pages[right as int];
            &&& l.occupancy() > l.minimum(n)
            &&& r.occupancy() <= r.minimum(n)
            &&& after[above as int] == p.with_key(i, l.last_boundary())
            &&& after[left as int] == l.without_last()
            &&& after[right as int] == r.with_last_of(l, p.keys()[i])
            &&& forall|e: int, k: int|
                #![trigger levels[e][k]]
                0 <= e < levels.len() && 0 <= k < levels[e].len() && levels[e][k] != above
                    && levels[e][k] != left && levels[e][k] != right ==> after[levels[e][k] as int]
                    == pages[levels[e][k] as int]
        }),
    ensures
        tree_ok(after, levels, n),
        contents(after, levels) == contents(pages, levels),
        ({
            let p = pages[levels[d - 1][j] as int];
            let right = p.children()[i + 1];
            &&& lt(pages[p.children()[i] as int].last_boundary(), p.keys()[i])
            &&& after[right as int].occupancy() == pages[right as int].occupancy() + 1
        }),
{
    let p = pages[levels[d - 1][j] as int];
    let l = pages[p.children()[i] as int];
    let r = pages[p.children()[i + 1] as int];
    let key = l.last_boundary();
    lemma_siblings(pages, levels, n, d, j, i);
    lemma_page(pages, levels, n, d - 1, j);
    lemma_borrow_left(l, p.keys()[i], r, n);
    lemma_order::<K>();
    lemma_with_key(p, n, i, key);
    lemma_move_boundary(pages, after, levels, n, d, j, i, key);
}

/// A page that its right sibling lends its first record or child.
pub proof fn lemma_lend_from_right<K: Ord, V>(
    pages: Pages<K, V>,
    after: Pages<K, V>,
    levels: Seq<Seq<usize>>,
    n: int,
    d: int,
    j: int,
    i: int,
)
    requires
        lawful::<K>(),
        3 <= n,
        tree_ok(pages, levels, n),
        1 <= d < levels.len(),
        0 <= j < levels[d - 1].len(),
        0 <= i < pages[levels[d - 1][j] as int].children().len() - 1,
        after.len() >= pages.len(),
        ({
            let above = levels[d - 1][j];
            let p = pages[above as int];
            let left = p.children()[i];
            let right = p.children()[i + 1];
            let l = pages[left as int];
            let r = pages[right as int];
            &&& l.occupancy() <= l.minimum(n)
            &&& r.occupancy() > r.minimum(n)
            &&& after[above as int] == p.with_key(i, r.first_boundary())
            &&& after[left as int] == l.with_first_of(r, p.keys()[i])
            &&& after[right as int] == r.without_first()
            &&& forall|e: int, k: int|
                #![trigger levels[e][k]]
                0 <= e < levels.len() && 0 <= k < levels[e].len() && levels[e][k] != above
                    && levels[e][k] != left && levels[e][k] != right ==> after[levels[e][k] as int]
                    == pages[levels[e][k] as int]
        }),
    ensures
        tree_ok(after, levels, n),
        contents(after, levels) == contents(pages, levels),
        ({
            let p = pages[levels[d - 1][j] as int];
            let left = p.children()[i];
            &&& lt(p.keys()[i], pages[p.children()[i + 1] as int].first_boundary())
            &&& after[left as int].occupancy() == pages[left as int].occupancy() + 1
        }),
{
    let p = pages[levels[d - 1][j] as int];
    let l = pages[p.children()[i] as int];
    let r = pages[p.children()[i + 1] as int];
    let key = r.first_boundary();
    lemma_siblings(pages, levels, n, d, j, i);
    lemma_page(pages, levels, n, d - 1, j);
    lemma_borrow_right(l, p.keys()[i], r, n);
    lemma_order::<K>();
    lemma_with_key(p, n, i, key);
    lemma_move_boundary(pages, after, levels, n, d, j, i, key);
}

/// The child `i` of the page at place `j` of the level `d - 1` is merged into
/// the next one, and spliced out of its level.
pub open spec fn child_merged<K, V>(
    pages: Pages<K, V>,
    after: Pages<K, V>,
    levels: Seq<Seq<usize>>,
    d: int,
    j: int,
    i: int,
) -> bool {
    let above = levels[d - 1][j];
    let p = pages[above as int];
    let left = p.children()[i];
    let right = p.children()[i + 1];
    let l = pages[left as int];
    let r = pages[right as int];
    &&& after.len() >= pages.len()
    &&& after[above as int] == p.without_child(i)
    &&& after[right as int] == r.merged_with(l, p.keys()[i])
    &&& l.previous matches Some(s) ==> after[s as int] == (Page {
        right: Some(right),
        ..pages[s as int]
    })
    &&& forall|e: int, k: int|
        #![trigger levels[e][k]]
        0 <= e < levels.len() && 0 <= k < levels[e].len() && levels[e][k] != above && levels[e][k]
            != left && levels[e][k] != right && l.previous != Some(levels[e][k])
            ==> after[levels[e][k] as int] == pages[levels[e][k] as int]
}

/// Merging two siblings that fit into one page keeps a tree good.
#[verifier::rlimit(40)]
pub proof fn lemma_merge_children<K: Ord, V>(
    pages: Pages<K, V>,
    after: Pages<K, V>,
    levels: Seq<Seq<usize>>,
    n: int,
    d: int,
    j: int,
    i: int,
)
    requires
        lawful::<K>(),
        3 <= n,
        tree_ok(pages, levels, n),
        1 <= d < levels.len(),
        0 <= j < levels[d - 1].len(),
        0 <= i < pages[levels[d - 1][j] as int].children().len() - 1,
        d == 1 || pages[levels[d - 1][j] as int].occupancy() > (n - 1) / 2,
        ({
            let p = pages[levels[d - 1][j] as int];
            let l = pages[p.children()[i] as int];
            let r = pages[p.children()[i + 1] as int];
            l.occupancy() <= l.minimum(n) && r.occupancy() <= r.minimum(n)
        }),
        child_merged(pages, after, levels, d, j, i),
    ensures
        ({
            let q = offset(pages, levels, d - 1, j) + i;
            let next = levels.update(d, levels[d].remove(q));
            &&& tree_ok(after, next, n)
            &&& contents(after, next) == contents(pages, levels)
            &&& unused(next, levels[d][q])
            &&& levels[d][q] == pages[levels[d - 1][j] as int].children()[i]
        }),
{
    let above = levels[d - 1][j];
    let p = pages[above as int];
    let left = p.children()[i];
    let right = p.children()[i + 1];
    let l = pages[left as int];
    let r = pages[right as int];
    let level = levels[d];
    let q = offset(pages, levels, d - 1, j) + i;
    let fresh = seq![right];
    let new = spliced(level, q, 2, fresh);
    let leaf = d + 1 == levels.len();
    lemma_page(pages, levels, n, d - 1, j);
    lemma_child(pages, levels, n, d - 1, j, i);
    lemma_child(pages, levels, n, d - 1, j, i + 1);
    lemma_merge(l, p.keys()[i], r, n);
    lemma_without_child(p, n, i);
    assert(new =~= level.remove(q));
    assert(levels[d][q] == left);
    assert(levels[d][q + 1] == right);
    assert(levels[d - 1][j] == above);
    assert forall|k: int| 0 <= k < level.len() && !(q <= k < q + 2) implies same_payload(
        pages[#[trigger] level[k] as int],
        after[level[k] as int],
    ) by {
        assert(level[k] == levels[d][k]);
        assert(levels[d][k] != levels[d - 1][j]);
        assert(levels[d][k] != levels[d][q]);
        assert(levels[d][k] != levels[d][q + 1]);
    }
    assert forall|k: int| 0 <= k < new.len() implies #[trigger] page_ok(
        after,
        new,
        k,
        n,
        false,
        leaf,
    ) by {
        let o = if k < q { k } else { k + 1 };
        assert(page_ok(pages, level, o, n, false, leaf)) by {
            lemma_page(pages, levels, n, d, o);
        }
        assert(new[k] == level[o]);
        if k != q {
            assert(level[o] == levels[d][o]);
            assert(levels[d][o] != levels[d - 1][j]);
            assert(levels[d][o] != levels[d][q]);
            assert(levels[d][o] != levels[d][q + 1]);
            if o == q - 1 {
                assert(l.previous == Some(level[o]));
            } else {
                assert(l.previous != Some(levels[d][o])) by {
                    if q > 0 {
                        assert(levels[d][o] != levels[d][q - 1]);
                    }
                }
            }
        }
        if k + 1 < new.len() {
            if k + 1 < q {
                assert(new[k + 1] == level[k + 1]);
                assert(same_payload(pages[level[k + 1] as int], after[level[k + 1] as int]));
            } else if k + 1 == q {
                assert(new[k + 1] == right);
            } else {
                assert(new[k + 1] == level[k + 2]);
                assert(same_payload(pages[level[k + 2] as int], after[level[k + 2] as int]));
            }
        }
    }
    assert(level.subrange(q, q + 2) =~= seq![left] + seq![right]);
    lemma_flat_concat(slots_in(pages), seq![left], seq![right]);
    lemma_flat_one(slots_in(pages), left);
    lemma_flat_one(slots_in(pages), right);
    lemma_flat_concat(items_in(pages), seq![left], seq![right]);
    lemma_flat_one(items_in(pages), left);
    lemma_flat_one(items_in(pages), right);
    lemma_flat_one(slots_in(after), right);
    lemma_flat_one(items_in(after), right);
    assert(after[above as int].slots() =~= p.slots().take(i) + lows(after, fresh)
        + p.slots().skip(i + 2)) by {
        assert(lows(after, fresh) =~= seq![(right, l.low)]);
    }
    assert forall|e: int, k: int|
        #![trigger levels[e][k]]
        0 <= e < levels.len() && 0 <= k < levels[e].len() && e != d && levels[e][k]
            != above implies after[levels[e][k] as int] == pages[levels[e][k] as int] by {
        assert(levels[e][k] != levels[d][q]);
        assert(levels[e][k] != levels[d][q + 1]);
        if l.previous is Some {
            assert(levels[e][k] != levels[d][q - 1]);
        }
    }
    assert(edited(pages, after, levels, n, d, j, i, 2, fresh));
    lemma_edit(pages, after, levels, n, d, j, i, 2, fresh);
    let next = levels.update(d, new);
    assert forall|e: int, k: int|
        #![trigger next[e][k]]
        0 <= e < next.len() && 0 <= k < next[e].len() implies next[e][k] != left by {
        let o = if e != d || k < q { k } else { k + 1 };
        assert(next[e][k] == levels[e][o]);
        assert(levels[d][q] == left);
    }
}

/// A full root is split under a new root `top`, and its upper half put at
/// `right`.
pub open spec fn root_split<K, V>(
    pages: Pages<K, V>,
    after: Pages<K, V>,
    levels: Seq<Seq<usize>>,
    n: int,
    right: usize,
    top: usize,
) -> bool {
    let root = levels[0][0];
    let p = pages[root as int];
    &&& after.len() >= pages.len()
    &&& right < after.len() && top < after.len() && right != top
    &&& after[root as int] == (Page { is_root: false, ..p.left_half(n, right) })
    &&& after[right as int] == p.right_half(n, root)
    &&& after[top as int] == (Page {
        is_root: true,
        low: None,
        high: None,
        previous: None,
        right: None,
        body: Body::<K, V, usize>::Internal(seq![p.split_key(n)], seq![root, right]),
    })
    &&& forall|e: int, k: int|
        #![trigger levels[e][k]]
        0 <= e < levels.len() && 0 <= k < levels[e].len() && levels[e][k] != root
            ==> after[levels[e][k] as int] == pages[levels[e][k] as int]
}

/// Splitting a full root under a new one keeps a tree good.
#[verifier::rlimit(40)]
pub proof fn lemma_split_root<K: Ord, V>(
    pages: Pages<K, V>,
    after: Pages<K, V>,
    levels: Seq<Seq<usize>>,
    n: int,
    right: usize,
    top: usize,
)
    requires
        lawful::<K>(),
        3 <= n,
        tree_ok(pages, levels, n),
        pages[levels[0][0] as int].occupancy() == n,
        unused(levels, right),
        unused(levels, top),
        root_split(pages, after, levels, n, right, top),
    ensures
        ({
            let next = seq![seq![top], seq![levels[0][0], right]] + levels.skip(1);
            &&& tree_ok(after, next, n)
            &&& contents(after, next) == contents(pages, levels)
        }),
{
    let root = levels[0][0];
    let p = pages[root as int];
    let pair = seq![root, right];
    let next = seq![seq![top], pair] + levels.skip(1);
    lemma_page(pages, levels, n, 0, 0);
    lemma_split(p, n, right, root);
    assert(next[0] == seq![top]);
    assert(next[1] == pair);
    assert forall|e: int| 2 <= e < next.len() implies next[e] == #[trigger] levels[e - 1] by {}
    assert forall|e: int| 2 <= e < next.len() implies #[trigger] next[e] == levels[e - 1] by {}
    assert(levels[0] =~= seq![root]);
    assert(distinct(next)) by {
        assert forall|e: int, k: int, e2: int, k2: int|
            #![trigger next[e][k], next[e2][k2]]
            0 <= e < next.len() && 0 <= k < next[e].len() && 0 <= e2 < next.len() && 0 <= k2
                < next[e2].len() && next[e][k] == next[e2][k2] implies e == e2 && k == k2 by {
            if e >= 2 {
                assert(next[e][k] == levels[e - 1][k]);
            }
            if e2 >= 2 {
                assert(next[e2][k2] == levels[e2 - 1][k2]);
            }
            assert(levels[0][0] == root);
        }
    }
    assert forall|e: int| 0 <= e < next.len() implies #[trigger] depth_ok(after, next, n, e) by {
        let is_root = e == 0;
        let leaf = e + 1 == next.len();
        assert forall|k: int| 0 <= k < next[e].len() implies #[trigger] page_ok(
            after,
            next[e],
            k,
            n,
            is_root,
            leaf,
        ) by {
            if e >= 2 {
                lemma_page(pages, levels, n, e - 1, k);
                assert(levels[e - 1][k] != levels[0][0]);
                if k + 1 < next[e].len() {
                    assert(levels[e - 1][k + 1] != levels[0][0]);
                }
            } else if e == 1 {
                assert(next[1][0] == root && next[1][1] == right);
            } else {
                assert(next[0][0] == top);
                let t = after[top as int];
                assert(t.keys() =~= seq![p.split_key(n)]);
            }
        }
    }
    assert forall|e: int| 0 <= e < next.len() - 1 implies #[trigger] linked(after, next, e) by {
        if e == 0 {
            lemma_flat_one(slots_in(after), top);
            assert(after[top as int].slots() =~= lows(after, pair));
        } else if e == 1 {
            assert(linked(pages, levels, 0));
            assert(pair =~= seq![root] + seq![right]);
            lemma_flat_concat(slots_in(after), seq![root], seq![right]);
            lemma_flat_one(slots_in(after), root);
            lemma_flat_one(slots_in(after), right);
            lemma_flat_one(slots_in(pages), root);
            assert(after[root as int].slots() =~= p.left_half(n, right).slots());
            assert(flat(slots_in(after), pair) == flat(slots_in(pages), levels[0]));
            assert(next[2] == levels[1]);
            assert(lows(after, levels[1]) =~= lows(pages, levels[1])) by {
                assert forall|k: int| 0 <= k < levels[1].len() implies after[
                    #[trigger] levels[1][k] as int].low == pages[levels[1][k] as int].low by {
                    assert(levels[1][k] != levels[0][0]);
                }
            }
        } else {
            assert(linked(pages, levels, e - 1));
            assert forall|k: int| 0 <= k < levels[e - 1].len() implies slots_in(pages)(
                #[trigger] levels[e - 1][k],
            ) == slots_in(after)(levels[e - 1][k]) by {
                assert(levels[e - 1][k] != levels[0][0]);
            }
            lemma_flat_same(slots_in(pages), slots_in(after), levels[e - 1]);
            assert(next[e + 1] == levels[e]);
            assert(lows(after, levels[e]) =~= lows(pages, levels[e])) by {
                assert forall|k: int| 0 <= k < levels[e].len() implies after[
                    #[trigger] levels[e][k] as int].low == pages[levels[e][k] as int].low by {
                    assert(levels[e][k] != levels[0][0]);
                }
            }
        }
    }
    if levels.len() == 1 {
        assert(next.last() == pair);
        assert(levels.last() == levels[0]);
        assert(pair =~= seq![root] + seq![right]);
        lemma_flat_concat(items_in(after), seq![root], seq![right]);
        lemma_flat_one(items_in(after), root);
        lemma_flat_one(items_in(after), right);
        lemma_flat_one(items_in(pages), root);
    } else {
        let last = levels.len() - 1;
        assert(next.last() == levels[last]);
        assert forall|k: int| 0 <= k < levels[last].len() implies items_in(pages)(
            #[trigger] levels[last][k],
        ) == items_in(after)(levels[last][k]) by {
            assert(levels[last][k] != levels[0][0]);
        }
        lemma_flat_same(items_in(pages), items_in(after), levels[last]);
    }
}

/// A root that has a single child is replaced by that child.
pub open spec fn root_shrunk<K, V>(
    pages: Pages<K, V>,
    after: Pages<K, V>,
    levels: Seq<Seq<usize>>,
) -> bool {
    let root = levels[0][0];
    let heir = pages[root as int].children()[0];
    &&& after.len() >= pages.len()
    &&& after[heir as int] == (Page {
        is_root: true,
        low: None,
        high: None,
        previous: None,
        right: None,
        body: pages[heir as int].body,
    })
    &&& forall|e: int, k: int|
        #![trigger levels[e][k]]
        0 <= e < levels.len() && 0 <= k < levels[e].len() && levels[e][k] != root && levels[e][k]
            != heir ==> after[levels[e][k] as int] == pages[levels[e][k] as int]
}

/// Removing a root that has a single child keeps a tree good.
pub proof fn lemma_shrink_root<K: Ord, V>(
    pages: Pages<K, V>,
    after: Pages<K, V>,
    levels: Seq<Seq<usize>>,
    n: int,
)
    requires
        tree_ok(pages, levels, n),
        pages[levels[0][0] as int].body is Internal,
        pages[levels[0][0] as int].keys().len() == 0,
        root_shrunk(pages, after, levels),
    ensures
        levels.len() > 1,
        tree_ok(after, levels.skip(1), n),
        contents(after, levels.skip(1)) == contents(pages, levels),
        levels.skip(1)[0][0] == pages[levels[0][0] as int].children()[0],
        unused(levels.skip(1), levels[0][0]),
{
    let root = levels[0][0];
    let p = pages[root as int];
    let heir = p.children()[0];
    let next = levels.skip(1);
    lemma_page(pages, levels, n, 0, 0);
    lemma_child(pages, levels, n, 0, 0, 0);
    assert(levels[0] =~= seq![root]);
    assert(levels[0].take(0) =~= Seq::empty());
    assert(linked(pages, levels, 0));
    lemma_flat_one(slots_in(pages), root);
    assert(levels[1].len() == 1);
    assert(levels[1][0] == heir);
    lemma_unfenced(pages[heir as int], after[heir as int], n);
    assert forall|e: int| 0 <= e < next.len() implies #[trigger] next[e] == levels[e + 1] by {}
    assert(distinct(next)) by {
        assert forall|e: int, k: int, e2: int, k2: int|
            #![trigger next[e][k], next[e2][k2]]
            0 <= e < next.len() && 0 <= k < next[e].len() && 0 <= e2 < next.len() && 0 <= k2
                < next[e2].len() && next[e][k] == next[e2][k2] implies e == e2 && k == k2 by {
            assert(next[e][k] == levels[e + 1][k]);
            assert(next[e2][k2] == levels[e2 + 1][k2]);
        }
    }
    assert forall|e: int| 0 <= e < next.len() implies #[trigger] depth_ok(after, next, n, e) by {
        let is_root = e == 0;
        let leaf = e + 1 == next.len();
        assert forall|k: int| 0 <= k < next[e].len() implies #[trigger] page_ok(
            after,
            next[e],
            k,
            n,
            is_root,
            leaf,
        ) by {
            lemma_page(pages, levels, n, e + 1, k);
            assert(levels[e + 1][k] != levels[0][0]);
            if e > 0 {
                assert(levels[e + 1][k] != levels[1][0]);
                if k + 1 < next[e].len() {
                    assert(levels[e + 1][k + 1] != levels[1][0]);
                    assert(levels[e + 1][k + 1] != levels[0][0]);
                }
            }
        }
    }
    assert forall|e: int, k: int|
        #![trigger levels[e][k]]
        1 <= e < levels.len() && 0 <= k < levels[e].len() implies {
        &&& after[levels[e][k] as int].low == pages[levels[e][k] as int].low
        &&& after[levels[e][k] as int].slots() == pages[levels[e][k] as int].slots()
        &&& after[levels[e][k] as int].items() == pages[levels[e][k] as int].items()
    } by {
        assert(levels[e][k] != levels[0][0]);
        if levels[e][k] == heir {
            assert(after[heir as int].slots() =~= pages[heir as int].slots());
        }
    }
    assert forall|e: int| 0 <= e < next.len() - 1 implies #[trigger] linked(after, next, e) by {
        assert(linked(pages, levels, e + 1));
        lemma_flat_same(slots_in(pages), slots_in(after), levels[e + 1]);
        assert(next[e + 1] == levels[e + 2]);
        assert(lows(after, levels[e + 2]) =~= lows(pages, levels[e + 2]));
    }
    let last = levels.len() - 1;
    assert(next.last() == levels[last]);
    lemma_flat_same(items_in(pages), items_in(after), levels[last]);
    assert forall|e: int, k: int|
        #![trigger next[e][k]]
        0 <= e < next.len() && 0 <= k < next[e].len() implies next[e][k] != root by {
        assert(next[e][k] == levels[e + 1][k]);
        assert(levels[0][0] == root);
    }
}

} // verus!
