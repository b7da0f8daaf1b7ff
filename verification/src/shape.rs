//! The shape of a tree: levels of linked pages, each the children of the
//! level above, whose leaves hold the records.

use vstd::prelude::*;

use crate::order::{consistent, lawful, lemma_order, lt, Side};
use crate::page::{within, Page};
use crate::records::sorted;

verus! {

/// The pages of a tree, by their place in the store.
pub type Pages<K, V> = Seq<Page<K, V, usize>>;

/// The concatenation of `f` over a sequence of pages.
pub open spec fn flat<T>(f: spec_fn(usize) -> Seq<T>, ids: Seq<usize>) -> Seq<T>
    decreases ids.len(),
{
    if ids.len() == 0 {
        Seq::empty()
    } else {
        flat(f, ids.drop_last()) + f(ids.last())
    }
}

pub proof fn lemma_flat_concat<T>(f: spec_fn(usize) -> Seq<T>, a: Seq<usize>, b: Seq<usize>)
    ensures
        flat(f, a + b) == flat(f, a) + flat(f, b),
    decreases b.len(),
{
    if b.len() == 0 {
        assert(a + b =~= a);
    } else {
        lemma_flat_concat(f, a, b.drop_last());
        assert((a + b).drop_last() =~= a + b.drop_last());
        assert((a + b).last() == b.last());
        assert(flat(f, a + b) =~= flat(f, a) + flat(f, b));
    }
}

pub proof fn lemma_flat_one<T>(f: spec_fn(usize) -> Seq<T>, id: usize)
    ensures
        flat(f, seq![id]) == f(id),
{
    assert(seq![id].drop_last() =~= Seq::empty());
    assert(flat(f, seq![id].drop_last()) =~= Seq::empty());
    assert(flat(f, seq![id]) =~= f(id));
}

pub proof fn lemma_flat_same<T>(
    f: spec_fn(usize) -> Seq<T>,
    g: spec_fn(usize) -> Seq<T>,
    ids: Seq<usize>,
)
    requires
        forall|i: int| 0 <= i < ids.len() ==> f(#[trigger] ids[i]) == g(ids[i]),
    ensures
        flat(f, ids) == flat(g, ids),
    decreases ids.len(),
{
    if ids.len() > 0 {
        assert forall|i: int| 0 <= i < ids.drop_last().len() implies f(
            #[trigger] ids.drop_last()[i],
        ) == g(ids.drop_last()[i]) by {
            assert(f(ids[i]) == g(ids[i]));
        }
        lemma_flat_same(f, g, ids.drop_last());
        assert(f(ids[ids.len() - 1]) == g(ids[ids.len() - 1]));
    }
}

/// The concatenation around the page at `j`.
pub proof fn lemma_flat_at<T>(f: spec_fn(usize) -> Seq<T>, ids: Seq<usize>, j: int)
    requires
        0 <= j < ids.len(),
    ensures
        flat(f, ids) == flat(f, ids.take(j)) + f(ids[j]) + flat(f, ids.skip(j + 1)),
        flat(f, ids.take(j + 1)) == flat(f, ids.take(j)) + f(ids[j]),
{
    lemma_flat_one(f, ids[j]);
    lemma_flat_concat(f, ids.take(j), seq![ids[j]]);
    lemma_flat_concat(f, ids.take(j) + seq![ids[j]], ids.skip(j + 1));
    assert(ids.take(j) + seq![ids[j]] =~= ids.take(j + 1));
    assert(ids.take(j) + seq![ids[j]] + ids.skip(j + 1) =~= ids);
}

/// The records of a page.
pub open spec fn items_in<K, V>(pages: Pages<K, V>) -> spec_fn(usize) -> Seq<(K, V)> {
    |id: usize| pages[id as int].items()
}

/// The children of a page with their lower fences.
pub open spec fn slots_in<K, V>(pages: Pages<K, V>) -> spec_fn(usize) -> Seq<(usize, Option<K>)> {
    |id: usize| pages[id as int].slots()
}

/// The pages of a level with their lower fences.
pub open spec fn lows<K, V>(pages: Pages<K, V>, ids: Seq<usize>) -> Seq<(usize, Option<K>)> {
    Seq::new(ids.len(), |q: int| (ids[q], pages[ids[q] as int].low))
}

/// What holds of the page at place `j` of the level `ids`: it is good by
/// itself, of the kind and the role of its level, filled to its minimum, and
/// its siblings and fences join it to its neighbours.
pub open spec fn page_ok<K: Ord, V>(
    pages: Pages<K, V>,
    ids: Seq<usize>,
    j: int,
    n: int,
    root: bool,
    leaf: bool,
) -> bool {
    let p = pages[ids[j] as int];
    &&& ids[j] < pages.len()
    &&& p.local(n)
    &&& p.body !is Redirect
    &&& p.body is Leaf <==> leaf
    &&& p.is_root == root
    &&& !root ==> p.occupancy() >= p.minimum(n)
    &&& p.previous == if j == 0 {
        None
    } else {
        Some(ids[j - 1])
    }
    &&& p.right == if j + 1 == ids.len() {
        None
    } else {
        Some(ids[j + 1])
    }
    &&& j == 0 <==> p.low is None
    &&& p.high == if j + 1 == ids.len() {
        None
    } else {
        pages[ids[j + 1] as int].low
    }
}

/// Every page of a level is good.
pub open spec fn level_ok<K: Ord, V>(
    pages: Pages<K, V>,
    ids: Seq<usize>,
    n: int,
    root: bool,
    leaf: bool,
) -> bool {
    forall|j: int| 0 <= j < ids.len() ==> #[trigger] page_ok(pages, ids, j, n, root, leaf)
}

/// The level at depth `d` is good: the first is the root, the last the leaves.
pub open spec fn depth_ok<K: Ord, V>(
    pages: Pages<K, V>,
    levels: Seq<Seq<usize>>,
    n: int,
    d: int,
) -> bool {
    level_ok(pages, levels[d], n, d == 0, d + 1 == levels.len())
}

/// The level below `d` consists of the children of the level `d`, with the
/// fences that these give them.
pub open spec fn linked<K, V>(pages: Pages<K, V>, levels: Seq<Seq<usize>>, d: int) -> bool {
    flat(slots_in(pages), levels[d]) == lows(pages, levels[d + 1])
}

/// No page has two places.
pub open spec fn distinct(levels: Seq<Seq<usize>>) -> bool {
    forall|d: int, j: int, e: int, k: int|
        #![trigger levels[d][j], levels[e][k]]
        0 <= d < levels.len() && 0 <= j < levels[d].len() && 0 <= e < levels.len() && 0 <= k
            < levels[e].len() && levels[d][j] == levels[e][k] ==> d == e && j == k
}

/// The invariant of a tree of pages of capacity `n`, but for the number of
/// children of its root.
pub open spec fn tree_ok<K: Ord, V>(pages: Pages<K, V>, levels: Seq<Seq<usize>>, n: int) -> bool {
    &&& levels.len() >= 1
    &&& levels[0].len() == 1
    &&& distinct(levels)
    &&& forall|d: int| 0 <= d < levels.len() ==> #[trigger] depth_ok(pages, levels, n, d)
    &&& forall|d: int| 0 <= d < levels.len() - 1 ==> #[trigger] linked(pages, levels, d)
}

/// The records of a tree in key order.
pub open spec fn contents<K, V>(pages: Pages<K, V>, levels: Seq<Seq<usize>>) -> Seq<(K, V)> {
    flat(items_in(pages), levels.last())
}

/// The number of children of the pages before place `j` of the level `d`.
pub open spec fn offset<K, V>(pages: Pages<K, V>, levels: Seq<Seq<usize>>, d: int, j: int) -> int {
    flat(slots_in(pages), levels[d].take(j)).len() as int
}

/// What `tree_ok` says of one page.
pub proof fn lemma_page<K: Ord, V>(
    pages: Pages<K, V>,
    levels: Seq<Seq<usize>>,
    n: int,
    d: int,
    j: int,
)
    requires
        tree_ok(pages, levels, n),
        0 <= d < levels.len(),
        0 <= j < levels[d].len(),
    ensures
        page_ok(pages, levels[d], j, n, d == 0, d + 1 == levels.len()),
{
    assert(depth_ok(pages, levels, n, d));
}

/// The place of a child, and the fences that its parent gives it.
pub proof fn lemma_child<K: Ord, V>(
    pages: Pages<K, V>,
    levels: Seq<Seq<usize>>,
    n: int,
    d: int,
    j: int,
    i: int,
)
    requires
        tree_ok(pages, levels, n),
        0 <= d < levels.len() - 1,
        0 <= j < levels[d].len(),
        0 <= i < pages[levels[d][j] as int].children().len(),
    ensures
        ({
            let p = pages[levels[d][j] as int];
            let q = offset(pages, levels, d, j) + i;
            let child = pages[p.children()[i] as int];
            &&& 0 <= q < levels[d + 1].len()
            &&& levels[d + 1][q] == p.children()[i]
            &&& page_ok(pages, levels[d + 1], q, n, false, d + 2 == levels.len())
            &&& child.low == p.child_low(i)
            &&& child.high == p.child_high(i)
        }),
{
    let f = slots_in(pages);
    let ids = levels[d];
    let next = levels[d + 1];
    let p = pages[ids[j] as int];
    let q = offset(pages, levels, d, j) + i;
    assert(linked(pages, levels, d));
    lemma_page(pages, levels, n, d, j);
    lemma_flat_at(f, ids, j);
    let s = flat(f, ids);
    assert(f(ids[j]) == p.slots());
    assert(s.len() == next.len());
    assert(s[q] == p.slots()[i]);
    assert(s[q] == lows(pages, next)[q]);
    lemma_page(pages, levels, n, d + 1, q);
    if i + 1 < p.children().len() {
        assert(s[q + 1] == p.slots()[i + 1]);
        assert(s[q + 1] == lows(pages, next)[q + 1]);
    } else if j + 1 < ids.len() {
        let r = pages[ids[j + 1] as int];
        lemma_page(pages, levels, n, d, j + 1);
        lemma_flat_at(f, ids, j + 1);
        assert(f(ids[j + 1]) == r.slots());
        assert(s[q + 1] == r.slots()[0]);
        assert(s[q + 1] == lows(pages, next)[q + 1]);
    } else {
        assert(ids.skip(j + 1) =~= Seq::empty());
        assert(q + 1 == next.len());
    }
}

/// The child that a search selects owns what its parent owns.
pub proof fn lemma_child_owns<K, V>(p: Page<K, V, usize>, i: int, c: spec_fn(K) -> Side)
    requires
        p.body is Internal,
        p.owns(c),
        0 <= i <= p.keys().len(),
        forall|k: int| 0 <= k < i ==> c(#[trigger] p.keys()[k]) != Side::Before,
        forall|k: int| i <= k < p.keys().len() ==> c(#[trigger] p.keys()[k]) == Side::Before,
    ensures
        p.child_low(i) matches Some(l) ==> c(l) != Side::Before,
        p.child_high(i) matches Some(h) ==> c(h) == Side::Before,
{
}

/// The records of the leaves before a leaf lie below its interval.
pub proof fn lemma_before<K: Ord, V>(
    pages: Pages<K, V>,
    ids: Seq<usize>,
    n: int,
    root: bool,
    j: int,
)
    requires
        lawful::<K>(),
        n >= 2,
        level_ok(pages, ids, n, root, true),
        root ==> ids.len() == 1,
        0 < j < ids.len(),
    ensures
        pages[ids[j] as int].low is Some,
        forall|i: int|
            0 <= i < flat(items_in(pages), ids.take(j)).len() ==> lt(
                (#[trigger] flat(items_in(pages), ids.take(j))[i]).0,
                pages[ids[j] as int].low->0,
            ),
    decreases j,
{
    let f = items_in(pages);
    let p = pages[ids[j - 1] as int];
    let q = pages[ids[j] as int];
    assert(page_ok(pages, ids, j - 1, n, root, true));
    assert(page_ok(pages, ids, j, n, root, true));
    lemma_flat_at(f, ids, j - 1);
    let s = flat(f, ids.take(j));
    let t = flat(f, ids.take(j - 1));
    assert(s == t + p.items());
    if j > 1 {
        lemma_before(pages, ids, n, root, j - 1);
    } else {
        assert(ids.take(0) =~= Seq::empty());
    }
    lemma_order::<K>();
    assert(within(p.items()[0].0, p.low, p.high));
    assert forall|i: int| 0 <= i < s.len() implies lt((#[trigger] s[i]).0, q.low->0) by {
        if i < t.len() {
            assert(s[i] == t[i]);
            assert(lt(t[i].0, p.low->0));
        } else {
            assert(s[i] == p.items()[i - t.len()]);
            assert(within(p.items()[i - t.len()].0, p.low, p.high));
        }
    }
}

/// The records of the leaves behind a leaf lie above its interval.
pub proof fn lemma_behind<K: Ord, V>(
    pages: Pages<K, V>,
    ids: Seq<usize>,
    n: int,
    root: bool,
    j: int,
)
    requires
        lawful::<K>(),
        n >= 2,
        level_ok(pages, ids, n, root, true),
        root ==> ids.len() == 1,
        0 <= j < ids.len() - 1,
    ensures
        pages[ids[j] as int].high is Some,
        forall|i: int|
            0 <= i < flat(items_in(pages), ids.skip(j + 1)).len() ==> !lt(
                (#[trigger] flat(items_in(pages), ids.skip(j + 1))[i]).0,
                pages[ids[j] as int].high->0,
            ),
    decreases ids.len() - j,
{
    let f = items_in(pages);
    let p = pages[ids[j] as int];
    let q = pages[ids[j + 1] as int];
    assert(page_ok(pages, ids, j, n, root, true));
    assert(page_ok(pages, ids, j + 1, n, root, true));
    let s = flat(f, ids.skip(j + 1));
    let t = flat(f, ids.skip(j + 2));
    assert(ids.skip(j + 1) =~= seq![ids[j + 1]] + ids.skip(j + 2));
    lemma_flat_concat(f, seq![ids[j + 1]], ids.skip(j + 2));
    lemma_flat_one(f, ids[j + 1]);
    assert(s == q.items() + t);
    if j + 2 < ids.len() {
        lemma_behind(pages, ids, n, root, j + 1);
    } else {
        assert(ids.skip(j + 2) =~= Seq::empty());
    }
    lemma_order::<K>();
    assert(within(q.items()[0].0, q.low, q.high));
    assert forall|i: int| 0 <= i < s.len() implies !lt((#[trigger] s[i]).0, p.high->0) by {
        if i < q.items().len() {
            assert(s[i] == q.items()[i]);
            assert(within(q.items()[i].0, q.low, q.high));
        } else {
            assert(s[i] == t[i - q.items().len()]);
            assert(!lt(t[i - q.items().len()].0, q.high->0));
            assert(lt(q.low->0, q.high->0));
        }
    }
}

/// The records of a level of leaves, and of every prefix of it, are sorted.
pub proof fn lemma_leaves_sorted<K: Ord, V>(
    pages: Pages<K, V>,
    ids: Seq<usize>,
    n: int,
    root: bool,
    j: int,
)
    requires
        lawful::<K>(),
        n >= 2,
        level_ok(pages, ids, n, root, true),
        root ==> ids.len() == 1,
        0 <= j <= ids.len(),
    ensures
        sorted(flat(items_in(pages), ids.take(j))),
    decreases j,
{
    let f = items_in(pages);
    if j == 0 {
        assert(ids.take(0) =~= Seq::empty());
    } else {
        let p = pages[ids[j - 1] as int];
        lemma_leaves_sorted(pages, ids, n, root, j - 1);
        assert(page_ok(pages, ids, j - 1, n, root, true));
        lemma_flat_at(f, ids, j - 1);
        let s = flat(f, ids.take(j));
        let t = flat(f, ids.take(j - 1));
        assert(s == t + p.items());
        if j > 1 {
            lemma_before(pages, ids, n, root, j - 1);
        } else {
            assert(ids.take(0) =~= Seq::empty());
        }
        lemma_order::<K>();
        assert forall|a: int, b: int| 0 <= a < b < s.len() implies lt(
            (#[trigger] s[a]).0,
            (#[trigger] s[b]).0,
        ) by {
            if b < t.len() {
                assert(s[a] == t[a] && s[b] == t[b]);
            } else if a >= t.len() {
                assert(s[a] == p.items()[a - t.len()] && s[b] == p.items()[b - t.len()]);
            } else {
                assert(s[a] == t[a] && s[b] == p.items()[b - t.len()]);
                assert(lt(t[a].0, p.low->0));
                assert(within(p.items()[b - t.len()].0, p.low, p.high));
            }
        }
    }
}

/// The records of a tree are sorted.
pub proof fn lemma_contents_sorted<K: Ord, V>(pages: Pages<K, V>, levels: Seq<Seq<usize>>, n: int)
    requires
        lawful::<K>(),
        n >= 2,
        tree_ok(pages, levels, n),
    ensures
        sorted(contents(pages, levels)),
{
    let d = levels.len() - 1;
    assert(depth_ok(pages, levels, n, d));
    lemma_leaves_sorted(pages, levels[d], n, d == 0, levels[d].len() as int);
    assert(levels[d].take(levels[d].len() as int) =~= levels[d]);
}

/// A position lies after the records of the leaves before the leaf that owns
/// it and before those of the leaves behind it.
pub proof fn lemma_leaf_owns<K: Ord, V>(
    pages: Pages<K, V>,
    levels: Seq<Seq<usize>>,
    n: int,
    j: int,
    c: spec_fn(K) -> Side,
)
    requires
        lawful::<K>(),
        n >= 2,
        tree_ok(pages, levels, n),
        0 <= j < levels.last().len(),
        consistent(c),
        pages[levels.last()[j] as int].owns(c),
    ensures
        ({
            let a = flat(items_in(pages), levels.last().take(j));
            let b = flat(items_in(pages), levels.last().skip(j + 1));
            &&& contents(pages, levels) == a + pages[levels.last()[j] as int].items() + b
            &&& forall|i: int| 0 <= i < a.len() ==> c((#[trigger] a[i]).0) == Side::After
            &&& forall|i: int| 0 <= i < b.len() ==> c((#[trigger] b[i]).0) == Side::Before
        }),
{
    let f = items_in(pages);
    let d = levels.len() - 1;
    let ids = levels.last();
    let p = pages[ids[j] as int];
    assert(depth_ok(pages, levels, n, d));
    lemma_flat_at(f, ids, j);
    let a = flat(f, ids.take(j));
    let b = flat(f, ids.skip(j + 1));
    if j > 0 {
        lemma_before(pages, ids, n, d == 0, j);
        assert forall|i: int| 0 <= i < a.len() implies c((#[trigger] a[i]).0) == Side::After by {
            assert(lt(a[i].0, p.low->0));
            assert(c(p.low->0) != Side::Before);
        }
    } else {
        assert(ids.take(0) =~= Seq::empty());
    }
    if j + 1 < ids.len() {
        lemma_behind(pages, ids, n, d == 0, j);
        assert forall|i: int| 0 <= i < b.len() implies c((#[trigger] b[i]).0) == Side::Before by {
            assert(!lt(b[i].0, p.high->0));
            assert(c(p.high->0) == Side::Before);
        }
    } else {
        assert(ids.skip(j + 1) =~= Seq::empty());
    }
}

/// The pages of the places of `levels` other than `place`.
pub open spec fn same_elsewhere<K, V>(
    pages: Pages<K, V>,
    after: Pages<K, V>,
    levels: Seq<Seq<usize>>,
    id: usize,
) -> bool {
    forall|d: int, j: int|
        #![trigger levels[d][j]]
        0 <= d < levels.len() && 0 <= j < levels[d].len() && levels[d][j] != id
            ==> after[levels[d][j] as int] == pages[levels[d][j] as int]
}

/// Changing the records of one leaf, which stays good by itself and filled to
/// its minimum, keeps a tree good.
pub proof fn lemma_leaf_change<K: Ord, V>(
    pages: Pages<K, V>,
    after: Pages<K, V>,
    levels: Seq<Seq<usize>>,
    n: int,
    j: int,
    items: Seq<(K, V)>,
)
    requires
        tree_ok(pages, levels, n),
        0 <= j < levels.last().len(),
        after.len() >= pages.len(),
        ({
            let id = levels.last()[j];
            let p = pages[id as int];
            &&& after[id as int] == p.with_items(items)
            &&& p.with_items(items).local(n)
            &&& p.is_root || items.len() >= n / 2
            &&& same_elsewhere(pages, after, levels, id)
        }),
    ensures
        tree_ok(after, levels, n),
        contents(after, levels) == flat(items_in(pages), levels.last().take(j)) + items + flat(
            items_in(pages),
            levels.last().skip(j + 1),
        ),
{
    let last = levels.len() - 1;
    let ids = levels.last();
    let id = ids[j];
    lemma_page(pages, levels, n, last, j);
    assert forall|d: int, k: int|
        #![trigger levels[d][k]]
        0 <= d < levels.len() && 0 <= k < levels[d].len() implies {
        let p = pages[levels[d][k] as int];
        let q = after[levels[d][k] as int];
        &&& q.low == p.low
        &&& q.high == p.high
        &&& q.previous == p.previous
        &&& q.right == p.right
        &&& q.is_root == p.is_root
        &&& q.slots() == p.slots()
    } by {
        if levels[d][k] == id {
            assert(levels[last][j] == id);
            assert(after[id as int].slots() =~= pages[id as int].slots());
        }
    }
    assert forall|d: int| 0 <= d < levels.len() implies #[trigger] depth_ok(
        after,
        levels,
        n,
        d,
    ) by {
        let root = d == 0;
        let leaf = d + 1 == levels.len();
        assert forall|k: int| 0 <= k < levels[d].len() implies #[trigger] page_ok(
            after,
            levels[d],
            k,
            n,
            root,
            leaf,
        ) by {
            lemma_page(pages, levels, n, d, k);
            if k + 1 < levels[d].len() {
                assert(after[levels[d][k + 1] as int].low == pages[levels[d][k + 1] as int].low);
            }
            if levels[d][k] == id {
                assert(levels[last][j] == id);
            } else {
                assert(after[levels[d][k] as int] == pages[levels[d][k] as int]);
            }
        }
    }
    assert forall|d: int| 0 <= d < levels.len() - 1 implies #[trigger] linked(
        after,
        levels,
        d,
    ) by {
        assert(linked(pages, levels, d));
        lemma_flat_same(slots_in(pages), slots_in(after), levels[d]);
        assert(lows(after, levels[d + 1]) =~= lows(pages, levels[d + 1]));
    }
    lemma_flat_at(items_in(after), ids, j);
    assert forall|k: int| 0 <= k < ids.take(j).len() implies items_in(pages)(
        #[trigger] ids.take(j)[k],
    ) == items_in(after)(ids.take(j)[k]) by {
        assert(ids.take(j)[k] == levels[last][k]);
        assert(levels[last][k] != levels[last][j]);
    }
    lemma_flat_same(items_in(pages), items_in(after), ids.take(j));
    assert forall|k: int| 0 <= k < ids.skip(j + 1).len() implies items_in(pages)(
        #[trigger] ids.skip(j + 1)[k],
    ) == items_in(after)(ids.skip(j + 1)[k]) by {
        assert(ids.skip(j + 1)[k] == levels[last][k + j + 1]);
        assert(levels[last][k + j + 1] != levels[last][j]);
    }
    lemma_flat_same(items_in(pages), items_in(after), ids.skip(j + 1));
}

/// A level in which `fresh` has taken the place of the `m` pages from `q` on.
pub open spec fn spliced(level: Seq<usize>, q: int, m: int, fresh: Seq<usize>) -> Seq<usize> {
    level.take(q) + fresh + level.skip(q + m)
}

/// Whether two pages differ at most in their siblings.
pub open spec fn same_payload<K, V>(p: Page<K, V, usize>, q: Page<K, V, usize>) -> bool {
    q == Page { previous: q.previous, right: q.right, ..p }
}

/// Whether two pages differ at most in their bodies.
pub open spec fn same_frame<K, V>(p: Page<K, V, usize>, q: Page<K, V, usize>) -> bool {
    q == Page { body: q.body, ..p }
}

/// An edit of a tree below its root: the `m` children from `i` on of the page
/// at place `j` of the level `d - 1` are replaced by the pages `fresh`, which
/// hold the same records and children in the same order, and everything else
/// stays as it was but for the siblings along the level `d`.
pub open spec fn edited<K: Ord, V>(
    pages: Pages<K, V>,
    after: Pages<K, V>,
    levels: Seq<Seq<usize>>,
    n: int,
    d: int,
    j: int,
    i: int,
    m: int,
    fresh: Seq<usize>,
) -> bool {
    let level = levels[d];
    let q = offset(pages, levels, d - 1, j) + i;
    let above = levels[d - 1][j];
    let p = pages[above as int];
    &&& after.len() >= pages.len()
    &&& 0 <= i && 0 <= m && i + m <= p.children().len()
    &&& fresh.no_duplicates()
    &&& forall|a: int, e: int, k: int|
        #![trigger fresh[a], levels[e][k]]
        0 <= a < fresh.len() && 0 <= e < levels.len() && 0 <= k < levels[e].len() && fresh[a]
            == levels[e][k] ==> e == d && q <= k < q + m
    &&& forall|e: int, k: int|
        #![trigger levels[e][k]]
        0 <= e < levels.len() && 0 <= k < levels[e].len() && e != d && levels[e][k] != above
            ==> after[levels[e][k] as int] == pages[levels[e][k] as int]
    &&& forall|k: int|
        0 <= k < level.len() && !(q <= k < q + m) ==> same_payload(
            pages[#[trigger] level[k] as int],
            after[level[k] as int],
        )
    &&& level_ok(after, spliced(level, q, m, fresh), n, false, d + 1 == levels.len())
    &&& same_frame(p, after[above as int])
    &&& after[above as int].body is Internal
    &&& after[above as int].local(n)
    &&& d > 1 ==> after[above as int].occupancy() >= (n - 1) / 2
    &&& after[above as int].slots() == p.slots().take(i) + lows(after, fresh) + p.slots().skip(i + m)
    &&& flat(slots_in(after), fresh) == flat(slots_in(pages), level.subrange(q, q + m))
    &&& flat(items_in(after), fresh) == flat(items_in(pages), level.subrange(q, q + m))
}

/// An edit keeps a tree good, and its records as they are.
#[verifier::rlimit(40)]
pub proof fn lemma_edit<K: Ord, V>(
    pages: Pages<K, V>,
    after: Pages<K, V>,
    levels: Seq<Seq<usize>>,
    n: int,
    d: int,
    j: int,
    i: int,
    m: int,
    fresh: Seq<usize>,
)
    requires
        tree_ok(pages, levels, n),
        1 <= d < levels.len(),
        0 <= j < levels[d - 1].len(),
        edited(pages, after, levels, n, d, j, i, m, fresh),
    ensures
        ({
            let q = offset(pages, levels, d - 1, j) + i;
            let next = levels.update(d, spliced(levels[d], q, m, fresh));
            &&& tree_ok(after, next, n)
            &&& contents(after, next) == contents(pages, levels)
        }),
{
    let level = levels[d];
    let up = levels[d - 1];
    let above = up[j];
    let p = pages[above as int];
    let x = offset(pages, levels, d - 1, j);
    let q = x + i;
    let new = spliced(level, q, m, fresh);
    let next = levels.update(d, new);
    lemma_page(pages, levels, n, d - 1, j);
    // The replaced children lie in one piece of their level.
    assert(linked(pages, levels, d - 1));
    lemma_flat_at(slots_in(pages), up, j);
    assert(slots_in(pages)(above) == p.slots());
    assert(q + m <= level.len()) by {
        assert(flat(slots_in(pages), up).len() == level.len());
    }
    assert(distinct(next)) by {
        assert forall|e: int, k: int, e2: int, k2: int|
            #![trigger next[e][k], next[e2][k2]]
            0 <= e < next.len() && 0 <= k < next[e].len() && 0 <= e2 < next.len() && 0 <= k2
                < next[e2].len() && next[e][k] == next[e2][k2] implies e == e2 && k == k2 by {
            let f = fresh.len() as int;
            let o = if e != d || k < q { k } else { k - f + m };
            let o2 = if e2 != d || k2 < q { k2 } else { k2 - f + m };
            let is_fresh = e == d && q <= k < q + f;
            let is_fresh2 = e2 == d && q <= k2 < q + f;
            if !is_fresh {
                assert(next[e][k] == levels[e][o]);
            } else {
                assert(next[e][k] == fresh[k - q]);
            }
            if !is_fresh2 {
                assert(next[e2][k2] == levels[e2][o2]);
            } else {
                assert(next[e2][k2] == fresh[k2 - q]);
            }
        }
    }
    assert forall|e: int| 0 <= e < next.len() implies #[trigger] depth_ok(after, next, n, e) by {
        assert(depth_ok(pages, levels, n, e));
        if e != d {
            let root = e == 0;
            let leaf = e + 1 == levels.len();
            assert forall|k: int| 0 <= k < levels[e].len() implies #[trigger] page_ok(
                after,
                levels[e],
                k,
                n,
                root,
                leaf,
            ) by {
                assert(page_ok(pages, levels[e], k, n, root, leaf));
                assert(levels[e][k] == above ==> e == d - 1 && k == j) by {
                    assert(levels[d - 1][j] == above);
                }
                if k + 1 < levels[e].len() {
                    assert(after[levels[e][k + 1] as int].low == pages[levels[e][k
                        + 1] as int].low);
                }
            }
        }
    }
    assert forall|k: int| 0 <= k < level.len() && !(q <= k < q + m) implies ({
        &&& after[#[trigger] level[k] as int].low == pages[level[k] as int].low
        &&& after[level[k] as int].slots() == pages[level[k] as int].slots()
        &&& after[level[k] as int].items() == pages[level[k] as int].items()
    }) by {
        assert(same_payload(pages[level[k] as int], after[level[k] as int]));
        assert(after[level[k] as int].slots() =~= pages[level[k] as int].slots());
    }
    let head = level.take(q);
    let tail = level.skip(q + m);
    let middle = level.subrange(q, q + m);
    assert(level =~= head + middle + tail);
    assert forall|e: int| 0 <= e < next.len() - 1 implies #[trigger] linked(after, next, e) by {
        assert(linked(pages, levels, e));
        if e == d - 1 {
            let f = slots_in(pages);
            let g = slots_in(after);
            lemma_flat_at(g, up, j);
            assert forall|k: int| 0 <= k < up.take(j).len() implies f(#[trigger] up.take(j)[k])
                == g(up.take(j)[k]) by {
                assert(up.take(j)[k] == levels[d - 1][k]);
                assert(levels[d - 1][k] != levels[d - 1][j]);
            }
            lemma_flat_same(f, g, up.take(j));
            assert forall|k: int| 0 <= k < up.skip(j + 1).len() implies f(
                #[trigger] up.skip(j + 1)[k],
            ) == g(up.skip(j + 1)[k]) by {
                assert(up.skip(j + 1)[k] == levels[d - 1][k + j + 1]);
                assert(levels[d - 1][k + j + 1] != levels[d - 1][j]);
            }
            lemma_flat_same(f, g, up.skip(j + 1));
            let s = flat(f, up);
            assert(s == lows(pages, level));
            assert(g(above) == after[above as int].slots());
            assert(flat(g, up) =~= s.take(q) + lows(after, fresh) + s.skip(q + m));
            assert(lows(after, new) =~= s.take(q) + lows(after, fresh) + s.skip(q + m)) by {
                assert forall|k: int| 0 <= k < new.len() implies lows(after, new)[k] == (s.take(q)
                    + lows(after, fresh) + s.skip(q + m))[k] by {
                    if k < q {
                        assert(new[k] == level[k]);
                        assert(s[k] == lows(pages, level)[k]);
                    } else if k >= q + fresh.len() {
                        let o = k - fresh.len() + m;
                        assert(new[k] == level[o]);
                        assert(s[o] == lows(pages, level)[o]);
                    } else {
                        assert(new[k] == fresh[k - q]);
                    }
                }
            }
        } else if e == d {
            lemma_flat_pieces(slots_in(pages), slots_in(after), head, middle, fresh, tail, level);
            assert(lows(after, levels[d + 1]) =~= lows(pages, levels[d + 1])) by {
                assert forall|k: int| 0 <= k < levels[d + 1].len() implies after[
                    #[trigger] levels[d + 1][k] as int].low == pages[levels[d
                    + 1][k] as int].low by {
                    assert(levels[d + 1][k] != levels[d - 1][j]);
                }
            }
        } else {
            assert forall|k: int| 0 <= k < levels[e].len() implies slots_in(pages)(
                #[trigger] levels[e][k],
            ) == slots_in(after)(levels[e][k]) by {
                assert(levels[e][k] != levels[d - 1][j]);
            }
            lemma_flat_same(slots_in(pages), slots_in(after), levels[e]);
            assert(next[e + 1] == levels[e + 1]);
            assert(lows(after, levels[e + 1]) =~= lows(pages, levels[e + 1])) by {
                assert forall|k: int| 0 <= k < levels[e + 1].len() implies after[
                    #[trigger] levels[e + 1][k] as int].low == pages[levels[e
                    + 1][k] as int].low by {
                }
            }
        }
    }
    if d == levels.len() - 1 {
        lemma_flat_pieces(items_in(pages), items_in(after), head, middle, fresh, tail, level);
    } else {
        let ids = levels.last();
        let last = levels.len() - 1;
        assert forall|k: int| 0 <= k < ids.len() implies items_in(pages)(#[trigger] ids[k])
            == items_in(after)(ids[k]) by {
            assert(levels[last][k] != levels[d - 1][j]);
        }
        lemma_flat_same(items_in(pages), items_in(after), ids);
    }
}

/// Replacing a piece of a level by pages with the same content.
proof fn lemma_flat_pieces<T>(
    f: spec_fn(usize) -> Seq<T>,
    g: spec_fn(usize) -> Seq<T>,
    head: Seq<usize>,
    middle: Seq<usize>,
    fresh: Seq<usize>,
    tail: Seq<usize>,
    level: Seq<usize>,
)
    requires
        level == head + middle + tail,
        forall|k: int|
            0 <= k < level.len() && !(head.len() <= k < head.len() + middle.len()) ==> g(
                #[trigger] level[k],
            ) == f(level[k]),
        flat(g, fresh) == flat(f, middle),
    ensures
        flat(g, head + fresh + tail) == flat(f, level),
{
    lemma_flat_concat(f, head, middle);
    lemma_flat_concat(f, head + middle, tail);
    lemma_flat_concat(g, head, fresh);
    lemma_flat_concat(g, head + fresh, tail);
    assert forall|k: int| 0 <= k < head.len() implies f(#[trigger] head[k]) == g(head[k]) by {
        assert(head[k] == level[k]);
    }
    lemma_flat_same(f, g, head);
    assert forall|k: int| 0 <= k < tail.len() implies f(#[trigger] tail[k]) == g(tail[k]) by {
        assert(tail[k] == level[head.len() + middle.len() + k]);
    }
    lemma_flat_same(f, g, tail);
}

} // verus!
