//! Why a traversal that a structural change overtakes still arrives, and what
//! the structural changes of pages do to each other.
//!
//! A traversal holds on to one page at a time. Between two of its steps the
//! page may be split, may lend to or borrow from a sibling, or may be merged
//! away. What is stated here of single pages holds at every step, and so does
//! not depend on how steps of different traversals interleave.

use vstd::prelude::*;

use crate::order::{consistent, lawful, lemma_order, lt, Side};
use crate::page::{
    adjacent, between, lemma_borrow_left, lemma_borrow_right, lemma_merge, lemma_split, within, Body,
    Page, Route,
};
use crate::records::{lemma_around, lookup};
use crate::shape::{lemma_page, tree_ok, Pages};

verus! {

/// A key that a page owned is owned by one of its halves, and a traversal that
/// arrives at the left half goes where it has to: to the left half itself, on
/// to the right half, or wherever the page would have sent it.
pub proof fn law_split_routes<K: Ord, V, R>(
    p: Page<K, V, R>,
    n: int,
    this: R,
    link: R,
    c: spec_fn(K) -> Side,
)
    requires
        lawful::<K>(),
        3 <= n,
        p.local(n),
        p.body !is Redirect,
        p.occupancy() == n,
        consistent(c),
    ensures
        ({
            let left = p.left_half(n, link);
            let right = p.right_half(n, this);
            &&& p.route(c) is Restart <==> left.route(c) is Restart
            &&& p.owns(c) && c(p.split_key(n)) == Side::Before ==> left.owns(c) && left.route(c)
                is Here
            &&& p.owns(c) && c(p.split_key(n)) != Side::Before ==> left.route(c) == Route::Right(
                link,
            ) && right.owns(c) && right.route(c) is Here
            &&& p.route(c) is Right ==> left.route(c) == Route::Right(link) && right.route(c)
                == p.route(c)
        }),
{
    lemma_split(p, n, link, this);
    lemma_order::<K>();
    let key = p.split_key(n);
    assert(between(key, p.low, p.high));
}

/// A traversal that holds a page which was merged away is sent to the
/// survivor, which owns every key that one of the two owned.
pub proof fn law_merge_routes<K: Ord, V, R>(
    left: Page<K, V, R>,
    separator: K,
    right: Page<K, V, R>,
    n: int,
    link: R,
    c: spec_fn(K) -> Side,
)
    requires
        lawful::<K>(),
        left.local(n),
        right.local(n),
        adjacent(left, separator, right),
        left.low matches Some(l) ==> lt(l, separator),
        right.high matches Some(h) ==> lt(separator, h),
        consistent(c),
    ensures
        left.retired_to(link).route(c) == Route::<R>::Right(link),
        left.owns(c) || right.owns(c) ==> right.merged_with(left, separator).owns(c)
            && right.merged_with(left, separator).route(c) is Here,
{
}

/// When the boundary between two siblings moves to the left, a key that the
/// left page owned is still owned by it, or by the right page to which it
/// leads; what the right page owned stays with it.
pub proof fn law_lend_right_routes<K: Ord, V, R>(
    left: Page<K, V, R>,
    separator: K,
    right: Page<K, V, R>,
    n: int,
    link: R,
    c: spec_fn(K) -> Side,
)
    requires
        lawful::<K>(),
        left.local(n),
        right.local(n),
        adjacent(left, separator, right),
        left.right == Some(link),
        left.occupancy() >= 2,
        1 <= right.occupancy() < n,
        right.high matches Some(h) ==> lt(separator, h),
        consistent(c),
    ensures
        ({
            let l = left.without_last();
            let r = right.with_last_of(left, separator);
            &&& left.owns(c) ==> l.owns(c) && l.route(c) is Here || l.route(c) == Route::Right(
                link,
            ) && r.owns(c) && r.route(c) is Here
            &&& right.owns(c) ==> r.owns(c) && r.route(c) is Here
        }),
{
    lemma_borrow_left(left, separator, right, n);
    lemma_order::<K>();
}

/// When the boundary between two siblings moves to the right, a key that the
/// right page owned is still owned by it, or a traversal that holds the right
/// page starts again and the left page owns it; what the left page owned stays
/// with it.
pub proof fn law_lend_left_routes<K: Ord, V, R>(
    left: Page<K, V, R>,
    separator: K,
    right: Page<K, V, R>,
    n: int,
    c: spec_fn(K) -> Side,
)
    requires
        lawful::<K>(),
        left.local(n),
        right.local(n),
        adjacent(left, separator, right),
        1 <= left.occupancy() < n,
        right.occupancy() >= 2,
        left.low matches Some(l) ==> lt(l, separator),
        consistent(c),
    ensures
        ({
            let l = left.with_first_of(right, separator);
            let r = right.without_first();
            &&& left.owns(c) ==> l.owns(c) && l.route(c) is Here
            &&& right.owns(c) ==> r.owns(c) && r.route(c) is Here || r.route(c) is Restart
                && l.owns(c) && l.route(c) is Here
        }),
{
    lemma_borrow_right(left, separator, right, n);
    lemma_order::<K>();
}

/// Keys that a leaf does not own lie on one side of those it owns.
proof fn lemma_beside<K: Ord, V, R>(p: Page<K, V, R>, n: int, c: spec_fn(K) -> Side)
    requires
        lawful::<K>(),
        p.local(n),
        p.body is Leaf,
        consistent(c),
    ensures
        p.low matches Some(l) ==> (c(l) == Side::Before ==> forall|i: int|
            0 <= i < p.items().len() ==> c((#[trigger] p.items()[i]).0) == Side::Before),
        p.high matches Some(h) ==> (c(h) != Side::Before ==> forall|i: int|
            0 <= i < p.items().len() ==> c((#[trigger] p.items()[i]).0) == Side::After),
{
    lemma_order::<K>();
    assert forall|i: int| 0 <= i < p.items().len() implies within(
        (#[trigger] p.items()[i]).0,
        p.low,
        p.high,
    ) by {}
    if let Some(l) = p.low {
        if c(l) == Side::Before {
            assert forall|i: int| 0 <= i < p.items().len() implies c((#[trigger] p.items()[i]).0)
                == Side::Before by {
                let k = p.items()[i].0;
                assert(!lt(k, l));
                assert(lt(l, k) || !lt(l, k) && !lt(k, l));
            }
        }
    }
}

/// A record of two neighbouring leaves is found in the one that owns its key.
proof fn lemma_found<K: Ord, V, R>(
    left: Page<K, V, R>,
    separator: K,
    right: Page<K, V, R>,
    n: int,
    c: spec_fn(K) -> Side,
)
    requires
        lawful::<K>(),
        left.local(n),
        right.local(n),
        left.body is Leaf,
        adjacent(left, separator, right),
        consistent(c),
    ensures
        lookup(left.items() + right.items(), c) == (if c(separator) == Side::Before {
            lookup(left.items(), c)
        } else {
            lookup(right.items(), c)
        }),
{
    let a = left.items();
    let b = right.items();
    lemma_beside(left, n, c);
    lemma_beside(right, n, c);
    if c(separator) == Side::Before {
        lemma_around(Seq::empty(), a, b, c);
        assert(Seq::empty() + a + b =~= a + b);
    } else {
        lemma_around(a, b, Seq::empty(), c);
        assert(a + b + Seq::empty() =~= a + b);
    }
}

/// No key appears or disappears when a leaf is split: the half that owns it
/// has what the leaf had.
pub proof fn law_split_keeps_records<K: Ord, V, R>(
    p: Page<K, V, R>,
    n: int,
    this: R,
    link: R,
    c: spec_fn(K) -> Side,
)
    requires
        lawful::<K>(),
        3 <= n,
        p.local(n),
        p.body is Leaf,
        p.occupancy() == n,
        consistent(c),
    ensures
        lookup(p.items(), c) == (if c(p.split_key(n)) == Side::Before {
            lookup(p.left_half(n, link).items(), c)
        } else {
            lookup(p.right_half(n, this).items(), c)
        }),
{
    lemma_split(p, n, link, this);
    lemma_found(p.left_half(n, link), p.split_key(n), p.right_half(n, this), n, c);
}

/// No key appears or disappears when two leaves are merged: the survivor has
/// what the leaf that owned the key had.
pub proof fn law_merge_keeps_records<K: Ord, V, R>(
    left: Page<K, V, R>,
    separator: K,
    right: Page<K, V, R>,
    n: int,
    c: spec_fn(K) -> Side,
)
    requires
        lawful::<K>(),
        left.local(n),
        right.local(n),
        left.body is Leaf,
        adjacent(left, separator, right),
        1 <= left.occupancy(),
        1 <= right.occupancy(),
        left.occupancy() + right.occupancy() <= n,
        consistent(c),
    ensures
        lookup(right.merged_with(left, separator).items(), c) == (if c(separator)
            == Side::Before {
            lookup(left.items(), c)
        } else {
            lookup(right.items(), c)
        }),
{
    lemma_merge(left, separator, right, n);
    lemma_found(left, separator, right, n, c);
}

/// No key appears or disappears when a leaf lends a record to its right
/// sibling: the leaf that owns a key has what its owner before had.
pub proof fn law_lend_right_keeps_records<K: Ord, V, R>(
    left: Page<K, V, R>,
    separator: K,
    right: Page<K, V, R>,
    n: int,
    c: spec_fn(K) -> Side,
)
    requires
        lawful::<K>(),
        left.local(n),
        right.local(n),
        left.body is Leaf,
        adjacent(left, separator, right),
        left.occupancy() >= 2,
        1 <= right.occupancy() < n,
        consistent(c),
    ensures
        ({
            let before = if c(separator) == Side::Before {
                lookup(left.items(), c)
            } else {
                lookup(right.items(), c)
            };
            let after = if c(left.last_boundary()) == Side::Before {
                lookup(left.without_last().items(), c)
            } else {
                lookup(right.with_last_of(left, separator).items(), c)
            };
            before == after
        }),
{
    lemma_borrow_left(left, separator, right, n);
    lemma_found(left, separator, right, n, c);
    lemma_found(
        left.without_last(),
        left.last_boundary(),
        right.with_last_of(left, separator),
        n,
        c,
    );
}

/// No key appears or disappears when a leaf lends a record to its left
/// sibling: the leaf that owns a key has what its owner before had.
pub proof fn law_lend_left_keeps_records<K: Ord, V, R>(
    left: Page<K, V, R>,
    separator: K,
    right: Page<K, V, R>,
    n: int,
    c: spec_fn(K) -> Side,
)
    requires
        lawful::<K>(),
        left.local(n),
        right.local(n),
        left.body is Leaf,
        adjacent(left, separator, right),
        1 <= left.occupancy() < n,
        right.occupancy() >= 2,
        consistent(c),
    ensures
        ({
            let before = if c(separator) == Side::Before {
                lookup(left.items(), c)
            } else {
                lookup(right.items(), c)
            };
            let after = if c(right.first_boundary()) == Side::Before {
                lookup(left.with_first_of(right, separator).items(), c)
            } else {
                lookup(right.without_first().items(), c)
            };
            before == after
        }),
{
    lemma_borrow_right(left, separator, right, n);
    lemma_found(left, separator, right, n, c);
    lemma_found(
        left.with_first_of(right, separator),
        right.first_boundary(),
        right.without_first(),
        n,
        c,
    );
}

/// A traversal that holds a root which was replaced by its only child is sent
/// to that child, which owns every key.
pub proof fn law_root_collapse_routes<K: Ord, V, R>(
    old_root: Page<K, V, R>,
    new_root: Page<K, V, R>,
    heir: R,
    c: spec_fn(K) -> Side,
)
    requires
        old_root.body == Body::<K, V, R>::Redirect(heir),
        new_root.body !is Redirect,
        new_root.low is None,
        new_root.high is None,
    ensures
        old_root.route(c) == Route::<R>::Right(heir),
        new_root.owns(c),
        new_root.route(c) is Here,
{
}

/// A traversal at any page of a level that does not lie behind a key reaches
/// the page that owns the key by moving right.
pub proof fn law_moving_right_arrives<K: Ord, V>(
    pages: Pages<K, V>,
    levels: Seq<Seq<usize>>,
    n: int,
    d: int,
    j: int,
    c: spec_fn(K) -> Side,
) -> (k: int)
    requires
        tree_ok(pages, levels, n),
        0 <= d < levels.len(),
        0 <= j < levels[d].len(),
        pages[levels[d][j] as int].low matches Some(l) ==> c(l) != Side::Before,
    ensures
        j <= k < levels[d].len(),
        pages[levels[d][k] as int].owns(c),
        pages[levels[d][k] as int].route(c) is Here,
        forall|i: int|
            #![trigger levels[d][i]]
            j <= i < k ==> pages[levels[d][i] as int].route(c) == Route::Right(levels[d][i + 1]),
    decreases levels[d].len() - j,
{
    let p = pages[levels[d][j] as int];
    lemma_page(pages, levels, n, d, j);
    if p.owns(c) {
        j
    } else {
        lemma_page(pages, levels, n, d, j + 1);
        law_moving_right_arrives(pages, levels, n, d, j + 1, c)
    }
}

/// The lower fences of the pages of a level ascend.
proof fn lemma_fences_ascend<K: Ord, V>(
    pages: Pages<K, V>,
    levels: Seq<Seq<usize>>,
    n: int,
    d: int,
    a: int,
    b: int,
)
    requires
        lawful::<K>(),
        3 <= n,
        tree_ok(pages, levels, n),
        0 <= d < levels.len(),
        1 <= a <= b < levels[d].len(),
    ensures
        pages[levels[d][a] as int].low is Some,
        pages[levels[d][b] as int].low is Some,
        a < b ==> lt(pages[levels[d][a] as int].low->0, pages[levels[d][b] as int].low->0),
    decreases b - a,
{
    lemma_page(pages, levels, n, d, a);
    lemma_page(pages, levels, n, d, b);
    if a < b {
        lemma_fences_ascend(pages, levels, n, d, a, b - 1);
        lemma_page(pages, levels, n, d, b - 1);
        lemma_order::<K>();
        assert(levels[0].len() == 1);
        let p = pages[levels[d][b - 1] as int];
        match p.body {
            Body::Leaf(s) => {
                assert(within(s[0].0, p.low, p.high));
            },
            Body::Internal(k, _) => {
                assert(between(k[0], p.low, p.high));
            },
            Body::Redirect(_) => {},
        }
    }
}

/// The pages of a level part the key space: every key is owned by exactly one
/// of them.
pub proof fn law_one_owner<K: Ord, V>(
    pages: Pages<K, V>,
    levels: Seq<Seq<usize>>,
    n: int,
    d: int,
    c: spec_fn(K) -> Side,
) -> (k: int)
    requires
        lawful::<K>(),
        3 <= n,
        tree_ok(pages, levels, n),
        0 <= d < levels.len(),
        levels[d].len() > 0,
        consistent(c),
    ensures
        0 <= k < levels[d].len(),
        pages[levels[d][k] as int].owns(c),
        forall|i: int|
            #![trigger levels[d][i]]
            0 <= i < levels[d].len() && i != k ==> !pages[levels[d][i] as int].owns(c),
{
    lemma_page(pages, levels, n, d, 0);
    let k = law_moving_right_arrives(pages, levels, n, d, 0, c);
    assert forall|i: int|
        #![trigger levels[d][i]]
        0 <= i < levels[d].len() && i != k implies !pages[levels[d][i] as int].owns(c) by {
        if i < k {
            lemma_fences_ascend(pages, levels, n, d, i + 1, k);
            lemma_page(pages, levels, n, d, i);
            lemma_page(pages, levels, n, d, i + 1);
            lemma_page(pages, levels, n, d, k);
        } else {
            lemma_fences_ascend(pages, levels, n, d, k + 1, i);
            lemma_page(pages, levels, n, d, i);
            lemma_page(pages, levels, n, d, k);
            lemma_page(pages, levels, n, d, k + 1);
        }
    }
    k
}

/// Two minimal siblings and the separator between them fit in one page.
pub proof fn law_minima_fit(n: int)
    requires
        3 <= n,
    ensures
        n / 2 + n / 2 <= n,
        (n - 1) / 2 + 1 + (n - 1) / 2 <= n,
        n / 2 >= 1,
        (n - 1) / 2 >= 1,
{
}

/// Both halves of a full page have room for another record or separator, and
/// neither is below its minimum.
pub proof fn law_halves_are_safe<K: Ord, V, R>(p: Page<K, V, R>, n: int, this: R, link: R)
    requires
        lawful::<K>(),
        3 <= n,
        p.local(n),
        p.body !is Redirect,
        p.occupancy() == n,
    ensures
        p.minimum(n) <= p.left_half(n, link).occupancy() < n,
        p.minimum(n) <= p.right_half(n, this).occupancy() < n,
        p.left_half(n, link).minimum(n) == p.minimum(n),
        p.right_half(n, this).minimum(n) == p.minimum(n),
{
    lemma_split(p, n, link, this);
}

/// Merging the halves of a page gives back what was split.
pub proof fn law_merge_undoes_split<K: Ord, V, R>(p: Page<K, V, R>, n: int, this: R, link: R)
    requires
        lawful::<K>(),
        3 <= n,
        p.local(n),
        p.body !is Redirect,
        p.occupancy() == n,
    ensures
        ({
            let whole = p.right_half(n, this).merged_with(p.left_half(n, link), p.split_key(n));
            whole == (Page { is_root: false, ..p })
        }),
{
    lemma_split(p, n, link, this);
    let whole = p.right_half(n, this).merged_with(p.left_half(n, link), p.split_key(n));
    match p.body {
        Body::Leaf(s) => {
            assert(whole.items() =~= s);
        },
        Body::Internal(k, c) => {
            assert(whole.keys() =~= k);
            assert(whole.children() =~= c);
        },
        Body::Redirect(_) => {},
    }
}

/// What a page lent to its right sibling it can borrow back: both pages then
/// hold what they held before. The boundary between internal pages is the old
/// one again, and the one between leaves is the first key of the right leaf.
pub proof fn law_lend_right_and_back<K: Ord, V, R>(
    parent: Page<K, V, R>,
    i: int,
    left: Page<K, V, R>,
    right: Page<K, V, R>,
    n: int,
)
    requires
        lawful::<K>(),
        0 <= i < parent.keys().len(),
        left.local(n),
        right.local(n),
        adjacent(left, parent.keys()[i], right),
        left.occupancy() >= 1,
        1 <= right.occupancy() < n,
    ensures
        ({
            let separator = parent.keys()[i];
            let p = parent.with_key(i, left.last_boundary());
            let l = left.without_last();
            let r = right.with_last_of(left, separator);
            let p2 = p.with_key(i, r.first_boundary());
            let l2 = l.with_first_of(r, p.keys()[i]);
            let r2 = r.without_first();
            &&& adjacent(l, p.keys()[i], r)
            &&& l.opens_below(p.keys()[i])
            &&& adjacent(l2, p2.keys()[i], r2)
            &&& l2.body == left.body
            &&& r2.body == right.body
            &&& left.body is Internal ==> p2 == parent && l2 == left && r2 == right
            &&& left.body is Leaf ==> p2.keys()[i] == right.items()[0].0
        }),
{
    let separator = parent.keys()[i];
    lemma_borrow_left(left, separator, right, n);
    let p = parent.with_key(i, left.last_boundary());
    let l = left.without_last();
    let r = right.with_last_of(left, separator);
    let p2 = p.with_key(i, r.first_boundary());
    let l2 = l.with_first_of(r, left.last_boundary());
    let r2 = r.without_first();
    match left.body {
        Body::Leaf(s) => {
            assert(l2.items() =~= s);
            assert(r2.items() =~= right.items());
        },
        Body::Internal(k, c) => {
            assert(l2.keys() =~= k);
            assert(l2.children() =~= c);
            assert(r2.keys() =~= right.keys());
            assert(r2.children() =~= right.children());
            assert(p2.keys() =~= parent.keys());
        },
        Body::Redirect(_) => {},
    }
}

/// What a page lent to its left sibling it can borrow back.
pub proof fn law_lend_left_and_back<K: Ord, V, R>(
    left: Page<K, V, R>,
    separator: K,
    right: Page<K, V, R>,
    n: int,
)
    requires
        lawful::<K>(),
        left.local(n),
        right.local(n),
        adjacent(left, separator, right),
        1 <= left.occupancy() < n,
        right.occupancy() >= 2,
    ensures
        ({
            let l = left.with_first_of(right, separator);
            let r = right.without_first();
            &&& l.without_last().body == left.body
            &&& r.with_last_of(l, right.first_boundary()).body == right.body
        }),
{
    lemma_borrow_right(left, separator, right, n);
    let l = left.with_first_of(right, separator);
    let r = right.without_first();
    let l2 = l.without_last();
    let r2 = r.with_last_of(l, right.first_boundary());
    match left.body {
        Body::Leaf(s) => {
            assert(l2.items() =~= s);
            assert(r2.items() =~= right.items());
        },
        Body::Internal(k, c) => {
            assert(l2.keys() =~= k);
            assert(l2.children() =~= c);
            assert(r2.keys() =~= right.keys());
            assert(r2.children() =~= right.children());
        },
        Body::Redirect(_) => {},
    }
}

} // verus!
