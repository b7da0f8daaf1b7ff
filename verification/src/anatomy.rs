//! What is meant by the parts of a page and by the changes of pages, said of
//! keys, records and links alone.

use vstd::prelude::*;

use crate::node::{child_slot, lemma_child_slot};
use crate::order::{cut_of, lawful, lemma_cut_consistent, lemma_cut_sides, lemma_order, lt, Side};
use crate::page::{between, within, Body, Page, Route};
use crate::records::ascending;

verus! {

/// A key lies between two fences when it is not less than the lower one and
/// less than the upper one, and strictly between them when it is greater than
/// the lower one too. A fence that is missing bounds nothing.
pub proof fn law_fences<K: Ord>(key: K, low: Option<K>, high: Option<K>)
    ensures
        within(key, low, high) <==> !(low is Some && lt(key, low->0)) && (high is None || lt(
            key,
            high->0,
        )),
        between(key, low, high) <==> (low is None || lt(low->0, key)) && (high is None || lt(
            key,
            high->0,
        )),
{
}

/// A key that lies between two fences lies on one side of every key that parts
/// them, and not on both.
pub proof fn law_parted_fences<K: Ord>(key: K, low: Option<K>, middle: K, high: Option<K>)
    requires
        lawful::<K>(),
        between(middle, low, high),
    ensures
        within(key, low, high) <==> within(key, low, Some(middle)) || within(
            key,
            Some(middle),
            high,
        ),
        !(within(key, low, Some(middle)) && within(key, Some(middle), high)),
        within(middle, Some(middle), high),
        !within(middle, low, Some(middle)),
{
    lemma_order::<K>();
}

/// A search for a key stays at an active page exactly when the key lies between
/// its fences. It starts again exactly when the key is less than the lower
/// fence, and goes to the successor exactly when the key is neither that nor
/// less than the upper one. A retired page sends it to where it forwards.
pub proof fn law_route<K: Ord, V, R>(p: Page<K, V, R>, key: K)
    requires
        lawful::<K>(),
    ensures
        p.body matches Body::Redirect(target) ==> p.route(cut_of(key)) == Route::Right(target),
        p.body !is Redirect ==> {
            &&& p.route(cut_of(key)) is Restart <==> p.low is Some && lt(key, p.low->0)
            &&& p.route(cut_of(key)) is Right <==> (p.low is None || !lt(key, p.low->0)) && p.high
                is Some && !lt(key, p.high->0)
            &&& p.route(cut_of(key)) is Right ==> p.route(cut_of(key)) == Route::Right(p.right->0)
            &&& p.route(cut_of(key)) is Here <==> (p.low is None || !lt(key, p.low->0)) && (
            p.high is None || lt(key, p.high->0))
        },
        p.owns(cut_of(key)) <==> (p.low is None || !lt(key, p.low->0)) && (p.high is None || lt(
            key,
            p.high->0,
        )),
        p.pursue(Some(key)) == p.route(cut_of(key)),
        p.body !is Redirect ==> p.pursue(None) is Here,
        p.body matches Body::Redirect(target) ==> p.pursue(None) == Route::Right(target),
{
    let c = cut_of(key);
    lemma_order::<K>();
    lemma_cut_sides(key);
    assert(p.low is Some ==> (c(p.low->0) == Side::Before <==> lt(key, p.low->0)));
    assert(p.high is Some ==> (c(p.high->0) == Side::Before <==> lt(key, p.high->0)));
}

/// The child for a key stands behind exactly the separators that are not greater
/// than the key.
pub proof fn law_child_slot<K: Ord>(k: Seq<K>, key: K)
    requires
        lawful::<K>(),
        ascending(k),
    ensures
        0 <= child_slot(k, cut_of(key)) <= k.len(),
        forall|i: int|
            0 <= i < k.len() ==> (i < child_slot(k, cut_of(key)) <==> !lt(key, #[trigger] k[i])),
{
    lemma_cut_consistent(key);
    lemma_cut_sides(key);
    lemma_child_slot(k, cut_of(key));
    assert forall|i: int| 0 <= i < k.len() implies (i < child_slot(k, cut_of(key)) <==> !lt(
        key,
        #[trigger] k[i],
    )) by {
        assert(cut_of(key)(k[i]) == Side::Before <==> lt(key, k[i]));
    }
}

/// Of the children of a page that owns a key, the one for the key and no other
/// has bounds between which the key lies.
pub proof fn law_one_child<K: Ord, V, R>(p: Page<K, V, R>, n: int, key: K, j: int)
    requires
        lawful::<K>(),
        p.local(n),
        p.body is Internal,
        p.owns(cut_of(key)),
        0 <= j < p.children().len(),
    ensures
        p.children().len() == p.keys().len() + 1,
        j == child_slot(p.keys(), cut_of(key)) <==> !(p.child_low(j) is Some && lt(
            key,
            p.child_low(j)->0,
        )) && (p.child_high(j) is None || lt(key, p.child_high(j)->0)),
{
    let k = p.keys();
    let i = child_slot(k, cut_of(key));
    lemma_order::<K>();
    lemma_cut_sides(key);
    law_child_slot(k, key);
    if j > 0 {
        assert(j - 1 < i <==> !lt(key, k[j - 1]));
    } else {
        assert(p.low is Some ==> (cut_of(key)(p.low->0) == Side::Before <==> lt(key, p.low->0)));
    }
    if j < k.len() {
        assert(j < i <==> !lt(key, k[j]));
    } else {
        assert(p.high is Some ==> (cut_of(key)(p.high->0) == Side::Before <==> lt(key, p.high->0)));
    }
}

/// The bounds of neighbouring children meet at the separator between them, and
/// the outer ones are those of the page.
pub proof fn law_child_bounds<K: Ord, V, R>(p: Page<K, V, R>, i: int)
    requires
        0 <= i < p.keys().len(),
    ensures
        p.child_high(i) == Some(p.keys()[i]),
        p.child_low(i + 1) == Some(p.keys()[i]),
        p.child_low(0) == p.low,
        p.child_high(p.keys().len() as int) == p.high,
{
}

/// A page holds what its body holds: records, or separators and links, or
/// neither. Its occupancy is the number of the records or of the separators.
pub proof fn law_contents<K, V, R>(p: Page<K, V, R>)
    ensures
        p.body is Leaf ==> p.body == Body::<K, V, R>::Leaf(p.items()),
        p.body is Internal ==> p.body == Body::<K, V, R>::Internal(p.keys(), p.children()),
        p.body !is Leaf ==> p.items().len() == 0,
        p.body !is Internal ==> p.keys().len() == 0 && p.children().len() == 0,
        p.occupancy() == p.items().len() + p.keys().len(),
{
}

/// The least number of records of a leaf is half the capacity. Two internal
/// pages with the least number of separators, and the one between them, fill a
/// page up to one place at most.
pub proof fn law_minimum<K, V, R>(p: Page<K, V, R>, n: int)
    requires
        1 <= n,
    ensures
        p.body is Leaf ==> n - 1 <= p.minimum(n) + p.minimum(n) <= n,
        p.body is Internal ==> n - 1 <= p.minimum(n) + 1 + p.minimum(n) <= n,
        p.body is Redirect ==> p.minimum(n) == 0,
{
}

/// The records of a full leaf go to its halves in their order, one more to the
/// right at most. The right one starts with the key at which they are parted.
pub proof fn law_split_leaf<K, V, R>(p: Page<K, V, R>, n: int, this: R, link: R)
    requires
        3 <= n,
        p.body is Leaf,
        p.occupancy() == n,
    ensures
        ({
            let left = p.left_half(n, link);
            let right = p.right_half(n, this);
            &&& left.body is Leaf && right.body is Leaf
            &&& left.items() + right.items() == p.items()
            &&& left.items().len() <= right.items().len() <= left.items().len() + 1
            &&& right.items()[0].0 == p.split_key(n)
        }),
{
    assert(p.left_half(n, link).items() + p.right_half(n, this).items() =~= p.items());
}

/// The separators and links of a full internal page go to its halves in their
/// order, but for the one separator at which they are parted. One more stays on
/// the left at most.
pub proof fn law_split_internal<K, V, R>(p: Page<K, V, R>, n: int, this: R, link: R)
    requires
        3 <= n,
        p.body is Internal,
        p.occupancy() == n,
        p.children().len() == n + 1,
    ensures
        ({
            let left = p.left_half(n, link);
            let right = p.right_half(n, this);
            &&& left.body is Internal && right.body is Internal
            &&& left.keys().push(p.split_key(n)) + right.keys() == p.keys()
            &&& left.children() + right.children() == p.children()
            &&& left.children().len() == left.keys().len() + 1
            &&& right.keys().len() <= left.keys().len() <= right.keys().len() + 1
        }),
{
    let left = p.left_half(n, link);
    let right = p.right_half(n, this);
    assert(left.keys().push(p.split_key(n)) + right.keys() =~= p.keys());
    assert(left.children() + right.children() =~= p.children());
}

/// The halves of a page meet at the key at which they are parted and lead to
/// each other. What lies on the outer sides of the page stays there, and the
/// left half keeps its role.
pub proof fn law_split_frame<K, V, R>(p: Page<K, V, R>, n: int, this: R, link: R)
    ensures
        ({
            let left = p.left_half(n, link);
            let right = p.right_half(n, this);
            &&& left.low == p.low
            &&& left.high == Some(p.split_key(n))
            &&& right.low == Some(p.split_key(n))
            &&& right.high == p.high
            &&& left.previous == p.previous
            &&& left.right == Some(link)
            &&& right.previous == Some(this)
            &&& right.right == p.right
            &&& left.is_root == p.is_root
            &&& !right.is_root
        }),
{
}

/// Lending to the right moves the last record of a leaf, or the last child of
/// an internal page, over the boundary, which it moves in front of that.
pub proof fn law_lend_right<K, V, R>(left: Page<K, V, R>, separator: K, right: Page<K, V, R>)
    requires
        left.same_kind(right),
        left.occupancy() >= 1,
        left.body is Internal ==> left.children().len() == left.keys().len() + 1,
    ensures
        ({
            let l = left.without_last();
            let r = right.with_last_of(left, separator);
            let boundary = left.last_boundary();
            &&& l.occupancy() == left.occupancy() - 1
            &&& r.occupancy() == right.occupancy() + 1
            &&& l.items() + r.items() == left.items() + right.items()
            &&& l.children() + r.children() == left.children() + right.children()
            &&& left.body is Leaf ==> r.items()[0].0 == boundary
            &&& left.body is Internal ==> l.keys().push(boundary) + r.keys() == left.keys().push(
                separator,
            ) + right.keys()
            &&& l.same_kind(r) && l.same_kind(left)
            &&& l.high == Some(boundary) && r.low == Some(boundary)
            &&& l.low == left.low && r.high == right.high
            &&& l.previous == left.previous && l.right == left.right
            &&& r.previous == right.previous && r.right == right.right
            &&& l.is_root == left.is_root && r.is_root == right.is_root
        }),
{
    let l = left.without_last();
    let r = right.with_last_of(left, separator);
    assert(l.items() + r.items() =~= left.items() + right.items());
    assert(l.children() + r.children() =~= left.children() + right.children());
    if left.body is Internal {
        assert(l.keys().push(left.last_boundary()) + r.keys() =~= left.keys().push(separator)
            + right.keys());
    }
}

/// Lending to the left moves the first record of a leaf, or the first child of
/// an internal page, over the boundary, which it moves behind that.
pub proof fn law_lend_left<K, V, R>(left: Page<K, V, R>, separator: K, right: Page<K, V, R>)
    requires
        left.same_kind(right),
        right.occupancy() >= 2,
        right.body is Internal ==> right.children().len() == right.keys().len() + 1,
    ensures
        ({
            let l = left.with_first_of(right, separator);
            let r = right.without_first();
            let boundary = right.first_boundary();
            &&& l.occupancy() == left.occupancy() + 1
            &&& r.occupancy() == right.occupancy() - 1
            &&& l.items() + r.items() == left.items() + right.items()
            &&& l.children() + r.children() == left.children() + right.children()
            &&& left.body is Leaf ==> r.items()[0].0 == boundary
            &&& left.body is Internal ==> l.keys().push(boundary) + r.keys() == left.keys().push(
                separator,
            ) + right.keys()
            &&& l.same_kind(r) && l.same_kind(left)
            &&& l.high == Some(boundary) && r.low == Some(boundary)
            &&& l.low == left.low && r.high == right.high
            &&& l.previous == left.previous && l.right == left.right
            &&& r.previous == right.previous && r.right == right.right
            &&& l.is_root == left.is_root && r.is_root == right.is_root
        }),
{
    let l = left.with_first_of(right, separator);
    let r = right.without_first();
    assert(l.items() + r.items() =~= left.items() + right.items());
    assert(l.children() + r.children() =~= left.children() + right.children());
    if left.body is Internal {
        assert(l.keys().push(right.first_boundary()) + r.keys() =~= left.keys().push(separator)
            + right.keys());
    }
}

/// The survivor of a merge holds what both pages held, in order, over both
/// intervals, between their outer siblings. The page that was merged away
/// forwards to it and holds nothing.
pub proof fn law_merge<K, V, R>(left: Page<K, V, R>, separator: K, right: Page<K, V, R>, link: R)
    requires
        left.same_kind(right),
    ensures
        ({
            let whole = right.merged_with(left, separator);
            let retired = left.retired_to(link);
            &&& whole.items() == left.items() + right.items()
            &&& whole.children() == left.children() + right.children()
            &&& left.body is Internal ==> whole.keys() == left.keys().push(separator)
                + right.keys()
            &&& whole.same_kind(left) && whole.same_kind(right)
            &&& whole.low == left.low && whole.high == right.high
            &&& whole.previous == left.previous && whole.right == right.right
            &&& whole.is_root == right.is_root
            &&& retired.body == Body::<K, V, R>::Redirect(link)
            &&& retired.low is None
            &&& retired.high == left.high
            &&& retired.previous == left.previous && retired.right == left.right
            &&& retired.is_root == left.is_root
        }),
{
    let whole = right.merged_with(left, separator);
    assert(whole.items() =~= left.items() + right.items());
    assert(whole.children() =~= left.children() + right.children());
    if left.body is Internal {
        assert(whole.keys() =~= left.keys().push(separator) + right.keys());
    }
}

/// Two pages hold the same kind of payload when they are both leaves or both
/// internal pages.
pub proof fn law_same_kind<K, V, R>(a: Page<K, V, R>, b: Page<K, V, R>)
    ensures
        a.same_kind(b) <==> a.body !is Redirect && (a.body is Leaf <==> b.body is Leaf) && (
        a.body is Internal <==> b.body is Internal),
{
}

/// A child that was split keeps its place and its lower bound, up to the key
/// at which it was split. The new child stands behind it, from that key on. All
/// other children keep their bounds.
pub proof fn law_parent_of_split<K, V, R>(p: Page<K, V, R>, i: int, key: K, link: R)
    requires
        p.body is Internal,
        p.children().len() == p.keys().len() + 1,
        0 <= i < p.children().len(),
    ensures
        ({
            let q = p.with_split(i, key, link);
            &&& q.body is Internal
            &&& q.keys().len() == p.keys().len() + 1
            &&& q.children().len() == p.children().len() + 1
            &&& q.children()[i + 1] == link
            &&& q.child_high(i) == Some(key) && q.child_low(i + 1) == Some(key)
            &&& q.child_low(i) == p.child_low(i) && q.child_high(i + 1) == p.child_high(i)
            &&& forall|j: int|
                0 <= j <= i ==> #[trigger] q.children()[j] == p.children()[j] && q.child_low(j)
                    == p.child_low(j)
            &&& forall|j: int|
                i < j < p.children().len() ==> q.children()[j + 1] == #[trigger] p.children()[j]
                    && q.child_low(j + 1) == p.child_low(j) && q.child_high(j + 1)
                    == p.child_high(j)
            &&& q.low == p.low && q.high == p.high
            &&& q.previous == p.previous && q.right == p.right
            &&& q.is_root == p.is_root
        }),
{
}

/// When a child was merged into the next one, that one has the bounds of both.
/// All other children keep their bounds.
pub proof fn law_parent_of_merge<K, V, R>(p: Page<K, V, R>, i: int)
    requires
        p.body is Internal,
        p.children().len() == p.keys().len() + 1,
        0 <= i < p.keys().len(),
    ensures
        ({
            let q = p.without_child(i);
            &&& q.body is Internal
            &&& q.keys().len() == p.keys().len() - 1
            &&& q.children().len() == p.children().len() - 1
            &&& q.children()[i] == p.children()[i + 1]
            &&& q.child_low(i) == p.child_low(i)
            &&& q.child_high(i) == p.child_high(i + 1)
            &&& forall|j: int|
                0 <= j < i ==> #[trigger] q.children()[j] == p.children()[j] && q.child_low(j)
                    == p.child_low(j) && q.child_high(j) == p.child_high(j)
            &&& forall|j: int|
                i < j < q.children().len() ==> #[trigger] q.children()[j] == p.children()[j + 1]
                    && q.child_low(j) == p.child_low(j + 1) && q.child_high(j) == p.child_high(
                    j + 1,
                )
            &&& q.low == p.low && q.high == p.high
            &&& q.previous == p.previous && q.right == p.right
            &&& q.is_root == p.is_root
        }),
{
}

/// When the boundary between two children moves, they meet at the new key. All
/// other bounds stay as they are, and so do the links.
pub proof fn law_parent_of_lending<K, V, R>(p: Page<K, V, R>, i: int, key: K)
    requires
        p.body is Internal,
        0 <= i < p.keys().len(),
    ensures
        ({
            let q = p.with_key(i, key);
            &&& q.body is Internal
            &&& q.children() == p.children()
            &&& q.keys().len() == p.keys().len()
            &&& q.child_high(i) == Some(key) && q.child_low(i + 1) == Some(key)
            &&& forall|j: int|
                0 <= j < p.keys().len() && j != i ==> #[trigger] q.keys()[j] == p.keys()[j]
            &&& q.low == p.low && q.high == p.high
            &&& q.previous == p.previous && q.right == p.right
            &&& q.is_root == p.is_root
        }),
{
}

/// A leaf with other records differs in them alone.
pub proof fn law_leaf_with_records<K, V, R>(p: Page<K, V, R>, items: Seq<(K, V)>)
    ensures
        ({
            let q = p.with_items(items);
            &&& q.body is Leaf
            &&& q.items() == items
            &&& q.low == p.low && q.high == p.high
            &&& q.previous == p.previous && q.right == p.right
            &&& q.is_root == p.is_root
        }),
{
}

/// A page is good by itself when it holds no more than its capacity, ascending
/// and between its fences, with one more child than separators, and leads on
/// where its interval ends.
pub proof fn law_local<K: Ord, V, R>(p: Page<K, V, R>, n: int)
    ensures
        p.local(n) && p.body is Leaf ==> {
            let s = p.items();
            &&& s.len() <= n
            &&& forall|i: int, j: int|
                0 <= i < j < s.len() ==> lt((#[trigger] s[i]).0, (#[trigger] s[j]).0)
            &&& forall|i: int|
                0 <= i < s.len() ==> (p.low is None || !lt((#[trigger] s[i]).0, p.low->0)) && (
                p.high is None || lt(s[i].0, p.high->0))
        },
        p.local(n) && p.body is Internal ==> {
            let k = p.keys();
            &&& k.len() <= n
            &&& p.children().len() == k.len() + 1
            &&& forall|i: int, j: int|
                0 <= i < j < k.len() ==> lt(#[trigger] k[i], #[trigger] k[j])
            &&& forall|i: int|
                0 <= i < k.len() ==> (p.low is None || lt(p.low->0, #[trigger] k[i])) && (p.high
                    is None || lt(k[i], p.high->0))
        },
        p.local(n) && p.body !is Redirect && p.high is Some ==> p.right is Some,
{
    if p.local(n) {
        match p.body {
            Body::Leaf(s) => {
                assert forall|i: int| 0 <= i < s.len() implies (p.low is None || !lt(
                    (#[trigger] s[i]).0,
                    p.low->0,
                )) && (p.high is None || lt(s[i].0, p.high->0)) by {
                    assert(within(s[i].0, p.low, p.high));
                }
            },
            Body::Internal(k, _) => {
                assert forall|i: int| 0 <= i < k.len() implies (p.low is None || lt(
                    p.low->0,
                    #[trigger] k[i],
                )) && (p.high is None || lt(k[i], p.high->0)) by {
                    assert(between(k[i], p.low, p.high));
                }
            },
            Body::Redirect(_) => {},
        }
    }
}

} // verus!
