//! The mathematical model of one page.

use vstd::prelude::*;

use crate::order::{
    consistent, cut_of, lawful, lemma_cut_consistent, lemma_cut_sides, lemma_order, lt, Side,
};
use crate::records::{
    ascending, holds, inserted, lemma_inserted_sorted, lemma_rank, lemma_removed_sorted, rank,
    removed, sorted,
};

verus! {

/// What a page holds.
#[verifier::ext_equal]
pub enum Body<K, V, R> {
    /// Records, in a page of the leaf level.
    Leaf(Seq<(K, V)>),
    /// Separators and the links to the children that they part.
    Internal(Seq<K>, Seq<R>),
    /// The survivor to which a retired page forwards.
    Redirect(R),
}

/// One page: its role, its half-open interval of keys, its siblings, its body.
#[verifier::ext_equal]
pub struct Page<K, V, R> {
    /// Whether this page is the published root.
    pub is_root: bool,
    /// Inclusive lower fence, or negative infinity.
    pub low: Option<K>,
    /// Exclusive upper fence, or positive infinity.
    pub high: Option<K>,
    /// The predecessor on the same level.
    pub previous: Option<R>,
    /// The successor on the same level.
    pub right: Option<R>,
    /// The payload.
    pub body: Body<K, V, R>,
}

/// Direction selected by the two-fence stale-route check.
pub enum Route<R> {
    /// The key is below the page's lower fence; restart at the current root.
    Restart,
    /// Follow a same-level successor or a retired page's forwarding link.
    Right(R),
    /// This active page owns the key's range.
    Here,
}

/// Whether a key lies in the half-open interval between two fences.
pub open spec fn within<K: Ord>(key: K, low: Option<K>, high: Option<K>) -> bool {
    &&& low matches Some(l) ==> !lt(key, l)
    &&& high matches Some(h) ==> lt(key, h)
}

/// Whether a key lies strictly between two fences.
pub open spec fn between<K: Ord>(key: K, low: Option<K>, high: Option<K>) -> bool {
    &&& low matches Some(l) ==> lt(l, key)
    &&& high matches Some(h) ==> lt(key, h)
}

impl<K, V, R> Page<K, V, R> {
    /// The records of a leaf page.
    pub open spec fn items(self) -> Seq<(K, V)> {
        match self.body {
            Body::Leaf(s) => s,
            _ => Seq::empty(),
        }
    }

    /// The separators of an internal page.
    pub open spec fn keys(self) -> Seq<K> {
        match self.body {
            Body::Internal(k, _) => k,
            _ => Seq::empty(),
        }
    }

    /// The child links of an internal page.
    pub open spec fn children(self) -> Seq<R> {
        match self.body {
            Body::Internal(_, c) => c,
            _ => Seq::empty(),
        }
    }

    /// The number of records or separators in an active page.
    pub open spec fn occupancy(self) -> nat {
        match self.body {
            Body::Leaf(s) => s.len(),
            Body::Internal(k, _) => k.len(),
            Body::Redirect(_) => 0,
        }
    }

    /// The stable minimum occupancy for this page's kind.
    pub open spec fn minimum(self, n: int) -> int {
        match self.body {
            Body::Leaf(_) => n / 2,
            Body::Internal(_, _) => (n - 1) / 2,
            Body::Redirect(_) => 0,
        }
    }

    /// The lower fence of the `i`th child.
    pub open spec fn child_low(self, i: int) -> Option<K> {
        if i == 0 {
            self.low
        } else {
            Some(self.keys()[i - 1])
        }
    }

    /// The upper fence of the `i`th child.
    pub open spec fn child_high(self, i: int) -> Option<K> {
        if i == self.keys().len() {
            self.high
        } else {
            Some(self.keys()[i])
        }
    }

    /// Each child link with the lower fence that this page gives the child.
    pub open spec fn slots(self) -> Seq<(R, Option<K>)> {
        Seq::new(self.children().len(), |i: int| (self.children()[i], self.child_low(i)))
    }

    /// Whether the position `c` lies in this page's interval.
    pub open spec fn owns(self, c: spec_fn(K) -> Side) -> bool {
        &&& self.low matches Some(l) ==> c(l) != Side::Before
        &&& self.high matches Some(h) ==> c(h) == Side::Before
    }

    /// Where a search for the position `c` goes from this page.
    pub open spec fn route(self, c: spec_fn(K) -> Side) -> Route<R> {
        if let Body::Redirect(target) = self.body {
            Route::Right(target)
        } else if self.low is Some && c(self.low->0) == Side::Before {
            Route::Restart
        } else if self.high is Some && c(self.high->0) != Side::Before {
            Route::Right(self.right->0)
        } else {
            Route::Here
        }
    }
}

impl<K: Ord, V, R> Page<K, V, R> {
    /// Where a search goes from this page that has passed all keys below a
    /// fence, or that has just arrived at it.
    pub open spec fn pursue(self, passed: Option<K>) -> Route<R> {
        match (passed, self.body) {
            (Some(left), _) => self.route(cut_of(left)),
            (None, Body::Redirect(target)) => Route::Right(target),
            (None, _) => Route::Here,
        }
    }

    /// What holds of a page of capacity `n` by itself: ascending content
    /// inside its fences, one more child than separators, and a successor
    /// wherever its interval ends.
    pub open spec fn local(self, n: int) -> bool {
        &&& self.occupancy() <= n
        &&& self.body !is Redirect && self.high is Some ==> self.right is Some
        &&& match self.body {
            Body::Leaf(s) => {
                &&& sorted(s)
                &&& forall|i: int|
                    0 <= i < s.len() ==> within((#[trigger] s[i]).0, self.low, self.high)
            },
            Body::Internal(k, c) => {
                &&& c.len() == k.len() + 1
                &&& ascending(k)
                &&& forall|i: int|
                    0 <= i < k.len() ==> between(#[trigger] k[i], self.low, self.high)
            },
            Body::Redirect(_) => true,
        }
    }
}

impl<K: Ord, V, R> Page<K, V, R> {
    /// Whether the interval of a page opens below a key: strictly for the
    /// separators of an internal page, and not above it for records.
    pub open spec fn opens_below(self, key: K) -> bool {
        self.low matches Some(l) ==> if self.body is Leaf {
            !lt(key, l)
        } else {
            lt(l, key)
        }
    }

    /// Whether the interval of a page closes above a key.
    pub open spec fn closes_above(self, key: K) -> bool {
        self.high matches Some(h) ==> lt(key, h)
    }
}

impl<K, V, R> Page<K, V, R> {
    /// The key at which a full page of capacity `n` is split.
    pub open spec fn split_key(self, n: int) -> K {
        match self.body {
            Body::Leaf(s) => s[n / 2].0,
            _ => self.keys()[n / 2],
        }
    }

    /// What stays in a full page of capacity `n` that is split: the lower
    /// half, linked to the new page `link`.
    pub open spec fn left_half(self, n: int, link: R) -> Self {
        Page {
            high: Some(self.split_key(n)),
            right: Some(link),
            body: match self.body {
                Body::Leaf(s) => Body::Leaf(s.take(n / 2)),
                Body::Internal(k, c) => Body::Internal(k.take(n / 2), c.take(n / 2 + 1)),
                Body::Redirect(r) => Body::Redirect(r),
            },
            ..self
        }
    }

    /// The new page that takes the upper half of a full page of capacity `n`
    /// that is split, linked back to the split page `link`. The middle
    /// separator of an internal page goes to neither half.
    pub open spec fn right_half(self, n: int, link: R) -> Self {
        Page {
            is_root: false,
            low: Some(self.split_key(n)),
            high: self.high,
            previous: Some(link),
            right: self.right,
            body: match self.body {
                Body::Leaf(s) => Body::Leaf(s.skip(n / 2)),
                Body::Internal(k, c) => Body::Internal(k.skip(n / 2 + 1), c.skip(n / 2 + 1)),
                Body::Redirect(r) => Body::Redirect(r),
            },
        }
    }

    /// The boundary after a page has lent its last record or child.
    pub open spec fn last_boundary(self) -> K {
        match self.body {
            Body::Leaf(s) => s.last().0,
            _ => self.keys().last(),
        }
    }

    /// A page that has lent its last record or child.
    pub open spec fn without_last(self) -> Self {
        Page {
            high: Some(self.last_boundary()),
            body: match self.body {
                Body::Leaf(s) => Body::Leaf(s.drop_last()),
                Body::Internal(k, c) => Body::Internal(k.drop_last(), c.drop_last()),
                Body::Redirect(r) => Body::Redirect(r),
            },
            ..self
        }
    }

    /// A page that has borrowed the last record or child of `left`, from which
    /// `separator` parted it.
    pub open spec fn with_last_of(self, left: Self, separator: K) -> Self {
        Page {
            low: Some(left.last_boundary()),
            body: match self.body {
                Body::Leaf(s) => Body::Leaf(s.insert(0, left.items().last())),
                Body::Internal(k, c) => Body::Internal(
                    k.insert(0, separator),
                    c.insert(0, left.children().last()),
                ),
                Body::Redirect(r) => Body::Redirect(r),
            },
            ..self
        }
    }

    /// The boundary after a page has lent its first record or child.
    pub open spec fn first_boundary(self) -> K {
        match self.body {
            Body::Leaf(s) => s[1].0,
            _ => self.keys()[0],
        }
    }

    /// A page that has lent its first record or child.
    pub open spec fn without_first(self) -> Self {
        Page {
            low: Some(self.first_boundary()),
            body: match self.body {
                Body::Leaf(s) => Body::Leaf(s.remove(0)),
                Body::Internal(k, c) => Body::Internal(k.remove(0), c.remove(0)),
                Body::Redirect(r) => Body::Redirect(r),
            },
            ..self
        }
    }

    /// A page that has borrowed the first record or child of `right`, from
    /// which `separator` parted it.
    pub open spec fn with_first_of(self, right: Self, separator: K) -> Self {
        Page {
            high: Some(right.first_boundary()),
            body: match self.body {
                Body::Leaf(s) => Body::Leaf(s.push(right.items()[0])),
                Body::Internal(k, c) => Body::Internal(
                    k.push(separator),
                    c.push(right.children()[0]),
                ),
                Body::Redirect(r) => Body::Redirect(r),
            },
            ..self
        }
    }

    /// A page into which its left sibling `left` was merged, from which
    /// `separator` parted it.
    pub open spec fn merged_with(self, left: Self, separator: K) -> Self {
        Page {
            low: left.low,
            previous: left.previous,
            body: match self.body {
                Body::Leaf(s) => Body::Leaf(left.items() + s),
                Body::Internal(k, c) => Body::Internal(
                    left.keys() + k.insert(0, separator),
                    left.children() + c,
                ),
                Body::Redirect(r) => Body::Redirect(r),
            },
            ..self
        }
    }

    /// A page that was merged into the page `link` and forwards to it.
    pub open spec fn retired_to(self, link: R) -> Self {
        Page { low: None, body: Body::Redirect(link), ..self }
    }

    /// Whether two active pages hold the same kind of payload.
    pub open spec fn same_kind(self, other: Self) -> bool {
        ||| self.body is Leaf && other.body is Leaf
        ||| self.body is Internal && other.body is Internal
    }
}

/// Splitting a full page leaves two good halves, whose records and children
/// are those of the page, and parts them strictly inside its interval.
pub proof fn lemma_split<K: Ord, V, R>(p: Page<K, V, R>, n: int, link: R, left_link: R)
    requires
        lawful::<K>(),
        3 <= n,
        p.local(n),
        p.body !is Redirect,
        p.occupancy() == n,
    ensures
        p.left_half(n, link).local(n),
        p.right_half(n, left_link).local(n),
        between(p.split_key(n), p.low, p.high),
        p.left_half(n, link).items() + p.right_half(n, left_link).items() == p.items(),
        p.left_half(n, link).slots() + p.right_half(n, left_link).slots() == p.slots(),
        p.left_half(n, link).occupancy() == n / 2,
        p.right_half(n, left_link).occupancy() == (if p.body is Leaf {
            n - n / 2
        } else {
            n - n / 2 - 1
        }),
{
    lemma_order::<K>();
    let l = p.left_half(n, link);
    let r = p.right_half(n, left_link);
    match p.body {
        Body::Leaf(s) => {
            assert(lt(s[0].0, s[n / 2].0));
            assert(within(s[0].0, p.low, p.high));
            assert(within(s[n / 2].0, p.low, p.high));
            assert forall|i: int| 0 <= i < l.items().len() implies within(
                (#[trigger] l.items()[i]).0,
                l.low,
                l.high,
            ) by {
                assert(within(s[i].0, p.low, p.high));
                assert(lt(s[i].0, s[n / 2].0));
            }
            assert forall|i: int| 0 <= i < r.items().len() implies within(
                (#[trigger] r.items()[i]).0,
                r.low,
                r.high,
            ) by {
                assert(within(s[i + n / 2].0, p.low, p.high));
                if i > 0 {
                    assert(lt(s[n / 2].0, s[i + n / 2].0));
                }
            }
        },
        Body::Internal(k, c) => {
            assert(between(k[n / 2], p.low, p.high));
            assert forall|i: int| 0 <= i < l.keys().len() implies between(
                #[trigger] l.keys()[i],
                l.low,
                l.high,
            ) by {
                assert(between(k[i], p.low, p.high));
            }
            assert forall|i: int| 0 <= i < r.keys().len() implies between(
                #[trigger] r.keys()[i],
                r.low,
                r.high,
            ) by {
                assert(between(k[i + n / 2 + 1], p.low, p.high));
            }
        },
        _ => {},
    }
    assert(l.items() + r.items() =~= p.items());
    assert(l.slots() + r.slots() =~= p.slots());
}

/// Two adjacent siblings, parted by `separator`.
pub open spec fn adjacent<K, V, R>(left: Page<K, V, R>, separator: K, right: Page<K, V, R>) -> bool {
    &&& left.same_kind(right)
    &&& left.high == Some(separator)
    &&& right.low == Some(separator)
}

/// Moving the last record or child of the left one of two siblings into the
/// right one moves the boundary between them, and nothing else.
pub proof fn lemma_borrow_left<K: Ord, V, R>(
    left: Page<K, V, R>,
    separator: K,
    right: Page<K, V, R>,
    n: int,
)
    requires
        lawful::<K>(),
        left.local(n),
        right.local(n),
        adjacent(left, separator, right),
        left.occupancy() >= 1,
        right.occupancy() < n,
        right.occupancy() >= 1 || right.closes_above(separator),
    ensures
        left.without_last().local(n),
        right.with_last_of(left, separator).local(n),
        left.without_last().opens_below(left.last_boundary()),
        left.occupancy() >= 2 || left.body is Internal ==> between(
            left.last_boundary(),
            left.low,
            Some(separator),
        ),
        left.without_last().items() + right.with_last_of(left, separator).items() == left.items()
            + right.items(),
        left.without_last().slots() + right.with_last_of(left, separator).slots() == left.slots()
            + right.slots(),
        left.without_last().occupancy() == left.occupancy() - 1,
        right.with_last_of(left, separator).occupancy() == right.occupancy() + 1,
{
    lemma_order::<K>();
    let l = left.without_last();
    let r = right.with_last_of(left, separator);
    match left.body {
        Body::Leaf(s) => {
            let m = s.len() - 1;
            assert(m > 0 ==> lt(s[0].0, s[m].0));
            assert(within(s[0].0, left.low, left.high));
            assert(within(s[m].0, left.low, left.high));
            assert forall|i: int| 0 <= i < l.items().len() implies within(
                (#[trigger] l.items()[i]).0,
                l.low,
                l.high,
            ) by {
                assert(within(s[i].0, left.low, left.high));
                assert(lt(s[i].0, s[m].0));
            }
            assert forall|i: int| 0 < i < r.items().len() implies within(
                (#[trigger] r.items()[i]).0,
                right.low,
                right.high,
            ) && lt(s[m].0, r.items()[i].0) by {
                assert(r.items()[i] == right.items()[i - 1]);
                assert(within(right.items()[i - 1].0, right.low, right.high));
            }
            assert(right.items().len() > 0 ==> within(right.items()[0].0, right.low, right.high));
        },
        Body::Internal(k, c) => {
            let m = k.len() - 1;
            assert(between(k[m], left.low, left.high));
            assert forall|i: int| 0 <= i < l.keys().len() implies between(
                #[trigger] l.keys()[i],
                l.low,
                l.high,
            ) by {
                assert(between(k[i], left.low, left.high));
            }
            assert forall|i: int| 0 < i < r.keys().len() implies between(
                #[trigger] r.keys()[i],
                right.low,
                right.high,
            ) by {
                assert(r.keys()[i] == right.keys()[i - 1]);
                assert(between(right.keys()[i - 1], right.low, right.high));
            }
            assert(right.keys().len() > 0 ==> between(right.keys()[0], right.low, right.high));
            assert(r.keys()[0] == separator);
        },
        _ => {},
    }
    assert(l.items() + r.items() =~= left.items() + right.items());
    assert(l.slots() + r.slots() =~= left.slots() + right.slots());
}

/// Moving the first record or child of the right one of two siblings into the
/// left one moves the boundary between them, and nothing else.
pub proof fn lemma_borrow_right<K: Ord, V, R>(
    left: Page<K, V, R>,
    separator: K,
    right: Page<K, V, R>,
    n: int,
)
    requires
        lawful::<K>(),
        left.local(n),
        right.local(n),
        adjacent(left, separator, right),
        left.occupancy() < n,
        left.occupancy() >= 1 || left.opens_below(separator),
        right.occupancy() >= 2,
    ensures
        left.with_first_of(right, separator).local(n),
        right.without_first().local(n),
        between(right.first_boundary(), Some(separator), right.high),
        left.with_first_of(right, separator).items() + right.without_first().items()
            == left.items() + right.items(),
        left.with_first_of(right, separator).slots() + right.without_first().slots()
            == left.slots() + right.slots(),
        left.with_first_of(right, separator).occupancy() == left.occupancy() + 1,
        right.without_first().occupancy() == right.occupancy() - 1,
{
    lemma_order::<K>();
    let l = left.with_first_of(right, separator);
    let r = right.without_first();
    match right.body {
        Body::Leaf(s) => {
            assert(lt(s[0].0, s[1].0));
            assert(within(s[0].0, right.low, right.high));
            assert(within(s[1].0, right.low, right.high));
            let m = left.items().len() as int;
            assert forall|i: int| 0 <= i < m implies within(
                (#[trigger] l.items()[i]).0,
                l.low,
                l.high,
            ) && lt(l.items()[i].0, s[0].0) by {
                assert(l.items()[i] == left.items()[i]);
                assert(within(left.items()[i].0, left.low, left.high));
            }
            assert(l.items()[m] == s[0]);
            assert(m > 0 ==> within(left.items()[0].0, left.low, left.high));
            assert forall|i: int| 0 <= i < r.items().len() implies within(
                (#[trigger] r.items()[i]).0,
                r.low,
                r.high,
            ) by {
                assert(r.items()[i] == s[i + 1]);
                assert(within(s[i + 1].0, right.low, right.high));
                if i > 0 {
                    assert(lt(s[1].0, s[i + 1].0));
                }
            }
        },
        Body::Internal(k, c) => {
            assert(between(k[0], right.low, right.high));
            let m = left.keys().len() as int;
            assert forall|i: int| 0 <= i < m implies between(
                #[trigger] l.keys()[i],
                l.low,
                l.high,
            ) && lt(l.keys()[i], separator) by {
                assert(l.keys()[i] == left.keys()[i]);
                assert(between(left.keys()[i], left.low, left.high));
            }
            assert(l.keys()[m] == separator);
            assert(m > 0 ==> between(left.keys()[0], left.low, left.high));
            assert forall|i: int| 0 <= i < r.keys().len() implies between(
                #[trigger] r.keys()[i],
                r.low,
                r.high,
            ) by {
                assert(r.keys()[i] == k[i + 1]);
                assert(between(k[i + 1], right.low, right.high));
            }
        },
        _ => {},
    }
    assert(l.items() + r.items() =~= left.items() + right.items());
    assert(l.slots() + r.slots() =~= left.slots() + right.slots());
}

/// Merging the left one of two siblings into the right one gives a page with
/// the records and children of both.
pub proof fn lemma_merge<K: Ord, V, R>(
    left: Page<K, V, R>,
    separator: K,
    right: Page<K, V, R>,
    n: int,
)
    requires
        lawful::<K>(),
        left.local(n),
        right.local(n),
        adjacent(left, separator, right),
        1 <= left.occupancy(),
        1 <= right.occupancy(),
        left.occupancy() + right.occupancy() + (if left.body is Leaf {
            0int
        } else {
            1
        }) <= n,
    ensures
        right.merged_with(left, separator).local(n),
        right.merged_with(left, separator).items() == left.items() + right.items(),
        right.merged_with(left, separator).slots() == left.slots() + right.slots(),
        right.merged_with(left, separator).occupancy() == left.occupancy() + right.occupancy() + (
        if left.body is Leaf {
            0int
        } else {
            1
        }),
{
    lemma_order::<K>();
    let p = right.merged_with(left, separator);
    match right.body {
        Body::Leaf(s) => {
            let m = left.items().len() as int;
            assert forall|i: int| 0 <= i < m implies within(
                (#[trigger] p.items()[i]).0,
                left.low,
                left.high,
            ) by {
                assert(p.items()[i] == left.items()[i]);
                assert(within(left.items()[i].0, left.low, left.high));
            }
            assert forall|i: int| m <= i < p.items().len() implies within(
                (#[trigger] p.items()[i]).0,
                right.low,
                right.high,
            ) by {
                assert(p.items()[i] == s[i - m]);
                assert(within(s[i - m].0, right.low, right.high));
            }
            assert(within(left.items()[0].0, left.low, left.high));
            assert(within(s[0].0, right.low, right.high));
        },
        Body::Internal(k, c) => {
            let m = left.keys().len() as int;
            assert forall|i: int| 0 <= i < m implies between(
                #[trigger] p.keys()[i],
                left.low,
                left.high,
            ) by {
                assert(p.keys()[i] == left.keys()[i]);
                assert(between(left.keys()[i], left.low, left.high));
            }
            assert(p.keys()[m] == separator);
            assert forall|i: int| m < i < p.keys().len() implies between(
                #[trigger] p.keys()[i],
                right.low,
                right.high,
            ) by {
                assert(p.keys()[i] == k[i - m - 1]);
                assert(between(k[i - m - 1], right.low, right.high));
            }
            assert(between(left.keys()[0], left.low, left.high));
            assert(between(k[0], right.low, right.high));
            assert forall|i: int, j: int| 0 <= i < j < p.keys().len() implies lt(
                #[trigger] p.keys()[i],
                #[trigger] p.keys()[j],
            ) by {
                if i >= m + 1 {
                    assert(p.keys()[i] == k[i - m - 1]);
                    assert(p.keys()[j] == k[j - m - 1]);
                }
            }
        },
        _ => {},
    }
    assert(p.slots() =~= left.slots() + right.slots());
}

impl<K, V, R> Page<K, V, R> {
    /// An internal page whose `i`th separator is `key`.
    pub open spec fn with_key(self, i: int, key: K) -> Self {
        Page { body: Body::Internal(self.keys().update(i, key), self.children()), ..self }
    }

    /// An internal page whose `i`th child was split at `key`, with the new
    /// child `link` behind it.
    pub open spec fn with_split(self, i: int, key: K, link: R) -> Self {
        Page {
            body: Body::Internal(
                self.keys().insert(i, key),
                self.children().insert(i + 1, link),
            ),
            ..self
        }
    }

    /// An internal page whose `i`th child was merged into the next one.
    pub open spec fn without_child(self, i: int) -> Self {
        Page { body: Body::Internal(self.keys().remove(i), self.children().remove(i)), ..self }
    }
}

/// A separator can move anywhere between the outer bounds of the two children
/// that it parts.
pub proof fn lemma_with_key<K: Ord, V, R>(p: Page<K, V, R>, n: int, i: int, key: K)
    requires
        lawful::<K>(),
        p.local(n),
        p.body is Internal,
        0 <= i < p.keys().len(),
        between(key, p.child_low(i), p.child_high(i + 1)),
    ensures
        p.with_key(i, key).local(n),
        p.with_key(i, key).slots() == p.slots().update(i + 1, (p.children()[i + 1], Some(key))),
{
    lemma_order::<K>();
    let q = p.with_key(i, key);
    let k = p.keys();
    assert(between(k[i], p.low, p.high));
    assert(i > 0 ==> between(k[i - 1], p.low, p.high));
    assert(i + 1 < k.len() ==> between(k[i + 1], p.low, p.high));
    assert forall|j: int| 0 <= j < q.keys().len() implies between(
        #[trigger] q.keys()[j],
        q.low,
        q.high,
    ) by {
        if j != i {
            assert(between(k[j], p.low, p.high));
        }
    }
    assert forall|a: int, b: int| 0 <= a < b < q.keys().len() implies lt(
        #[trigger] q.keys()[a],
        #[trigger] q.keys()[b],
    ) by {
        if a != i && b != i {
            assert(lt(k[a], k[b]));
        } else if b == i {
            assert(a < i - 1 ==> lt(k[a], k[i - 1]));
        } else {
            assert(i + 1 < b ==> lt(k[i + 1], k[b]));
        }
    }
    assert(q.slots() =~= p.slots().update(i + 1, (p.children()[i + 1], Some(key))));
}

/// A child can be split anywhere inside its bounds.
pub proof fn lemma_with_split<K: Ord, V, R>(p: Page<K, V, R>, n: int, i: int, key: K, link: R)
    requires
        lawful::<K>(),
        p.local(n),
        p.body is Internal,
        p.keys().len() < n,
        0 <= i < p.children().len(),
        between(key, p.child_low(i), p.child_high(i)),
    ensures
        p.with_split(i, key, link).local(n),
        p.with_split(i, key, link).slots() == p.slots().insert(i + 1, (link, Some(key))),
{
    lemma_order::<K>();
    let q = p.with_split(i, key, link);
    let k = p.keys();
    assert(i > 0 ==> between(k[i - 1], p.low, p.high));
    assert(i < k.len() ==> between(k[i], p.low, p.high));
    assert forall|j: int| 0 <= j < q.keys().len() implies between(
        #[trigger] q.keys()[j],
        q.low,
        q.high,
    ) by {
        if j < i {
            assert(between(k[j], p.low, p.high));
        } else if j > i {
            assert(between(k[j - 1], p.low, p.high));
        }
    }
    assert forall|a: int, b: int| 0 <= a < b < q.keys().len() implies lt(
        #[trigger] q.keys()[a],
        #[trigger] q.keys()[b],
    ) by {
        let x = if a < i { a } else { a - 1 };
        let y = if b < i { b } else { b - 1 };
        if a != i && b != i {
            assert(lt(k[x], k[y]));
        } else if b == i {
            assert(a < i - 1 ==> lt(k[a], k[i - 1]));
        } else {
            assert(i < y ==> lt(k[i], k[y]));
        }
    }
    assert(q.slots() =~= p.slots().insert(i + 1, (link, Some(key))));
}

/// A child can be taken away together with the separator above it; the next
/// child then begins where it began.
pub proof fn lemma_without_child<K: Ord, V, R>(p: Page<K, V, R>, n: int, i: int)
    requires
        lawful::<K>(),
        p.local(n),
        p.body is Internal,
        0 <= i < p.keys().len(),
    ensures
        p.without_child(i).local(n),
        p.without_child(i).slots() == p.slots().remove(i).update(
            i,
            (p.children()[i + 1], p.child_low(i)),
        ),
{
    let q = p.without_child(i);
    let k = p.keys();
    assert forall|j: int| 0 <= j < q.keys().len() implies between(
        #[trigger] q.keys()[j],
        q.low,
        q.high,
    ) by {
        assert(between(k[if j < i { j } else { j + 1 }], p.low, p.high));
    }
    assert forall|a: int, b: int| 0 <= a < b < q.keys().len() implies lt(
        #[trigger] q.keys()[a],
        #[trigger] q.keys()[b],
    ) by {
        assert(lt(k[if a < i { a } else { a + 1 }], k[if b < i { b } else { b + 1 }]));
    }
    assert(q.slots() =~= p.slots().remove(i).update(
        i,
        (p.children()[i + 1], p.child_low(i)),
    ));
}

impl<K, V, R> Page<K, V, R> {
    /// A leaf page with other records.
    pub open spec fn with_items(self, items: Seq<(K, V)>) -> Self {
        Page { body: Body::Leaf(items), ..self }
    }
}

/// A leaf can take a key of its interval while it has room.
pub proof fn lemma_leaf_insert<K: Ord, V, R>(p: Page<K, V, R>, n: int, key: K, value: V)
    requires
        lawful::<K>(),
        p.local(n),
        p.body is Leaf,
        p.owns(cut_of(key)),
        p.occupancy() < n || holds(p.items(), cut_of(key)),
    ensures
        p.with_items(inserted(p.items(), key, value)).local(n),
{
    let s = p.items();
    let c = cut_of(key);
    let r = rank(s, c);
    lemma_order::<K>();
    lemma_cut_consistent(key);
    lemma_cut_sides(key);
    lemma_rank(s, c);
    lemma_inserted_sorted(s, key, value);
    let t = inserted(s, key, value);
    assert forall|i: int| 0 <= i < t.len() implies within(
        (#[trigger] t[i]).0,
        p.low,
        p.high,
    ) by {
        if holds(s, c) {
            assert(within(s[i].0, p.low, p.high));
        } else if i < r {
            assert(within(s[i].0, p.low, p.high));
        } else if i > r {
            assert(within(s[i - 1].0, p.low, p.high));
        }
    }
}

/// A leaf can take another value under a key that it holds.
pub proof fn lemma_leaf_update<K: Ord, V, R>(p: Page<K, V, R>, n: int, i: int)
    requires
        p.local(n),
        p.body is Leaf,
        0 <= i < p.items().len(),
    ensures
        forall|v: V| (#[trigger] p.with_items(p.items().update(i, (p.items()[i].0, v)))).local(n),
{
    let s = p.items();
    assert forall|v: V| (#[trigger] p.with_items(s.update(i, (s[i].0, v)))).local(n) by {
        let t = s.update(i, (s[i].0, v));
        assert forall|j: int| 0 <= j < t.len() implies within(
            (#[trigger] t[j]).0,
            p.low,
            p.high,
        ) by {
            assert(within(s[j].0, p.low, p.high));
        }
        assert forall|a: int, b: int| 0 <= a < b < t.len() implies lt(
            (#[trigger] t[a]).0,
            (#[trigger] t[b]).0,
        ) by {
            assert(lt(s[a].0, s[b].0));
        }
    }
}

/// A leaf can lose any of its records.
pub proof fn lemma_leaf_remove<K: Ord, V, R>(p: Page<K, V, R>, n: int, c: spec_fn(K) -> Side)
    requires
        p.local(n),
        p.body is Leaf,
        consistent(c),
    ensures
        p.with_items(removed(p.items(), c)).local(n),
{
    let s = p.items();
    let r = rank(s, c);
    lemma_rank(s, c);
    lemma_removed_sorted(s, c);
    let t = removed(s, c);
    assert forall|i: int| 0 <= i < t.len() implies within(
        (#[trigger] t[i]).0,
        p.low,
        p.high,
    ) by {
        let x = if !holds(s, c) || i < r { i } else { i + 1 };
        assert(within(s[x].0, p.low, p.high));
    }
}

/// A page can do without fences.
pub proof fn lemma_unfenced<K: Ord, V, R>(p: Page<K, V, R>, q: Page<K, V, R>, n: int)
    requires
        p.local(n),
        q.body == p.body,
        q.low is None,
        q.high is None,
    ensures
        q.local(n),
{
}

} // verus!
