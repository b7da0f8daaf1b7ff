//! Pages and the algorithms that work on one page or on adjacent pages:
//! routing, searching, splitting, rotating and merging.

use vstd::pervasive::unreached;
use vstd::prelude::*;

use crate::array::Array;
use crate::handle::KeyHandle;
use crate::order::{consistent, cut, cut_of, lawful, lemma_order, lt, Probe, Side};
use crate::page::{
    adjacent, between, lemma_borrow_left, lemma_borrow_right, lemma_leaf_insert, lemma_leaf_remove,
    lemma_leaf_update, lemma_merge, lemma_split, lemma_unfenced, lemma_with_key, lemma_with_split,
    lemma_without_child, Body, Page, Route,
};
use crate::records::{
    ascending, holds, inserted, lemma_partition_point, lemma_past_around, lemma_rank, lookup,
    partition_point, rank, rank_past, removed, sorted,
};

verus! {

/// A pointer from one page to another that keeps it alive. Two pointers are
/// equal when they lead to the same page.
pub trait Link: Sized {
    /// A pointer that does not keep its page alive. Pages point back with it,
    /// so that a chain of siblings forms no cycle of ownership.
    type Back;

    /// The pointer to the same page that keeps it alive.
    spec fn target(back: Self::Back) -> Self;

    /// Makes another pointer to the same page.
    fn share(&self) -> (link: Self)
        ensures
            link == *self,
    ;

    /// Makes a pointer to the same page that does not keep it alive.
    fn weaken(&self) -> (back: Self::Back)
        ensures
            Self::target(back) == *self,
    ;

    /// Makes another pointer to the same page that does not keep it alive.
    fn share_back(back: &Self::Back) -> (other: Self::Back)
        ensures
            other == *back,
    ;

    /// Whether two pointers lead to the same page.
    fn same(&self, other: &Self) -> (b: bool)
        ensures
            b == (*self == *other),
    ;
}

/// One key/value record stored exclusively in a leaf page.
pub struct Entry<K, V> {
    /// Shared key ownership lets records, separators, and fences refer to the
    /// same allocation without requiring `K: Clone`.
    pub key: KeyHandle<K>,
    /// User value.
    pub value: V,
}

/// Routing payload of an internal page.
///
/// `keys[i]` is the inclusive lower bound of `children[i + 1]`; therefore an
/// internal page with `n` separators always owns `n + 1` children.
pub struct InternalNode<K, R, const N: usize> {
    /// Sorted separator handles.
    keys: Array<KeyHandle<K>>,
    /// Downward pointers ordered by their half-open key ranges.
    children: Array<R>,
}

/// Value-bearing payload of a leaf page.
pub struct LeafNode<K, V, const N: usize> {
    /// Sorted, unique records.
    entries: Array<Entry<K, V>>,
}

/// Current role of a page.
pub enum NodeKind<K, V, R, const N: usize> {
    /// A routing page above the leaf level.
    Internal(InternalNode<K, R, N>),
    /// A page containing user records.
    Leaf(LeafNode<K, V, N>),
    /// A logically removed page that forwards stale handles to its survivor.
    Redirect(R),
}

/// One page of the tree.
///
/// Active pages own the half-open interval `[low_key, high_key)`. A missing
/// lower or upper fence represents negative or positive infinity. `right`
/// links active pages at the same level. A stale traversal that is above the
/// high fence moves right; one that is below the low fence restarts from the
/// current root. The lower-fence check is what makes right-to-left boundary
/// redistribution safe during concurrent deletion.
pub struct Node<K, V, R: Link, const N: usize> {
    /// True only for the page currently published in the tree's root slot.
    is_root: bool,
    /// Inclusive lower fence, or negative infinity for the leftmost page.
    low_key: Option<KeyHandle<K>>,
    /// Exclusive upper fence, or positive infinity for the rightmost page.
    high_key: Option<KeyHandle<K>>,
    /// Predecessor used only to splice merged pages out of sibling chains.
    previous: Option<R::Back>,
    /// Same-level successor used by searches and forward iterators.
    right: Option<R>,
    /// Page payload.
    kind: NodeKind<K, V, R, N>,
}

/// The page behind an optional pointer that does not keep it alive.
pub open spec fn back<R: Link>(link: Option<R::Back>) -> Option<R> {
    match link {
        Some(link) => Some(R::target(link)),
        None => None,
    }
}

/// The key and the value of a stored record.
pub open spec fn record<K, V>(e: Entry<K, V>) -> (K, V) {
    (e.key@, e.value)
}

/// The keys and values of stored records.
pub open spec fn records<K, V>(s: Seq<Entry<K, V>>) -> Seq<(K, V)> {
    s.map_values(|e: Entry<K, V>| record(e))
}

/// The keys behind handles.
pub open spec fn keys_of<K>(s: Seq<KeyHandle<K>>) -> Seq<K> {
    s.map_values(|h: KeyHandle<K>| h@)
}

/// The key behind an optional handle.
pub open spec fn fence<K>(h: Option<KeyHandle<K>>) -> Option<K> {
    match h {
        Some(h) => Some(h@),
        None => None,
    }
}

impl<K, V, const N: usize> View for LeafNode<K, V, N> {
    type V = Seq<(K, V)>;

    closed spec fn view(&self) -> Seq<(K, V)> {
        records(self.entries@)
    }
}

impl<K, V, const N: usize> LeafNode<K, V, N> {
    /// Whether the storage has the capacity of a page.
    pub closed spec fn stored(&self) -> bool {
        self.entries.wf() && self.entries.cap() == N
    }

    /// Makes a leaf without records.
    pub fn new() -> (leaf: Self)
        requires
            N > 0,
        ensures
            leaf.stored(),
            leaf@ == Seq::<(K, V)>::empty(),
    {
        let leaf = Self { entries: Array::bounded(N) };
        assert(leaf@ =~= Seq::<(K, V)>::empty());
        leaf
    }

    /// Returns the number of records.
    pub fn len(&self) -> (n: usize)
        ensures
            n == self@.len(),
    {
        self.entries.len()
    }
}

impl<K: Ord, V, const N: usize> LeafNode<K, V, N> {
    /// Binary-searches the leaf for a key or its stable insertion position.
    pub fn search<P: Probe<K> + ?Sized>(&self, probe: &P) -> (found: Result<usize, usize>)
        requires
            lawful::<K>(),
            P::probes(),
            sorted(self@),
        ensures
            holds(self@, cut(probe)) ==> found == Ok::<usize, usize>(
                rank(self@, cut(probe)) as usize,
            ),
            !holds(self@, cut(probe)) ==> found == Err::<usize, usize>(
                rank(self@, cut(probe)) as usize,
            ),
            0 <= rank(self@, cut(probe)) <= self@.len() <= usize::MAX,
            match found {
                Ok(index) => index < self@.len() && probe.side_spec(self@[index as int].0)
                    == Side::At,
                Err(index) => {
                    &&& index <= self@.len()
                    &&& forall|i: int|
                        0 <= i < self@.len() ==> probe.side_spec((#[trigger] self@[i]).0) == (
                        if i < index {
                            Side::After
                        } else {
                            Side::Before
                        })
                },
            },
    {
        let ghost c = cut(probe);
        let ghost s = self@;
        let ghost f = |e: (K, V)| c(e.0) == Side::After;
        proof {
            probe.lemma_probe_consistent();
        }
        let mut low: usize = 0;
        let mut high: usize = self.entries.len();
        while low < high
            invariant
                low <= high <= s.len(),
                s == self@,
                s.len() <= usize::MAX,
                sorted(s),
                consistent(c),
                c == cut(probe),
                P::probes(),
                f == (|e: (K, V)| c(e.0) == Side::After),
                forall|i: int| 0 <= i < low ==> c((#[trigger] s[i]).0) == Side::After,
                forall|i: int| high <= i < s.len() ==> c((#[trigger] s[i]).0) == Side::Before,
            decreases high - low,
        {
            let middle = low + (high - low) / 2;
            assert(s[middle as int] == record(self.entries@[middle as int]));
            let side = probe.side(self.entries.index(middle).key.get());
            assert(side == c(s[middle as int].0));
            match side {
                Side::At => {
                    proof {
                        assert forall|i: int| 0 <= i < middle implies f(#[trigger] s[i]) by {
                            assert(lt(s[i].0, s[middle as int].0));
                        }
                        assert forall|i: int| middle <= i < s.len() implies !f(
                            #[trigger] s[i],
                        ) by {
                            if middle < i {
                                assert(lt(s[middle as int].0, s[i].0));
                            }
                        }
                        lemma_partition_point(s, f, middle as int);
                    }
                    return Ok(middle);
                },
                Side::After => {
                    proof {
                        assert forall|i: int| 0 <= i < middle + 1 implies c((#[trigger] s[i]).0)
                            == Side::After by {
                            if i < middle {
                                assert(lt(s[i].0, s[middle as int].0));
                            }
                        }
                    }
                    low = middle + 1;
                },
                Side::Before => {
                    proof {
                        assert forall|i: int| middle <= i < s.len() implies c((#[trigger] s[i]).0)
                            == Side::Before by {
                            if middle < i {
                                assert(lt(s[middle as int].0, s[i].0));
                            }
                        }
                    }
                    high = middle;
                },
            }
        }
        proof {
            lemma_partition_point(s, f, low as int);
        }
        Err(low)
    }

    /// Removes a record and returns its value.
    fn take(&mut self, index: usize) -> (value: V)
        requires
            old(self).stored(),
            index < old(self)@.len(),
        ensures
            final(self).stored(),
            final(self)@ == old(self)@.remove(index as int),
            value == old(self)@[index as int].1,
    {
        let entry = self.entries.remove(index);
        assert(records(self.entries@) =~= old(self)@.remove(index as int));
        entry.value
    }

    /// Inserts or replaces one record, and says whether it is a new one.
    pub fn insert(&mut self, key: K, value: V) -> (result: (Option<V>, bool))
        requires
            lawful::<K>(),
            old(self).stored(),
            sorted(old(self)@),
            old(self)@.len() < N || holds(old(self)@, cut_of(key)),
        ensures
            final(self).stored(),
            final(self)@ == inserted(old(self)@, key, value),
            result.1 == !holds(old(self)@, cut_of(key)),
            result.0 == lookup(old(self)@, cut_of(key)),
    {
        assert(cut(&key) =~= cut_of(key));
        match self.search(&key) {
            Ok(index) => {
                let ghost before = self.entries@;
                let slot = self.entries.index_mut(index);
                let mut old_value = value;
                std::mem::swap(&mut slot.value, &mut old_value);
                proof {
                    assert(records(self.entries@) =~= inserted(old(self)@, key, value));
                }
                (Some(old_value), false)
            },
            Err(index) => {
                let entry = Entry { key: KeyHandle::new(key), value };
                self.entries.insert(index, entry);
                proof {
                    assert(records(self.entries@) =~= inserted(old(self)@, key, value));
                }
                (None, true)
            },
        }
    }
}

impl<K, R, const N: usize> InternalNode<K, R, N> {
    /// The separators.
    pub closed spec fn seps(&self) -> Seq<K> {
        keys_of(self.keys@)
    }

    /// The child links.
    pub closed spec fn kids(&self) -> Seq<R> {
        self.children@
    }

    /// Whether the storage has the capacity of a page.
    pub closed spec fn stored(&self) -> bool {
        &&& self.keys.wf()
        &&& self.keys.cap() == N
        &&& self.children.wf()
        &&& self.children.cap() == N + 1
    }

    /// Makes a routing page over two children.
    pub fn over(left: R, separator: KeyHandle<K>, right: R) -> (internal: Self)
        requires
            1 <= N < usize::MAX,
        ensures
            internal.stored(),
            internal.seps() == seq![separator@],
            internal.kids() == seq![left, right],
    {
        let mut keys = Array::bounded(N);
        keys.push(separator);
        let mut children = Array::bounded(N + 1);
        children.push(left);
        children.push(right);
        let internal = Self { keys, children };
        assert(internal.seps() =~= seq![separator@]);
        assert(internal.kids() =~= seq![left, right]);
        internal
    }
}

/// The child whose half-open interval contains the position `c`, in a page
/// with the separators `k`.
pub open spec fn child_slot<K>(k: Seq<K>, c: spec_fn(K) -> Side) -> int {
    partition_point(k, |x: K| c(x) != Side::Before)
}

/// In ascending separators a position that agrees with the order lies before
/// exactly the separators from its child on.
pub proof fn lemma_child_slot<K: Ord>(k: Seq<K>, c: spec_fn(K) -> Side)
    requires
        ascending(k),
        consistent(c),
    ensures
        0 <= child_slot(k, c) <= k.len(),
        forall|i: int| 0 <= i < child_slot(k, c) ==> c(#[trigger] k[i]) != Side::Before,
        forall|i: int| child_slot(k, c) <= i < k.len() ==> c(#[trigger] k[i]) == Side::Before,
    decreases k.len(),
{
    if k.len() > 0 {
        let m = k.len() - 1;
        if c(k[m]) != Side::Before {
            assert forall|i: int| 0 <= i < k.len() implies c(#[trigger] k[i]) != Side::Before by {
                if i < m {
                    assert(lt(k[i], k[m]));
                }
            }
        } else {
            assert(ascending(k.drop_last()));
            lemma_child_slot(k.drop_last(), c);
            assert forall|i: int| 0 <= i < child_slot(k, c) implies c(#[trigger] k[i])
                != Side::Before by {
                assert(k.drop_last()[i] == k[i]);
            }
            assert forall|i: int| child_slot(k, c) <= i < k.len() implies c(#[trigger] k[i])
                == Side::Before by {
                if i < m {
                    assert(k.drop_last()[i] == k[i]);
                }
            }
        }
    }
}

impl<K: Ord, R, const N: usize> InternalNode<K, R, N> {
    /// Finds the child whose half-open interval contains the probe.
    ///
    /// This upper-bound search advances on equality because a separator is the
    /// inclusive lower bound of the child immediately to its right.
    pub fn child_index<P: Probe<K> + ?Sized>(&self, probe: &P) -> (index: usize)
        requires
            lawful::<K>(),
            P::probes(),
            ascending(self.seps()),
        ensures
            index == child_slot(self.seps(), cut(probe)),
            index <= self.seps().len(),
            forall|i: int|
                0 <= i < index ==> cut(probe)(#[trigger] self.seps()[i]) != Side::Before,
            forall|i: int|
                index <= i < self.seps().len() ==> cut(probe)(#[trigger] self.seps()[i])
                    == Side::Before,
    {
        let ghost c = cut(probe);
        let ghost k = self.seps();
        proof {
            probe.lemma_probe_consistent();
        }
        let mut low: usize = 0;
        let mut high: usize = self.keys.len();
        while low < high
            invariant
                low <= high <= k.len(),
                k == self.seps(),
                k.len() <= usize::MAX,
                ascending(k),
                consistent(c),
                c == cut(probe),
                P::probes(),
                forall|i: int| 0 <= i < low ==> c(#[trigger] k[i]) != Side::Before,
                forall|i: int| high <= i < k.len() ==> c(#[trigger] k[i]) == Side::Before,
            decreases high - low,
        {
            let middle = low + (high - low) / 2;
            assert(k[middle as int] == self.keys@[middle as int]@);
            let side = probe.side(self.keys.index(middle).get());
            assert(side == c(k[middle as int]));
            if side == Side::Before {
                assert forall|i: int| middle <= i < k.len() implies c(#[trigger] k[i])
                    == Side::Before by {
                    if middle < i {
                        assert(lt(k[middle as int], k[i]));
                    }
                }
                high = middle;
            } else {
                assert forall|i: int| 0 <= i < middle + 1 implies c(#[trigger] k[i])
                    != Side::Before by {
                    if i < middle {
                        assert(lt(k[i], k[middle as int]));
                    }
                }
                low = middle + 1;
            }
        }
        proof {
            lemma_partition_point(k, |x: K| c(x) != Side::Before, low as int);
        }
        low
    }

    /// Installs a newly split sibling immediately after its left child.
    pub fn insert_split(&mut self, child_index: usize, separator: KeyHandle<K>, right: R)
        requires
            old(self).stored(),
            old(self).seps().len() < N < usize::MAX,
            old(self).kids().len() == old(self).seps().len() + 1,
            child_index < old(self).kids().len(),
        ensures
            final(self).stored(),
            final(self).seps() == old(self).seps().insert(child_index as int, separator@),
            final(self).kids() == old(self).kids().insert(child_index + 1, right),
    {
        self.keys.insert(child_index, separator);
        self.children.insert(child_index + 1, right);
        assert(self.seps() =~= old(self).seps().insert(child_index as int, separator@));
    }
}

impl<K, V, R: Link, const N: usize> View for Node<K, V, R, N> {
    type V = Page<K, V, R>;

    closed spec fn view(&self) -> Page<K, V, R> {
        Page {
            is_root: self.is_root,
            low: fence(self.low_key),
            high: fence(self.high_key),
            previous: back::<R>(self.previous),
            right: self.right,
            body: match self.kind {
                NodeKind::Leaf(leaf) => Body::Leaf(leaf@),
                NodeKind::Internal(internal) => Body::Internal(internal.seps(), internal.kids()),
                NodeKind::Redirect(target) => Body::Redirect(target),
            },
        }
    }
}

/// The upper half of a split page, and what has to be told of it.
pub struct Split<K, V, R: Link, const N: usize> {
    /// Inclusive lower bound of the new right page.
    pub separator: KeyHandle<K>,
    /// Fully initialized right sibling.
    pub right: Node<K, V, R, N>,
    /// Former successor whose back-link must be advanced to the right page.
    pub old_successor: Option<R>,
}

impl<K: Ord, V, R: Link, const N: usize> Split<K, V, R, N> {
    /// Whether the right page takes over a key.
    pub fn takes<P: Probe<K> + ?Sized>(&self, probe: &P) -> (b: bool)
        requires
            P::probes(),
        ensures
            b == (cut(probe)(self.separator@) != Side::Before),
    {
        match probe.side(self.separator.get()) {
            Side::Before => false,
            _ => true,
        }
    }
}

/// The models of stored pages.
pub open spec fn models<K, V, R: Link, const N: usize>(pages: Seq<Node<K, V, R, N>>) -> Seq<
    Page<K, V, R>,
> {
    pages.map_values(|node: Node<K, V, R, N>| node@)
}

impl<K, V, R: Link, const N: usize> Node<K, V, R, N> {
    /// Whether the storage has the capacity of a page.
    pub closed spec fn stored(&self) -> bool {
        match self.kind {
            NodeKind::Leaf(leaf) => leaf.stored(),
            NodeKind::Internal(internal) => internal.stored(),
            NodeKind::Redirect(_) => true,
        }
    }

    /// Makes the initial empty leaf covering the complete key space.
    pub fn leaf_root() -> (node: Self)
        requires
            N > 0,
        ensures
            node.stored(),
            node@ == (Page {
                is_root: true,
                low: None::<K>,
                high: None::<K>,
                previous: None::<R>,
                right: None::<R>,
                body: Body::Leaf(Seq::<(K, V)>::empty()),
            }),
    {
        Self {
            is_root: true,
            low_key: None,
            high_key: None,
            previous: None,
            right: None,
            kind: NodeKind::Leaf(LeafNode::new()),
        }
    }

    /// Builds a new root above a split former root.
    pub fn root_from_split(left: R, separator: KeyHandle<K>, right: R) -> (node: Self)
        requires
            1 <= N < usize::MAX,
        ensures
            node.stored(),
            node@ == (Page {
                is_root: true,
                low: None::<K>,
                high: None::<K>,
                previous: None::<R>,
                right: None::<R>,
                body: Body::<K, V, R>::Internal(seq![separator@], seq![left, right]),
            }),
    {
        Self {
            is_root: true,
            low_key: None,
            high_key: None,
            previous: None,
            right: None,
            kind: NodeKind::Internal(InternalNode::over(left, separator, right)),
        }
    }

    /// Makes a page that holds nothing and forwards to `target`.
    pub fn forwarding(target: R) -> (node: Self)
        ensures
            node.stored(),
            node@ == (Page {
                is_root: false,
                low: None::<K>,
                high: None::<K>,
                previous: None::<R>,
                right: None::<R>,
                body: Body::<K, V, R>::Redirect(target),
            }),
    {
        Self {
            is_root: false,
            low_key: None,
            high_key: None,
            previous: None,
            right: None,
            kind: NodeKind::Redirect(target),
        }
    }

    /// Returns the number of records or separators in an active page.
    pub fn occupancy(&self) -> (n: usize)
        ensures
            n == self@.occupancy(),
    {
        match &self.kind {
            NodeKind::Internal(internal) => internal.keys.len(),
            NodeKind::Leaf(leaf) => leaf.entries.len(),
            NodeKind::Redirect(_) => 0,
        }
    }

    /// Returns the inclusive lower fence.
    pub fn low_fence(&self) -> (key: Option<&K>)
        ensures
            match key {
                Some(key) => self@.low == Some(*key),
                None => self@.low is None,
            },
    {
        match &self.low_key {
            Some(handle) => Some(handle.get()),
            None => None,
        }
    }

    /// Returns the exclusive upper fence.
    pub fn high_fence(&self) -> (key: Option<&K>)
        ensures
            match key {
                Some(key) => self@.high == Some(*key),
                None => self@.high is None,
            },
    {
        match &self.high_key {
            Some(handle) => Some(handle.get()),
            None => None,
        }
    }

    /// Returns a separator of an internal page.
    pub fn separator_at(&self, index: usize) -> (key: &K)
        requires
            index < self@.keys().len(),
        ensures
            *key == self@.keys()[index as int],
    {
        match &self.kind {
            NodeKind::Internal(internal) => internal.keys.index(index).get(),
            _ => unreached(),
        }
    }

    /// Returns the number of children of an internal page.
    pub fn child_count(&self) -> (n: usize)
        ensures
            n == self@.children().len(),
    {
        match &self.kind {
            NodeKind::Internal(internal) => internal.children.len(),
            _ => 0,
        }
    }

    /// Returns the stable minimum occupancy for this page kind.
    pub fn minimum(&self) -> (n: usize)
        requires
            N > 0,
        ensures
            n == self@.minimum(N as int),
            self@.body is Leaf ==> N - 1 <= n + n <= N,
            self@.body is Internal ==> N - 1 <= n + 1 + n <= N,
            self@.body is Redirect ==> n == 0,
    {
        match &self.kind {
            NodeKind::Internal(_) => (N - 1) / 2,
            NodeKind::Leaf(_) => N / 2,
            NodeKind::Redirect(_) => 0,
        }
    }
}

impl<K: Ord, V, R: Link, const N: usize> Node<K, V, R, N> {
    /// The invariant of a page by itself.
    pub open spec fn wf(&self) -> bool {
        self.stored() && self@.local(N as int)
    }

    /// Classifies a key against the page's current role and half-open fences.
    pub fn route<P: Probe<K> + ?Sized>(&self, probe: &P) -> (route: Route<R>)
        requires
            P::probes(),
            self.wf(),
        ensures
            route == self@.route(cut(probe)),
            match self@.body {
                Body::Redirect(target) => route == Route::Right(target),
                _ => match route {
                    Route::Restart => self@.low is Some && probe.side_spec(self@.low->0)
                        == Side::Before,
                    Route::Right(next) => {
                        &&& self@.low matches Some(low) ==> probe.side_spec(low) != Side::Before
                        &&& self@.high is Some && probe.side_spec(self@.high->0) != Side::Before
                        &&& self@.right == Some(next)
                    },
                    Route::Here => {
                        &&& self@.low matches Some(low) ==> probe.side_spec(low) != Side::Before
                        &&& self@.high matches Some(high) ==> probe.side_spec(high) == Side::Before
                    },
                },
            },
    {
        if let NodeKind::Redirect(target) = &self.kind {
            return Route::Right(target.share());
        }
        if let Some(low_key) = &self.low_key {
            if probe.side(low_key.get()) == Side::Before {
                return Route::Restart;
            }
        }
        if let Some(high_key) = &self.high_key {
            if probe.side(high_key.get()) != Side::Before {
                if let Some(right) = &self.right {
                    return Route::Right(right.share());
                }
            }
        }
        Route::Here
    }

    /// Splits a stable full page before another record or separator is
    /// inserted.
    ///
    /// `left_ref` leads to this page, and `right_ref` to where the returned
    /// right page will be put. The right page takes over the upper half, the
    /// high fence and the successor of this page, which from then on ends at
    /// the separator and leads to `right_ref`.
    pub fn split_full(&mut self, left_ref: &R, right_ref: &R) -> (split: Split<K, V, R, N>)
        requires
            lawful::<K>(),
            3 <= N < usize::MAX,
            old(self).wf(),
            old(self)@.body !is Redirect,
            old(self)@.occupancy() == N,
        ensures
            final(self).wf(),
            final(self)@ == old(self)@.left_half(N as int, *right_ref),
            split.right.wf(),
            split.right@ == old(self)@.right_half(N as int, *left_ref),
            split.separator@ == old(self)@.split_key(N as int),
            split.old_successor == old(self)@.right,
    {
        let ghost before = self@;
        proof {
            lemma_split(before, N as int, *right_ref, *left_ref);
        }
        let (separator, right_kind) = match &mut self.kind {
            NodeKind::Leaf(leaf) => {
                // Leaves retain the lower `floor(N / 2)` records and move the rest.
                let ghost s = leaf.entries@;
                let right_entries = leaf.entries.split_off(N / 2);
                let separator = right_entries.index(0).key.clone();
                proof {
                    assert(records(s.take(N as int / 2)) =~= records(s).take(N as int / 2));
                    assert(records(s.skip(N as int / 2)) =~= records(s).skip(N as int / 2));
                    assert(right_entries@[0] == s[N as int / 2]);
                }
                (separator, NodeKind::Leaf(LeafNode { entries: right_entries }))
            },
            NodeKind::Internal(internal) => {
                // The middle separator is promoted. Children above it move right.
                let ghost k = internal.keys@;
                let middle = N / 2;
                let separator = internal.keys.remove(middle);
                let right_keys = internal.keys.split_off(middle);
                let right_children = internal.children.split_off(middle + 1);
                proof {
                    let m = N as int / 2;
                    assert(keys_of(k.remove(m).take(m)) =~= keys_of(k).take(m));
                    assert(keys_of(k.remove(m).skip(m)) =~= keys_of(k).skip(m + 1));
                }
                (
                    separator,
                    NodeKind::Internal(
                        InternalNode { keys: right_keys, children: right_children },
                    ),
                )
            },
            NodeKind::Redirect(_) => unreached(),
        };
        let old_successor = self.right.take();
        let successor = match &old_successor {
            Some(link) => Some(link.share()),
            None => None,
        };
        let right = Self {
            is_root: false,
            low_key: Some(separator.clone()),
            high_key: self.high_key.take(),
            previous: Some(left_ref.weaken()),
            right: successor,
            kind: right_kind,
        };
        self.high_key = Some(separator.clone());
        self.right = Some(right_ref.share());
        assert(right@ =~= before.right_half(N as int, *left_ref));
        assert(self@ =~= before.left_half(N as int, *right_ref));
        Split { separator, right, old_successor }
    }
}

/// Moves one record or edge from `left` into the beginning of `right`.
pub fn borrow_from_left<K: Ord, V, R: Link, const N: usize>(
    parent: &mut InternalNode<K, R, N>,
    separator_index: usize,
    left: &mut Node<K, V, R, N>,
    right: &mut Node<K, V, R, N>,
)
    requires
        lawful::<K>(),
        N < usize::MAX,
        old(parent).stored(),
        separator_index < old(parent).seps().len(),
        old(left).wf(),
        old(right).wf(),
        adjacent(old(left)@, old(parent).seps()[separator_index as int], old(right)@),
        old(left)@.occupancy() >= 1,
        old(right)@.occupancy() < N,
        old(right)@.occupancy() >= 1 || old(right)@.closes_above(
            old(parent).seps()[separator_index as int],
        ),
    ensures
        final(parent).stored(),
        final(parent).seps() == old(parent).seps().update(
            separator_index as int,
            old(left)@.last_boundary(),
        ),
        final(parent).kids() == old(parent).kids(),
        final(left).wf(),
        final(left)@ == old(left)@.without_last(),
        final(right).wf(),
        final(right)@ == old(right)@.with_last_of(
            old(left)@,
            old(parent).seps()[separator_index as int],
        ),
{
    let ghost l = left@;
    let ghost r = right@;
    let ghost sep = parent.seps()[separator_index as int];
    let ghost seps = parent.keys@;
    proof {
        lemma_borrow_left(l, sep, r, N as int);
    }
    let boundary = match &mut left.kind {
        NodeKind::Leaf(left_leaf) => match &mut right.kind {
            NodeKind::Leaf(right_leaf) => {
                let ghost ls = left_leaf.entries@;
                let ghost rs = right_leaf.entries@;
                let entry = match left_leaf.entries.pop() {
                    Some(entry) => entry,
                    None => unreached(),
                };
                let boundary = entry.key.clone();
                right_leaf.entries.insert(0, entry);
                *parent.keys.index_mut(separator_index) = boundary.clone();
                proof {
                    assert(records(ls.drop_last()) =~= records(ls).drop_last());
                    assert(records(rs.insert(0, ls.last())) =~= records(rs).insert(
                        0,
                        records(ls).last(),
                    ));
                }
                boundary
            },
            _ => unreached(),
        },
        NodeKind::Internal(left_internal) => match &mut right.kind {
            NodeKind::Internal(right_internal) => {
                let ghost lk = left_internal.keys@;
                let ghost rk = right_internal.keys@;
                let boundary = match left_internal.keys.pop() {
                    Some(boundary) => boundary,
                    None => unreached(),
                };
                let mut old_parent = boundary.clone();
                std::mem::swap(parent.keys.index_mut(separator_index), &mut old_parent);
                let child = match left_internal.children.pop() {
                    Some(child) => child,
                    None => unreached(),
                };
                right_internal.keys.insert(0, old_parent);
                right_internal.children.insert(0, child);
                proof {
                    assert(keys_of(lk.drop_last()) =~= keys_of(lk).drop_last());
                    assert(keys_of(rk.insert(0, old_parent)) =~= keys_of(rk).insert(0, sep));
                }
                boundary
            },
            _ => unreached(),
        },
        NodeKind::Redirect(_) => unreached(),
    };
    // The boundary moves in both pages and in the separator above them at once.
    left.high_key = Some(boundary.clone());
    right.low_key = Some(boundary);
    proof {
        assert(keys_of(seps.update(separator_index as int, boundary)) =~= keys_of(seps).update(
            separator_index as int,
            boundary@,
        ));
        assert(left@ =~= l.without_last());
        assert(right@ =~= r.with_last_of(l, sep));
    }
}

/// Moves one record or edge from `right` onto the end of `left`.
pub fn borrow_from_right<K: Ord, V, R: Link, const N: usize>(
    parent: &mut InternalNode<K, R, N>,
    separator_index: usize,
    left: &mut Node<K, V, R, N>,
    right: &mut Node<K, V, R, N>,
)
    requires
        lawful::<K>(),
        N < usize::MAX,
        old(parent).stored(),
        separator_index < old(parent).seps().len(),
        old(left).wf(),
        old(right).wf(),
        adjacent(old(left)@, old(parent).seps()[separator_index as int], old(right)@),
        old(left)@.occupancy() < N,
        old(left)@.occupancy() >= 1 || old(left)@.opens_below(
            old(parent).seps()[separator_index as int],
        ),
        old(right)@.occupancy() >= 2,
    ensures
        final(parent).stored(),
        final(parent).seps() == old(parent).seps().update(
            separator_index as int,
            old(right)@.first_boundary(),
        ),
        final(parent).kids() == old(parent).kids(),
        final(left).wf(),
        final(left)@ == old(left)@.with_first_of(
            old(right)@,
            old(parent).seps()[separator_index as int],
        ),
        final(right).wf(),
        final(right)@ == old(right)@.without_first(),
{
    let ghost l = left@;
    let ghost r = right@;
    let ghost sep = parent.seps()[separator_index as int];
    let ghost seps = parent.keys@;
    proof {
        lemma_borrow_right(l, sep, r, N as int);
    }
    let boundary = match &mut left.kind {
        NodeKind::Leaf(left_leaf) => match &mut right.kind {
            NodeKind::Leaf(right_leaf) => {
                let ghost ls = left_leaf.entries@;
                let ghost rs = right_leaf.entries@;
                let entry = right_leaf.entries.remove(0);
                left_leaf.entries.push(entry);
                let boundary = right_leaf.entries.index(0).key.clone();
                *parent.keys.index_mut(separator_index) = boundary.clone();
                proof {
                    assert(records(rs.remove(0)) =~= records(rs).remove(0));
                    assert(records(ls.push(rs[0])) =~= records(ls).push(records(rs)[0]));
                }
                boundary
            },
            _ => unreached(),
        },
        NodeKind::Internal(left_internal) => match &mut right.kind {
            NodeKind::Internal(right_internal) => {
                let ghost lk = left_internal.keys@;
                let ghost rk = right_internal.keys@;
                let boundary = right_internal.keys.remove(0);
                let mut old_parent = boundary.clone();
                std::mem::swap(parent.keys.index_mut(separator_index), &mut old_parent);
                let child = right_internal.children.remove(0);
                left_internal.keys.push(old_parent);
                left_internal.children.push(child);
                proof {
                    assert(keys_of(rk.remove(0)) =~= keys_of(rk).remove(0));
                    assert(keys_of(lk.push(old_parent)) =~= keys_of(lk).push(sep));
                }
                boundary
            },
            _ => unreached(),
        },
        NodeKind::Redirect(_) => unreached(),
    };
    left.high_key = Some(boundary.clone());
    right.low_key = Some(boundary);
    proof {
        assert(keys_of(seps.update(separator_index as int, boundary)) =~= keys_of(seps).update(
            separator_index as int,
            boundary@,
        ));
        assert(left@ =~= l.with_first_of(r, sep));
        assert(right@ =~= r.without_first());
    }
}

/// Deferred physical sibling-chain repair after merging left into right.
pub struct MergeRepair<R: Link> {
    /// Page that preceded the retired left page, when one existed.
    pub predecessor: Option<R::Back>,
    /// Retired forwarding page still reachable through a stale predecessor.
    pub retired: R,
    /// Active survivor that replaced `retired`.
    pub survivor: R,
}

/// Merges an adjacent left page into its right sibling and retires the left.
///
/// Keys move toward a surviving right page. A stale handle to the left sees a
/// forwarding state while the parent's left child pointer is removed.
pub fn merge_left_into_right<K: Ord, V, R: Link, const N: usize>(
    parent: &mut InternalNode<K, R, N>,
    left_index: usize,
    left_ref: &R,
    left: &mut Node<K, V, R, N>,
    right_ref: &R,
    right: &mut Node<K, V, R, N>,
) -> (repair: MergeRepair<R>)
    requires
        lawful::<K>(),
        N < usize::MAX,
        old(parent).stored(),
        left_index < old(parent).seps().len(),
        old(parent).kids().len() == old(parent).seps().len() + 1,
        old(left).wf(),
        old(right).wf(),
        adjacent(old(left)@, old(parent).seps()[left_index as int], old(right)@),
        1 <= old(left)@.occupancy(),
        1 <= old(right)@.occupancy(),
        old(left)@.occupancy() + old(right)@.occupancy() + (if old(left)@.body is Leaf {
            0int
        } else {
            1
        }) <= N,
    ensures
        final(parent).stored(),
        final(parent).seps() == old(parent).seps().remove(left_index as int),
        final(parent).kids() == old(parent).kids().remove(left_index as int),
        final(left).wf(),
        final(left)@ == old(left)@.retired_to(*right_ref),
        final(right).wf(),
        final(right)@ == old(right)@.merged_with(
            old(left)@,
            old(parent).seps()[left_index as int],
        ),
        back::<R>(repair.predecessor) == old(left)@.previous,
        repair.retired == *left_ref,
        repair.survivor == *right_ref,
{
    let ghost l = left@;
    let ghost r = right@;
    let ghost sep = parent.seps()[left_index as int];
    let ghost seps = parent.keys@;
    proof {
        lemma_merge(l, sep, r, N as int);
    }
    let separator = parent.keys.remove(left_index);
    let _ = parent.children.remove(left_index);
    match &mut left.kind {
        NodeKind::Leaf(left_leaf) => match &mut right.kind {
            NodeKind::Leaf(right_leaf) => {
                // Leaf separators are duplicated metadata, so removing the
                // parent copy is sufficient.
                let ghost ls = left_leaf.entries@;
                let ghost rs = right_leaf.entries@;
                right_leaf.entries.prepend_from(&mut left_leaf.entries);
                proof {
                    assert(records(ls + rs) =~= records(ls) + records(rs));
                }
            },
            _ => unreached(),
        },
        NodeKind::Internal(left_internal) => match &mut right.kind {
            NodeKind::Internal(right_internal) => {
                let ghost lk = left_internal.keys@;
                let ghost rk = right_internal.keys@;
                right_internal.keys.insert(0, separator);
                right_internal.keys.prepend_from(&mut left_internal.keys);
                right_internal.children.prepend_from(&mut left_internal.children);
                proof {
                    assert(keys_of(lk + rk.insert(0, separator)) =~= keys_of(lk) + keys_of(
                        rk,
                    ).insert(0, sep));
                }
            },
            _ => unreached(),
        },
        NodeKind::Redirect(_) => unreached(),
    }
    let predecessor = match &left.previous {
        Some(link) => Some(R::share_back(link)),
        None => None,
    };
    right.low_key = left.low_key.take();
    right.previous = match &predecessor {
        Some(link) => Some(R::share_back(link)),
        None => None,
    };
    left.kind = NodeKind::Redirect(right_ref.share());
    proof {
        assert(keys_of(seps.remove(left_index as int)) =~= keys_of(seps).remove(
            left_index as int,
        ));
        assert(left@ =~= l.retired_to(*right_ref));
        assert(right@ =~= r.merged_with(l, sep));
    }
    MergeRepair { predecessor, retired: left_ref.share(), survivor: right_ref.share() }
}

/// Where a search goes from a page.
pub enum Seek<R> {
    /// The route was stale; start again at the current root.
    Restart,
    /// Go on at this page.
    Visit(R),
    /// This leaf owns the key's range.
    Arrived,
}

/// Result of a fast insertion that either completed or retained its arguments
/// for a split-capable retry.
pub enum FastInsert<K, V> {
    /// The insertion or replacement completed: the replaced value, and whether
    /// a record was added.
    Done(Option<V>, bool),
    /// The destination was full and neither user object was consumed.
    Reshape(K, V),
}

/// Outcome of one top-down insertion pass.
pub enum InsertAttempt<K, V> {
    /// The insertion or replacement completed.
    Done(Option<V>),
    /// The pass met a full root or a page that changed under it, and neither
    /// user object was consumed.
    Retry(K, V),
}

/// What one page decides in a top-down insertion pass.
pub enum InsertStep<K, V, R> {
    /// The pass is stale or the page is full; retry from the root.
    Retry(K, V),
    /// Go on at a same-level successor or a forwarding target.
    Right(R, K, V),
    /// The leaf mutation completed: the replaced value, and whether a record
    /// was added.
    Done(Option<V>, bool),
    /// Go on at this child, which has to be split first when it is full.
    Child(usize, R, K, V),
}

/// Result of the single-leaf deletion fast path.
pub enum FastRemove<V> {
    /// The lookup or removal completed without threatening minimum occupancy.
    Done(Option<V>),
    /// The key exists in a minimally occupied non-root leaf.
    Reshape,
}

/// Outcome of one top-down deletion pass.
pub enum RemoveAttempt<V> {
    /// The lookup or removal completed.
    Done(Option<V>),
    /// The pass met a page that changed under it.
    Retry,
}

/// What one page decides in a top-down deletion pass.
pub enum RemoveStep<V, R> {
    /// The pass is stale or the page is unsafe; retry from the root.
    Retry,
    /// Go on at a same-level successor or a forwarding target.
    Right(R),
    /// The lookup or removal completed.
    Done(Option<V>),
    /// Go on at one of these neighbouring children, the first of which is the
    /// child at the index, after it was made safe with the help of the other:
    /// at the second one if the flag is set.
    Pair(usize, R, R, bool),
}

/// How two siblings were balanced before a descent into one of them.
pub enum Balance<R: Link> {
    /// The child was safe already.
    Kept,
    /// One record or edge moved into the child.
    Borrowed,
    /// The left page was merged into the right one, whose link needs repair.
    Merged(MergeRepair<R>),
}

impl<R: Link> Balance<R> {
    /// Whether a pass goes on at the second child of a pair: where it was bound
    /// for it, or where the first one was merged into it.
    pub fn continues_right(&self, right_child: bool) -> (b: bool)
        ensures
            b == (right_child || self is Merged),
    {
        match self {
            Balance::Merged(_) => true,
            _ => right_child,
        }
    }
}

impl<K: Ord, V, R: Link, const N: usize> Node<K, V, R, N> {
    /// Whether this is an active leaf.
    pub fn is_leaf(&self) -> (b: bool)
        ensures
            b == (self@.body is Leaf),
    {
        matches!(self.kind, NodeKind::Leaf(_))
    }

    /// Whether this page is the published root.
    pub fn is_root(&self) -> (b: bool)
        ensures
            b == self@.is_root,
    {
        self.is_root
    }

    /// The page to which a retired page forwards.
    pub fn redirect_target(&self) -> (target: Option<R>)
        ensures
            target == (if let Body::Redirect(r) = self@.body {
                Some(r)
            } else {
                None
            }),
    {
        match &self.kind {
            NodeKind::Redirect(target) => Some(target.share()),
            _ => None,
        }
    }

    /// The same-level successor.
    pub fn successor(&self) -> (link: Option<R>)
        ensures
            link == self@.right,
    {
        match &self.right {
            Some(link) => Some(link.share()),
            None => None,
        }
    }

    /// The same-level predecessor.
    pub fn predecessor(&self) -> (link: Option<R::Back>)
        ensures
            back::<R>(link) == self@.previous,
    {
        match &self.previous {
            Some(link) => Some(R::share_back(link)),
            None => None,
        }
    }

    /// The `index`th child of an internal page.
    pub fn child(&self, index: usize) -> (link: Option<R>)
        ensures
            link == (if index < self@.children().len() {
                Some(self@.children()[index as int])
            } else {
                None
            }),
    {
        match &self.kind {
            NodeKind::Internal(internal) => match internal.children.get(index) {
                Some(link) => Some(link.share()),
                None => None,
            },
            _ => None,
        }
    }

    /// The key handle of a record of a leaf page.
    pub fn key_at(&self, index: usize) -> (key: KeyHandle<K>)
        requires
            index < self@.items().len(),
        ensures
            key@ == self@.items()[index as int].0,
    {
        match &self.kind {
            NodeKind::Leaf(leaf) => leaf.entries.index(index).key.clone(),
            _ => unreached(),
        }
    }

    /// A record of a leaf page.
    pub fn record_at(&self, index: usize) -> (record: (&K, &V))
        requires
            index < self@.items().len(),
        ensures
            *record.0 == self@.items()[index as int].0,
            *record.1 == self@.items()[index as int].1,
    {
        match &self.kind {
            NodeKind::Leaf(leaf) => {
                let entry = leaf.entries.index(index);
                (entry.key.get(), &entry.value)
            },
            _ => unreached(),
        }
    }

    /// A record of a leaf page, with its value open to change.
    pub fn record_at_mut(&mut self, index: usize) -> (record: (&K, &mut V))
        requires
            old(self).wf(),
            index < old(self)@.items().len(),
        ensures
            *record.0 == old(self)@.items()[index as int].0,
            *record.1 == old(self)@.items()[index as int].1,
            final(self)@ == old(self)@.with_items(
                old(self)@.items().update(
                    index as int,
                    (old(self)@.items()[index as int].0, *final(record.1)),
                ),
            ),
            final(self).wf(),
    {
        proof {
            lemma_leaf_update(old(self)@, N as int, index as int);
        }
        match &mut self.kind {
            NodeKind::Leaf(leaf) => {
                proof {
                    let s = leaf.entries@;
                    let i = index as int;
                    assert forall|e: Entry<K, V>| #[trigger]
                        records(s.update(i, e)) == records(s).update(i, record(e)) by {
                        assert(records(s.update(i, e)) =~= records(s).update(i, record(e)));
                    }
                }
                let entry = leaf.entries.index_mut(index);
                (entry.key.get(), &mut entry.value)
            },
            _ => unreached(),
        }
    }

    /// Searches a leaf for a key or its insertion position.
    pub fn search<P: Probe<K> + ?Sized>(&self, probe: &P) -> (found: Result<usize, usize>)
        requires
            lawful::<K>(),
            P::probes(),
            self.wf(),
            self@.body is Leaf,
        ensures
            holds(self@.items(), cut(probe)) ==> found == Ok::<usize, usize>(
                rank(self@.items(), cut(probe)) as usize,
            ),
            !holds(self@.items(), cut(probe)) ==> found == Err::<usize, usize>(
                rank(self@.items(), cut(probe)) as usize,
            ),
            0 <= rank(self@.items(), cut(probe)) <= self@.items().len() <= usize::MAX,
            match found {
                Ok(index) => index < self@.items().len() && probe.side_spec(
                    self@.items()[index as int].0,
                ) == Side::At,
                Err(index) => {
                    &&& index <= self@.items().len()
                    &&& forall|i: int|
                        0 <= i < self@.items().len() ==> probe.side_spec(
                            (#[trigger] self@.items()[i]).0,
                        ) == (if i < index {
                            Side::After
                        } else {
                            Side::Before
                        })
                },
            },
    {
        match &self.kind {
            NodeKind::Leaf(leaf) => leaf.search(probe),
            _ => unreached(),
        }
    }

    /// Decides where a search for the leaf that owns a key goes from here.
    pub fn seek<P: Probe<K> + ?Sized>(&self, probe: &P) -> (seek: Seek<R>)
        requires
            lawful::<K>(),
            P::probes(),
            self.wf(),
        ensures
            match self@.route(cut(probe)) {
                Route::Restart => seek is Restart,
                Route::Right(next) => seek == Seek::Visit(next),
                Route::Here => match self@.body {
                    Body::Internal(k, c) => {
                        &&& 0 <= child_slot(k, cut(probe)) < c.len()
                        &&& seek == Seek::Visit(c[child_slot(k, cut(probe))])
                    },
                    _ => seek is Arrived,
                },
            },
    {
        match self.route(probe) {
            Route::Restart => Seek::Restart,
            Route::Right(next) => Seek::Visit(next),
            Route::Here => match &self.kind {
                NodeKind::Internal(internal) => {
                    let index = internal.child_index(probe);
                    Seek::Visit(internal.children.index(index).share())
                },
                _ => Seek::Arrived,
            },
        }
    }

    /// Attempts a replacement or a non-splitting insert in the leaf that owns
    /// the key.
    pub fn fast_insert(&mut self, key: K, value: V) -> (result: FastInsert<K, V>)
        requires
            lawful::<K>(),
            old(self).wf(),
            old(self)@.body is Leaf,
            old(self)@.owns(cut_of(key)),
        ensures
            final(self).wf(),
            if !holds(old(self)@.items(), cut_of(key)) && old(self)@.occupancy() == N {
                &&& result == FastInsert::Reshape(key, value)
                &&& final(self)@ == old(self)@
            } else {
                &&& result == FastInsert::<K, V>::Done(
                    lookup(old(self)@.items(), cut_of(key)),
                    !holds(old(self)@.items(), cut_of(key)),
                )
                &&& final(self)@ == old(self)@.with_items(
                    inserted(old(self)@.items(), key, value),
                )
            },
    {
        assert(cut(&key) =~= cut_of(key));
        match &mut self.kind {
            NodeKind::Leaf(leaf) => {
                if leaf.search(&key).is_err() && leaf.entries.len() == N {
                    return FastInsert::Reshape(key, value);
                }
                proof {
                    lemma_leaf_insert(old(self)@, N as int, key, value);
                }
                let (replaced, inserted) = leaf.insert(key, value);
                FastInsert::Done(replaced, inserted)
            },
            _ => unreached(),
        }
    }

    /// Attempts a removal, in the leaf that owns the key, that leaves it at or
    /// above its minimum.
    pub fn fast_remove<P: Probe<K> + ?Sized>(&mut self, probe: &P) -> (result: FastRemove<V>)
        requires
            lawful::<K>(),
            P::probes(),
            old(self).wf(),
            old(self)@.body is Leaf,
        ensures
            final(self).wf(),
            if !holds(old(self)@.items(), cut(probe)) {
                result == FastRemove::<V>::Done(None) && final(self)@ == old(self)@
            } else if !old(self)@.is_root && old(self)@.occupancy() <= N / 2 {
                result == FastRemove::<V>::Reshape && final(self)@ == old(self)@
            } else {
                &&& result == FastRemove::<V>::Done(lookup(old(self)@.items(), cut(probe)))
                &&& final(self)@ == old(self)@.with_items(
                    removed(old(self)@.items(), cut(probe)),
                )
            },
    {
        let is_root = self.is_root;
        proof {
            probe.lemma_probe_consistent();
            lemma_leaf_remove(old(self)@, N as int, cut(probe));
        }
        match &mut self.kind {
            NodeKind::Leaf(leaf) => {
                let index = match leaf.search(probe) {
                    Ok(index) => index,
                    Err(_) => return FastRemove::Done(None),
                };
                if !is_root && leaf.entries.len() <= N / 2 {
                    return FastRemove::Reshape;
                }
                FastRemove::Done(Some(leaf.take(index)))
            },
            _ => unreached(),
        }
    }

    /// Decides one step of a top-down insertion pass, and makes the insertion
    /// in the leaf that owns the key.
    pub fn insert_step(&mut self, key: K, value: V) -> (step: InsertStep<K, V, R>)
        requires
            lawful::<K>(),
            old(self).wf(),
        ensures
            final(self).wf(),
            match old(self)@.route(cut_of(key)) {
                Route::Restart => {
                    step == InsertStep::<K, V, R>::Retry(key, value) && final(self)@ == old(self)@
                },
                Route::Right(next) => {
                    step == InsertStep::<K, V, R>::Right(next, key, value) && final(self)@ == old(
                        self,
                    )@
                },
                Route::Here => {
                    if old(self)@.occupancy() == N {
                        step == InsertStep::<K, V, R>::Retry(key, value) && final(self)@ == old(
                            self,
                        )@
                    } else {
                        match old(self)@.body {
                            Body::Internal(k, c) => {
                                let i = child_slot(k, cut_of(key));
                                &&& 0 <= i < c.len()
                                &&& step == InsertStep::<K, V, R>::Child(
                                    i as usize,
                                    c[i],
                                    key,
                                    value,
                                )
                                &&& i <= usize::MAX
                                &&& final(self)@ == old(self)@
                            },
                            _ => {
                                &&& step == InsertStep::<K, V, R>::Done(
                                    lookup(old(self)@.items(), cut_of(key)),
                                    !holds(old(self)@.items(), cut_of(key)),
                                )
                                &&& final(self)@ == old(self)@.with_items(
                                    inserted(old(self)@.items(), key, value),
                                )
                            },
                        }
                    }
                },
            },
    {
        assert(cut(&key) =~= cut_of(key));
        match self.route(&key) {
            Route::Restart => return InsertStep::Retry(key, value),
            Route::Right(next) => return InsertStep::Right(next, key, value),
            Route::Here => {},
        }
        // A page can become full after its parent was released because another
        // writer reached it first. Retrying lets the pass split it from its
        // parent.
        if self.occupancy() == N {
            return InsertStep::Retry(key, value);
        }
        match &mut self.kind {
            NodeKind::Leaf(leaf) => {
                proof {
                    lemma_leaf_insert(old(self)@, N as int, key, value);
                }
                let (replaced, inserted) = leaf.insert(key, value);
                InsertStep::Done(replaced, inserted)
            },
            NodeKind::Internal(internal) => {
                let index = internal.child_index(&key);
                let link = internal.children.index(index).share();
                InsertStep::Child(index, link, key, value)
            },
            NodeKind::Redirect(_) => unreached(),
        }
    }

    /// Decides one step of a top-down deletion pass, and makes the removal in
    /// the leaf that owns the key.
    pub fn remove_step<P: Probe<K> + ?Sized>(&mut self, probe: &P) -> (step: RemoveStep<V, R>)
        requires
            lawful::<K>(),
            P::probes(),
            N > 0,
            old(self).wf(),
        ensures
            final(self).wf(),
            match old(self)@.route(cut(probe)) {
                Route::Restart => step == RemoveStep::<V, R>::Retry && final(self)@ == old(self)@,
                Route::Right(next) => step == RemoveStep::<V, R>::Right(next) && final(self)@
                    == old(self)@,
                Route::Here => {
                    if !old(self)@.is_root && old(self)@.occupancy() <= old(self)@.minimum(
                        N as int,
                    ) {
                        step == RemoveStep::<V, R>::Retry && final(self)@ == old(self)@
                    } else {
                        match old(self)@.body {
                            Body::Internal(k, c) => {
                                let i = child_slot(k, cut(probe));
                                &&& 0 <= i < c.len() <= usize::MAX
                                &&& step == (if i == 0 && c.len() < 2 {
                                    RemoveStep::<V, R>::Retry
                                } else if i == 0 {
                                    RemoveStep::<V, R>::Pair(0, c[0], c[1], false)
                                } else {
                                    RemoveStep::<V, R>::Pair((i - 1) as usize, c[i - 1], c[i], true)
                                })
                                &&& final(self)@ == old(self)@
                            },
                            _ => {
                                &&& step == RemoveStep::<V, R>::Done(
                                    lookup(old(self)@.items(), cut(probe)),
                                )
                                &&& final(self)@ == old(self)@.with_items(
                                    removed(old(self)@.items(), cut(probe)),
                                )
                            },
                        }
                    }
                },
            },
    {
        proof {
            probe.lemma_probe_consistent();
            if old(self)@.body is Leaf {
                lemma_leaf_remove(old(self)@, N as int, cut(probe));
            }
        }
        match self.route(probe) {
            Route::Restart => return RemoveStep::Retry,
            Route::Right(next) => return RemoveStep::Right(next),
            Route::Here => {},
        }
        // A concurrent pass can change this page after its parent was
        // released. Retrying lets its parent first make it deletion-safe.
        if !self.is_root && self.occupancy() <= self.minimum() {
            return RemoveStep::Retry;
        }
        match &mut self.kind {
            NodeKind::Leaf(leaf) => match leaf.search(probe) {
                Ok(index) => RemoveStep::Done(Some(leaf.take(index))),
                Err(_) => RemoveStep::Done(None),
            },
            NodeKind::Internal(internal) => {
                let index = internal.child_index(probe);
                // The first child has no left donor and is paired with its
                // right sibling.
                if index == 0 && internal.children.len() < 2 {
                    return RemoveStep::Retry;
                }
                let at: usize = if index > 0 {
                    index - 1
                } else {
                    0
                };
                RemoveStep::Pair(
                    at,
                    internal.children.index(at).share(),
                    internal.children.index(at + 1).share(),
                    index > 0,
                )
            },
            NodeKind::Redirect(_) => unreached(),
        }
    }
}

/// What a page on the way to a retired page decides when the retired page is
/// spliced out of the sibling chain.
pub enum LinkRepair<R: Link> {
    /// This page is retired itself: go on at its predecessor or, without one,
    /// at the page to which it forwards.
    Restart(Option<R::Back>, R),
    /// The chain ends here; the survivor has no predecessor.
    Leftmost,
    /// This page led to the retired page and now leads to the survivor.
    Replaced,
    /// This page leads to the survivor already.
    Attached,
    /// Look at this successor.
    Next(R),
}

/// What became of a page that another one led to while a link was repaired.
pub enum LinkPass {
    /// It is active; look at it next.
    Advance,
    /// It was retired and is no longer in the chain.
    Compacted,
    /// It was retired and forwarded to the survivor, to which the page before
    /// it now leads.
    Joined,
}

/// The state of a search for the first or the last record along a chain of
/// leaves.
pub enum Scan<R> {
    /// The record at this index of this leaf.
    Found(usize),
    /// Go on at this page.
    Next(R),
    /// There is no such record.
    End,
    /// The page is not where the search was bound for; start again at the root.
    Restart,
}

/// The state of a search for the least record behind a key along a chain of
/// leaves.
pub enum Pursuit<K, R> {
    /// The record at this index of this leaf.
    Found(usize),
    /// Go on at this page, where all keys below this fence were passed.
    Next(R, Option<KeyHandle<K>>),
    /// There is no such record.
    End,
    /// Records may have moved behind the search; start again at the root.
    Restart,
}

impl<K: Ord, V, R: Link, const N: usize> Node<K, V, R, N> {
    /// Splits the full child `index` of this page and installs its new right
    /// sibling, which will be put at `right_ref`.
    pub fn split_child(
        &mut self,
        index: usize,
        child: &mut Self,
        child_ref: &R,
        right_ref: &R,
    ) -> (split: Split<K, V, R, N>)
        requires
            lawful::<K>(),
            3 <= N < usize::MAX,
            old(self).wf(),
            old(self)@.body is Internal,
            old(self)@.occupancy() < N,
            index < old(self)@.children().len(),
            old(child).wf(),
            old(child)@.body !is Redirect,
            old(child)@.occupancy() == N,
            old(child)@.low == old(self)@.child_low(index as int),
            old(child)@.high == old(self)@.child_high(index as int),
        ensures
            final(self).wf(),
            final(self)@ == old(self)@.with_split(
                index as int,
                old(child)@.split_key(N as int),
                *right_ref,
            ),
            final(child).wf(),
            final(child)@ == old(child)@.left_half(N as int, *right_ref),
            split.right.wf(),
            split.right@ == old(child)@.right_half(N as int, *child_ref),
            split.separator@ == old(child)@.split_key(N as int),
            split.old_successor == old(child)@.right,
    {
        proof {
            let key = child@.split_key(N as int);
            lemma_split(child@, N as int, *right_ref, *child_ref);
            lemma_with_split(self@, N as int, index as int, key, *right_ref);
        }
        let split = child.split_full(child_ref, right_ref);
        match &mut self.kind {
            NodeKind::Internal(internal) => {
                internal.insert_split(index, split.separator.clone(), right_ref.share());
            },
            _ => unreached(),
        }
        split
    }

    /// Makes one of two adjacent children of this page safe for a deletion in
    /// it: a child at its minimum borrows from its sibling or, where that is
    /// at its minimum too, the left one is merged into the right one.
    ///
    /// `left_ref` and `right_ref` lead to the children `index` and
    /// `index + 1`; `right_child` tells in which of them the deletion goes on.
    pub fn balance(
        &mut self,
        index: usize,
        left_ref: &R,
        left: &mut Self,
        right_ref: &R,
        right: &mut Self,
        right_child: bool,
    ) -> (balance: Balance<R>)
        requires
            lawful::<K>(),
            3 <= N < usize::MAX,
            old(self).wf(),
            old(self)@.body is Internal,
            index < old(self)@.keys().len(),
            old(left).wf(),
            old(right).wf(),
            adjacent(old(left)@, old(self)@.keys()[index as int], old(right)@),
            old(left)@.low == old(self)@.child_low(index as int),
            old(right)@.high == old(self)@.child_high(index + 1),
            old(left)@.occupancy() >= old(left)@.minimum(N as int),
            old(right)@.occupancy() >= old(right)@.minimum(N as int),
        ensures
            final(self).wf(),
            final(left).wf(),
            final(right).wf(),
            ({
                let separator = old(self)@.keys()[index as int];
                let child = if right_child {
                    old(right)@
                } else {
                    old(left)@
                };
                let sibling = if right_child {
                    old(left)@
                } else {
                    old(right)@
                };
                if child.occupancy() > child.minimum(N as int) {
                    &&& balance == Balance::<R>::Kept
                    &&& final(self)@ == old(self)@
                    &&& final(left)@ == old(left)@
                    &&& final(right)@ == old(right)@
                } else if sibling.occupancy() <= sibling.minimum(N as int) {
                    &&& balance matches Balance::Merged(repair) && {
                        &&& back::<R>(repair.predecessor) == old(left)@.previous
                        &&& repair.retired == *left_ref
                        &&& repair.survivor == *right_ref
                    }
                    &&& final(self)@ == old(self)@.without_child(index as int)
                    &&& final(left)@ == old(left)@.retired_to(*right_ref)
                    &&& final(right)@ == old(right)@.merged_with(old(left)@, separator)
                } else if right_child {
                    &&& balance == Balance::<R>::Borrowed
                    &&& final(self)@ == old(self)@.with_key(
                        index as int,
                        old(left)@.last_boundary(),
                    )
                    &&& final(left)@ == old(left)@.without_last()
                    &&& final(right)@ == old(right)@.with_last_of(old(left)@, separator)
                } else {
                    &&& balance == Balance::<R>::Borrowed
                    &&& final(self)@ == old(self)@.with_key(
                        index as int,
                        old(right)@.first_boundary(),
                    )
                    &&& final(left)@ == old(left)@.with_first_of(old(right)@, separator)
                    &&& final(right)@ == old(right)@.without_first()
                }
            }),
    {
        let left_spare = left.occupancy() > left.minimum();
        let right_spare = right.occupancy() > right.minimum();
        if if right_child {
            right_spare
        } else {
            left_spare
        } {
            return Balance::Kept;
        }
        proof {
            lemma_order::<K>();
            let n = N as int;
            let separator = self@.keys()[index as int];
            assert(between(separator, self@.low, self@.high));
            if right_child && left_spare {
                lemma_borrow_left(left@, separator, right@, n);
                assert(index + 1 < self@.keys().len() ==> lt(separator, self@.keys()[index + 1]));
                lemma_with_key(self@, n, index as int, left@.last_boundary());
            } else if !right_child && right_spare {
                lemma_borrow_right(left@, separator, right@, n);
                assert(index > 0 ==> lt(self@.keys()[index - 1], separator));
                lemma_with_key(self@, n, index as int, right@.first_boundary());
            } else {
                lemma_without_child(self@, n, index as int);
            }
        }
        match &mut self.kind {
            NodeKind::Internal(internal) => {
                if right_child && left_spare {
                    borrow_from_left(internal, index, left, right);
                    Balance::Borrowed
                } else if !right_child && right_spare {
                    borrow_from_right(internal, index, left, right);
                    Balance::Borrowed
                } else {
                    Balance::Merged(
                        merge_left_into_right(internal, index, left_ref, left, right_ref, right),
                    )
                }
            },
            _ => unreached(),
        }
    }

    /// Takes the role of the root from a page.
    pub fn demote(&mut self)
        requires
            old(self).wf(),
        ensures
            final(self).wf(),
            final(self)@ == (Page { is_root: false, ..old(self)@ }),
    {
        self.is_root = false;
    }

    /// The page that has to become root in place of this one: the only child
    /// of an empty internal page, or the page to which a retired one forwards.
    pub fn heir(&self) -> (link: Option<R>)
        requires
            self.wf(),
        ensures
            link == (match self@.body {
                Body::Internal(k, c) => if k.len() == 0 {
                    Some(c[0])
                } else {
                    None
                },
                Body::Redirect(target) => Some(target),
                Body::Leaf(_) => None,
            }),
    {
        match &self.kind {
            NodeKind::Internal(internal) => if internal.keys.is_empty() {
                Some(internal.children.index(0).share())
            } else {
                None
            },
            NodeKind::Redirect(target) => Some(target.share()),
            NodeKind::Leaf(_) => None,
        }
    }

    /// Makes a page the root. It then covers the complete key space and has
    /// no peer at its level.
    pub fn crown(&mut self)
        requires
            old(self).wf(),
        ensures
            final(self).wf(),
            final(self)@ == (Page {
                is_root: true,
                low: None::<K>,
                high: None::<K>,
                previous: None::<R>,
                right: None::<R>,
                body: old(self)@.body,
            }),
    {
        self.low_key = None;
        self.high_key = None;
        self.previous = None;
        self.right = None;
        self.is_root = true;
        proof {
            lemma_unfenced(old(self)@, self@, N as int);
        }
    }

    /// Retires a root in favour of its heir.
    pub fn abdicate(&mut self, heir: R)
        ensures
            final(self).wf(),
            final(self)@ == (Page {
                is_root: false,
                low: None::<K>,
                high: None::<K>,
                previous: None::<R>,
                right: None::<R>,
                body: Body::<K, V, R>::Redirect(heir),
            }),
    {
        self.is_root = false;
        self.kind = NodeKind::Redirect(heir);
        self.low_key = None;
        self.high_key = None;
        self.previous = None;
        self.right = None;
    }

    /// Whether this page is active and still leads to `successor`.
    pub fn leads_to(&self, successor: &R) -> (b: bool)
        ensures
            b == (self@.body !is Redirect && self@.right == Some(*successor)),
    {
        if let NodeKind::Redirect(_) = &self.kind {
            return false;
        }
        match &self.right {
            Some(right) => right.same(successor),
            None => false,
        }
    }

    /// Leads this page to another successor.
    pub fn set_successor(&mut self, link: R)
        requires
            old(self).wf(),
        ensures
            final(self).wf(),
            final(self)@ == (Page { right: Some(link), ..old(self)@ }),
    {
        self.right = Some(link);
    }

    /// Takes the predecessor of this page away.
    pub fn clear_predecessor(&mut self)
        requires
            old(self).wf(),
        ensures
            final(self).wf(),
            final(self)@ == (Page { previous: None, ..old(self)@ }),
    {
        self.previous = None;
    }

    /// Gives an active page another predecessor. A retired page takes none and
    /// returns the page to which it forwards instead.
    pub fn adopt_predecessor(&mut self, link: &R) -> (target: Option<R>)
        requires
            old(self).wf(),
        ensures
            final(self).wf(),
            match old(self)@.body {
                Body::Redirect(r) => target == Some(r) && final(self)@ == old(self)@,
                _ => target is None && final(self)@ == (Page {
                    previous: Some(*link),
                    ..old(self)@
                }),
            },
    {
        if let NodeKind::Redirect(target) = &self.kind {
            return Some(target.share());
        }
        self.previous = Some(link.weaken());
        None
    }

    /// Decides how this page takes part in splicing `retired` out of the
    /// sibling chain, and leads it to `survivor` where it led to `retired`.
    pub fn splice_step(&mut self, retired: &R, survivor: &R) -> (repair: LinkRepair<R>)
        requires
            old(self).wf(),
        ensures
            final(self).wf(),
            match (old(self)@.body, old(self)@.right) {
                (Body::Redirect(target), _) => {
                    &&& repair matches LinkRepair::Restart(earlier, forward) && {
                        &&& back::<R>(earlier) == old(self)@.previous
                        &&& forward == target
                    }
                    &&& final(self)@ == old(self)@
                },
                (_, None) => repair is Leftmost && final(self)@ == old(self)@,
                (_, Some(next)) => {
                    if next == *retired {
                        &&& repair is Replaced
                        &&& final(self)@ == (Page { right: Some(*survivor), ..old(self)@ })
                    } else if next == *survivor {
                        repair is Attached && final(self)@ == old(self)@
                    } else {
                        repair == LinkRepair::Next(next) && final(self)@ == old(self)@
                    }
                },
            },
    {
        if let NodeKind::Redirect(target) = &self.kind {
            let earlier = match &self.previous {
                Some(link) => Some(R::share_back(link)),
                None => None,
            };
            return LinkRepair::Restart(earlier, target.share());
        }
        let next = match &self.right {
            Some(link) => link.share(),
            None => return LinkRepair::Leftmost,
        };
        if next.same(retired) {
            self.right = Some(survivor.share());
            LinkRepair::Replaced
        } else if next.same(survivor) {
            LinkRepair::Attached
        } else {
            LinkRepair::Next(next)
        }
    }

    /// Names this page, which leads to `survivor`, as its predecessor. Where
    /// the survivor was retired in turn, this page is led to the page to which
    /// it forwards, which is returned.
    pub fn attach(&mut self, this: &R, survivor: &mut Self) -> (target: Option<R>)
        requires
            old(self).wf(),
            old(survivor).wf(),
        ensures
            final(self).wf(),
            final(survivor).wf(),
            match old(survivor)@.body {
                Body::Redirect(r) => {
                    &&& target == Some(r)
                    &&& final(self)@ == (Page { right: Some(r), ..old(self)@ })
                    &&& final(survivor)@ == old(survivor)@
                },
                _ => {
                    &&& target is None
                    &&& final(self)@ == old(self)@
                    &&& final(survivor)@ == (Page { previous: Some(*this), ..old(survivor)@ })
                },
            },
    {
        match survivor.adopt_predecessor(this) {
            Some(target) => {
                self.right = Some(target.share());
                Some(target)
            },
            None => None,
        }
    }

    /// Looks at the page behind this one, which is neither the retired page
    /// nor its survivor, and compacts it away when it was retired itself.
    pub fn splice_past(&mut self, next: &Self, survivor: &R) -> (pass: LinkPass)
        requires
            old(self).wf(),
        ensures
            final(self).wf(),
            match next@.body {
                Body::Redirect(target) => {
                    &&& final(self)@ == (Page { right: Some(target), ..old(self)@ })
                    &&& pass == (if target == *survivor {
                        LinkPass::Joined
                    } else {
                        LinkPass::Compacted
                    })
                },
                _ => pass is Advance && final(self)@ == old(self)@,
            },
    {
        match &next.kind {
            NodeKind::Redirect(target) => {
                self.right = Some(target.share());
                if target.same(survivor) {
                    LinkPass::Joined
                } else {
                    LinkPass::Compacted
                }
            },
            _ => LinkPass::Advance,
        }
    }

    /// Decides where a descent to the first leaf goes from here.
    pub fn descend_first(&self) -> (seek: Seek<R>)
        requires
            self.wf(),
        ensures
            seek == (match self@.body {
                Body::Internal(_, c) => Seek::Visit(c[0]),
                Body::Redirect(target) => Seek::Visit(target),
                Body::Leaf(_) => Seek::Arrived,
            }),
    {
        match &self.kind {
            NodeKind::Internal(internal) => Seek::Visit(internal.children.index(0).share()),
            NodeKind::Redirect(target) => Seek::Visit(target.share()),
            NodeKind::Leaf(_) => Seek::Arrived,
        }
    }

    /// Decides where a descent to the last leaf goes from here.
    pub fn descend_last(&self) -> (seek: Seek<R>)
        requires
            self.wf(),
        ensures
            seek == (match self@.body {
                Body::Internal(_, c) => Seek::Visit(c.last()),
                Body::Redirect(target) => Seek::Visit(target),
                Body::Leaf(_) => match self@.right {
                    Some(next) => Seek::Visit(next),
                    None => Seek::Arrived,
                },
            }),
    {
        match &self.kind {
            NodeKind::Internal(internal) => {
                let last = internal.children.len() - 1;
                Seek::Visit(internal.children.index(last).share())
            },
            NodeKind::Redirect(target) => Seek::Visit(target.share()),
            NodeKind::Leaf(_) => match &self.right {
                Some(next) => Seek::Visit(next.share()),
                None => Seek::Arrived,
            },
        }
    }

    /// Looks for the first record of all in this leaf, which is the first one.
    pub fn scan_first(&self) -> (scan: Scan<R>)
        requires
            self.wf(),
            self@.body !is Internal,
        ensures
            match self@.body {
                Body::Redirect(target) => scan == Scan::Next(target),
                _ => if self@.low is Some {
                    scan is Restart
                } else if self@.items().len() > 0 {
                    scan == Scan::<R>::Found(0)
                } else {
                    match self@.right {
                        Some(next) => scan == Scan::Next(next),
                        None => scan is End,
                    }
                },
            },
    {
        match &self.kind {
            NodeKind::Leaf(leaf) => if self.low_key.is_some() {
                Scan::Restart
            } else if leaf.entries.is_empty() {
                self.scan_right()
            } else {
                Scan::Found(0)
            },
            NodeKind::Redirect(target) => Scan::Next(target.share()),
            NodeKind::Internal(_) => unreached(),
        }
    }

    /// Looks for the last record of all. A leaf that has gained a successor is
    /// not the last one any more.
    pub fn scan_last(&self) -> (scan: Scan<R>)
        requires
            self.wf(),
            self@.body !is Internal,
        ensures
            match (self@.body, self@.right) {
                (Body::Redirect(target), _) => scan == Scan::Next(target),
                (_, Some(next)) => scan == Scan::Next(next),
                (_, None) => if self@.items().len() > 0 {
                    scan == Scan::<R>::Found((self@.items().len() - 1) as usize)
                } else {
                    scan is End
                },
            },
    {
        match &self.kind {
            NodeKind::Leaf(leaf) => if self.right.is_some() || leaf.entries.is_empty() {
                self.scan_right()
            } else {
                Scan::Found(leaf.entries.len() - 1)
            },
            NodeKind::Redirect(target) => Scan::Next(target.share()),
            NodeKind::Internal(_) => unreached(),
        }
    }

    /// Looks for the least record at or after a key, or after it, in this leaf.
    ///
    /// All keys below `passed`, the fence of the leaf that the search left, were
    /// looked at. Where this page does not own that fence any more, records may
    /// have moved to either side: the search goes on to the right, or starts
    /// again. Without a fence the search has just arrived at the leaf.
    pub fn scan_from<P: Probe<K> + ?Sized>(
        &self,
        probe: &P,
        inclusive: bool,
        passed: Option<KeyHandle<K>>,
    ) -> (scan: Pursuit<K, R>)
        requires
            lawful::<K>(),
            P::probes(),
            self.wf(),
            self@.body !is Internal,
            N < usize::MAX,
        ensures
            match self@.pursue(fence(passed)) {
                Route::Restart => scan is Restart,
                Route::Right(next) => scan == Pursuit::Next(next, passed),
                Route::Here => {
                    let s = self@.items();
                    let r = if inclusive {
                        rank(s, cut(probe))
                    } else {
                        rank_past(s, cut(probe))
                    };
                    &&& 0 <= r <= s.len()
                    &&& if r < s.len() {
                        scan == Pursuit::<K, R>::Found(r as usize)
                    } else {
                        match self@.right {
                            Some(next) => scan matches Pursuit::Next(link, left) && link == next
                                && fence(left) == self@.high,
                            None => scan is End,
                        }
                    }
                },
            },
    {
        if let NodeKind::Redirect(target) = &self.kind {
            return Pursuit::Next(target.share(), passed);
        }
        let route = match &passed {
            Some(left) => {
                assert(cut(&left@) =~= cut_of(left@));
                self.route(left.get())
            },
            None => Route::Here,
        };
        match route {
            Route::Restart => return Pursuit::Restart,
            Route::Right(next) => return Pursuit::Next(next, passed),
            Route::Here => {},
        }
        match &self.kind {
            NodeKind::Leaf(leaf) => {
                proof {
                    probe.lemma_probe_consistent();
                    lemma_rank(self@.items(), cut(probe));
                    lemma_past_around(Seq::empty(), self@.items(), Seq::empty(), cut(probe));
                }
                let index = match leaf.search(probe) {
                    Ok(index) => if inclusive {
                        index
                    } else {
                        index + 1
                    },
                    Err(index) => index,
                };
                if index < leaf.entries.len() {
                    return Pursuit::Found(index);
                }
                match &self.right {
                    Some(next) => Pursuit::Next(
                        next.share(),
                        match &self.high_key {
                            Some(high) => Some(high.clone()),
                            None => None,
                        },
                    ),
                    None => Pursuit::End,
                }
            },
            _ => unreached(),
        }
    }

    /// Goes on at the page behind this one, if there is one.
    fn scan_right(&self) -> (scan: Scan<R>)
        ensures
            match self@.right {
                Some(next) => scan == Scan::Next(next),
                None => scan is End,
            },
    {
        match &self.right {
            Some(next) => Scan::Next(next.share()),
            None => Scan::End,
        }
    }
}

} // verus!
