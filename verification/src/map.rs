//! The ordered map.

use vstd::arithmetic::power::pow;
use vstd::prelude::*;

use crate::check::{chain_limit, gather, grown, level_chains, Violation};
use crate::handle::{EntryMut, EntryRef};
use crate::iter::{keys_in, Bound, Bounds, Iter, Keys, Range, Values};
use crate::laws::{law_insert_len, law_remove_len};
use crate::meaning::{
    law_inserted, law_lookup, law_position, law_probe_range_records, law_removed,
};
use crate::order::{cut, cut_of, lawful, lemma_cut_consistent, lt, Probe, Side};
use crate::records::{holds, inserted, lemma_rank, lookup, rank, removed, sorted};
use crate::shape::Pages;
use crate::tree::Tree;

verus! {

/// The usual number of records or separators of a page.
pub const DEFAULT_PAGE_CAPACITY: usize = 32;

/// An ordered map backed by a B-link tree.
///
/// `N` is the exact capacity for separators or entries in a page, and must be
/// at least three. Full pages split before another item is inserted.
///
/// A map is described by its records in key order. Keys that are equal in key
/// order are the same key to the map; it keeps the one that was inserted first.
pub struct BLinkMap<K, V, const N: usize> {
    /// Internal page owner and algorithm implementation.
    tree: Tree<K, V, N>,
}

impl<K, V, const N: usize> View for BLinkMap<K, V, N> {
    type V = Seq<(K, V)>;

    closed spec fn view(&self) -> Seq<(K, V)> {
        self.tree@
    }
}

/// The records of a map after inserting entries one after the other.
pub open spec fn extended<K: Ord, V>(s: Seq<(K, V)>, entries: Seq<(K, V)>) -> Seq<(K, V)>
    decreases entries.len(),
{
    if entries.len() == 0 {
        s
    } else {
        inserted(extended(s, entries.drop_last()), entries.last().0, entries.last().1)
    }
}

impl<K, V, const N: usize> BLinkMap<K, V, N> {
    /// Whether the map consists of one empty page, as it was made.
    pub closed spec fn fresh(&self) -> bool {
        3 <= N < usize::MAX && self.tree.fresh()
    }

    /// The number of levels of pages.
    pub closed spec fn depth(&self) -> nat {
        self.tree.depth()
    }

    /// The value of the record counter.
    pub closed spec fn count(&self) -> usize {
        self.tree.count()
    }

    /// Creates an empty map with one allocated leaf page.
    pub fn new() -> (map: Self)
        requires
            3 <= N < usize::MAX,
        ensures
            map.fresh(),
            map@ == Seq::<(K, V)>::empty(),
            map.depth() == 1,
            map.count() == 0,
    {
        Self { tree: Tree::new() }
    }

    /// Returns the number of entries in the map.
    pub fn len(&self) -> (n: usize)
        ensures
            n == self.count(),
    {
        self.tree.len()
    }

    /// Returns true when the map has no entries.
    pub fn is_empty(&self) -> (b: bool)
        ensures
            b == (self.count() == 0),
    {
        self.len() == 0
    }

    /// Removes every entry and returns the map to one empty root leaf.
    pub fn clear(&mut self)
        requires
            3 <= N < usize::MAX,
        ensures
            final(self).fresh(),
            final(self)@ == Seq::<(K, V)>::empty(),
            final(self).depth() == 1,
            final(self).count() == 0,
    {
        self.tree = Tree::new();
    }
}

impl<K: Ord, V, const N: usize> BLinkMap<K, V, N> {
    /// Whether the pages of the map satisfy every invariant of a B-link tree.
    pub closed spec fn sound(&self) -> bool {
        self.tree.wf()
    }

    /// The invariant of a map.
    pub open spec fn wf(&self) -> bool {
        self.fresh() || self.sound()
    }

    /// What an exhaustive check of the pages finds.
    pub closed spec fn fault(&self) -> Option<Violation> {
        self.tree.fault()
    }

    /// The pages that are there, whether or not the map leads to them.
    pub closed spec fn graph(&self) -> Pages<K, V> {
        self.tree.graph()
    }

    /// The place of the published root among the pages.
    pub closed spec fn top(&self) -> usize {
        self.tree.top()
    }

    /// The exhaustive check finds nothing exactly when the root stands alone,
    /// all pages below it have grown as they should, the counter counts the
    /// records, and every level is one sibling chain. The records then ascend.
    pub proof fn law_check(&self)
        requires
            lawful::<K>(),
        ensures
            self.fault() is None <==> {
                let pages = self.graph();
                let root = self.top();
                let p = pages[root as int];
                &&& root < pages.len()
                &&& p.low is None && p.high is None
                &&& p.previous is None && p.right is None
                &&& gather(pages, root, pages.len()).len() == self.count()
                &&& exists|height: nat, rows: Seq<Seq<usize>>|
                    {
                        &&& #[trigger] grown(pages, N as int, root, true, height)
                        &&& height < pages.len()
                        &&& rows.len() == height + 1
                        &&& #[trigger] level_chains(
                            pages,
                            rows,
                            root,
                            chain_limit(self.count() as nat, rows.len()),
                        )
                    }
            },
            self.fault() is None ==> {
                let s = gather(self.graph(), self.top(), self.graph().len());
                forall|i: int, j: int|
                    0 <= i < j < s.len() ==> lt(
                        (#[trigger] s[i]).0,
                        (#[trigger] s[j]).0,
                    )
            },
    {
        self.tree.law_check();
    }

    /// The tree of a map satisfies its invariant.
    proof fn lemma_tree(&self)
        requires
            self.wf(),
        ensures
            self.tree.wf(),
            self@ == self.tree@,
    {
        if self.tree.fresh() && 3 <= N < usize::MAX {
            self.tree.lemma_fresh();
        }
    }

    /// The records of a map are in strictly ascending key order, and the
    /// counter is their number.
    pub proof fn law_sorted(&self)
        requires
            lawful::<K>(),
            self.wf(),
        ensures
            sorted(self@),
            forall|i: int, j: int|
                0 <= i < j < self@.len() ==> lt((#[trigger] self@[i]).0, (#[trigger] self@[j]).0),
            self.count() == self@.len(),
    {
        self.lemma_tree();
        self.tree.lemma_sorted();
    }

    /// Every map passes the exhaustive check of its pages.
    pub proof fn law_valid(&self)
        requires
            lawful::<K>(),
            self.wf(),
        ensures
            self.fault() is None,
    {
        self.lemma_tree();
        self.tree.lemma_valid();
    }

    /// The number of levels of a map bounds the number of its records from
    /// both sides, and a map without records has one level.
    pub proof fn law_capacity(&self)
        requires
            self.wf(),
        ensures
            self.depth() >= 1,
            self@.len() <= N * pow(N + 1, (self.depth() - 1) as nat),
            self.depth() > 1 ==> self@.len() >= (N as int / 2) * (2 * pow(
                (N - 1) / 2 + 1,
                (self.depth() - 2) as nat,
            )),
            self@.len() == 0 ==> self.depth() == 1,
    {
        self.lemma_tree();
        self.tree.lemma_capacity();
    }

    /// Returns the entry for `key`, or `None` when the key is absent.
    pub fn get<P: Probe<K> + ?Sized>(&self, key: &P) -> (entry: Option<EntryRef<'_, K, V, N>>)
        requires
            lawful::<K>(),
            P::probes(),
            self.wf(),
        ensures
            match entry {
                Some(entry) => holds(self@, cut(key)) && entry@ == self@[rank(self@, cut(key))],
                None => !holds(self@, cut(key)),
            },
            match entry {
                Some(entry) => self@.contains(entry@) && key.side_spec(entry@.0) == Side::At,
                None => forall|i: int|
                    0 <= i < self@.len() ==> key.side_spec((#[trigger] self@[i]).0) != Side::At,
            },
    {
        proof {
            self.lemma_tree();
            self.law_sorted();
            key.lemma_probe_consistent();
            law_position(self@, cut(key));
        }
        match self.tree.get(key) {
            Some(spot) => {
                let record = self.tree.record(spot);
                Some(EntryRef::new(record.0, record.1))
            },
            None => None,
        }
    }

    /// Returns the entry with both the stored key and value.
    ///
    /// This is an explicitly named counterpart to `get`.
    pub fn get_key_value<P: Probe<K> + ?Sized>(&self, key: &P) -> (entry: Option<
        EntryRef<'_, K, V, N>,
    >)
        requires
            lawful::<K>(),
            P::probes(),
            self.wf(),
        ensures
            match entry {
                Some(entry) => holds(self@, cut(key)) && entry@ == self@[rank(self@, cut(key))],
                None => !holds(self@, cut(key)),
            },
            match entry {
                Some(entry) => self@.contains(entry@) && key.side_spec(entry@.0) == Side::At,
                None => forall|i: int|
                    0 <= i < self@.len() ==> key.side_spec((#[trigger] self@[i]).0) != Side::At,
            },
    {
        self.get(key)
    }

    /// Returns the entry for `key` open to change, or `None` when the key is
    /// absent.
    pub fn get_mut<P: Probe<K> + ?Sized>(&mut self, key: &P) -> (entry: Option<
        EntryMut<'_, K, V, N>,
    >)
        requires
            lawful::<K>(),
            P::probes(),
            old(self).wf(),
        ensures
            final(self).wf(),
            match entry {
                Some(entry) => {
                    let r = rank(old(self)@, cut(key));
                    &&& holds(old(self)@, cut(key))
                    &&& 0 <= r < old(self)@.len()
                    &&& key.side_spec(old(self)@[r].0) == Side::At
                    &&& *entry.key == old(self)@[r].0
                    &&& *entry.value == old(self)@[r].1
                    &&& final(self)@ == old(self)@.update(
                        r,
                        (old(self)@[r].0, *final(entry.value)),
                    )
                },
                None => {
                    &&& !holds(old(self)@, cut(key))
                    &&& final(self)@ == old(self)@
                    &&& forall|i: int|
                        0 <= i < old(self)@.len() ==> key.side_spec((#[trigger] old(self)@[i]).0)
                            != Side::At
                },
            },
    {
        proof {
            self.lemma_tree();
            self.law_sorted();
            key.lemma_probe_consistent();
            law_position(self@, cut(key));
        }
        match self.tree.get(key) {
            Some(spot) => {
                let record = self.tree.record_mut(spot);
                Some(EntryMut::new(record.0, record.1))
            },
            None => None,
        }
    }

    /// Returns true when the map contains `key`.
    pub fn contains_key<P: Probe<K> + ?Sized>(&self, key: &P) -> (b: bool)
        requires
            lawful::<K>(),
            P::probes(),
            self.wf(),
        ensures
            b == holds(self@, cut(key)),
            b <==> exists|i: int|
                0 <= i < self@.len() && key.side_spec((#[trigger] self@[i]).0) == Side::At,
    {
        self.get(key).is_some()
    }

    /// Inserts `key` and `value`, returning the previous value if the key was
    /// already present.
    pub fn insert(&mut self, key: K, value: V) -> (replaced: Option<V>)
        requires
            lawful::<K>(),
            old(self).wf(),
            old(self)@.len() < usize::MAX,
        ensures
            final(self).wf(),
            final(self)@ == inserted(old(self)@, key, value),
            replaced == lookup(old(self)@, cut_of(key)),
            forall|i: int|
                0 <= i < old(self)@.len() ==> if lt((#[trigger] old(self)@[i]).0, key) || lt(
                    key,
                    old(self)@[i].0,
                ) {
                    final(self)@.contains(old(self)@[i])
                } else {
                    &&& final(self)@.contains((old(self)@[i].0, value))
                    &&& final(self)@.len() == old(self)@.len()
                    &&& replaced == Some(old(self)@[i].1)
                },
            (forall|i: int|
                0 <= i < old(self)@.len() ==> lt((#[trigger] old(self)@[i]).0, key) || lt(
                    key,
                    old(self)@[i].0,
                )) ==> {
                &&& final(self)@.contains((key, value))
                &&& final(self)@.len() == old(self)@.len() + 1
                &&& replaced is None
            },
    {
        proof {
            self.lemma_tree();
            self.law_sorted();
            law_lookup(self@, key);
            law_inserted(self@, key, value);
            law_insert_len(self@, key, value);
        }
        self.tree.insert(key, value)
    }

    /// Removes `key`, returning its value when present.
    ///
    /// Before descending into a minimally occupied page, deletion borrows from
    /// a sibling or merges two pages. Empty internal root levels are collapsed
    /// before this returns. A removed key that also serves as a surviving fence
    /// or separator may keep its shared key allocation alive until that
    /// boundary changes or the map is dropped; the user value is returned
    /// immediately.
    pub fn remove<P: Probe<K> + ?Sized>(&mut self, key: &P) -> (value: Option<V>)
        requires
            lawful::<K>(),
            P::probes(),
            old(self).wf(),
        ensures
            final(self).wf(),
            final(self)@ == removed(old(self)@, cut(key)),
            value == lookup(old(self)@, cut(key)),
            forall|e: (K, V)| #[trigger]
                final(self)@.contains(e) <==> old(self)@.contains(e) && key.side_spec(e.0)
                    != Side::At,
            match value {
                Some(v) => {
                    &&& final(self)@.len() == old(self)@.len() - 1
                    &&& exists|i: int|
                        0 <= i < old(self)@.len() && key.side_spec((#[trigger] old(self)@[i]).0)
                            == Side::At && old(self)@[i].1 == v
                },
                None => {
                    &&& final(self)@ == old(self)@
                    &&& forall|i: int|
                        0 <= i < old(self)@.len() ==> key.side_spec((#[trigger] old(self)@[i]).0)
                            != Side::At
                },
            },
    {
        proof {
            self.lemma_tree();
            self.law_sorted();
            key.lemma_probe_consistent();
            law_position(self@, cut(key));
            law_removed(self@, cut(key));
            law_remove_len(self@, cut(key));
        }
        self.tree.remove(key)
    }

    /// Returns the least key/value record.
    pub fn first_key_value(&self) -> (entry: Option<EntryRef<'_, K, V, N>>)
        requires
            self.wf(),
        ensures
            match entry {
                Some(entry) => self@.len() > 0 && entry@ == self@[0],
                None => self@.len() == 0,
            },
    {
        proof {
            self.lemma_tree();
        }
        match self.tree.first_entry() {
            Some(spot) => {
                let record = self.tree.record(spot);
                Some(EntryRef::new(record.0, record.1))
            },
            None => None,
        }
    }

    /// Returns the greatest key/value record.
    pub fn last_key_value(&self) -> (entry: Option<EntryRef<'_, K, V, N>>)
        requires
            self.wf(),
        ensures
            match entry {
                Some(entry) => self@.len() > 0 && entry@ == self@.last(),
                None => self@.len() == 0,
            },
    {
        proof {
            self.lemma_tree();
        }
        match self.tree.last_entry() {
            Some(spot) => {
                let record = self.tree.record(spot);
                Some(EntryRef::new(record.0, record.1))
            },
            None => None,
        }
    }

    /// Returns an ascending iterator over the records.
    pub fn iter(&self) -> (iter: Iter<'_, K, V, N>)
        requires
            lawful::<K>(),
            self.wf(),
        ensures
            iter.wf(),
            iter.remaining() == self@,
    {
        proof {
            self.lemma_tree();
        }
        Iter::new(&self.tree)
    }

    /// Returns an ascending iterator over the keys.
    pub fn keys(&self) -> (keys: Keys<'_, K, V, N>)
        requires
            lawful::<K>(),
            self.wf(),
        ensures
            keys.wf(),
            keys.remaining() == keys_in(self@),
    {
        Keys::new(self.iter())
    }

    /// Returns an iterator over the values in ascending key order.
    pub fn values(&self) -> (values: Values<'_, K, V, N>)
        requires
            lawful::<K>(),
            self.wf(),
        ensures
            values.wf(),
            values.remaining() == self@,
    {
        Values::new(self.iter())
    }

    /// Returns an ascending iterator over the records whose keys lie in
    /// `bounds`, which must not be inverted or empty with equal ends.
    pub fn range<P: Probe<K> + Ord>(&self, bounds: Bounds<P>) -> (range: Range<'_, K, V, P, N>)
        requires
            lawful::<K>(),
            P::probes(),
            self.wf(),
            bounds.fault() is None,
        ensures
            range.wf(),
            range.remaining() == bounds.select(self@),
            forall|i: int, j: int|
                0 <= i < j < range.remaining().len() ==> lt(
                    (#[trigger] range.remaining()[i]).0,
                    (#[trigger] range.remaining()[j]).0,
                ),
            forall|e: (K, V)| #[trigger]
                range.remaining().contains(e) <==> self@.contains(e) && {
                    &&& bounds.start matches Bound::Included(b) ==> b.side_spec(e.0) != Side::After
                    &&& bounds.start matches Bound::Excluded(b) ==> b.side_spec(e.0) == Side::Before
                    &&& bounds.end matches Bound::Included(b) ==> b.side_spec(e.0) != Side::Before
                    &&& bounds.end matches Bound::Excluded(b) ==> b.side_spec(e.0) == Side::After
                },
    {
        proof {
            self.lemma_tree();
            self.law_sorted();
            law_probe_range_records(bounds, self@);
        }
        Range::new(&self.tree, bounds)
    }

    /// Inserts every pair, replacing values for duplicate keys.
    pub fn extend(&mut self, entries: Vec<(K, V)>)
        requires
            lawful::<K>(),
            old(self).wf(),
            old(self)@.len() + entries@.len() <= usize::MAX,
        ensures
            final(self).wf(),
            final(self)@ == extended(old(self)@, entries@),
    {
        let ghost all = entries@;
        proof {
            assert(all.take(0) =~= Seq::empty());
        }
        for entry in it: entries
            invariant
                lawful::<K>(),
                self.wf(),
                it.seq() == all,
                self@ == extended(old(self)@, all.take(it.index() as int)),
                self@.len() <= old(self)@.len() + it.index(),
                old(self)@.len() + all.len() <= usize::MAX,
        {
            let (key, value) = entry;
            proof {
                self.law_sorted();
                lemma_cut_consistent(key);
                lemma_rank(self@, cut_of(key));
            }
            self.insert(key, value);
            proof {
                let i = it.index() as int;
                assert(all.take(i + 1).drop_last() =~= all.take(i));
                assert(all.take(i + 1).last() == all[i]);
            }
        }
        proof {
            assert(all.take(all.len() as int) =~= all);
        }
    }

    /// Builds a map by repeated insertions.
    pub fn from_entries(entries: Vec<(K, V)>) -> (map: Self)
        requires
            lawful::<K>(),
            3 <= N < usize::MAX,
        ensures
            map.wf(),
            map@ == extended(Seq::<(K, V)>::empty(), entries@),
    {
        let mut map = Self::new();
        assert(entries.len() <= usize::MAX);
        map.extend(entries);
        map
    }

    /// Performs an exhaustive invariant check of the pages.
    pub fn validate(&self) -> (result: Result<(), Violation>)
        requires
            lawful::<K>(),
            N > 0,
        ensures
            result == (match self.fault() {
                Some(v) => Err::<(), Violation>(v),
                None => Ok::<(), Violation>(()),
            }),
    {
        self.tree.validate()
    }

    /// Returns the number of levels of pages.
    pub fn height(&self) -> (n: usize)
        requires
            self.wf(),
        ensures
            n == self.depth(),
    {
        proof {
            self.lemma_tree();
        }
        self.tree.height()
    }
}

} // verus!
