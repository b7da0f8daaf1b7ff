//! The ordered set.

use vstd::prelude::*;

use crate::check::{chain_limit, gather, grown, level_chains, Violation};
use crate::handle::EntryRef;
use crate::iter::{keys_in, Bound, Bounds, Iter, Range};
use crate::map::BLinkMap;
use crate::meaning::{
    law_disjoint, law_equal_sets, law_member, law_member_position, law_range_values, law_subset,
    law_with_value, law_without_value,
};
use crate::order::{
    consistent, cut, cut_of, lawful, lemma_cut_consistent, lemma_cut_sides, lemma_order, lt, Probe, Side,
};
use crate::records::{
    ascending, holds, inserted, lemma_rank, partition_point, rank, removed, sorted,
};
use crate::shape::Pages;

verus! {

/// The place of the first value that a position does not lie after.
pub open spec fn place<T>(s: Seq<T>, c: spec_fn(T) -> Side) -> int {
    partition_point(s, |x: T| c(x) == Side::After)
}

/// Whether a position lies at one of the values.
pub open spec fn member<T>(s: Seq<T>, c: spec_fn(T) -> Side) -> bool {
    place(s, c) < s.len() && c(s[place(s, c)]) == Side::At
}

/// The values of a set after inserting `value`.
pub open spec fn with_value<T: Ord>(s: Seq<T>, value: T) -> Seq<T> {
    if member(s, cut_of(value)) {
        s
    } else {
        s.insert(place(s, cut_of(value)), value)
    }
}

/// The values of a set after removing the one at a position.
pub open spec fn without_value<T>(s: Seq<T>, c: spec_fn(T) -> Side) -> Seq<T> {
    if member(s, c) {
        s.remove(place(s, c))
    } else {
        s
    }
}

/// The values of a set after inserting values one after the other.
pub open spec fn with_values<T: Ord>(s: Seq<T>, values: Seq<T>) -> Seq<T>
    decreases values.len(),
{
    if values.len() == 0 {
        s
    } else {
        with_value(with_values(s, values.drop_last()), values.last())
    }
}

/// Whether every value of `a` is one of `b`.
pub open spec fn subset<T: Ord>(a: Seq<T>, b: Seq<T>) -> bool {
    forall|i: int| 0 <= i < a.len() ==> member(b, cut_of(#[trigger] a[i]))
}

/// Whether no value of `a` is one of `b`.
pub open spec fn disjoint<T: Ord>(a: Seq<T>, b: Seq<T>) -> bool {
    forall|i: int| 0 <= i < a.len() ==> !member(b, cut_of(#[trigger] a[i]))
}

/// A sequence of records and its keys agree on every position.
pub proof fn lemma_keys<T: Ord>(s: Seq<(T, ())>, c: spec_fn(T) -> Side)
    ensures
        keys_in(s).len() == s.len(),
        place(keys_in(s), c) == rank(s, c),
        member(keys_in(s), c) == holds(s, c),
        0 <= rank(s, c) <= s.len(),
    decreases s.len(),
{
    let k = keys_in(s);
    if s.len() > 0 {
        lemma_keys(s.drop_last(), c);
        assert(keys_in(s.drop_last()) =~= k.drop_last());
    }
}

/// Unit-valued records with the given keys.
pub open spec fn keyed<T>(s: Seq<T>) -> Seq<(T, ())> {
    s.map_values(|x: T| (x, ()))
}

/// Changing values is changing the records that they are the keys of.
pub proof fn lemma_keyed<T: Ord>(s: Seq<T>, value: T, c: spec_fn(T) -> Side)
    requires
        ascending(s),
    ensures
        sorted(keyed(s)),
        keys_in(keyed(s)) == s,
        with_value(s, value) == keys_in(inserted(keyed(s), value, ())),
        without_value(s, c) == keys_in(removed(keyed(s), c)),
{
    let r = keyed(s);
    assert(keys_in(r) =~= s);
    lemma_keys(r, c);
    lemma_keys(r, cut_of(value));
    assert(with_value(s, value) =~= keys_in(inserted(r, value, ())));
    assert(without_value(s, c) =~= keys_in(removed(r, c)));
}

/// In ascending values a position that agrees with the order lies after
/// exactly the values before its place, and before all behind it.
pub proof fn lemma_place<T: Ord>(s: Seq<T>, c: spec_fn(T) -> Side)
    requires
        ascending(s),
        consistent(c),
    ensures
        0 <= place(s, c) <= s.len(),
        forall|i: int| 0 <= i < place(s, c) ==> c(#[trigger] s[i]) == Side::After,
        forall|i: int| place(s, c) < i < s.len() ==> c(#[trigger] s[i]) == Side::Before,
        forall|i: int| 0 <= i < s.len() && c(#[trigger] s[i]) == Side::At ==> i == place(s, c),
{
    let r = keyed(s);
    assert(keys_in(r) =~= s);
    assert(sorted(r));
    lemma_keys(r, c);
    lemma_rank(r, c);
    assert forall|i: int| 0 <= i < s.len() implies r[i].0 == #[trigger] s[i] by {}
}

/// A position is at a member exactly when it lies at one of the values.
pub proof fn lemma_member<T: Ord>(s: Seq<T>, c: spec_fn(T) -> Side)
    requires
        ascending(s),
        consistent(c),
    ensures
        member(s, c) <==> exists|i: int| 0 <= i < s.len() && c(#[trigger] s[i]) == Side::At,
{
    lemma_place(s, c);
}

/// Disjointness does not depend on which set comes first.
pub proof fn lemma_disjoint_symmetric<T: Ord>(a: Seq<T>, b: Seq<T>)
    requires
        lawful::<T>(),
        ascending(a),
        ascending(b),
        disjoint(a, b),
    ensures
        disjoint(b, a),
{
    assert forall|j: int| 0 <= j < b.len() implies !member(a, cut_of(#[trigger] b[j])) by {
        lemma_cut_consistent(b[j]);
        lemma_cut_sides(b[j]);
        if member(a, cut_of(b[j])) {
            let i = place(a, cut_of(b[j]));
            lemma_place(a, cut_of(b[j]));
            lemma_cut_consistent(a[i]);
            lemma_cut_sides(a[i]);
            assert(cut_of(a[i])(b[j]) == Side::At);
            lemma_member(b, cut_of(a[i]));
        }
    }
}

/// The places of the values of a subset ascend.
proof fn lemma_subset_places<T: Ord>(a: Seq<T>, b: Seq<T>, i: int, j: int)
    requires
        lawful::<T>(),
        ascending(a),
        ascending(b),
        subset(a, b),
        0 <= i < j < a.len(),
    ensures
        place(b, cut_of(a[i])) < place(b, cut_of(a[j])) < b.len(),
{
    let x = place(b, cut_of(a[i]));
    let y = place(b, cut_of(a[j]));
    lemma_cut_consistent(a[i]);
    lemma_cut_consistent(a[j]);
    lemma_cut_sides(a[i]);
    lemma_cut_sides(a[j]);
    lemma_place(b, cut_of(a[i]));
    lemma_place(b, cut_of(a[j]));
    assert(member(b, cut_of(a[i])));
    assert(member(b, cut_of(a[j])));
    assert(lt(a[i], a[j]));
    lemma_order::<T>();
    assert(cut_of(a[i])(b[x]) == Side::At);
    assert(cut_of(a[j])(b[y]) == Side::At);
    assert(cut_of(a[j])(b[x]) == Side::After) by {
        // `b[x]` equals `a[i]`, which precedes `a[j]`.
        assert(cut_of(a[j])(a[i]) == Side::After);
        assert(!lt(a[i], b[x]) && !lt(b[x], a[i]));
    }
}

/// The place of each value of a subset, from both ends.
pub proof fn lemma_subset_place<T: Ord>(a: Seq<T>, b: Seq<T>, i: int)
    requires
        lawful::<T>(),
        ascending(a),
        ascending(b),
        subset(a, b),
        0 <= i < a.len(),
    ensures
        i <= place(b, cut_of(a[i])) <= b.len() - (a.len() - i),
{
    lemma_subset_low(a, b, i);
    lemma_subset_high(a, b, i);
}

/// The place of a value of a subset is no less than its own.
proof fn lemma_subset_low<T: Ord>(a: Seq<T>, b: Seq<T>, i: int)
    requires
        lawful::<T>(),
        ascending(a),
        ascending(b),
        subset(a, b),
        0 <= i < a.len(),
    ensures
        i <= place(b, cut_of(a[i])) < b.len(),
    decreases i,
{
    lemma_cut_consistent(a[i]);
    lemma_place(b, cut_of(a[i]));
    assert(member(b, cut_of(a[i])));
    if i > 0 {
        lemma_subset_low(a, b, i - 1);
        lemma_subset_places(a, b, i - 1, i);
    }
}

/// Behind the place of a value of a subset there is room for the others.
proof fn lemma_subset_high<T: Ord>(a: Seq<T>, b: Seq<T>, i: int)
    requires
        lawful::<T>(),
        ascending(a),
        ascending(b),
        subset(a, b),
        0 <= i < a.len(),
    ensures
        place(b, cut_of(a[i])) <= b.len() - (a.len() - i),
    decreases a.len() - i,
{
    if i + 1 < a.len() {
        lemma_subset_high(a, b, i + 1);
        lemma_subset_places(a, b, i, i + 1);
    } else {
        lemma_subset_low(a, b, i);
    }
}

/// A subset has no more values than the set.
pub proof fn lemma_subset_len<T: Ord>(a: Seq<T>, b: Seq<T>)
    requires
        lawful::<T>(),
        ascending(a),
        ascending(b),
        subset(a, b),
    ensures
        a.len() <= b.len(),
{
    if a.len() > 0 {
        lemma_subset_place(a, b, 0);
    }
}

/// A subset with as many values as the set contains all of them.
pub proof fn lemma_subset_full<T: Ord>(a: Seq<T>, b: Seq<T>)
    requires
        lawful::<T>(),
        ascending(a),
        ascending(b),
        subset(a, b),
        a.len() == b.len(),
    ensures
        subset(b, a),
{
    assert forall|i: int| 0 <= i < b.len() implies member(a, cut_of(#[trigger] b[i])) by {
        lemma_subset_place(a, b, i);
        assert(member(b, cut_of(a[i])));
        lemma_cut_sides(a[i]);
        lemma_cut_sides(b[i]);
        lemma_cut_consistent(b[i]);
        assert(cut_of(a[i])(b[i]) == Side::At);
        assert(cut_of(b[i])(a[i]) == Side::At);
        lemma_member(a, cut_of(b[i]));
    }
}

/// The keys of the records in a range are the keys in the range.
pub proof fn lemma_selected<T: Ord, P: Probe<T>>(bounds: Bounds<P>, s: Seq<(T, ())>)
    ensures
        keys_in(bounds.select(s)) == selected(bounds, keys_in(s)),
    decreases s.len(),
{
    reveal(Seq::filter);
    if s.len() > 0 {
        lemma_selected(bounds, s.drop_last());
        assert(keys_in(s).drop_last() =~= keys_in(s.drop_last()));
        assert(keys_in(bounds.select(s)) =~= selected(bounds, keys_in(s)));
    } else {
        assert(keys_in(bounds.select(s)) =~= selected(bounds, keys_in(s)));
    }
}

/// An ordered set backed by a map.
///
/// Values are stored as map keys with zero-sized `()` payloads. A set is
/// described by its values in ascending order.
pub struct BLinkSet<T, const N: usize> {
    /// Map storage; unit values add no per-record payload bytes.
    map: BLinkMap<T, (), N>,
}

impl<T, const N: usize> View for BLinkSet<T, N> {
    type V = Seq<T>;

    closed spec fn view(&self) -> Seq<T> {
        keys_in(self.map@)
    }
}

impl<T, const N: usize> BLinkSet<T, N> {
    /// Whether the set consists of one empty page, as it was made.
    pub closed spec fn fresh(&self) -> bool {
        self.map.fresh()
    }

    /// The value of the counter.
    pub closed spec fn count(&self) -> usize {
        self.map.count()
    }

    /// Creates an empty set.
    pub fn new() -> (set: Self)
        requires
            3 <= N < usize::MAX,
        ensures
            set.fresh(),
            set@ == Seq::<T>::empty(),
            set.count() == 0,
    {
        let set = Self { map: BLinkMap::new() };
        assert(set@ =~= Seq::<T>::empty());
        set
    }

    /// Returns the number of values.
    pub fn len(&self) -> (n: usize)
        ensures
            n == self.count(),
    {
        self.map.len()
    }

    /// Returns true when the set is empty.
    pub fn is_empty(&self) -> (b: bool)
        ensures
            b == (self.count() == 0),
    {
        self.map.is_empty()
    }

    /// Removes every value and restores one empty root leaf.
    pub fn clear(&mut self)
        requires
            3 <= N < usize::MAX,
        ensures
            final(self).fresh(),
            final(self)@ == Seq::<T>::empty(),
            final(self).count() == 0,
    {
        self.map.clear();
        assert(self@ =~= Seq::<T>::empty());
    }
}

impl<T: Ord, const N: usize> BLinkSet<T, N> {
    /// Whether the pages of the set satisfy every invariant of a B-link tree.
    pub closed spec fn sound(&self) -> bool {
        self.map.sound()
    }

    /// The invariant of a set.
    pub open spec fn wf(&self) -> bool {
        self.fresh() || self.sound()
    }

    /// What an exhaustive check of the pages finds.
    pub closed spec fn fault(&self) -> Option<Violation> {
        self.map.fault()
    }

    /// The values of a set are in strictly ascending order, and the counter is
    /// their number.
    pub proof fn law_sorted(&self)
        requires
            lawful::<T>(),
            self.wf(),
        ensures
            ascending(self@),
            forall|i: int, j: int|
                0 <= i < j < self@.len() ==> lt(#[trigger] self@[i], #[trigger] self@[j]),
            self.count() == self@.len(),
    {
        self.map.law_sorted();
        let s = self.map@;
        assert forall|i: int, j: int| 0 <= i < j < self@.len() implies lt(
            #[trigger] self@[i],
            #[trigger] self@[j],
        ) by {
            assert(lt(s[i].0, s[j].0));
        }
    }

    /// The pages that are there, whether or not the set leads to them.
    pub closed spec fn graph(&self) -> Pages<T, ()> {
        self.map.graph()
    }

    /// The place of the published root among the pages.
    pub closed spec fn top(&self) -> usize {
        self.map.top()
    }

    /// The exhaustive check finds nothing exactly when the root stands alone,
    /// all pages below it have grown as they should, the counter counts the
    /// records, and every level is one sibling chain. The records then ascend.
    pub proof fn law_check(&self)
        requires
            lawful::<T>(),
        ensures
            self.fault() is None <==> {
                let pages = self.graph();
                let root = self.top();
                let p = pages[root as int];
                &&& root < pages.len()
                &&& p.low is None && p.high is None
                &&& p.previous is None && p.right is None
                &&& gather(pages, root, pages.len()).len() == self.count()
                &&& exists|height: nat, rows: Seq<Seq<usize>>|
                    {
                        &&& #[trigger] grown(pages, N as int, root, true, height)
                        &&& height < pages.len()
                        &&& rows.len() == height + 1
                        &&& #[trigger] level_chains(
                            pages,
                            rows,
                            root,
                            chain_limit(self.count() as nat, rows.len()),
                        )
                    }
            },
            self.fault() is None ==> {
                let s = gather(self.graph(), self.top(), self.graph().len());
                forall|i: int, j: int|
                    0 <= i < j < s.len() ==> lt(
                        (#[trigger] s[i]).0,
                        (#[trigger] s[j]).0,
                    )
            },
    {
        self.map.law_check();
    }

    /// Every set passes the exhaustive check of its pages.
    pub proof fn law_valid(&self)
        requires
            lawful::<T>(),
            self.wf(),
        ensures
            self.fault() is None,
    {
        self.map.law_valid();
    }

    /// Returns true when `value` is present.
    pub fn contains<P: Probe<T> + ?Sized>(&self, value: &P) -> (b: bool)
        requires
            lawful::<T>(),
            P::probes(),
            self.wf(),
        ensures
            b == member(self@, cut(value)),
            b <==> exists|i: int|
                0 <= i < self@.len() && value.side_spec(#[trigger] self@[i]) == Side::At,
    {
        proof {
            lemma_keys(self.map@, cut(value));
            self.law_sorted();
            value.lemma_probe_consistent();
            law_member_position(self@, cut(value));
        }
        self.map.contains_key(value)
    }

    /// Returns the stored value equal to `value`.
    pub fn get<P: Probe<T> + ?Sized>(&self, value: &P) -> (found: Option<SetRef<'_, T, N>>)
        requires
            lawful::<T>(),
            P::probes(),
            self.wf(),
        ensures
            match found {
                Some(found) => member(self@, cut(value)) && found@ == self@[place(
                    self@,
                    cut(value),
                )],
                None => !member(self@, cut(value)),
            },
            match found {
                Some(found) => self@.contains(found@) && value.side_spec(found@) == Side::At,
                None => forall|i: int|
                    0 <= i < self@.len() ==> value.side_spec(#[trigger] self@[i]) != Side::At,
            },
    {
        proof {
            lemma_keys(self.map@, cut(value));
            self.law_sorted();
            value.lemma_probe_consistent();
            law_member_position(self@, cut(value));
            lemma_place(self@, cut(value));
        }
        match self.map.get(value) {
            Some(entry) => Some(SetRef::new(entry)),
            None => None,
        }
    }

    /// Inserts `value`, returning true only when it was not already present.
    pub fn insert(&mut self, value: T) -> (added: bool)
        requires
            lawful::<T>(),
            old(self).wf(),
            old(self)@.len() < usize::MAX,
        ensures
            final(self).wf(),
            final(self)@ == with_value(old(self)@, value),
            added == !member(old(self)@, cut_of(value)),
            added <==> forall|i: int|
                0 <= i < old(self)@.len() ==> lt(#[trigger] old(self)@[i], value) || lt(
                    value,
                    old(self)@[i],
                ),
            forall|x: T| #[trigger]
                final(self)@.contains(x) <==> old(self)@.contains(x) || added && x == value,
            !added ==> final(self)@ == old(self)@,
    {
        proof {
            lemma_keys(self.map@, cut_of(value));
            self.law_sorted();
            law_member(self@, value);
            law_with_value(self@, value);
        }
        let added = self.map.insert(value, ()).is_none();
        proof {
            assert(self@ =~= with_value(old(self)@, value));
        }
        added
    }

    /// Removes `value`, returning true only when it was present.
    pub fn remove<P: Probe<T> + ?Sized>(&mut self, value: &P) -> (found: bool)
        requires
            lawful::<T>(),
            P::probes(),
            old(self).wf(),
        ensures
            final(self).wf(),
            final(self)@ == without_value(old(self)@, cut(value)),
            found == member(old(self)@, cut(value)),
            found <==> exists|i: int|
                0 <= i < old(self)@.len() && value.side_spec(#[trigger] old(self)@[i]) == Side::At,
            forall|x: T| #[trigger]
                final(self)@.contains(x) <==> old(self)@.contains(x) && value.side_spec(x)
                    != Side::At,
            !found ==> final(self)@ == old(self)@,
    {
        proof {
            lemma_keys(self.map@, cut(value));
            self.law_sorted();
            value.lemma_probe_consistent();
            law_member_position(self@, cut(value));
            law_without_value(self@, cut(value));
        }
        let found = self.map.remove(value).is_some();
        proof {
            assert(self@ =~= without_value(old(self)@, cut(value)));
        }
        found
    }

    /// Returns the least value.
    pub fn first(&self) -> (value: Option<SetRef<'_, T, N>>)
        requires
            self.wf(),
        ensures
            match value {
                Some(value) => self@.len() > 0 && value@ == self@[0],
                None => self@.len() == 0,
            },
    {
        match self.map.first_key_value() {
            Some(entry) => Some(SetRef::new(entry)),
            None => None,
        }
    }

    /// Returns the greatest value.
    pub fn last(&self) -> (value: Option<SetRef<'_, T, N>>)
        requires
            self.wf(),
        ensures
            match value {
                Some(value) => self@.len() > 0 && value@ == self@.last(),
                None => self@.len() == 0,
            },
    {
        match self.map.last_key_value() {
            Some(entry) => Some(SetRef::new(entry)),
            None => None,
        }
    }

    /// Returns an ascending iterator over the values.
    pub fn iter(&self) -> (iter: SetIter<'_, T, N>)
        requires
            lawful::<T>(),
            self.wf(),
        ensures
            iter.wf(),
            iter.remaining() == self@,
    {
        SetIter::new(self.map.iter())
    }

    /// Returns an ascending iterator over the values in `bounds`, which must
    /// not be inverted or empty with equal ends.
    pub fn range<P: Probe<T> + Ord>(&self, bounds: Bounds<P>) -> (range: SetRange<'_, T, P, N>)
        requires
            lawful::<T>(),
            P::probes(),
            self.wf(),
            bounds.fault() is None,
        ensures
            range.wf(),
            range.remaining() == selected(bounds, self@),
            forall|i: int, j: int|
                0 <= i < j < range.remaining().len() ==> lt(
                    #[trigger] range.remaining()[i],
                    #[trigger] range.remaining()[j],
                ),
            forall|x: T| #[trigger]
                range.remaining().contains(x) <==> self@.contains(x) && {
                    &&& bounds.start matches Bound::Included(b) ==> b.side_spec(x) != Side::After
                    &&& bounds.start matches Bound::Excluded(b) ==> b.side_spec(x) == Side::Before
                    &&& bounds.end matches Bound::Included(b) ==> b.side_spec(x) != Side::Before
                    &&& bounds.end matches Bound::Excluded(b) ==> b.side_spec(x) == Side::After
                },
    {
        proof {
            lemma_selected(bounds, self.map@);
            self.law_sorted();
            law_range_values(bounds, self@);
        }
        SetRange::new(self.map.range(bounds))
    }

    /// Returns true when this set and `other` share no value.
    pub fn is_disjoint(&self, other: &Self) -> (b: bool)
        requires
            lawful::<T>(),
            self.wf(),
            other.wf(),
        ensures
            b == disjoint(self@, other@),
            b <==> forall|i: int, j: int|
                0 <= i < self@.len() && 0 <= j < other@.len() ==> lt(
                    #[trigger] self@[i],
                    #[trigger] other@[j],
                ) || lt(other@[j], self@[i]),
    {
        proof {
            self.law_sorted();
            other.law_sorted();
            law_disjoint(self@, other@);
            if disjoint(self@, other@) {
                lemma_disjoint_symmetric(self@, other@);
            }
            if disjoint(other@, self@) {
                lemma_disjoint_symmetric(other@, self@);
            }
        }
        let (smaller, larger) = if self.len() <= other.len() {
            (self, other)
        } else {
            (other, self)
        };
        let ghost a = smaller@;
        let ghost b = larger@;
        let ghost mut done: int = 0;
        let mut iter = smaller.iter();
        proof {
            assert(a.skip(0) =~= a);
        }
        loop
            invariant
                lawful::<T>(),
                larger.wf(),
                iter.wf(),
                b == larger@,
                0 <= done <= a.len(),
                iter.remaining() == a.skip(done),
                forall|i: int| 0 <= i < done ==> !member(b, cut_of(#[trigger] a[i])),
                disjoint(a, b) == disjoint(self@, other@),
                disjoint(self@, other@) <==> forall|i: int, j: int|
                    0 <= i < self@.len() && 0 <= j < other@.len() ==> lt(
                        #[trigger] self@[i],
                        #[trigger] other@[j],
                    ) || lt(other@[j], self@[i]),
            decreases a.len() - done,
        {
            match iter.next() {
                Some(value) => {
                    assert(value@ == a[done]);
                    assert(cut(&value@) =~= cut_of(value@));
                    if larger.contains(value.get()) {
                        return false;
                    }
                    proof {
                        assert(a.skip(done).drop_first() =~= a.skip(done + 1));
                        done = done + 1;
                    }
                },
                None => {
                    return true;
                },
            }
        }
    }

    /// Returns true when every value in this set is in `other`.
    pub fn is_subset(&self, other: &Self) -> (b: bool)
        requires
            lawful::<T>(),
            self.wf(),
            other.wf(),
        ensures
            b == subset(self@, other@),
            b <==> forall|x: T| #[trigger]
                self@.contains(x) ==> exists|j: int|
                    0 <= j < other@.len() && !lt(#[trigger] other@[j], x) && !lt(x, other@[j]),
    {
        let ghost a = self@;
        let ghost b = other@;
        proof {
            self.law_sorted();
            other.law_sorted();
            law_subset(a, b);
            if subset(a, b) {
                lemma_subset_len(a, b);
            }
        }
        if self.len() > other.len() {
            return false;
        }
        let ghost mut done: int = 0;
        let mut iter = self.iter();
        proof {
            assert(a.skip(0) =~= a);
        }
        loop
            invariant
                lawful::<T>(),
                other.wf(),
                iter.wf(),
                a == self@,
                b == other@,
                0 <= done <= a.len(),
                iter.remaining() == a.skip(done),
                forall|i: int| 0 <= i < done ==> member(b, cut_of(#[trigger] a[i])),
                subset(a, b) <==> forall|x: T| #[trigger]
                    a.contains(x) ==> exists|j: int|
                        0 <= j < b.len() && !lt(#[trigger] b[j], x) && !lt(x, b[j]),
            decreases a.len() - done,
        {
            match iter.next() {
                Some(value) => {
                    assert(value@ == a[done]);
                    assert(cut(&value@) =~= cut_of(value@));
                    if !other.contains(value.get()) {
                        return false;
                    }
                    proof {
                        assert(a.skip(done).drop_first() =~= a.skip(done + 1));
                        done = done + 1;
                    }
                },
                None => {
                    return true;
                },
            }
        }
    }

    /// Returns true when every value in `other` is in this set.
    pub fn is_superset(&self, other: &Self) -> (b: bool)
        requires
            lawful::<T>(),
            self.wf(),
            other.wf(),
        ensures
            b == subset(other@, self@),
            b <==> forall|x: T| #[trigger]
                other@.contains(x) ==> exists|j: int|
                    0 <= j < self@.len() && !lt(#[trigger] self@[j], x) && !lt(x, self@[j]),
    {
        other.is_subset(self)
    }

    /// Returns true when both sets have the same values.
    pub fn equals(&self, other: &Self) -> (b: bool)
        requires
            lawful::<T>(),
            self.wf(),
            other.wf(),
        ensures
            b == (subset(self@, other@) && subset(other@, self@)),
            b <==> self@.len() == other@.len() && forall|i: int|
                #![trigger self@[i]]
                #![trigger other@[i]]
                0 <= i < self@.len() ==> !lt(self@[i], other@[i]) && !lt(other@[i], self@[i]),
    {
        proof {
            self.law_sorted();
            other.law_sorted();
            law_equal_sets(self@, other@);
            if subset(self@, other@) && self@.len() == other@.len() {
                lemma_subset_full(self@, other@);
            }
            if subset(self@, other@) && subset(other@, self@) {
                lemma_subset_len(self@, other@);
                lemma_subset_len(other@, self@);
            }
        }
        self.len() == other.len() && self.is_subset(other)
    }

    /// Inserts every value, ignoring duplicates.
    pub fn extend(&mut self, values: Vec<T>)
        requires
            lawful::<T>(),
            old(self).wf(),
            old(self)@.len() + values@.len() <= usize::MAX,
        ensures
            final(self).wf(),
            final(self)@ == with_values(old(self)@, values@),
    {
        let ghost all = values@;
        proof {
            assert(all.take(0) =~= Seq::empty());
        }
        for value in it: values
            invariant
                lawful::<T>(),
                self.wf(),
                it.seq() == all,
                self@ == with_values(old(self)@, all.take(it.index() as int)),
                self@.len() <= old(self)@.len() + it.index(),
                old(self)@.len() + all.len() <= usize::MAX,
        {
            proof {
                lemma_keys(self.map@, cut_of(value));
            }
            self.insert(value);
            proof {
                let i = it.index() as int;
                assert(all.take(i + 1).drop_last() =~= all.take(i));
                assert(all.take(i + 1).last() == all[i]);
            }
        }
        proof {
            assert(all.take(all.len() as int) =~= all);
        }
    }

    /// Builds a set from values in any order.
    pub fn from_values(values: Vec<T>) -> (set: Self)
        requires
            lawful::<T>(),
            3 <= N < usize::MAX,
        ensures
            set.wf(),
            set@ == with_values(Seq::<T>::empty(), values@),
    {
        let mut set = Self::new();
        assert(values.len() <= usize::MAX);
        set.extend(values);
        set
    }

    /// Performs an exhaustive invariant check of the pages.
    pub fn validate(&self) -> (result: Result<(), Violation>)
        requires
            lawful::<T>(),
            N > 0,
        ensures
            result == (match self.fault() {
                Some(v) => Err::<(), Violation>(v),
                None => Ok::<(), Violation>(()),
            }),
    {
        self.map.validate()
    }
}

/// The values that lie in a range.
pub open spec fn selected<T: Ord, P: Probe<T>>(bounds: Bounds<P>, s: Seq<T>) -> Seq<T> {
    s.filter(|x: T| bounds.contains(x))
}

/// Read access to one value stored in a set.
#[must_use]
pub struct SetRef<'set, T, const N: usize> {
    /// Unit-valued map record supplying the key reference.
    entry: EntryRef<'set, T, (), N>,
}

impl<'set, T, const N: usize> View for SetRef<'set, T, N> {
    type V = T;

    closed spec fn view(&self) -> T {
        self.entry@.0
    }
}

impl<'set, T, const N: usize> SetRef<'set, T, N> {
    /// Wraps the backing map's entry.
    pub fn new(entry: EntryRef<'set, T, (), N>) -> (value: Self)
        ensures
            value@ == entry@.0,
    {
        SetRef { entry }
    }

    /// Returns the set value.
    pub fn get(&self) -> (value: &T)
        ensures
            *value == self@,
    {
        self.entry.key()
    }
}

/// An ascending iterator over a set.
pub struct SetIter<'set, T, const N: usize> {
    /// Backing map record iterator.
    inner: Iter<'set, T, (), N>,
}

impl<'set, T: Ord, const N: usize> SetIter<'set, T, N> {
    /// The invariant of an iterator.
    pub closed spec fn wf(&self) -> bool {
        self.inner.wf()
    }

    /// The values that are still to come.
    pub closed spec fn remaining(&self) -> Seq<T> {
        keys_in(self.inner.remaining())
    }

    /// Creates a set adapter over the map iterator.
    pub fn new(inner: Iter<'set, T, (), N>) -> (iter: Self)
        requires
            inner.wf(),
        ensures
            iter.wf(),
            iter.remaining() == keys_in(inner.remaining()),
    {
        Self { inner }
    }

    /// Advances to the next value.
    pub fn next(&mut self) -> (value: Option<SetRef<'set, T, N>>)
        requires
            old(self).wf(),
        ensures
            final(self).wf(),
            match value {
                Some(value) => {
                    &&& old(self).remaining().len() > 0
                    &&& value@ == old(self).remaining()[0]
                    &&& final(self).remaining() == old(self).remaining().drop_first()
                },
                None => {
                    &&& old(self).remaining().len() == 0
                    &&& final(self).remaining().len() == 0
                },
            },
    {
        match self.inner.next() {
            Some(entry) => {
                assert(self.remaining() =~= old(self).remaining().drop_first());
                Some(SetRef::new(entry))
            },
            None => None,
        }
    }

    /// Bounds the number of values that are still to come from below, and from
    /// above where that is known.
    pub fn size_hint(&self) -> (hint: (usize, Option<usize>))
        ensures
            hint == (0usize, None::<usize>),
            hint.0 <= self.remaining().len(),
    {
        self.inner.size_hint()
    }
}

/// An ascending iterator over a bounded set range.
pub struct SetRange<'set, T, P, const N: usize> {
    /// Backing map range iterator.
    inner: Range<'set, T, (), P, N>,
}

impl<'set, T: Ord, P: Probe<T> + Ord, const N: usize> SetRange<'set, T, P, N> {
    /// The invariant of an iterator.
    pub closed spec fn wf(&self) -> bool {
        self.inner.wf()
    }

    /// The values that are still to come.
    pub closed spec fn remaining(&self) -> Seq<T> {
        keys_in(self.inner.remaining())
    }

    /// Creates a set adapter over the map range.
    pub fn new(inner: Range<'set, T, (), P, N>) -> (range: Self)
        requires
            inner.wf(),
        ensures
            range.wf(),
            range.remaining() == keys_in(inner.remaining()),
    {
        Self { inner }
    }

    /// Advances to the next value.
    pub fn next(&mut self) -> (value: Option<SetRef<'set, T, N>>)
        requires
            old(self).wf(),
        ensures
            final(self).wf(),
            match value {
                Some(value) => {
                    &&& old(self).remaining().len() > 0
                    &&& value@ == old(self).remaining()[0]
                    &&& final(self).remaining() == old(self).remaining().drop_first()
                },
                None => {
                    &&& old(self).remaining().len() == 0
                    &&& final(self).remaining().len() == 0
                },
            },
    {
        match self.inner.next() {
            Some(entry) => {
                assert(self.remaining() =~= old(self).remaining().drop_first());
                Some(SetRef::new(entry))
            },
            None => None,
        }
    }

    /// Bounds the number of values that are still to come from below, and from
    /// above where that is known.
    pub fn size_hint(&self) -> (hint: (usize, Option<usize>))
        ensures
            hint == (0usize, None::<usize>),
            hint.0 <= self.remaining().len(),
    {
        self.inner.size_hint()
    }
}

} // verus!
