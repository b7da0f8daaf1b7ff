//! Ascending iterators over the records of a map.

use vstd::prelude::*;

use crate::cursor::{advanced, next_index, Aim, Cursor, Place};
use crate::handle::EntryRef;
use crate::meaning::law_bounds_fault;
use crate::order::{cut, cut_of, lawful, lemma_cut_consistent, lemma_cut_sides, lt, Probe, Side};
use crate::records::{lemma_past_around, lemma_rank, rank, rank_past, sorted};
use crate::tree::Tree;

verus! {

/// The place behind the record at `i` is the one behind its key.
proof fn lemma_past<K: Ord, V>(s: Seq<(K, V)>, i: int)
    requires
        lawful::<K>(),
        sorted(s),
        0 <= i < s.len(),
    ensures
        rank_past(s, cut_of(s[i].0)) == i + 1,
{
    let c = cut_of(s[i].0);
    lemma_cut_consistent(s[i].0);
    lemma_cut_sides(s[i].0);
    lemma_rank(s, c);
    lemma_past_around(Seq::empty(), s, Seq::empty(), c);
    let r = rank(s, c);
    assert(Seq::empty() + s + Seq::empty() =~= s);
    assert(c(s[i].0) == Side::At);
    if r < i {
        assert(lt(s[r].0, s[i].0));
        assert(c(s[r].0) == Side::After);
    }
    assert(r == i);
}

/// An immutable, ascending iterator over a map.
///
/// The iterator keeps only a shared handle to the last key it returned and
/// re-seeks strictly after that key on the next call.
pub struct Iter<'map, K, V, const N: usize> {
    /// Tree being traversed.
    tree: &'map Tree<K, V, N>,
    /// How far the traversal has come.
    cursor: Cursor<K>,
}

/// The range of all keys.
pub open spec fn everywhere<K>() -> Bounds<K> {
    Bounds { start: Bound::Unbounded, end: Bound::Unbounded }
}

impl<'map, K: Ord, V, const N: usize> Iter<'map, K, V, N> {
    /// The invariant of an iterator.
    pub closed spec fn wf(&self) -> bool {
        lawful::<K>() && self.tree.wf()
    }

    /// The records that are traversed.
    pub closed spec fn records(&self) -> Seq<(K, V)> {
        self.tree@
    }

    /// How far the traversal has come.
    pub closed spec fn place(&self) -> Place<K> {
        self.cursor@
    }

    /// The records that are still to come.
    pub open spec fn remaining(&self) -> Seq<(K, V)> {
        ahead_of(self.place(), self.records(), everywhere::<K>())
    }

    /// Creates a cursor before the first key.
    pub fn new(tree: &'map Tree<K, V, N>) -> (iter: Self)
        requires
            lawful::<K>(),
            tree.wf(),
        ensures
            iter.wf(),
            iter.records() == tree@,
            iter.place() is Start,
            iter.remaining() == tree@,
    {
        Self { tree, cursor: Cursor::new() }
    }

    /// Seeks the least key strictly greater than the previous result.
    pub fn next(&mut self) -> (entry: Option<EntryRef<'map, K, V, N>>)
        requires
            old(self).wf(),
        ensures
            final(self).wf(),
            final(self).records() == old(self).records(),
            ({
                let (place, found) = advanced(
                    old(self).place(),
                    old(self).records(),
                    everywhere::<K>(),
                );
                &&& final(self).place() == place
                &&& entry is Some == found is Some
                &&& entry is Some ==> entry->0@ == found->0
            }),
            match entry {
                Some(entry) => {
                    &&& old(self).remaining().len() > 0
                    &&& entry@ == old(self).remaining()[0]
                    &&& final(self).remaining() == old(self).remaining().drop_first()
                },
                None => {
                    &&& old(self).remaining().len() == 0
                    &&& final(self).remaining().len() == 0
                },
            },
    {
        let bounds = Bounds::<K> { start: Bound::Unbounded, end: Bound::Unbounded };
        proof {
            self.tree.lemma_sorted();
            lemma_step(self.cursor@, self.tree@, bounds);
        }
        advance(self.tree, &mut self.cursor, &bounds)
    }

    /// Bounds the number of records that are still to come from below, and
    /// from above where that is known.
    pub fn size_hint(&self) -> (hint: (usize, Option<usize>))
        ensures
            hint == (0usize, None::<usize>),
            hint.0 <= self.remaining().len(),
    {
        (0, None)
    }
}

/// One end of a range of keys.
#[derive(Debug)]
pub enum Bound<T> {
    /// The range ends at this key and contains it.
    Included(T),
    /// The range ends at this key and does not contain it.
    Excluded(T),
    /// The range has no end on this side.
    Unbounded,
}

/// Why bounds do not make a range.
#[derive(Clone, Copy, Debug, PartialEq, Eq, Structural)]
pub enum BoundsError {
    /// The start is greater than the end.
    Inverted,
    /// Start and end are equal, and both are excluded.
    EqualExcluded,
}

impl BoundsError {
    /// The description of an error.
    pub open spec fn text(self) -> Seq<char> {
        match self {
            BoundsError::Inverted => "range start is greater than range end"@,
            BoundsError::EqualExcluded => "range start and end are equal and excluded"@,
        }
    }

    /// Describes an error.
    pub fn message(&self) -> (text: &'static str)
        ensures
            text@ == self.text(),
            self is Inverted ==> text@ == "range start is greater than range end"@,
            self is EqualExcluded ==> text@ == "range start and end are equal and excluded"@,
    {
        match self {
            BoundsError::Inverted => "range start is greater than range end",
            BoundsError::EqualExcluded => "range start and end are equal and excluded",
        }
    }
}

/// The two ends of a range of keys.
#[derive(Debug)]
pub struct Bounds<P> {
    /// The lower end.
    pub start: Bound<P>,
    /// The upper end.
    pub end: Bound<P>,
}

impl<T> Bound<T> {
    /// The key at which a range ends.
    pub open spec fn key(self) -> Option<T> {
        match self {
            Bound::Included(key) => Some(key),
            Bound::Excluded(key) => Some(key),
            Bound::Unbounded => None,
        }
    }
}

impl<P: Ord> Bounds<P> {
    /// Why these bounds do not make a range.
    pub open spec fn fault(self) -> Option<BoundsError> {
        match (self.start.key(), self.end.key()) {
            (Some(start), Some(end)) => if lt(end, start) {
                Some(BoundsError::Inverted)
            } else if !lt(start, end) && self.start is Excluded && self.end is Excluded {
                Some(BoundsError::EqualExcluded)
            } else {
                None
            },
            _ => None,
        }
    }

    /// Checks that the start is not greater than the end, and that equal ends
    /// are not both excluded.
    pub fn validate(&self) -> (result: Result<(), BoundsError>)
        requires
            lawful::<P>(),
        ensures
            result == (match self.fault() {
                Some(e) => Err::<(), BoundsError>(e),
                None => Ok::<(), BoundsError>(()),
            }),
            self.start is Unbounded || self.end is Unbounded ==> result is Ok,
            forall|b: P, e: P|
                #![trigger lt(b, e)]
                (self.start == Bound::Included(b) || self.start == Bound::Excluded(b)) && (self.end
                    == Bound::Included(e) || self.end == Bound::Excluded(e)) ==> {
                    &&& lt(b, e) ==> result is Ok
                    &&& lt(e, b) ==> result == Err::<(), BoundsError>(BoundsError::Inverted)
                    &&& !lt(b, e) && !lt(e, b) ==> if self.start is Excluded
                        && self.end is Excluded {
                        result == Err::<(), BoundsError>(BoundsError::EqualExcluded)
                    } else {
                        result is Ok
                    }
                },
    {
        proof {
            law_bounds_fault(*self);
        }
        let (start, end) = match (&self.start, &self.end) {
            (Bound::Included(start), Bound::Included(end)) => (start, end),
            (Bound::Included(start), Bound::Excluded(end)) => (start, end),
            (Bound::Excluded(start), Bound::Included(end)) => (start, end),
            (Bound::Excluded(start), Bound::Excluded(end)) => (start, end),
            _ => return Ok(()),
        };
        proof {
            lemma_cut_sides(*start);
            assert(cut(start) =~= cut_of(*start));
            assert(cut_of(*start)(*end) == start.side_spec(*end));
        }
        match start.side(end) {
            Side::Before => Ok(()),
            Side::After => Err(BoundsError::Inverted),
            Side::At => match (&self.start, &self.end) {
                (Bound::Excluded(_), Bound::Excluded(_)) => Err(BoundsError::EqualExcluded),
                _ => Ok(()),
            },
        }
    }
}

impl<P> Bounds<P> {
    /// Whether a key lies in the range.
    pub open spec fn contains<K: Ord>(self, key: K) -> bool where P: Probe<K> {
        self.after_start(key) && self.before_end(key)
    }

    /// Whether a key does not lie before the range.
    pub open spec fn after_start<K: Ord>(self, key: K) -> bool where P: Probe<K> {
        match self.start {
            Bound::Included(p) => p.side_spec(key) != Side::After,
            Bound::Excluded(p) => p.side_spec(key) == Side::Before,
            Bound::Unbounded => true,
        }
    }

    /// Whether a key does not lie behind the range.
    pub open spec fn before_end<K: Ord>(self, key: K) -> bool where P: Probe<K> {
        match self.end {
            Bound::Included(p) => p.side_spec(key) != Side::Before,
            Bound::Excluded(p) => p.side_spec(key) == Side::After,
            Bound::Unbounded => true,
        }
    }

    /// The place of the first record that is not before the range.
    pub open spec fn first<K: Ord, V>(self, s: Seq<(K, V)>) -> int where P: Probe<K> {
        match self.start {
            Bound::Included(p) => rank(s, cut(&p)),
            Bound::Excluded(p) => rank_past(s, cut(&p)),
            Bound::Unbounded => 0,
        }
    }

    /// The place of the first record behind the range.
    pub open spec fn past<K: Ord, V>(self, s: Seq<(K, V)>) -> int where P: Probe<K> {
        match self.end {
            Bound::Included(p) => rank_past(s, cut(&p)),
            Bound::Excluded(p) => rank(s, cut(&p)),
            Bound::Unbounded => s.len() as int,
        }
    }

    /// The records whose keys lie in the range.
    pub open spec fn select<K: Ord, V>(self, s: Seq<(K, V)>) -> Seq<(K, V)> where P: Probe<K> {
        s.filter(|e: (K, V)| self.contains(e.0))
    }

    /// A record lies in the range exactly when its place is from the first to
    /// before the one past the range.
    pub proof fn lemma_places<K: Ord, V>(self, s: Seq<(K, V)>) where P: Probe<K>
        requires
            lawful::<K>(),
            P::probes(),
            sorted(s),
        ensures
            0 <= self.first(s) <= s.len(),
            0 <= self.past(s) <= s.len(),
            forall|i: int|
                0 <= i < s.len() ==> (self.contains((#[trigger] s[i]).0) <==> self.first(s) <= i
                    < self.past(s)),
            forall|i: int|
                0 <= i < s.len() ==> (self.before_end((#[trigger] s[i]).0) <==> i < self.past(s)),
            self.select(s) == between(s, self.first(s), self.past(s)),
    {
        if let Some(p) = self.start.key() {
            lemma_sides(s, &p);
        }
        if let Some(p) = self.end.key() {
            lemma_sides(s, &p);
        }
        lemma_filter_between(
            s,
            |e: (K, V)| self.contains(e.0),
            self.first(s),
            self.past(s),
        );
    }

    /// Tests a candidate key against the upper bound.
    pub fn inside_end_bound<K: Ord>(&self, key: &K) -> (b: bool) where P: Probe<K>
        requires
            P::probes(),
        ensures
            b == self.before_end(*key),
            b <==> {
                &&& self.end matches Bound::Included(end) ==> end.side_spec(*key) != Side::Before
                &&& self.end matches Bound::Excluded(end) ==> end.side_spec(*key) == Side::After
            },
    {
        match &self.end {
            Bound::Included(end) => match end.side(key) {
                Side::Before => false,
                _ => true,
            },
            Bound::Excluded(end) => match end.side(key) {
                Side::After => true,
                _ => false,
            },
            Bound::Unbounded => true,
        }
    }
}

/// The records from one place to before another, if there are any.
pub open spec fn between<K, V>(s: Seq<(K, V)>, from: int, to: int) -> Seq<(K, V)> {
    if 0 <= from < to <= s.len() {
        s.subrange(from, to)
    } else {
        Seq::empty()
    }
}

/// Where the records that satisfy a predicate stand side by side, filtering
/// takes them out as they are.
proof fn lemma_filter_between<K, V>(
    s: Seq<(K, V)>,
    f: spec_fn((K, V)) -> bool,
    from: int,
    to: int,
)
    requires
        0 <= from <= s.len(),
        0 <= to <= s.len(),
        forall|i: int| 0 <= i < s.len() ==> (f(#[trigger] s[i]) <==> from <= i < to),
    ensures
        s.filter(f) == between(s, from, to),
    decreases s.len(),
{
    reveal(Seq::filter);
    if s.len() > 0 {
        let n = s.len() - 1;
        let init = s.drop_last();
        let from2 = if from <= n { from } else { n };
        let to2 = if to <= n { to } else { n };
        assert forall|i: int| 0 <= i < init.len() implies (f(#[trigger] init[i]) <==> from2 <= i
            < to2) by {
            assert(init[i] == s[i]);
        }
        lemma_filter_between(init, f, from2, to2);
        assert(s.filter(f) =~= between(s, from, to));
    }
}

/// The records that are still to come in a traversal of `s`.
pub open spec fn ahead_of<K: Ord, V, P: Probe<K>>(
    place: Place<K>,
    s: Seq<(K, V)>,
    bounds: Bounds<P>,
) -> Seq<(K, V)> {
    if place is End {
        Seq::empty()
    } else {
        between(s, next_index(place, s, bounds), bounds.past(s))
    }
}

/// A step of a traversal takes the first of the records that are still to come.
proof fn lemma_step<K: Ord, V, P: Probe<K>>(place: Place<K>, s: Seq<(K, V)>, bounds: Bounds<P>)
    requires
        lawful::<K>(),
        P::probes(),
        sorted(s),
    ensures
        0 <= next_index(place, s, bounds) <= s.len(),
        ({
            let (next, found) = advanced(place, s, bounds);
            let rest = ahead_of(place, s, bounds);
            match found {
                Some(e) => {
                    &&& rest.len() > 0
                    &&& e == rest[0]
                    &&& ahead_of(next, s, bounds) == rest.drop_first()
                },
                None => rest.len() == 0 && ahead_of(next, s, bounds).len() == 0,
            }
        }),
{
    let i = next_index(place, s, bounds);
    bounds.lemma_places(s);
    if let Place::Behind(last) = place {
        lemma_cut_consistent(last);
        lemma_rank(s, cut_of(last));
        lemma_past_around(Seq::empty(), s, Seq::empty(), cut_of(last));
    }
    let (next, found) = advanced(place, s, bounds);
    if found is Some {
        lemma_past(s, i);
        assert(ahead_of(next, s, bounds) =~= ahead_of(place, s, bounds).drop_first());
    }
}

/// Makes one step of a traversal.
fn advance<'map, K: Ord, V, P: Probe<K>, const N: usize>(
    tree: &'map Tree<K, V, N>,
    cursor: &mut Cursor<K>,
    bounds: &Bounds<P>,
) -> (entry: Option<EntryRef<'map, K, V, N>>)
    requires
        lawful::<K>(),
        P::probes(),
        tree.wf(),
    ensures
        ({
            let (place, found) = advanced(old(cursor)@, tree@, *bounds);
            &&& final(cursor)@ == place
            &&& entry is Some == found is Some
            &&& entry is Some ==> entry->0@ == found->0
        }),
{
    proof {
        tree.lemma_sorted();
        lemma_step(cursor@, tree@, *bounds);
    }
    let candidate = match cursor.aim(bounds) {
        Aim::Nowhere => return None,
        Aim::First => tree.first_entry(),
        Aim::Bound(start, inclusive) => tree.entry_at_or_after(start, inclusive),
        Aim::Behind(last) => {
            assert(cut(last) =~= cut_of(*last));
            tree.entry_at_or_after(last, false)
        },
    };
    let spot = match candidate {
        None => {
            let _ = cursor.accept(None, bounds);
            return None;
        },
        Some(spot) => spot,
    };
    if !cursor.accept(Some(tree.key_at(spot)), bounds) {
        return None;
    }
    let record = tree.record(spot);
    Some(EntryRef::new(record.0, record.1))
}

/// The records on either side of a probe.
proof fn lemma_sides<K: Ord, V, P: Probe<K>>(s: Seq<(K, V)>, p: &P)
    requires
        lawful::<K>(),
        P::probes(),
        sorted(s),
    ensures
        0 <= rank(s, cut(p)) <= rank_past(s, cut(p)) <= s.len(),
        forall|i: int|
            0 <= i < s.len() ==> (p.side_spec((#[trigger] s[i]).0) == Side::After <==> i < rank(
                s,
                cut(p),
            )),
        forall|i: int|
            0 <= i < s.len() ==> (p.side_spec((#[trigger] s[i]).0) == Side::Before
                <==> rank_past(s, cut(p)) <= i),
{
    let c = cut(p);
    p.lemma_probe_consistent();
    lemma_rank(s, c);
    lemma_past_around(Seq::empty(), s, Seq::empty(), c);
    assert forall|i: int| 0 <= i < s.len() implies c((#[trigger] s[i]).0) == p.side_spec(
        s[i].0,
    ) by {}
}

/// An immutable ascending iterator over a bounded key range.
pub struct Range<'map, K, V, P, const N: usize> {
    /// Tree being traversed.
    tree: &'map Tree<K, V, N>,
    /// Start and end bounds.
    bounds: Bounds<P>,
    /// How far the traversal has come.
    cursor: Cursor<K>,
}

impl<'map, K: Ord, V, P: Probe<K> + Ord, const N: usize> Range<'map, K, V, P, N> {
    /// The invariant of an iterator.
    pub closed spec fn wf(&self) -> bool {
        &&& lawful::<K>()
        &&& P::probes()
        &&& self.tree.wf()
    }

    /// The records that are traversed.
    pub closed spec fn records(&self) -> Seq<(K, V)> {
        self.tree@
    }

    /// The ends of the range.
    pub closed spec fn bounds(&self) -> Bounds<P> {
        self.bounds
    }

    /// How far the traversal has come.
    pub closed spec fn place(&self) -> Place<K> {
        self.cursor@
    }

    /// The records that are still to come.
    pub open spec fn remaining(&self) -> Seq<(K, V)> {
        ahead_of(self.place(), self.records(), self.bounds())
    }

    /// Stores a range cursor.
    pub fn new(tree: &'map Tree<K, V, N>, bounds: Bounds<P>) -> (range: Self)
        requires
            lawful::<K>(),
            P::probes(),
            tree.wf(),
            bounds.fault() is None,
        ensures
            range.wf(),
            range.records() == tree@,
            range.bounds() == bounds,
            range.place() is Start,
            range.remaining() == bounds.select(tree@),
    {
        proof {
            tree.lemma_sorted();
            bounds.lemma_places(tree@);
        }
        Self { tree, bounds, cursor: Cursor::new() }
    }

    /// Applies the start bound once, then re-seeks after each returned key.
    pub fn next(&mut self) -> (entry: Option<EntryRef<'map, K, V, N>>)
        requires
            old(self).wf(),
        ensures
            final(self).wf(),
            final(self).records() == old(self).records(),
            final(self).bounds() == old(self).bounds(),
            ({
                let (place, found) = advanced(
                    old(self).place(),
                    old(self).records(),
                    old(self).bounds(),
                );
                &&& final(self).place() == place
                &&& entry is Some == found is Some
                &&& entry is Some ==> entry->0@ == found->0
            }),
            match entry {
                Some(entry) => {
                    &&& old(self).remaining().len() > 0
                    &&& entry@ == old(self).remaining()[0]
                    &&& final(self).remaining() == old(self).remaining().drop_first()
                },
                None => {
                    &&& old(self).remaining().len() == 0
                    &&& final(self).remaining().len() == 0
                },
            },
    {
        proof {
            self.tree.lemma_sorted();
            lemma_step(self.cursor@, self.tree@, self.bounds);
        }
        advance(self.tree, &mut self.cursor, &self.bounds)
    }

    /// Bounds the number of records that are still to come from below, and
    /// from above where that is known.
    pub fn size_hint(&self) -> (hint: (usize, Option<usize>))
        ensures
            hint == (0usize, None::<usize>),
            hint.0 <= self.remaining().len(),
    {
        (0, None)
    }
}

/// Read access to the key half of one map record.
#[must_use]
pub struct KeyRef<'map, K, V, const N: usize> {
    /// The full record.
    entry: EntryRef<'map, K, V, N>,
}

impl<'map, K, V, const N: usize> View for KeyRef<'map, K, V, N> {
    type V = K;

    closed spec fn view(&self) -> K {
        self.entry@.0
    }
}

impl<'map, K, V, const N: usize> KeyRef<'map, K, V, N> {
    /// Wraps a full entry.
    pub fn new(entry: EntryRef<'map, K, V, N>) -> (key: Self)
        ensures
            key@ == entry@.0,
    {
        KeyRef { entry }
    }

    /// Returns the key.
    pub fn get(&self) -> (key: &K)
        ensures
            *key == self@,
    {
        self.entry.key()
    }
}

/// Read access to the value and its associated key.
#[must_use]
pub struct ValueRef<'map, K, V, const N: usize> {
    /// The full record.
    entry: EntryRef<'map, K, V, N>,
}

impl<'map, K, V, const N: usize> View for ValueRef<'map, K, V, N> {
    type V = (K, V);

    closed spec fn view(&self) -> (K, V) {
        self.entry@
    }
}

impl<'map, K, V, const N: usize> ValueRef<'map, K, V, N> {
    /// Wraps a full entry.
    pub fn new(entry: EntryRef<'map, K, V, N>) -> (value: Self)
        ensures
            value@ == entry@,
    {
        ValueRef { entry }
    }

    /// Returns the key associated with this value.
    pub fn key(&self) -> (key: &K)
        ensures
            *key == self@.0,
    {
        self.entry.key()
    }

    /// Returns the value.
    pub fn get(&self) -> (value: &V)
        ensures
            *value == self@.1,
    {
        self.entry.value()
    }
}

/// The keys of records.
pub open spec fn keys_in<K, V>(s: Seq<(K, V)>) -> Seq<K> {
    s.map_values(|e: (K, V)| e.0)
}

/// An ascending iterator over map keys.
pub struct Keys<'map, K, V, const N: usize> {
    /// Underlying full-record iterator.
    inner: Iter<'map, K, V, N>,
}

impl<'map, K: Ord, V, const N: usize> Keys<'map, K, V, N> {
    /// The invariant of an iterator.
    pub closed spec fn wf(&self) -> bool {
        self.inner.wf()
    }

    /// The keys that are still to come.
    pub closed spec fn remaining(&self) -> Seq<K> {
        keys_in(self.inner.remaining())
    }

    /// Creates a key adapter around a full iterator.
    pub fn new(inner: Iter<'map, K, V, N>) -> (keys: Self)
        requires
            inner.wf(),
        ensures
            keys.wf(),
            keys.remaining() == keys_in(inner.remaining()),
    {
        Self { inner }
    }

    /// Advances to the next key.
    pub fn next(&mut self) -> (key: Option<KeyRef<'map, K, V, N>>)
        requires
            old(self).wf(),
        ensures
            final(self).wf(),
            match key {
                Some(key) => {
                    &&& old(self).remaining().len() > 0
                    &&& key@ == old(self).remaining()[0]
                    &&& final(self).remaining() == old(self).remaining().drop_first()
                },
                None => {
                    &&& old(self).remaining().len() == 0
                    &&& final(self).remaining().len() == 0
                },
            },
    {
        match self.inner.next() {
            Some(entry) => {
                assert(self.remaining() =~= old(self).remaining().drop_first());
                Some(KeyRef::new(entry))
            },
            None => None,
        }
    }

    /// Bounds the number of keys that are still to come from below, and from
    /// above where that is known.
    pub fn size_hint(&self) -> (hint: (usize, Option<usize>))
        ensures
            hint == (0usize, None::<usize>),
            hint.0 <= self.remaining().len(),
    {
        self.inner.size_hint()
    }
}

/// An iterator over map values in ascending key order.
pub struct Values<'map, K, V, const N: usize> {
    /// Underlying full-record iterator.
    inner: Iter<'map, K, V, N>,
}

impl<'map, K: Ord, V, const N: usize> Values<'map, K, V, N> {
    /// The invariant of an iterator.
    pub closed spec fn wf(&self) -> bool {
        self.inner.wf()
    }

    /// The keys and values that are still to come.
    pub closed spec fn remaining(&self) -> Seq<(K, V)> {
        self.inner.remaining()
    }

    /// Creates a value adapter around a full iterator.
    pub fn new(inner: Iter<'map, K, V, N>) -> (values: Self)
        requires
            inner.wf(),
        ensures
            values.wf(),
            values.remaining() == inner.remaining(),
    {
        Self { inner }
    }

    /// Advances to the next value.
    pub fn next(&mut self) -> (value: Option<ValueRef<'map, K, V, N>>)
        requires
            old(self).wf(),
        ensures
            final(self).wf(),
            match value {
                Some(value) => {
                    &&& old(self).remaining().len() > 0
                    &&& value@ == old(self).remaining()[0]
                    &&& final(self).remaining() == old(self).remaining().drop_first()
                },
                None => {
                    &&& old(self).remaining().len() == 0
                    &&& final(self).remaining().len() == 0
                },
            },
    {
        match self.inner.next() {
            Some(entry) => Some(ValueRef::new(entry)),
            None => None,
        }
    }

    /// Bounds the number of values that are still to come from below, and from
    /// above where that is known.
    pub fn size_hint(&self) -> (hint: (usize, Option<usize>))
        ensures
            hint == (0usize, None::<usize>),
            hint.0 <= self.remaining().len(),
    {
        self.inner.size_hint()
    }
}

} // verus!
