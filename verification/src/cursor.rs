//! The decisions of an ascending traversal, apart from how records are found.
//!
//! A cursor keeps the last key it came to and nothing of the records. Its owner
//! asks it where to look, finds the record there, and hands its key back. The
//! records may change in between, since the cursor looks anew every time.

use vstd::prelude::*;

use crate::handle::KeyHandle;
use crate::iter::{Bound, Bounds};
use crate::laws::law_iteration_advances;
use crate::order::{consistent, cut, cut_of, lawful, lemma_order, lt, Probe, Side};
use crate::records::{rank_past, sorted};

verus! {

/// How far a traversal has come.
pub enum Place<K> {
    /// Before the first key of the range.
    Start,
    /// Behind a key.
    Behind(K),
    /// Past the last key.
    End,
}

/// Where a cursor looks for the next record.
pub enum Aim<'a, K, P> {
    /// Nowhere: the traversal is over.
    Nowhere,
    /// At the first record.
    First,
    /// At the least record behind a bound, or at it if the flag is set.
    Bound(&'a P, bool),
    /// At the least record behind a key.
    Behind(&'a K),
}

/// The state of an ascending traversal.
pub struct Cursor<K> {
    /// Last key come to.
    last: Option<KeyHandle<K>>,
    /// Once exhausted, later records do not revive a traversal.
    finished: bool,
}

impl<K> View for Cursor<K> {
    type V = Place<K>;

    closed spec fn view(&self) -> Place<K> {
        if self.finished {
            Place::End
        } else {
            match self.last {
                Some(last) => Place::Behind(last@),
                None => Place::Start,
            }
        }
    }
}

impl<K> Cursor<K> {
    /// Makes a cursor before the first key.
    pub fn new() -> (cursor: Self)
        ensures
            cursor@ == Place::<K>::Start,
    {
        Cursor { last: None, finished: false }
    }

    /// Says where to look for the next record.
    pub fn aim<'a, P>(&'a self, bounds: &'a Bounds<P>) -> (aim: Aim<'a, K, P>)
        ensures
            aim == (match self@ {
                Place::Start => match bounds.start {
                    Bound::Unbounded => Aim::First,
                    Bound::Included(start) => Aim::Bound(&start, true),
                    Bound::Excluded(start) => Aim::Bound(&start, false),
                },
                Place::Behind(last) => Aim::Behind(&last),
                Place::End => Aim::Nowhere,
            }),
    {
        if self.finished {
            return Aim::Nowhere;
        }
        match &self.last {
            Some(last) => Aim::Behind(last.get()),
            None => match &bounds.start {
                Bound::Unbounded => Aim::First,
                Bound::Included(start) => Aim::Bound(start, true),
                Bound::Excluded(start) => Aim::Bound(start, false),
            },
        }
    }
}

impl<K: Ord> Cursor<K> {
    /// Takes the key of the record that was found, if there was one, and says
    /// whether the traversal comes to it. It is over otherwise.
    pub fn accept<P: Probe<K>>(
        &mut self,
        found: Option<KeyHandle<K>>,
        bounds: &Bounds<P>,
    ) -> (accepted: bool)
        requires
            P::probes(),
        ensures
            accepted == (old(self)@ !is End && found is Some && bounds.before_end(found->0@)),
            accepted <==> old(self)@ !is End && found is Some && {
                &&& bounds.end matches Bound::Included(end) ==> end.side_spec(found->0@)
                    != Side::Before
                &&& bounds.end matches Bound::Excluded(end) ==> end.side_spec(found->0@)
                    == Side::After
            },
            final(self)@ == (if accepted {
                Place::Behind(found->0@)
            } else {
                Place::End
            }),
    {
        match found {
            Some(key) => if !self.finished && bounds.inside_end_bound(key.get()) {
                self.last = Some(key);
                true
            } else {
                self.finished = true;
                false
            },
            None => {
                self.finished = true;
                false
            },
        }
    }
}

/// The index of the record at which a traversal of the records `s` looks.
pub open spec fn next_index<K: Ord, V, P: Probe<K>>(
    place: Place<K>,
    s: Seq<(K, V)>,
    bounds: Bounds<P>,
) -> int {
    match place {
        Place::Start => bounds.first(s),
        Place::Behind(last) => rank_past(s, cut_of(last)),
        Place::End => s.len() as int,
    }
}

/// One step of a traversal that finds the records `s`: how far it comes, and
/// the record it comes to.
pub open spec fn advanced<K: Ord, V, P: Probe<K>>(
    place: Place<K>,
    s: Seq<(K, V)>,
    bounds: Bounds<P>,
) -> (Place<K>, Option<(K, V)>) {
    let i = next_index(place, s, bounds);
    if place !is End && i < s.len() && bounds.before_end(s[i].0) {
        (Place::Behind(s[i].0), Some(s[i]))
    } else {
        (Place::End, None)
    }
}

/// What a traversal comes to whose steps find one after the other of these
/// records: other callers may change them between the steps.
pub open spec fn traversal<K: Ord, V, P: Probe<K>>(
    place: Place<K>,
    states: Seq<Seq<(K, V)>>,
    bounds: Bounds<P>,
) -> Seq<Option<(K, V)>>
    decreases states.len(),
{
    if states.len() == 0 {
        Seq::empty()
    } else {
        let (next, found) = advanced(place, states[0], bounds);
        seq![found] + traversal(next, states.drop_first(), bounds)
    }
}

/// Whether a key lies ahead of a traversal.
pub open spec fn ahead<K: Ord>(place: Place<K>, key: K) -> bool {
    match place {
        Place::Start => true,
        Place::Behind(last) => lt(last, key),
        Place::End => false,
    }
}

/// Whether a traversal has passed the start of its range.
pub open spec fn inside<K: Ord, P: Probe<K>>(place: Place<K>, bounds: Bounds<P>) -> bool {
    match place {
        Place::Behind(last) => bounds.after_start(last),
        _ => true,
    }
}

/// What one step comes to.
pub proof fn lemma_advanced<K: Ord, V, P: Probe<K>>(
    place: Place<K>,
    s: Seq<(K, V)>,
    bounds: Bounds<P>,
)
    requires
        lawful::<K>(),
        P::probes(),
        sorted(s),
        inside(place, bounds),
    ensures
        ({
            let (next, found) = advanced(place, s, bounds);
            &&& inside(next, bounds)
            &&& found matches Some(e) ==> {
                &&& next == Place::Behind(e.0)
                &&& s.contains(e)
                &&& bounds.contains(e.0)
                &&& ahead(place, e.0)
                &&& forall|i: int|
                    #![trigger s[i]]
                    0 <= i < s.len() && ahead(place, s[i].0) && bounds.contains(s[i].0) ==> s[i]
                        == e || lt(e.0, s[i].0)
            }
            &&& found is None ==> next is End && forall|i: int|
                #![trigger s[i]]
                0 <= i < s.len() && ahead(place, s[i].0) ==> !bounds.contains(s[i].0)
        }),
{
    let i = next_index(place, s, bounds);
    bounds.lemma_places(s);
    lemma_order::<K>();
    if let Place::Behind(last) = place {
        law_iteration_advances(s, last);
        if i < s.len() {
            assert(lt(last, s[i].0));
            if let Some(p) = bounds.start.key() {
                p.lemma_probe_consistent();
                let c = cut(&p);
                assert(consistent(c));
                assert(c(last) == p.side_spec(last) && c(s[i].0) == p.side_spec(s[i].0));
            }
        }
    }
    if place !is End {
        assert forall|k: int|
            #![trigger s[k]]
            0 <= k < s.len() && ahead(place, s[k].0) && bounds.contains(s[k].0) implies i <= k by {}
        if i < s.len() && bounds.before_end(s[i].0) {
            assert(s.contains(s[i]));
            assert(bounds.contains(s[i].0));
        }
    }
}

/// Every step of a traversal comes to a record that is there and in the range,
/// and to a greater key than the steps before. The step after the last one
/// comes to none, and so does every later one, whatever is inserted since.
pub proof fn law_traversal_ascends<K: Ord, V, P: Probe<K>>(
    states: Seq<Seq<(K, V)>>,
    bounds: Bounds<P>,
)
    requires
        lawful::<K>(),
        P::probes(),
        forall|i: int| 0 <= i < states.len() ==> sorted(#[trigger] states[i]),
    ensures
        ({
            let found = traversal(Place::Start, states, bounds);
            &&& found.len() == states.len()
            &&& forall|i: int|
                #![trigger found[i]]
                0 <= i < found.len() && found[i] is Some ==> states[i].contains(found[i]->0)
                    && bounds.contains((found[i]->0).0)
            &&& forall|i: int, j: int|
                #![trigger found[i], found[j]]
                0 <= i < j < found.len() && found[j] is Some ==> found[i] is Some && lt(
                    (found[i]->0).0,
                    (found[j]->0).0,
                )
        }),
{
    lemma_traversal_ascends(Place::Start, states, bounds);
}

proof fn lemma_traversal_ascends<K: Ord, V, P: Probe<K>>(
    place: Place<K>,
    states: Seq<Seq<(K, V)>>,
    bounds: Bounds<P>,
)
    requires
        lawful::<K>(),
        P::probes(),
        inside(place, bounds),
        forall|i: int| 0 <= i < states.len() ==> sorted(#[trigger] states[i]),
    ensures
        ({
            let found = traversal(place, states, bounds);
            &&& found.len() == states.len()
            &&& forall|i: int|
                #![trigger found[i]]
                0 <= i < found.len() && found[i] is Some ==> states[i].contains(found[i]->0)
                    && bounds.contains((found[i]->0).0) && ahead(place, (found[i]->0).0)
            &&& forall|i: int, j: int|
                #![trigger found[i], found[j]]
                0 <= i < j < found.len() && found[j] is Some ==> found[i] is Some && lt(
                    (found[i]->0).0,
                    (found[j]->0).0,
                )
        }),
    decreases states.len(),
{
    if states.len() > 0 {
        let (next, first) = advanced(place, states[0], bounds);
        let rest = states.drop_first();
        let later = traversal(next, rest, bounds);
        let found = traversal(place, states, bounds);
        assert(sorted(states[0]));
        lemma_advanced(place, states[0], bounds);
        assert forall|i: int| 0 <= i < rest.len() implies sorted(#[trigger] rest[i]) by {
            assert(rest[i] == states[i + 1]);
        }
        lemma_traversal_ascends(next, rest, bounds);
        lemma_order::<K>();
        assert forall|i: int|
            #![trigger found[i]]
            0 <= i < found.len() && found[i] is Some implies states[i].contains(found[i]->0)
            && bounds.contains((found[i]->0).0) && ahead(place, (found[i]->0).0) by {
            if i > 0 {
                assert(found[i] == later[i - 1]);
                assert(rest[i - 1] == states[i]);
            }
        }
        assert forall|i: int, j: int|
            #![trigger found[i], found[j]]
            0 <= i < j < found.len() && found[j] is Some implies found[i] is Some && lt(
            (found[i]->0).0,
            (found[j]->0).0,
        ) by {
            assert(found[j] == later[j - 1]);
            if i > 0 {
                assert(found[i] == later[i - 1]);
            }
        }
    }
}

/// A record of the range that stays during a traversal is come to before the
/// traversal is over, whatever else is inserted and removed meanwhile.
pub proof fn law_traversal_finds<K: Ord, V, P: Probe<K>>(
    states: Seq<Seq<(K, V)>>,
    bounds: Bounds<P>,
    e: (K, V),
    n: int,
)
    requires
        lawful::<K>(),
        P::probes(),
        forall|i: int| 0 <= i < states.len() ==> sorted(#[trigger] states[i]),
        forall|i: int| 0 <= i < states.len() ==> (#[trigger] states[i]).contains(e),
        bounds.contains(e.0),
        0 <= n < states.len(),
        traversal(Place::Start, states, bounds)[n] is None,
    ensures
        exists|m: int| 0 <= m < n && #[trigger] traversal(Place::Start, states, bounds)[m] == Some(e),
{
    lemma_traversal_finds(Place::Start, states, bounds, e, n);
}

proof fn lemma_traversal_finds<K: Ord, V, P: Probe<K>>(
    place: Place<K>,
    states: Seq<Seq<(K, V)>>,
    bounds: Bounds<P>,
    e: (K, V),
    n: int,
)
    requires
        lawful::<K>(),
        P::probes(),
        inside(place, bounds),
        ahead(place, e.0),
        forall|i: int| 0 <= i < states.len() ==> sorted(#[trigger] states[i]),
        forall|i: int| 0 <= i < states.len() ==> (#[trigger] states[i]).contains(e),
        bounds.contains(e.0),
        0 <= n < states.len(),
        traversal(place, states, bounds)[n] is None,
    ensures
        exists|m: int| 0 <= m < n && #[trigger] traversal(place, states, bounds)[m] == Some(e),
    decreases states.len(),
{
    let s = states[0];
    let (next, first) = advanced(place, s, bounds);
    let rest = states.drop_first();
    let later = traversal(next, rest, bounds);
    let found = traversal(place, states, bounds);
    assert(sorted(s) && s.contains(e));
    lemma_advanced(place, s, bounds);
    let k = choose|k: int| 0 <= k < s.len() && s[k] == e;
    assert(ahead(place, s[k].0));
    assert(first is Some);
    assert(found[0] == first);
    assert(n > 0);
    if first != Some(e) {
        assert forall|i: int| 0 <= i < rest.len() implies sorted(#[trigger] rest[i])
            && rest[i].contains(e) by {
            assert(rest[i] == states[i + 1]);
        }
        lemma_traversal_ascends(next, rest, bounds);
        assert(found[n] == later[n - 1]);
        lemma_traversal_finds(next, rest, bounds, e, n - 1);
        let m = choose|m: int| 0 <= m < n - 1 && #[trigger] later[m] == Some(e);
        assert(found[m + 1] == later[m]);
    }
}

} // verus!
