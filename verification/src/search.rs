//! Searches along the leaves of a tree whose pages change meanwhile.
//!
//! A search for the least record behind a position looks at one leaf after the
//! other, each under its own latch. Between two looks other callers may insert
//! and remove, and records may move to either side. A search that goes on only
//! at a leaf that owns the fence of the one it left passes no record that
//! stays.

use vstd::prelude::*;

use crate::cursor::Place;
use crate::history::{lemma_stable_between, steps_of, Call};
use crate::iter::{Bound, Bounds};
use crate::latched::Latched;
use crate::laws::same_key;
use crate::order::{
    consistent, cut, cut_of, lawful, lemma_cut_consistent, lemma_cut_sides, lemma_order, lt, Probe,
    Side,
};
use crate::page::{within, Page};
use crate::records::{
    holds, lemma_past_around, lemma_rank, lookup, rank, rank_past, sorted,
};

verus! {

/// Whether a search behind the position `c`, or at it too, is for a key.
pub open spec fn sought<K>(c: spec_fn(K) -> Side, inclusive: bool, key: K) -> bool {
    if inclusive {
        c(key) != Side::After
    } else {
        c(key) == Side::Before
    }
}

/// The index of the first record that is sought.
pub open spec fn first_sought<K, V>(
    s: Seq<(K, V)>,
    c: spec_fn(K) -> Side,
    inclusive: bool,
) -> int {
    if inclusive {
        rank(s, c)
    } else {
        rank_past(s, c)
    }
}

/// The records from the first one sought on are sought, and no others.
proof fn lemma_sought<K: Ord, V>(s: Seq<(K, V)>, c: spec_fn(K) -> Side, inclusive: bool)
    requires
        sorted(s),
        consistent(c),
    ensures
        0 <= first_sought(s, c, inclusive) <= s.len(),
        forall|i: int|
            0 <= i < s.len() ==> (sought(c, inclusive, (#[trigger] s[i]).0) <==> first_sought(
                s,
                c,
                inclusive,
            ) <= i),
{
    lemma_rank(s, c);
    lemma_past_around(Seq::empty(), s, Seq::empty(), c);
}

/// A record that is stored and sought, in a leaf that does not open above it,
/// is found there, or lies beyond the leaf.
proof fn lemma_look<K: Ord, V>(
    state: Latched<K, V>,
    n: int,
    id: usize,
    c: spec_fn(K) -> Side,
    inclusive: bool,
    e: K,
)
    requires
        lawful::<K>(),
        state.sound(n),
        consistent(c),
        id < state.pages.len(),
        state.pages[id as int].body is Leaf,
        state.pages[id as int].low matches Some(l) ==> !lt(e, l),
        holds(state.records(), cut_of(e)),
        sought(c, inclusive, e),
    ensures
        ({
            let p = state.pages[id as int];
            let s = p.items();
            let r = first_sought(s, c, inclusive);
            &&& 0 <= r <= s.len()
            &&& r < s.len() ==> sought(c, inclusive, s[r].0) && !lt(e, s[r].0)
            &&& r < s.len() && same_key(s[r].0, e) ==> lookup(s, cut_of(e)) == Some(s[r].1)
            &&& r == s.len() ==> p.high is Some && !lt(e, p.high->0) && p.right is Some
            &&& holds(s, cut_of(e)) || p.high is Some && !lt(e, p.high->0)
        }),
{
    let p = state.pages[id as int];
    let s = p.items();
    let r = first_sought(s, c, inclusive);
    let ce = cut_of(e);
    state.lemma_local(n, id);
    lemma_order::<K>();
    lemma_cut_consistent(e);
    lemma_cut_sides(e);
    lemma_sought(s, c, inclusive);
    lemma_rank(s, ce);
    let q = rank(s, ce);
    if p.high is Some && !lt(e, p.high->0) {
        if r < s.len() {
            assert(within(s[r].0, p.low, p.high));
        }
    } else {
        assert(p.low matches Some(l) ==> ce(l) != Side::Before);
        assert(p.high matches Some(h) ==> ce(h) == Side::Before);
        assert(p.route(ce) is Here);
        state.law_arrival_decides(n, id, ce);
        assert(holds(s, ce));
        assert(ce(s[q].0) == Side::At);
        assert(c(s[q].0) == c(e));
        assert(r <= q);
        if r < q {
            assert(lt(s[r].0, s[q].0));
        }
    }
    if r < s.len() && same_key(s[r].0, e) {
        assert(ce(s[r].0) == Side::At);
        if q < r {
            assert(ce(s[r].0) == Side::Before);
        }
        if r < q {
            assert(ce(s[r].0) == Side::After);
        }
    }
}

/// A search behind `last` that has looked at all of a leaf, and goes on at a
/// leaf that owns the fence of the first by then, passes no key that is stored
/// at both times: the key is not below the fence, and the leaf holds it or ends
/// before it.
pub proof fn law_scan_passes_nothing<K: Ord, V>(
    now: Latched<K, V>,
    later: Latched<K, V>,
    n: int,
    from: usize,
    at: usize,
    last: K,
    h: K,
    e: K,
)
    requires
        lawful::<K>(),
        now.sound(n),
        later.sound(n),
        from < now.pages.len(),
        now.pages[from as int].body is Leaf,
        now.pages[from as int].route(cut_of(last)) is Here,
        forall|i: int|
            0 <= i < now.pages[from as int].items().len() ==> !lt(
                last,
                (#[trigger] now.pages[from as int].items()[i]).0,
            ),
        now.pages[from as int].high == Some(h),
        at < later.pages.len(),
        later.pages[at as int].body is Leaf,
        later.pages[at as int].route(cut_of(h)) is Here,
        lt(last, e),
        holds(now.records(), cut_of(e)),
        holds(later.records(), cut_of(e)),
    ensures
        !lt(e, h),
        holds(later.pages[at as int].items(), cut_of(e)) || (
        later.pages[at as int].high matches Some(g) && !lt(e, g)),
{
    lemma_order::<K>();
    lemma_cut_consistent(last);
    lemma_cut_sides(last);
    lemma_cut_sides(h);
    let p = now.pages[from as int];
    assert(p.low matches Some(l) ==> cut_of(last)(l) != Side::Before);
    assert(cut_of(last)(e) == Side::Before);
    now.lemma_local(n, from);
    lemma_sought(p.items(), cut_of(last), false);
    lemma_look(now, n, from, cut_of(last), false, e);
    let q = later.pages[at as int];
    assert(q.low matches Some(l) ==> cut_of(h)(l) != Side::Before);
    lemma_look(later, n, at, cut_of(last), false, e);
}

/// A look of a search at a leaf, at one moment of a history.
pub ghost struct Look {
    /// The moment.
    pub moment: int,
    /// The leaf.
    pub id: usize,
}

/// The page that a search looks at.
pub open spec fn seen<K, V>(states: Seq<Latched<K, V>>, look: Look) -> Page<K, V, usize> {
    states[look.moment].pages[look.id as int]
}

/// Whether a search behind the position `c`, or at it too, can have looked at
/// these leaves: the first owned the position, every other the fence of the
/// one before, each at its moment, and no leaf but the last held a record that
/// is sought. Pages that only sent the search on are left out.
pub open spec fn searches<K: Ord, V>(
    states: Seq<Latched<K, V>>,
    looks: Seq<Look>,
    c: spec_fn(K) -> Side,
    inclusive: bool,
) -> bool {
    &&& looks.len() > 0
    &&& forall|i: int|
        #![trigger looks[i]]
        0 <= i < looks.len() ==> {
            let p = seen(states, looks[i]);
            &&& 0 <= looks[i].moment < states.len()
            &&& looks[i].id < states[looks[i].moment].pages.len()
            &&& p.body is Leaf
            &&& if i == 0 {
                p.route(c) is Here
            } else {
                seen(states, looks[i - 1]).high matches Some(h) && p.route(cut_of(h)) is Here
            }
            &&& i + 1 < looks.len() ==> first_sought(p.items(), c, inclusive) == p.items().len()
        }
}

/// The record that a search comes to in the last leaf it looks at.
pub open spec fn found<K: Ord, V>(
    states: Seq<Latched<K, V>>,
    looks: Seq<Look>,
    c: spec_fn(K) -> Side,
    inclusive: bool,
) -> Option<(K, V)> {
    let s = seen(states, looks.last()).items();
    let r = first_sought(s, c, inclusive);
    if r < s.len() {
        Some(s[r])
    } else {
        None
    }
}

/// Whether a search is over: it came to a record, or the last leaf has no
/// successor.
pub open spec fn over<K: Ord, V>(
    states: Seq<Latched<K, V>>,
    looks: Seq<Look>,
    c: spec_fn(K) -> Side,
    inclusive: bool,
) -> bool {
    found(states, looks, c, inclusive) is Some || seen(states, looks.last()).right is None
}

/// Whether no call of a history concerns a key.
pub open spec fn untouched<K: Ord, V>(steps: Seq<Option<Call<K, V>>>, key: K) -> bool {
    forall|i: int|
        0 <= i < steps.len() ==> (#[trigger] steps[i] matches Some(call) ==> !same_key(
            call.key(),
            key,
        ))
}

/// The leaves that a search looks at do not open above a key that is sought,
/// stored, and concerned by no call.
proof fn lemma_looks<K: Ord, V>(
    states: Seq<Latched<K, V>>,
    steps: Seq<Option<Call<K, V>>>,
    n: int,
    looks: Seq<Look>,
    c: spec_fn(K) -> Side,
    inclusive: bool,
    e: K,
    i: int,
)
    requires
        lawful::<K>(),
        consistent(c),
        steps_of(states, steps),
        forall|k: int| 0 <= k < states.len() ==> (#[trigger] states[k]).sound(n),
        untouched(steps, e),
        lookup(states[0].records(), cut_of(e)) is Some,
        searches(states, looks, c, inclusive),
        sought(c, inclusive, e),
        0 <= i < looks.len(),
    ensures
        seen(states, looks[i]).low matches Some(l) ==> !lt(e, l),
        holds(states[looks[i].moment].records(), cut_of(e)),
        lookup(states[looks[i].moment].records(), cut_of(e)) == lookup(
            states[0].records(),
            cut_of(e),
        ),
    decreases i,
{
    let p = seen(states, looks[i]);
    lemma_order::<K>();
    lemma_stable_between(states, steps, n, e, looks[i].moment);
    if i == 0 {
        if let Some(l) = p.low {
            assert(c(l) != Side::Before);
            assert(lt(e, l) ==> c(e) == Side::After);
        }
    } else {
        let before = looks[i - 1];
        lemma_looks(states, steps, n, looks, c, inclusive, e, i - 1);
        assert(states[before.moment].sound(n));
        lemma_look(states[before.moment], n, before.id, c, inclusive, e);
        let h = seen(states, before).high->0;
        lemma_cut_sides(h);
        assert(p.low matches Some(l) ==> cut_of(h)(l) != Side::Before);
    }
}

/// A search does not pass a record that is sought and that no call concerns,
/// whatever else is inserted and removed and however pages change meanwhile:
/// once it is over, it has come to that record or to one before it.
pub proof fn law_search_meets<K: Ord, V>(
    states: Seq<Latched<K, V>>,
    steps: Seq<Option<Call<K, V>>>,
    n: int,
    looks: Seq<Look>,
    c: spec_fn(K) -> Side,
    inclusive: bool,
    e: K,
)
    requires
        lawful::<K>(),
        consistent(c),
        steps_of(states, steps),
        forall|k: int| 0 <= k < states.len() ==> (#[trigger] states[k]).sound(n),
        untouched(steps, e),
        lookup(states[0].records(), cut_of(e)) is Some,
        searches(states, looks, c, inclusive),
        over(states, looks, c, inclusive),
        sought(c, inclusive, e),
    ensures
        found(states, looks, c, inclusive) matches Some(r) && {
            &&& sought(c, inclusive, r.0)
            &&& !lt(e, r.0)
            &&& same_key(r.0, e) ==> Some(r.1) == lookup(states[0].records(), cut_of(e))
        },
{
    let i = looks.len() - 1;
    let look = looks[i];
    let state = states[look.moment];
    lemma_looks(states, steps, n, looks, c, inclusive, e, i);
    assert(state.sound(n));
    lemma_look(state, n, look.id, c, inclusive, e);
    let p = seen(states, look);
    let s = p.items();
    let r = first_sought(s, c, inclusive);
    if r < s.len() && same_key(s[r].0, e) {
        // The leaf decides what the tree holds under the key.
        state.lemma_local(n, look.id);
        lemma_order::<K>();
        lemma_cut_sides(e);
        lemma_cut_consistent(e);
        assert(within(s[r].0, p.low, p.high));
        assert(p.high matches Some(h) ==> cut_of(e)(h) == Side::Before);
        assert(p.low matches Some(l) ==> cut_of(e)(l) != Side::Before);
        state.law_arrival_decides(n, look.id, cut_of(e));
    }
}

/// What a search comes to is stored at the moment of its last look, and sought.
pub proof fn law_search_finds<K: Ord, V>(
    states: Seq<Latched<K, V>>,
    n: int,
    looks: Seq<Look>,
    c: spec_fn(K) -> Side,
    inclusive: bool,
)
    requires
        lawful::<K>(),
        consistent(c),
        forall|k: int| 0 <= k < states.len() ==> (#[trigger] states[k]).sound(n),
        searches(states, looks, c, inclusive),
    ensures
        found(states, looks, c, inclusive) matches Some(r) ==> {
            &&& sought(c, inclusive, r.0)
            &&& lookup(states[looks.last().moment].records(), cut_of(r.0)) == Some(r.1)
        },
{
    let look = looks[looks.len() - 1];
    let state = states[look.moment];
    assert(state.sound(n));
    let p = seen(states, look);
    let s = p.items();
    let r = first_sought(s, c, inclusive);
    state.lemma_local(n, look.id);
    lemma_sought(s, c, inclusive);
    if r < s.len() {
        let k = s[r].0;
        let ck = cut_of(k);
        lemma_order::<K>();
        lemma_cut_sides(k);
        lemma_cut_consistent(k);
        lemma_rank(s, ck);
        assert(within(k, p.low, p.high));
        assert(p.high matches Some(h) ==> ck(h) == Side::Before);
        assert(p.low matches Some(l) ==> ck(l) != Side::Before);
        state.law_arrival_decides(n, look.id, ck);
        assert(ck(s[r].0) == Side::At);
        assert(rank(s, ck) == r);
    }
}

/// The position at which the next search of a traversal starts.
pub open spec fn position<K: Ord, P: Probe<K>>(place: Place<K>, bounds: Bounds<P>) -> spec_fn(K) -> Side {
    match place {
        Place::Start => match bounds.start {
            Bound::Included(p) => cut(&p),
            Bound::Excluded(p) => cut(&p),
            Bound::Unbounded => |x: K| Side::Before,
        },
        Place::Behind(last) => cut_of(last),
        Place::End => |x: K| Side::After,
    }
}

/// Whether the next search of a traversal is for the position too.
pub open spec fn inclusive<K: Ord, P: Probe<K>>(place: Place<K>, bounds: Bounds<P>) -> bool {
    place is Start && bounds.start !is Excluded
}

/// The next search of a traversal is for the keys behind the last one, and
/// before the first one for those that do not lie before the range.
pub proof fn law_search_start<K: Ord, P: Probe<K>>(place: Place<K>, bounds: Bounds<P>, key: K)
    requires
        lawful::<K>(),
        place !is End,
    ensures
        sought(position(place, bounds), inclusive(place, bounds), key) <==> match place {
            Place::Behind(last) => lt(last, key),
            _ => {
                &&& bounds.start matches Bound::Included(b) ==> b.side_spec(key) != Side::After
                &&& bounds.start matches Bound::Excluded(b) ==> b.side_spec(key) == Side::Before
            },
        },
{
    if let Place::Behind(last) = place {
        lemma_cut_sides(last);
        assert(cut_of(last)(key) == Side::Before <==> lt(last, key));
    }
}

/// A search for the least key at a key or behind it, or behind it alone, finds
/// a record of which that holds, and none before it in the same records.
pub proof fn law_first_sought<K: Ord, V>(s: Seq<(K, V)>, key: K, inclusive: bool)
    requires
        lawful::<K>(),
        sorted(s),
    ensures
        0 <= first_sought(s, cut_of(key), inclusive) <= s.len(),
        forall|i: int|
            0 <= i < s.len() ==> (first_sought(s, cut_of(key), inclusive) <= i <==> if inclusive {
                !lt((#[trigger] s[i]).0, key)
            } else {
                lt(key, s[i].0)
            }),
{
    let c = cut_of(key);
    lemma_cut_consistent(key);
    lemma_cut_sides(key);
    lemma_sought(s, c, inclusive);
    assert forall|i: int| 0 <= i < s.len() implies (first_sought(s, c, inclusive) <= i <==> if inclusive {
        !lt((#[trigger] s[i]).0, key)
    } else {
        lt(key, s[i].0)
    }) by {
        assert(c(s[i].0) == Side::After <==> lt(s[i].0, key));
        assert(c(s[i].0) == Side::Before <==> lt(key, s[i].0));
    }
}

/// One step of a traversal whose search looked at these leaves: how far it
/// comes, and the record it comes to.
pub open spec fn stepped<K: Ord, V, P: Probe<K>>(
    states: Seq<Latched<K, V>>,
    looks: Seq<Look>,
    place: Place<K>,
    bounds: Bounds<P>,
) -> (Place<K>, Option<(K, V)>) {
    let r = found(states, looks, position(place, bounds), inclusive(place, bounds));
    if place !is End && r is Some && bounds.before_end((r->0).0) {
        (Place::Behind((r->0).0), r)
    } else {
        (Place::End, None)
    }
}

/// What a traversal comes to whose steps looked at these leaves.
pub open spec fn passage<K: Ord, V, P: Probe<K>>(
    states: Seq<Latched<K, V>>,
    calls: Seq<Seq<Look>>,
    place: Place<K>,
    bounds: Bounds<P>,
) -> Seq<Option<(K, V)>>
    decreases calls.len(),
{
    if calls.len() == 0 {
        Seq::empty()
    } else {
        let (next, r) = stepped(states, calls[0], place, bounds);
        seq![r] + passage(states, calls.drop_first(), next, bounds)
    }
}

/// Whether every step of a traversal that is not over made a search, up to its
/// end.
pub open spec fn travels<K: Ord, V, P: Probe<K>>(
    states: Seq<Latched<K, V>>,
    calls: Seq<Seq<Look>>,
    place: Place<K>,
    bounds: Bounds<P>,
) -> bool
    decreases calls.len(),
{
    calls.len() == 0 || {
        let c = position(place, bounds);
        let i = inclusive(place, bounds);
        &&& place !is End ==> searches(states, calls[0], c, i) && over(states, calls[0], c, i)
        &&& travels(
            states,
            calls.drop_first(),
            stepped(states, calls[0], place, bounds).0,
            bounds,
        )
    }
}

/// The position of a traversal agrees with the key order, and what is sought
/// there lies ahead of it.
proof fn lemma_position<K: Ord, P: Probe<K>>(place: Place<K>, bounds: Bounds<P>, key: K)
    requires
        lawful::<K>(),
        P::probes(),
        place !is End,
    ensures
        consistent(position(place, bounds)),
        sought(position(place, bounds), inclusive(place, bounds), key) <==> (match place {
            Place::Behind(last) => lt(last, key),
            _ => bounds.after_start(key),
        }),
{
    match place {
        Place::Start => match bounds.start {
            Bound::Included(p) => {
                p.lemma_probe_consistent();
            },
            Bound::Excluded(p) => {
                p.lemma_probe_consistent();
            },
            Bound::Unbounded => {},
        },
        Place::Behind(last) => {
            lemma_cut_consistent(last);
            lemma_cut_sides(last);
            assert(cut_of(last)(key) == Side::Before <==> lt(last, key));
        },
        Place::End => {},
    }
}

/// The steps of a traversal come to greater and greater keys, and once one
/// comes to none, so does every later one, whatever other callers do between
/// and during the steps.
pub proof fn law_passage_ascends<K: Ord, V, P: Probe<K>>(
    states: Seq<Latched<K, V>>,
    n: int,
    calls: Seq<Seq<Look>>,
    place: Place<K>,
    bounds: Bounds<P>,
)
    requires
        lawful::<K>(),
        P::probes(),
        forall|k: int| 0 <= k < states.len() ==> (#[trigger] states[k]).sound(n),
        travels(states, calls, place, bounds),
    ensures
        ({
            let out = passage(states, calls, place, bounds);
            &&& out.len() == calls.len()
            &&& forall|i: int|
                #![trigger out[i]]
                0 <= i < out.len() && out[i] is Some ==> match place {
                    Place::Start => true,
                    Place::Behind(last) => lt(last, (out[i]->0).0),
                    Place::End => false,
                }
            &&& forall|i: int, j: int|
                #![trigger out[i], out[j]]
                0 <= i < j < out.len() && out[j] is Some ==> out[i] is Some && lt(
                    (out[i]->0).0,
                    (out[j]->0).0,
                )
        }),
    decreases calls.len(),
{
    if calls.len() > 0 {
        let (next, r) = stepped(states, calls[0], place, bounds);
        let rest = calls.drop_first();
        let later = passage(states, rest, next, bounds);
        let out = passage(states, calls, place, bounds);
        lemma_order::<K>();
        law_passage_ascends(states, n, rest, next, bounds);
        if r is Some {
            lemma_position(place, bounds, (r->0).0);
            law_search_finds(
                states,
                n,
                calls[0],
                position(place, bounds),
                inclusive(place, bounds),
            );
        }
        assert(out[0] == r);
        assert forall|i: int| #![trigger out[i]] 0 < i < out.len() implies out[i] == later[i - 1] by {}
    }
}

/// A traversal comes to every record of its range that no call concerns before
/// it is over, whatever other callers insert and remove between and during its
/// steps, and however pages are split, balanced, merged and retired.
pub proof fn law_passage_meets<K: Ord, V, P: Probe<K>>(
    states: Seq<Latched<K, V>>,
    steps: Seq<Option<Call<K, V>>>,
    n: int,
    calls: Seq<Seq<Look>>,
    bounds: Bounds<P>,
    e: K,
    m: int,
)
    requires
        lawful::<K>(),
        P::probes(),
        steps_of(states, steps),
        forall|k: int| 0 <= k < states.len() ==> (#[trigger] states[k]).sound(n),
        untouched(steps, e),
        lookup(states[0].records(), cut_of(e)) is Some,
        bounds.contains(e),
        travels(states, calls, Place::Start, bounds),
        0 <= m < calls.len(),
        passage(states, calls, Place::Start, bounds)[m] is None,
    ensures
        exists|k: int|
            0 <= k < m && met(
                #[trigger] passage(states, calls, Place::Start, bounds)[k],
                e,
                lookup(states[0].records(), cut_of(e)),
            ),
{
    lemma_passage_meets(states, steps, n, calls, Place::Start, bounds, e, m);
}

/// Whether a step came to the record of a key.
pub open spec fn met<K: Ord, V>(r: Option<(K, V)>, key: K, value: Option<V>) -> bool {
    r is Some && same_key((r->0).0, key) && Some((r->0).1) == value
}

proof fn lemma_passage_meets<K: Ord, V, P: Probe<K>>(
    states: Seq<Latched<K, V>>,
    steps: Seq<Option<Call<K, V>>>,
    n: int,
    calls: Seq<Seq<Look>>,
    place: Place<K>,
    bounds: Bounds<P>,
    e: K,
    m: int,
)
    requires
        lawful::<K>(),
        P::probes(),
        steps_of(states, steps),
        forall|k: int| 0 <= k < states.len() ==> (#[trigger] states[k]).sound(n),
        untouched(steps, e),
        lookup(states[0].records(), cut_of(e)) is Some,
        bounds.contains(e),
        travels(states, calls, place, bounds),
        place !is End,
        place matches Place::Behind(last) ==> lt(last, e),
        0 <= m < calls.len(),
        passage(states, calls, place, bounds)[m] is None,
    ensures
        exists|k: int|
            0 <= k < m && met(
                #[trigger] passage(states, calls, place, bounds)[k],
                e,
                lookup(states[0].records(), cut_of(e)),
            ),
    decreases calls.len(),
{
    let value = lookup(states[0].records(), cut_of(e));
    let c = position(place, bounds);
    let i = inclusive(place, bounds);
    let (next, r) = stepped(states, calls[0], place, bounds);
    let rest = calls.drop_first();
    let later = passage(states, rest, next, bounds);
    let out = passage(states, calls, place, bounds);
    lemma_position(place, bounds, e);
    law_search_meets(states, steps, n, calls[0], c, i, e);
    let f = found(states, calls[0], c, i)->0;
    lemma_before_end(bounds, f.0, e);
    assert(r == Some(f));
    assert(out[0] == r);
    assert(m > 0);
    if !same_key(f.0, e) {
        law_passage_ascends(states, n, rest, next, bounds);
        assert(out[m] == later[m - 1]);
        lemma_passage_meets(states, steps, n, rest, next, bounds, e, m - 1);
        let k = choose|k: int| 0 <= k < m - 1 && met(#[trigger] later[k], e, value);
        assert(out[k + 1] == later[k]);
    } else {
        assert(met(out[0], e, value));
    }
}

/// A key that is not greater than one inside the end of a range is inside too.
proof fn lemma_before_end<K: Ord, P: Probe<K>>(bounds: Bounds<P>, a: K, b: K)
    requires
        lawful::<K>(),
        P::probes(),
        !lt(b, a),
        bounds.before_end(b),
    ensures
        bounds.before_end(a),
{
    if let Some(p) = bounds.end.key() {
        p.lemma_probe_consistent();
        let c = cut(&p);
        assert(consistent(c));
        assert(c(a) == p.side_spec(a) && c(b) == p.side_spec(b));
    }
}

} // verus!
