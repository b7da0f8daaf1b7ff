//! Histories of a map: calls of any number of callers, in the order in which
//! they take effect.
//!
//! A call takes effect in the one step in which it changes or reads the leaf
//! that owns its key, so the calls of concurrent callers form one sequence.

use vstd::prelude::*;

use crate::latched::Latched;
use crate::laws::{
    law_insert_keeps_others, law_insert_len, law_insert_then_get, law_remove_keeps_others,
    law_remove_len, law_remove_then_get, same_key,
};
use crate::order::{
    cut_of, lawful, lemma_cut_consistent, lemma_cut_sides, lemma_order, lt, Side,
};
use crate::records::{holds, inserted, lookup, removed, sorted};

verus! {

/// A call that changes a map.
pub enum Call<K, V> {
    /// Inserts or replaces a record.
    Insert(K, V),
    /// Removes a record.
    Remove(K),
}

impl<K, V> Call<K, V> {
    /// The key that is concerned.
    pub open spec fn key(self) -> K {
        match self {
            Call::Insert(key, _) => key,
            Call::Remove(key) => key,
        }
    }
}

/// The records after a call.
pub open spec fn effect<K: Ord, V>(s: Seq<(K, V)>, call: Call<K, V>) -> Seq<(K, V)> {
    match call {
        Call::Insert(key, value) => inserted(s, key, value),
        Call::Remove(key) => removed(s, cut_of(key)),
    }
}

/// The records after a history of calls.
pub open spec fn after<K: Ord, V>(s: Seq<(K, V)>, calls: Seq<Call<K, V>>) -> Seq<(K, V)>
    decreases calls.len(),
{
    if calls.len() == 0 {
        s
    } else {
        effect(after(s, calls.drop_last()), calls.last())
    }
}

/// What the `i`th call of a history returns: the value under its key before it.
pub open spec fn returned<K: Ord, V>(s: Seq<(K, V)>, calls: Seq<Call<K, V>>, i: int) -> Option<V> {
    lookup(after(s, calls.take(i)), cut_of(calls[i].key()))
}

/// A call keeps the records sorted, and leaves other keys as they were.
proof fn lemma_effect<K: Ord, V>(s: Seq<(K, V)>, call: Call<K, V>, other: K)
    requires
        lawful::<K>(),
        sorted(s),
    ensures
        sorted(effect(s, call)),
        !same_key(call.key(), other) ==> lookup(effect(s, call), cut_of(other)) == lookup(
            s,
            cut_of(other),
        ),
{
    lemma_cut_consistent(call.key());
    match call {
        Call::Insert(key, value) => {
            law_insert_len(s, key, value);
            if !same_key(key, other) {
                law_insert_keeps_others(s, key, value, other);
            }
        },
        Call::Remove(key) => {
            law_remove_len(s, cut_of(key));
            if !same_key(key, other) {
                lemma_cut_sides(key);
                assert(cut_of(key)(other) != Side::At);
                law_remove_keeps_others(s, cut_of(key), other);
            }
        },
    }
}

/// A history keeps the records sorted. What it holds under a key that no call
/// concerns stays as it was.
pub proof fn law_stable_key<K: Ord, V>(s: Seq<(K, V)>, calls: Seq<Call<K, V>>, key: K)
    requires
        lawful::<K>(),
        sorted(s),
    ensures
        sorted(after(s, calls)),
        (forall|i: int| 0 <= i < calls.len() ==> !same_key((#[trigger] calls[i]).key(), key))
            ==> lookup(after(s, calls), cut_of(key)) == lookup(s, cut_of(key)),
    decreases calls.len(),
{
    if calls.len() > 0 {
        let init = calls.drop_last();
        law_stable_key(s, init, key);
        lemma_effect(after(s, init), calls.last(), key);
        if forall|i: int| 0 <= i < calls.len() ==> !same_key((#[trigger] calls[i]).key(), key) {
            assert forall|i: int| 0 <= i < init.len() implies !same_key(
                (#[trigger] init[i]).key(),
                key,
            ) by {
                assert(init[i] == calls[i]);
            }
            assert(!same_key(calls[calls.len() - 1].key(), key));
        }
    }
}

/// Whether the last call that concerns a key, if there is one, is the `i`th.
pub open spec fn last_call<K: Ord, V>(calls: Seq<Call<K, V>>, key: K, i: int) -> bool {
    &&& 0 <= i < calls.len()
    &&& same_key(calls[i].key(), key)
    &&& forall|j: int| i < j < calls.len() ==> !same_key((#[trigger] calls[j]).key(), key)
}

/// A map holds under a key what the last call that concerned the key left
/// there: the value it inserted, or nothing if it removed the record.
pub proof fn law_last_call_decides<K: Ord, V>(
    s: Seq<(K, V)>,
    calls: Seq<Call<K, V>>,
    key: K,
    i: int,
)
    requires
        lawful::<K>(),
        sorted(s),
        last_call(calls, key, i),
    ensures
        lookup(after(s, calls), cut_of(key)) == (match calls[i] {
            Call::Insert(_, value) => Some(value),
            Call::Remove(_) => None,
        }),
    decreases calls.len(),
{
    let init = calls.drop_last();
    let before = after(s, init);
    law_stable_key(s, init, key);
    if i == calls.len() - 1 {
        lemma_order::<K>();
        lemma_cut_consistent(calls[i].key());
        assert(cut_of(calls[i].key()) =~= cut_of(key)) by {
            lemma_same_cut(calls[i].key(), key);
        }
        match calls[i] {
            Call::Insert(k, value) => {
                law_insert_then_get(before, k, value);
            },
            Call::Remove(k) => {
                law_remove_then_get(before, cut_of(k));
            },
        }
    } else {
        assert(!same_key(calls[calls.len() - 1].key(), key));
        assert forall|j: int| i < j < init.len() implies !same_key(
            (#[trigger] init[j]).key(),
            key,
        ) by {
            assert(init[j] == calls[j]);
        }
        law_last_call_decides(s, init, key, i);
        lemma_effect(before, calls.last(), key);
    }
}

/// Keys that are the same to a map have the same place among all keys.
proof fn lemma_same_cut<K: Ord>(a: K, b: K)
    requires
        lawful::<K>(),
        same_key(a, b),
    ensures
        cut_of(a) == cut_of(b),
{
    lemma_order::<K>();
    lemma_cut_sides(a);
    lemma_cut_sides(b);
    assert forall|x: K| #[trigger] cut_of(a)(x) == cut_of(b)(x) by {
        if lt(a, x) {
            assert(!lt(b, a));
            if !lt(b, x) {
                assert(!lt(a, b) && !lt(b, x));
            }
        } else if lt(x, a) {
            if !lt(x, b) {
                assert(!lt(x, b) && !lt(b, a));
            }
        } else {
            if lt(b, x) {
                assert(!lt(b, a) && !lt(a, x));
            }
            if lt(x, b) {
                assert(!lt(x, a) && !lt(a, b));
            }
        }
    }
    assert(cut_of(a) =~= cut_of(b));
}

/// An insertion adds a record exactly where it returns nothing, and a removal
/// takes one away exactly where it returns something.
pub proof fn law_history_counts<K: Ord, V>(s: Seq<(K, V)>, calls: Seq<Call<K, V>>)
    requires
        lawful::<K>(),
        sorted(s),
        calls.len() > 0,
    ensures
        ({
            let before = after(s, calls.drop_last());
            let value = lookup(before, cut_of(calls.last().key()));
            after(s, calls).len() == before.len() + (match calls.last() {
                Call::Insert(_, _) => if value is None {
                    1int
                } else {
                    0
                },
                Call::Remove(_) => if value is Some {
                    -1
                } else {
                    0
                },
            })
        }),
{
    let before = after(s, calls.drop_last());
    law_stable_key(s, calls.drop_last(), calls.last().key());
    lemma_cut_consistent(calls.last().key());
    match calls.last() {
        Call::Insert(key, value) => {
            law_insert_len(before, key, value);
        },
        Call::Remove(key) => {
            law_remove_len(before, cut_of(key));
        },
    }
}

/// Of insertions that race under one absent key, the first to take effect
/// returns nothing, and every other the value of the one before it. So each
/// value but the last is returned once, and the last one stays, in one record.
pub proof fn law_racing_inserts<K: Ord, V>(
    s: Seq<(K, V)>,
    key: K,
    values: Seq<V>,
    calls: Seq<Call<K, V>>,
)
    requires
        lawful::<K>(),
        sorted(s),
        !holds(s, cut_of(key)),
        calls == Seq::new(values.len(), |i: int| Call::Insert(key, values[i])),
        values.len() > 0,
    ensures
        returned(s, calls, 0) is None,
        forall|i: int|
            0 < i < values.len() ==> #[trigger] returned(s, calls, i) == Some(values[i - 1]),
        lookup(after(s, calls), cut_of(key)) == Some(values.last()),
        after(s, calls).len() == s.len() + 1,
{
    assert(calls.take(0) =~= Seq::empty());
    assert forall|i: int| 0 < i < values.len() implies #[trigger] returned(s, calls, i) == Some(
        values[i - 1],
    ) by {
        lemma_inserts_in_turn(s, key, calls, i);
        assert(calls[i - 1] == Call::Insert(key, values[i - 1]));
    }
    lemma_inserts_in_turn(s, key, calls, values.len() as int);
    assert(calls.take(values.len() as int) =~= calls);
}

/// After some of the insertions under one key the last of them is in force.
proof fn lemma_inserts_in_turn<K: Ord, V>(
    s: Seq<(K, V)>,
    key: K,
    calls: Seq<Call<K, V>>,
    n: int,
)
    requires
        lawful::<K>(),
        sorted(s),
        !holds(s, cut_of(key)),
        0 < n <= calls.len(),
        forall|i: int|
            0 <= i < calls.len() ==> #[trigger] calls[i] is Insert && calls[i].key() == key,
    ensures
        lookup(after(s, calls.take(n)), cut_of(key)) == Some(calls[n - 1]->Insert_1),
        after(s, calls.take(n)).len() == s.len() + 1,
    decreases n,
{
    let init = calls.take(n - 1);
    let before = after(s, init);
    assert(calls.take(n).drop_last() =~= init);
    assert(calls[n - 1] is Insert && calls[n - 1].key() == key);
    law_stable_key(s, init, key);
    if n > 1 {
        lemma_inserts_in_turn(s, key, calls, n - 1);
    } else {
        assert(init =~= Seq::empty());
    }
    let value = calls[n - 1]->Insert_1;
    assert(calls[n - 1] == Call::Insert(key, value));
    law_insert_then_get(before, key, value);
    law_insert_len(before, key, value);
}

/// The steps of a tree of latched pages: each is one of a call, or changes
/// pages alone.
pub open spec fn steps_of<K: Ord, V>(
    states: Seq<Latched<K, V>>,
    steps: Seq<Option<Call<K, V>>>,
) -> bool {
    &&& states.len() == steps.len() + 1
    &&& forall|i: int|
        #![trigger steps[i]]
        0 <= i < steps.len() ==> states[i + 1].records() == (match steps[i] {
            Some(call) => effect(states[i].records(), call),
            None => states[i].records(),
        })
}

/// A record that no call concerns is found at every moment: whatever other
/// callers insert and remove, and however pages are split, balanced, merged
/// and retired meanwhile, the leaf at which a lookup arrives holds it.
pub proof fn law_stable_record<K: Ord, V>(
    states: Seq<Latched<K, V>>,
    steps: Seq<Option<Call<K, V>>>,
    n: int,
    key: K,
    moment: int,
    id: usize,
)
    requires
        lawful::<K>(),
        steps_of(states, steps),
        forall|i: int| 0 <= i < states.len() ==> (#[trigger] states[i]).sound(n),
        forall|i: int|
            0 <= i < steps.len() ==> (#[trigger] steps[i] matches Some(call) ==> !same_key(
                call.key(),
                key,
            )),
        0 <= moment < states.len(),
        id < states[moment].pages.len(),
        states[moment].pages[id as int].body is Leaf,
        states[moment].pages[id as int].route(cut_of(key)) is Here,
    ensures
        lookup(states[moment].pages[id as int].items(), cut_of(key)) == lookup(
            states[0].records(),
            cut_of(key),
        ),
{
    lemma_cut_consistent(key);
    lemma_stable_between(states, steps, n, key, moment);
    assert(states[moment].sound(n));
    states[moment].law_arrival_decides(n, id, cut_of(key));
}

pub proof fn lemma_stable_between<K: Ord, V>(
    states: Seq<Latched<K, V>>,
    steps: Seq<Option<Call<K, V>>>,
    n: int,
    key: K,
    moment: int,
)
    requires
        lawful::<K>(),
        steps_of(states, steps),
        forall|i: int| 0 <= i < states.len() ==> (#[trigger] states[i]).sound(n),
        forall|i: int|
            0 <= i < steps.len() ==> (#[trigger] steps[i] matches Some(call) ==> !same_key(
                call.key(),
                key,
            )),
        0 <= moment < states.len(),
    ensures
        lookup(states[moment].records(), cut_of(key)) == lookup(
            states[0].records(),
            cut_of(key),
        ),
    decreases moment,
{
    if moment > 0 {
        lemma_stable_between(states, steps, n, key, moment - 1);
        assert(states[moment - 1].sound(n));
        states[moment - 1].lemma_sorted(n);
        if let Some(call) = steps[moment - 1] {
            lemma_effect(states[moment - 1].records(), call, key);
        }
    }
}

} // verus!
