//! What the operations of the collections mean, said of keys, records and the
//! key order alone.
//!
//! Two keys of which neither is less than the other are the same key.

use core::cmp::Ordering;

use vstd::prelude::*;
use vstd::std_specs::cmp::OrdSpec;

use crate::cursor::{advanced, lemma_advanced, Place};
use crate::iter::{keys_in, Bound, Bounds, BoundsError};
use crate::laws::{law_insert_len, law_remove_len};
use crate::map::extended;
use crate::order::{
    consistent, cut, cut_of, lawful, lemma_cut_consistent, lemma_cut_sides, lemma_order, lt, Probe,
    Side,
};
use crate::records::{
    ascending, holds, inserted, lemma_past_around, lemma_rank, lookup, rank, rank_past, removed,
    sorted,
};
use crate::set::{
    disjoint, keyed, lemma_keyed, lemma_member, lemma_place, lemma_selected, lemma_subset_len,
    lemma_subset_place, member, place, selected, subset, with_value, with_values, without_value,
};

verus! {

/// The key order is the one of `Ord`. The position of a key lies before the
/// greater keys, after the lesser ones, and at those that are the same.
pub proof fn law_key_order<K: Ord>(a: K, b: K)
    requires
        lawful::<K>(),
    ensures
        lt(a, b) <==> a.cmp_spec(&b) == Ordering::Less,
        lt(b, a) <==> a.cmp_spec(&b) == Ordering::Greater,
        cut_of(a)(b) == Side::Before <==> a.cmp_spec(&b) == Ordering::Less,
        cut_of(a)(b) == Side::At <==> a.cmp_spec(&b) == Ordering::Equal,
        cut_of(a)(b) == Side::After <==> a.cmp_spec(&b) == Ordering::Greater,
        cut(&a)(b) == cut_of(a)(b),
{
    lemma_cut_sides(a);
    assert(cut_of(a)(b) == Side::After <==> lt(b, a));
}

/// The key order of numbers is their order.
pub proof fn law_number_order(a: u64, b: u64)
    ensures
        lawful::<u64>(),
        lt(a, b) <==> a < b,
{
}

/// Records are sorted when every earlier key is less than every later one.
pub proof fn law_sorted_records<K: Ord, V>(s: Seq<(K, V)>)
    ensures
        sorted(s) <==> forall|i: int, j: int|
            0 <= i < j < s.len() ==> lt((#[trigger] s[i]).0, (#[trigger] s[j]).0),
        ascending(keys_in(s)) <==> sorted(s),
        keys_in(s).len() == s.len(),
        forall|i: int| 0 <= i < s.len() ==> #[trigger] keys_in(s)[i] == s[i].0,
{
    let k = keys_in(s);
    if sorted(s) {
        assert forall|i: int, j: int| 0 <= i < j < k.len() implies lt(
            #[trigger] k[i],
            #[trigger] k[j],
        ) by {
            assert(lt(s[i].0, s[j].0));
        }
    }
    if ascending(k) {
        assert forall|i: int, j: int| 0 <= i < j < s.len() implies lt(
            (#[trigger] s[i]).0,
            (#[trigger] s[j]).0,
        ) by {
            assert(lt(k[i], k[j]));
        }
    }
}

/// Values ascend when every earlier one is less than every later one.
pub proof fn law_ascending_values<T: Ord>(s: Seq<T>)
    ensures
        ascending(s) <==> forall|i: int, j: int|
            0 <= i < j < s.len() ==> lt(#[trigger] s[i], #[trigger] s[j]),
{
}

/// What a map holds at a position is the one record at which the position lies.
/// The records before its rank are those that it lies after.
pub proof fn law_position<K: Ord, V>(s: Seq<(K, V)>, c: spec_fn(K) -> Side)
    requires
        sorted(s),
        consistent(c),
    ensures
        0 <= rank(s, c) <= rank_past(s, c) <= s.len(),
        forall|i: int| 0 <= i < s.len() ==> (c((#[trigger] s[i]).0) == Side::After <==> i < rank(s, c)),
        forall|i: int|
            0 <= i < s.len() ==> (c((#[trigger] s[i]).0) != Side::Before <==> i < rank_past(s, c)),
        holds(s, c) <==> exists|i: int| 0 <= i < s.len() && c((#[trigger] s[i]).0) == Side::At,
        forall|i: int|
            0 <= i < s.len() && c((#[trigger] s[i]).0) == Side::At ==> rank(s, c) == i && lookup(s, c)
                == Some(s[i].1),
        lookup(s, c) is None <==> forall|i: int|
            0 <= i < s.len() ==> c((#[trigger] s[i]).0) != Side::At,
{
    lemma_rank(s, c);
    lemma_past_around(Seq::empty(), s, Seq::empty(), c);
    if holds(s, c) {
        assert(c(s[rank(s, c)].0) == Side::At);
    }
}

/// A map holds a key exactly when one of its records has that key, and gives
/// back the value of that record.
pub proof fn law_lookup<K: Ord, V>(s: Seq<(K, V)>, key: K)
    requires
        lawful::<K>(),
        sorted(s),
    ensures
        holds(s, cut_of(key)) <==> exists|i: int|
            0 <= i < s.len() && !lt((#[trigger] s[i]).0, key) && !lt(key, s[i].0),
        forall|i: int|
            0 <= i < s.len() && !lt((#[trigger] s[i]).0, key) && !lt(key, s[i].0) ==> rank(
                s,
                cut_of(key),
            ) == i && lookup(s, cut_of(key)) == Some(s[i].1),
        lookup(s, cut_of(key)) is None <==> forall|i: int|
            0 <= i < s.len() ==> lt((#[trigger] s[i]).0, key) || lt(key, s[i].0),
{
    let c = cut_of(key);
    lemma_cut_consistent(key);
    lemma_cut_sides(key);
    law_position(s, c);
    assert forall|i: int| 0 <= i < s.len() implies (c((#[trigger] s[i]).0) == Side::At <==> !lt(
        s[i].0,
        key,
    ) && !lt(key, s[i].0)) by {}
    if holds(s, c) {
        let r = rank(s, c);
        assert(!lt(s[r].0, key) && !lt(key, s[r].0));
    }
}

/// After an insertion the records of other keys are those before, and there is
/// one record of the key, with the new value, under the key that was stored or,
/// where there was none, under the new one.
pub proof fn law_inserted<K: Ord, V>(s: Seq<(K, V)>, key: K, value: V)
    requires
        lawful::<K>(),
        sorted(s),
    ensures
        ({
            let t = inserted(s, key, value);
            &&& forall|i: int, j: int|
                0 <= i < j < t.len() ==> lt((#[trigger] t[i]).0, (#[trigger] t[j]).0)
            &&& forall|i: int|
                0 <= i < s.len() ==> if lt((#[trigger] s[i]).0, key) || lt(key, s[i].0) {
                    t.contains(s[i])
                } else {
                    t.contains((s[i].0, value))
                }
            &&& (forall|i: int| 0 <= i < s.len() ==> lt((#[trigger] s[i]).0, key) || lt(key, s[i].0))
                ==> t.contains((key, value))
            &&& forall|j: int|
                0 <= j < t.len() ==> if lt((#[trigger] t[j]).0, key) || lt(key, t[j].0) {
                    s.contains(t[j])
                } else {
                    t[j].1 == value
                }
        }),
{
    let c = cut_of(key);
    let r = rank(s, c);
    let t = inserted(s, key, value);
    lemma_cut_consistent(key);
    lemma_cut_sides(key);
    lemma_order::<K>();
    lemma_rank(s, c);
    law_insert_len(s, key, value);
    law_lookup(s, key);
    if holds(s, c) {
        assert(t[r] == (s[r].0, value));
        assert forall|i: int| 0 <= i < s.len() && i != r implies #[trigger] t[i] == s[i] by {}
        assert(c(s[r].0) == Side::At);
    } else {
        assert(t[r] == (key, value));
        assert forall|i: int| 0 <= i < r implies #[trigger] t[i] == s[i] by {}
        assert forall|i: int| r <= i < s.len() implies t[i + 1] == #[trigger] s[i] by {}
    }
    assert forall|i: int| 0 <= i < s.len() implies if lt((#[trigger] s[i]).0, key) || lt(key, s[i].0) {
        t.contains(s[i])
    } else {
        t.contains((s[i].0, value))
    } by {
        if holds(s, c) {
            if i == r {
                assert(t[r] == (s[i].0, value));
            } else {
                assert(t[i] == s[i]);
                assert(lt(s[i].0, key) || lt(key, s[i].0)) by {
                    assert(c(s[i].0) != Side::At);
                }
            }
        } else if i < r {
            assert(t[i] == s[i]);
        } else {
            assert(t[i + 1] == s[i]);
        }
    }
    assert forall|j: int| 0 <= j < t.len() implies if lt((#[trigger] t[j]).0, key) || lt(key, t[j].0) {
        s.contains(t[j])
    } else {
        t[j].1 == value
    } by {
        if holds(s, c) {
            if j != r {
                assert(t[j] == s[j]);
                assert(c(s[j].0) != Side::At);
            }
        } else if j < r {
            assert(t[j] == s[j]);
            assert(c(s[j].0) == Side::After);
        } else if j > r {
            assert(t[j] == s[j - 1]);
            assert(c(s[j - 1].0) != Side::At);
        }
    }
}

/// After a removal the records are those at which the position does not lie.
pub proof fn law_removed<K: Ord, V>(s: Seq<(K, V)>, c: spec_fn(K) -> Side)
    requires
        sorted(s),
        consistent(c),
    ensures
        ({
            let t = removed(s, c);
            &&& forall|i: int, j: int|
                0 <= i < j < t.len() ==> lt((#[trigger] t[i]).0, (#[trigger] t[j]).0)
            &&& forall|i: int|
                0 <= i < s.len() && c((#[trigger] s[i]).0) != Side::At ==> t.contains(s[i])
            &&& forall|j: int|
                0 <= j < t.len() ==> c((#[trigger] t[j]).0) != Side::At && s.contains(t[j])
        }),
{
    let r = rank(s, c);
    let t = removed(s, c);
    lemma_rank(s, c);
    law_position(s, c);
    law_remove_len(s, c);
    assert forall|i: int| 0 <= i < s.len() && c((#[trigger] s[i]).0) != Side::At implies t.contains(
        s[i],
    ) by {
        if holds(s, c) && i > r {
            assert(t[i - 1] == s[i]);
        } else {
            assert(t[i] == s[i]);
        }
    }
    assert forall|j: int| 0 <= j < t.len() implies c((#[trigger] t[j]).0) != Side::At && s.contains(
        t[j],
    ) by {
        if holds(s, c) && j >= r {
            assert(t[j] == s[j + 1]);
        } else {
            assert(t[j] == s[j]);
        }
    }
}

/// After the insertion of entries the keys are those before, as they were
/// stored, and those that were given.
pub proof fn law_extended_keys<K: Ord, V>(s: Seq<(K, V)>, entries: Seq<(K, V)>)
    requires
        lawful::<K>(),
        sorted(s),
    ensures
        ({
            let t = extended(s, entries);
            &&& forall|i: int, j: int|
                0 <= i < j < t.len() ==> lt((#[trigger] t[i]).0, (#[trigger] t[j]).0)
            &&& forall|e: (K, V)| #[trigger]
                s.contains(e) ==> exists|j: int| 0 <= j < t.len() && (#[trigger] t[j]).0 == e.0
            &&& forall|e: (K, V)| #[trigger]
                entries.contains(e) ==> exists|j: int|
                    0 <= j < t.len() && !lt((#[trigger] t[j]).0, e.0) && !lt(e.0, t[j].0)
        }),
    decreases entries.len(),
{
    let t = extended(s, entries);
    if entries.len() > 0 {
        let init = entries.drop_last();
        let last = entries.last();
        let u = extended(s, init);
        lemma_order::<K>();
        law_extended_keys(s, init);
        assert(sorted(u));
        law_inserted(u, last.0, last.1);
        assert forall|x: int| 0 <= x < u.len() implies exists|j: int|
            0 <= j < t.len() && (#[trigger] t[j]).0 == (#[trigger] u[x]).0 by {
            let e = if lt(u[x].0, last.0) || lt(last.0, u[x].0) {
                u[x]
            } else {
                (u[x].0, last.1)
            };
            assert(t.contains(e));
            let j = choose|j: int| 0 <= j < t.len() && t[j] == e;
            assert(t[j].0 == u[x].0);
        }
        assert forall|e: (K, V)| #[trigger] s.contains(e) implies exists|j: int|
            0 <= j < t.len() && (#[trigger] t[j]).0 == e.0 by {
            let x = choose|x: int| 0 <= x < u.len() && (#[trigger] u[x]).0 == e.0;
            let j = choose|j: int| 0 <= j < t.len() && (#[trigger] t[j]).0 == u[x].0;
            assert(t[j].0 == e.0);
        }
        assert forall|e: (K, V)| #[trigger] entries.contains(e) implies exists|j: int|
            0 <= j < t.len() && !lt((#[trigger] t[j]).0, e.0) && !lt(e.0, t[j].0) by {
            let k = choose|k: int| 0 <= k < entries.len() && entries[k] == e;
            if k < init.len() {
                assert(init[k] == e);
                assert(init.contains(e));
                let x = choose|x: int|
                    0 <= x < u.len() && !lt((#[trigger] u[x]).0, e.0) && !lt(e.0, u[x].0);
                let j = choose|j: int| 0 <= j < t.len() && (#[trigger] t[j]).0 == u[x].0;
                assert(!lt(t[j].0, e.0));
            } else if exists|x: int|
                0 <= x < u.len() && !(lt((#[trigger] u[x]).0, e.0) || lt(e.0, u[x].0)) {
                let x = choose|x: int|
                    0 <= x < u.len() && !(lt((#[trigger] u[x]).0, e.0) || lt(e.0, u[x].0));
                let j = choose|j: int| 0 <= j < t.len() && (#[trigger] t[j]).0 == u[x].0;
                assert(!lt(t[j].0, e.0));
            } else {
                assert(t.contains((last.0, last.1)));
                let j = choose|j: int| 0 <= j < t.len() && t[j] == (last.0, last.1);
                assert(!lt(t[j].0, e.0));
            }
        }
    } else {
        assert(t == s);
        assert forall|e: (K, V)| #[trigger] s.contains(e) implies exists|j: int|
            0 <= j < t.len() && (#[trigger] t[j]).0 == e.0 by {
            let j = choose|j: int| 0 <= j < s.len() && s[j] == e;
            assert(t[j].0 == e.0);
        }
    }
}

/// After the insertion of entries a record is one of those before, of a key that
/// is not given, or it has the value that its key was given last.
pub proof fn law_extended_values<K: Ord, V>(s: Seq<(K, V)>, entries: Seq<(K, V)>, e: (K, V))
    requires
        lawful::<K>(),
        sorted(s),
        extended(s, entries).contains(e),
    ensures
        ({
            ||| s.contains(e) && forall|m: int|
                0 <= m < entries.len() ==> lt((#[trigger] entries[m]).0, e.0) || lt(
                    e.0,
                    entries[m].0,
                )
            ||| exists|k: int|
                #![trigger entries[k]]
                0 <= k < entries.len() && !lt(entries[k].0, e.0) && !lt(e.0, entries[k].0)
                    && entries[k].1 == e.1 && forall|m: int|
                    k < m < entries.len() ==> lt((#[trigger] entries[m]).0, e.0) || lt(
                        e.0,
                        entries[m].0,
                    )
        }),
    decreases entries.len(),
{
    if entries.len() > 0 {
        let init = entries.drop_last();
        let last = entries.last();
        let n = entries.len() - 1;
        let u = extended(s, init);
        let t = extended(s, entries);
        law_extended_keys(s, init);
        assert(sorted(u));
        law_inserted(u, last.0, last.1);
        let j = choose|j: int| 0 <= j < t.len() && t[j] == e;
        assert(entries[n] == last);
        if lt(e.0, last.0) || lt(last.0, e.0) {
            assert(u.contains(t[j]));
            law_extended_values(s, init, e);
            assert forall|m: int| 0 <= m < n implies #[trigger] entries[m] == init[m] by {}
            if exists|k: int|
                #![trigger init[k]]
                0 <= k < init.len() && !lt(init[k].0, e.0) && !lt(e.0, init[k].0) && init[k].1
                    == e.1 && forall|m: int|
                    k < m < init.len() ==> lt((#[trigger] init[m]).0, e.0) || lt(
                        e.0,
                        init[m].0,
                    ) {
                let k = choose|k: int|
                    #![trigger init[k]]
                    0 <= k < init.len() && !lt(init[k].0, e.0) && !lt(e.0, init[k].0)
                        && init[k].1 == e.1 && forall|m: int|
                        k < m < init.len() ==> lt((#[trigger] init[m]).0, e.0) || lt(
                            e.0,
                            init[m].0,
                        );
                assert(entries[k] == init[k]);
            }
        } else {
            assert(entries[n].1 == e.1);
        }
    }
}

/// A set has a value exactly when one of its values is the same.
pub proof fn law_member<T: Ord>(s: Seq<T>, value: T)
    requires
        lawful::<T>(),
        ascending(s),
    ensures
        member(s, cut_of(value)) <==> exists|i: int|
            0 <= i < s.len() && !lt(#[trigger] s[i], value) && !lt(value, s[i]),
        forall|i: int|
            0 <= i < s.len() && !lt(#[trigger] s[i], value) && !lt(value, s[i]) ==> place(
                s,
                cut_of(value),
            ) == i,
{
    let c = cut_of(value);
    lemma_cut_consistent(value);
    lemma_cut_sides(value);
    lemma_place(s, c);
    lemma_member(s, c);
    assert forall|i: int| 0 <= i < s.len() implies (c(#[trigger] s[i]) == Side::At <==> !lt(
        s[i],
        value,
    ) && !lt(value, s[i])) by {}
    if member(s, c) {
        let p = place(s, c);
        assert(!lt(s[p], value) && !lt(value, s[p]));
    }
}

/// A set has a value at a position exactly when the position lies at one of its
/// values.
pub proof fn law_member_position<T: Ord>(s: Seq<T>, c: spec_fn(T) -> Side)
    requires
        ascending(s),
        consistent(c),
    ensures
        member(s, c) <==> exists|i: int| 0 <= i < s.len() && c(#[trigger] s[i]) == Side::At,
        forall|i: int| 0 <= i < s.len() && c(#[trigger] s[i]) == Side::At ==> place(s, c) == i,
{
    lemma_place(s, c);
    lemma_member(s, c);
}

/// After an insertion a set has its values, and the new one unless it had the
/// same value already.
pub proof fn law_with_value<T: Ord>(s: Seq<T>, value: T)
    requires
        lawful::<T>(),
        ascending(s),
    ensures
        ({
            let t = with_value(s, value);
            &&& forall|i: int, j: int| 0 <= i < j < t.len() ==> lt(#[trigger] t[i], #[trigger] t[j])
            &&& forall|i: int| 0 <= i < s.len() ==> t.contains(#[trigger] s[i])
            &&& (forall|i: int| 0 <= i < s.len() ==> lt(#[trigger] s[i], value) || lt(value, s[i]))
                ==> t.contains(value) && t.len() == s.len() + 1
            &&& (exists|i: int| 0 <= i < s.len() && !lt(#[trigger] s[i], value) && !lt(value, s[i]))
                ==> t == s
            &&& forall|j: int| 0 <= j < t.len() ==> s.contains(#[trigger] t[j]) || t[j] == value
        }),
{
    let c = cut_of(value);
    let p = place(s, c);
    let t = with_value(s, value);
    let r = keyed(s);
    lemma_cut_consistent(value);
    lemma_place(s, c);
    law_member(s, value);
    lemma_keyed(s, value, c);
    law_insert_len(r, value, ());
    law_sorted_records(inserted(r, value, ()));
    assert forall|i: int| 0 <= i < s.len() implies t.contains(#[trigger] s[i]) by {
        if member(s, c) || i < p {
            assert(t[i] == s[i]);
        } else {
            assert(t[i + 1] == s[i]);
        }
    }
    if !member(s, c) {
        assert(t[p] == value);
    }
    assert forall|j: int| 0 <= j < t.len() implies s.contains(#[trigger] t[j]) || t[j] == value by {
        if member(s, c) || j < p {
            assert(t[j] == s[j]);
        } else if j > p {
            assert(t[j] == s[j - 1]);
        }
    }
}

/// After a removal a set has the values at which the position does not lie.
pub proof fn law_without_value<T: Ord>(s: Seq<T>, c: spec_fn(T) -> Side)
    requires
        ascending(s),
        consistent(c),
    ensures
        ({
            let t = without_value(s, c);
            &&& forall|i: int, j: int| 0 <= i < j < t.len() ==> lt(#[trigger] t[i], #[trigger] t[j])
            &&& forall|i: int| 0 <= i < s.len() && c(#[trigger] s[i]) != Side::At ==> t.contains(s[i])
            &&& forall|j: int|
                0 <= j < t.len() ==> c(#[trigger] t[j]) != Side::At && s.contains(t[j])
        }),
{
    let p = place(s, c);
    let t = without_value(s, c);
    lemma_place(s, c);
    law_member_position(s, c);
    assert forall|i: int, j: int| 0 <= i < j < t.len() implies lt(
        #[trigger] t[i],
        #[trigger] t[j],
    ) by {
        let a = if member(s, c) && i >= p {
            i + 1
        } else {
            i
        };
        let b = if member(s, c) && j >= p {
            j + 1
        } else {
            j
        };
        assert(t[i] == s[a] && t[j] == s[b]);
    }
    assert forall|i: int| 0 <= i < s.len() && c(#[trigger] s[i]) != Side::At implies t.contains(
        s[i],
    ) by {
        if member(s, c) && i > p {
            assert(t[i - 1] == s[i]);
        } else {
            assert(t[i] == s[i]);
        }
    }
    assert forall|j: int| 0 <= j < t.len() implies c(#[trigger] t[j]) != Side::At && s.contains(
        t[j],
    ) by {
        if member(s, c) && j >= p {
            assert(t[j] == s[j + 1]);
        } else {
            assert(t[j] == s[j]);
        }
    }
}

/// After the insertion of values a set has its own and, of the values given,
/// those that are the same as none of its own and none given before.
pub proof fn law_with_values<T: Ord>(s: Seq<T>, values: Seq<T>)
    requires
        lawful::<T>(),
        ascending(s),
    ensures
        ({
            let t = with_values(s, values);
            &&& forall|i: int, j: int| 0 <= i < j < t.len() ==> lt(#[trigger] t[i], #[trigger] t[j])
            &&& forall|i: int| 0 <= i < s.len() ==> t.contains(#[trigger] s[i])
            &&& forall|x: T| #[trigger]
                values.contains(x) ==> exists|j: int|
                    0 <= j < t.len() && !lt(#[trigger] t[j], x) && !lt(x, t[j])
            &&& forall|j: int|
                0 <= j < t.len() ==> s.contains(#[trigger] t[j]) || values.contains(t[j])
            &&& forall|k: int|
                0 <= k < values.len() && (forall|i: int|
                    0 <= i < s.len() ==> lt(#[trigger] s[i], values[k]) || lt(values[k], s[i])) && (
                forall|m: int|
                    0 <= m < k ==> lt(#[trigger] values[m], values[k]) || lt(values[k], values[m]))
                    ==> t.contains(#[trigger] values[k])
        }),
    decreases values.len(),
{
    if values.len() > 0 {
        let init = values.drop_last();
        let last = values.last();
        let u = with_values(s, init);
        let t = with_values(s, values);
        lemma_order::<T>();
        law_with_values(s, init);
        assert(ascending(u));
        law_with_value(u, last);
        assert(values[values.len() - 1] == last);
        assert forall|i: int| 0 <= i < s.len() implies t.contains(#[trigger] s[i]) by {
            assert(u.contains(s[i]));
            let x = choose|x: int| 0 <= x < u.len() && u[x] == s[i];
            assert(t.contains(u[x]));
        }
        assert forall|x: T| #[trigger] values.contains(x) implies exists|j: int|
            0 <= j < t.len() && !lt(#[trigger] t[j], x) && !lt(x, t[j]) by {
            let k = choose|k: int| 0 <= k < values.len() && values[k] == x;
            if k < init.len() {
                assert(init[k] == x);
                assert(init.contains(x));
                let i = choose|i: int| 0 <= i < u.len() && !lt(#[trigger] u[i], x) && !lt(x, u[i]);
                assert(t.contains(u[i]));
                let j = choose|j: int| 0 <= j < t.len() && t[j] == u[i];
                assert(!lt(t[j], x));
            } else if exists|i: int| 0 <= i < u.len() && !lt(#[trigger] u[i], x) && !lt(x, u[i]) {
                let i = choose|i: int| 0 <= i < u.len() && !lt(#[trigger] u[i], x) && !lt(x, u[i]);
                assert(t == u);
                assert(!lt(t[i], x));
            } else {
                assert(t.contains(last));
                let j = choose|j: int| 0 <= j < t.len() && t[j] == last;
                assert(!lt(t[j], x));
            }
        }
        assert forall|j: int| 0 <= j < t.len() implies s.contains(#[trigger] t[j])
            || values.contains(t[j]) by {
            if u.contains(t[j]) {
                let x = choose|x: int| 0 <= x < u.len() && u[x] == t[j];
                assert(s.contains(u[x]) || init.contains(u[x]));
                if init.contains(u[x]) {
                    let k = choose|k: int| 0 <= k < init.len() && init[k] == u[x];
                    assert(values[k] == t[j]);
                }
            }
        }
        assert forall|k: int|
            0 <= k < values.len() && (forall|i: int|
                0 <= i < s.len() ==> lt(#[trigger] s[i], values[k]) || lt(values[k], s[i])) && (
            forall|m: int|
                0 <= m < k ==> lt(#[trigger] values[m], values[k]) || lt(values[k], values[m]))
            implies t.contains(#[trigger] values[k]) by {
            if k < init.len() {
                assert(init[k] == values[k]);
                assert forall|m: int| 0 <= m < k implies lt(#[trigger] init[m], init[k]) || lt(
                    init[k],
                    init[m],
                ) by {
                    assert(init[m] == values[m]);
                }
                assert(u.contains(init[k]));
                let x = choose|x: int| 0 <= x < u.len() && u[x] == init[k];
                assert(t.contains(u[x]));
            } else {
                assert forall|x: int| 0 <= x < u.len() implies lt(#[trigger] u[x], last) || lt(
                    last,
                    u[x],
                ) by {
                    if s.contains(u[x]) {
                        let i = choose|i: int| 0 <= i < s.len() && s[i] == u[x];
                        assert(lt(s[i], values[k]) || lt(values[k], s[i]));
                    } else {
                        let m = choose|m: int| 0 <= m < init.len() && init[m] == u[x];
                        assert(values[m] == u[x]);
                    }
                }
            }
        }
    } else {
        assert forall|j: int| 0 <= j < s.len() implies s.contains(#[trigger] s[j]) by {}
    }
}

/// Two sets are disjoint exactly when no value of one is the same as a value of
/// the other.
pub proof fn law_disjoint<T: Ord>(a: Seq<T>, b: Seq<T>)
    requires
        lawful::<T>(),
        ascending(a),
        ascending(b),
    ensures
        disjoint(a, b) <==> forall|i: int, j: int|
            0 <= i < a.len() && 0 <= j < b.len() ==> lt(#[trigger] a[i], #[trigger] b[j]) || lt(
                b[j],
                a[i],
            ),
        disjoint(a, b) <==> disjoint(b, a),
{
    assert forall|i: int| 0 <= i < a.len() implies (member(b, cut_of(#[trigger] a[i]))
        <==> exists|j: int| 0 <= j < b.len() && !lt(#[trigger] b[j], a[i]) && !lt(a[i], b[j])) by {
        law_member(b, a[i]);
    }
    assert forall|i: int| 0 <= i < b.len() implies (member(a, cut_of(#[trigger] b[i]))
        <==> exists|j: int| 0 <= j < a.len() && !lt(#[trigger] a[j], b[i]) && !lt(b[i], a[j])) by {
        law_member(a, b[i]);
    }
    if disjoint(a, b) {
        assert forall|i: int, j: int| 0 <= i < a.len() && 0 <= j < b.len() implies lt(
            #[trigger] a[i],
            #[trigger] b[j],
        ) || lt(b[j], a[i]) by {
            assert(!member(b, cut_of(a[i])));
        }
    }
    if forall|i: int, j: int|
        0 <= i < a.len() && 0 <= j < b.len() ==> lt(#[trigger] a[i], #[trigger] b[j]) || lt(
            b[j],
            a[i],
        ) {
        assert forall|i: int| 0 <= i < a.len() implies !member(b, cut_of(#[trigger] a[i])) by {}
        assert forall|i: int| 0 <= i < b.len() implies !member(a, cut_of(#[trigger] b[i])) by {}
    }
    if disjoint(b, a) {
        assert forall|i: int, j: int| 0 <= i < a.len() && 0 <= j < b.len() implies lt(
            #[trigger] a[i],
            #[trigger] b[j],
        ) || lt(b[j], a[i]) by {
            assert(!member(a, cut_of(b[j])));
        }
    }
}

/// A set is a subset of another exactly when each of its values is the same as
/// one of the other.
pub proof fn law_subset<T: Ord>(a: Seq<T>, b: Seq<T>)
    requires
        lawful::<T>(),
        ascending(b),
    ensures
        subset(a, b) <==> forall|x: T| #[trigger]
            a.contains(x) ==> exists|j: int|
                0 <= j < b.len() && !lt(#[trigger] b[j], x) && !lt(x, b[j]),
{
    if subset(a, b) {
        assert forall|x: T| #[trigger] a.contains(x) implies exists|j: int|
            0 <= j < b.len() && !lt(#[trigger] b[j], x) && !lt(x, b[j]) by {
            let i = choose|i: int| 0 <= i < a.len() && a[i] == x;
            law_member(b, x);
            assert(member(b, cut_of(a[i])));
        }
    }
    if forall|x: T| #[trigger]
        a.contains(x) ==> exists|j: int|
            0 <= j < b.len() && !lt(#[trigger] b[j], x) && !lt(x, b[j]) {
        assert forall|i: int| 0 <= i < a.len() implies member(b, cut_of(#[trigger] a[i])) by {
            assert(a.contains(a[i]));
            law_member(b, a[i]);
        }
    }
}

/// A set with any value inserted contains the set, and has that value.
pub proof fn law_insert_contains<T: Ord>(s: Seq<T>, value: T)
    requires
        lawful::<T>(),
        ascending(s),
    ensures
        subset(s, with_value(s, value)),
        subset(seq![value], with_value(s, value)),
        !disjoint(seq![value], with_value(s, value)),
        s.len() > 0 ==> !disjoint(s, with_value(s, value)),
{
    let t = with_value(s, value);
    let one = seq![value];
    lemma_order::<T>();
    law_with_value(s, value);
    assert(ascending(t) && ascending(one));
    assert forall|i: int| 0 <= i < s.len() implies member(t, cut_of(#[trigger] s[i])) by {
        law_member(t, s[i]);
        let j = choose|j: int| 0 <= j < t.len() && t[j] == s[i];
        assert(!lt(t[j], s[i]) && !lt(s[i], t[j]));
    }
    law_member(t, value);
    if exists|i: int| 0 <= i < s.len() && !lt(#[trigger] s[i], value) && !lt(value, s[i]) {
        assert(t == s);
    } else {
        let j = choose|j: int| 0 <= j < t.len() && t[j] == value;
        assert(!lt(t[j], value) && !lt(value, t[j]));
    }
    assert(member(t, cut_of(one[0])));
    if s.len() > 0 {
        assert(member(t, cut_of(s[0])));
    }
}

/// A set contains itself with any value removed, which then has that value no
/// more.
pub proof fn law_remove_contained<T: Ord>(s: Seq<T>, value: T)
    requires
        lawful::<T>(),
        ascending(s),
    ensures
        subset(without_value(s, cut_of(value)), s),
        disjoint(seq![value], without_value(s, cut_of(value))),
{
    let c = cut_of(value);
    let u = without_value(s, c);
    lemma_order::<T>();
    lemma_cut_consistent(value);
    lemma_cut_sides(value);
    law_without_value(s, c);
    assert(ascending(u));
    assert forall|i: int| 0 <= i < u.len() implies member(s, cut_of(#[trigger] u[i])) by {
        law_member(s, u[i]);
        let j = choose|j: int| 0 <= j < s.len() && s[j] == u[i];
        assert(!lt(s[j], u[i]) && !lt(u[i], s[j]));
    }
    law_member(u, value);
    assert forall|j: int| 0 <= j < u.len() implies lt(#[trigger] u[j], value) || lt(value, u[j]) by {
        assert(c(u[j]) != Side::At);
    }
}

/// Sets that contain each other have as many values, and the same ones in the
/// same places.
pub proof fn law_equal_sets<T: Ord>(a: Seq<T>, b: Seq<T>)
    requires
        lawful::<T>(),
        ascending(a),
        ascending(b),
    ensures
        subset(a, b) && subset(b, a) <==> a.len() == b.len() && forall|i: int|
            #![trigger a[i]]
            #![trigger b[i]]
            0 <= i < a.len() ==> !lt(a[i], b[i]) && !lt(b[i], a[i]),
{
    if subset(a, b) && subset(b, a) {
        lemma_subset_len(a, b);
        lemma_subset_len(b, a);
        assert forall|i: int| #![trigger a[i]] #![trigger b[i]] 0 <= i < a.len() implies !lt(
            a[i],
            b[i],
        ) && !lt(b[i], a[i]) by {
            lemma_subset_place(a, b, i);
            assert(member(b, cut_of(a[i])));
            lemma_cut_sides(a[i]);
            assert(cut_of(a[i])(b[i]) == Side::At);
        }
    }
    if a.len() == b.len() && forall|i: int|
        #![trigger a[i]]
        #![trigger b[i]]
        0 <= i < a.len() ==> !lt(a[i], b[i]) && !lt(b[i], a[i]) {
        assert forall|i: int| 0 <= i < a.len() implies member(b, cut_of(#[trigger] a[i])) by {
            law_member(b, a[i]);
            assert(!lt(b[i], a[i]) && !lt(a[i], b[i]));
        }
        assert forall|i: int| 0 <= i < b.len() implies member(a, cut_of(#[trigger] b[i])) by {
            law_member(a, b[i]);
            assert(!lt(a[i], b[i]) && !lt(b[i], a[i]));
        }
    }
}

/// A key lies in a range exactly when it is not less than an included start and
/// greater than an excluded one, and not greater than an included end and less
/// than an excluded one, whatever the kind of the other end.
pub proof fn law_range_keys<K: Ord>(bounds: Bounds<K>, key: K)
    requires
        lawful::<K>(),
    ensures
        bounds.contains(key) <==> {
            &&& bounds.start matches Bound::Included(b) ==> !lt(key, b)
            &&& bounds.start matches Bound::Excluded(b) ==> lt(b, key)
            &&& bounds.end matches Bound::Included(e) ==> !lt(e, key)
            &&& bounds.end matches Bound::Excluded(e) ==> lt(key, e)
        },
{
    if let Some(b) = bounds.start.key() {
        lemma_cut_sides(b);
        assert(cut_of(b)(key) == b.side_spec(key));
    }
    if let Some(e) = bounds.end.key() {
        lemma_cut_sides(e);
        assert(cut_of(e)(key) == e.side_spec(key));
    }
}

/// A key lies in a range exactly when the probe at the start lies before it, or
/// at it if the start is included, and the probe at the end lies after it, or
/// at it if the end is included, whatever the kind of the other end.
pub proof fn law_range_probes<K: Ord, P: Probe<K>>(bounds: Bounds<P>, key: K)
    ensures
        bounds.contains(key) <==> {
            &&& bounds.start matches Bound::Included(b) ==> b.side_spec(key) != Side::After
            &&& bounds.start matches Bound::Excluded(b) ==> b.side_spec(key) == Side::Before
            &&& bounds.end matches Bound::Included(e) ==> e.side_spec(key) != Side::Before
            &&& bounds.end matches Bound::Excluded(e) ==> e.side_spec(key) == Side::After
        },
        bounds.before_end(key) <==> {
            &&& bounds.end matches Bound::Included(e) ==> e.side_spec(key) != Side::Before
            &&& bounds.end matches Bound::Excluded(e) ==> e.side_spec(key) == Side::After
        },
{
}

/// The records of a range are those of the map whose keys lie in it, in
/// ascending order.
pub proof fn law_range_records<K: Ord, V>(bounds: Bounds<K>, s: Seq<(K, V)>)
    requires
        lawful::<K>(),
        sorted(s),
    ensures
        ({
            let t = bounds.select(s);
            &&& forall|i: int, j: int|
                0 <= i < j < t.len() ==> lt((#[trigger] t[i]).0, (#[trigger] t[j]).0)
            &&& forall|e: (K, V)| #[trigger]
                t.contains(e) <==> s.contains(e) && {
                    &&& bounds.start matches Bound::Included(b) ==> !lt(e.0, b)
                    &&& bounds.start matches Bound::Excluded(b) ==> lt(b, e.0)
                    &&& bounds.end matches Bound::Included(b) ==> !lt(b, e.0)
                    &&& bounds.end matches Bound::Excluded(b) ==> lt(e.0, b)
                }
        }),
{
    let t = bounds.select(s);
    law_probe_range_records(bounds, s);
    assert forall|e: (K, V)| #[trigger] t.contains(e) <==> s.contains(e) && {
        &&& bounds.start matches Bound::Included(b) ==> !lt(e.0, b)
        &&& bounds.start matches Bound::Excluded(b) ==> lt(b, e.0)
        &&& bounds.end matches Bound::Included(b) ==> !lt(b, e.0)
        &&& bounds.end matches Bound::Excluded(b) ==> lt(e.0, b)
    } by {
        law_range_keys(bounds, e.0);
        law_range_probes(bounds, e.0);
    }
}

/// The records of a range whose ends are probes are those of the map whose keys
/// lie in it, in ascending order.
pub proof fn law_probe_range_records<K: Ord, V, P: Probe<K>>(bounds: Bounds<P>, s: Seq<(K, V)>)
    requires
        lawful::<K>(),
        P::probes(),
        sorted(s),
    ensures
        ({
            let t = bounds.select(s);
            &&& forall|i: int, j: int|
                0 <= i < j < t.len() ==> lt((#[trigger] t[i]).0, (#[trigger] t[j]).0)
            &&& forall|e: (K, V)| #[trigger]
                t.contains(e) <==> s.contains(e) && {
                    &&& bounds.start matches Bound::Included(b) ==> b.side_spec(e.0) != Side::After
                    &&& bounds.start matches Bound::Excluded(b) ==> b.side_spec(e.0) == Side::Before
                    &&& bounds.end matches Bound::Included(b) ==> b.side_spec(e.0) != Side::Before
                    &&& bounds.end matches Bound::Excluded(b) ==> b.side_spec(e.0) == Side::After
                }
        }),
{
    let t = bounds.select(s);
    let from = bounds.first(s);
    let to = bounds.past(s);
    bounds.lemma_places(s);
    assert forall|e: (K, V)| #[trigger] t.contains(e) <==> s.contains(e) && {
        &&& bounds.start matches Bound::Included(b) ==> b.side_spec(e.0) != Side::After
        &&& bounds.start matches Bound::Excluded(b) ==> b.side_spec(e.0) == Side::Before
        &&& bounds.end matches Bound::Included(b) ==> b.side_spec(e.0) != Side::Before
        &&& bounds.end matches Bound::Excluded(b) ==> b.side_spec(e.0) == Side::After
    } by {
        law_range_probes(bounds, e.0);
        if t.contains(e) {
            let j = choose|j: int| 0 <= j < t.len() && t[j] == e;
            assert(e == s[from + j]);
        }
        if s.contains(e) && bounds.contains(e.0) {
            let i = choose|i: int| 0 <= i < s.len() && s[i] == e;
            assert(t[i - from] == e);
        }
    }
    assert forall|i: int, j: int| 0 <= i < j < t.len() implies lt(
        (#[trigger] t[i]).0,
        (#[trigger] t[j]).0,
    ) by {
        assert(t[i] == s[from + i] && t[j] == s[from + j]);
    }
}

/// The values of a set in a range are those that lie in it, in ascending order.
pub proof fn law_range_values<T: Ord, P: Probe<T>>(bounds: Bounds<P>, s: Seq<T>)
    requires
        lawful::<T>(),
        P::probes(),
        ascending(s),
    ensures
        ({
            let t = selected(bounds, s);
            &&& forall|i: int, j: int| 0 <= i < j < t.len() ==> lt(#[trigger] t[i], #[trigger] t[j])
            &&& forall|x: T| #[trigger]
                t.contains(x) <==> s.contains(x) && {
                    &&& bounds.start matches Bound::Included(b) ==> b.side_spec(x) != Side::After
                    &&& bounds.start matches Bound::Excluded(b) ==> b.side_spec(x) == Side::Before
                    &&& bounds.end matches Bound::Included(b) ==> b.side_spec(x) != Side::Before
                    &&& bounds.end matches Bound::Excluded(b) ==> b.side_spec(x) == Side::After
                }
        }),
{
    let r = keyed(s);
    let u = bounds.select(r);
    let t = selected(bounds, s);
    assert(keys_in(r) =~= s);
    law_sorted_records(r);
    lemma_selected(bounds, r);
    law_probe_range_records(bounds, r);
    assert forall|j: int| 0 <= j < t.len() implies #[trigger] t[j] == u[j].0 by {}
    assert forall|i: int, j: int| 0 <= i < j < t.len() implies lt(
        #[trigger] t[i],
        #[trigger] t[j],
    ) by {
        assert(lt(u[i].0, u[j].0));
    }
    assert forall|x: T| #[trigger] t.contains(x) <==> s.contains(x) && {
        &&& bounds.start matches Bound::Included(b) ==> b.side_spec(x) != Side::After
        &&& bounds.start matches Bound::Excluded(b) ==> b.side_spec(x) == Side::Before
        &&& bounds.end matches Bound::Included(b) ==> b.side_spec(x) != Side::Before
        &&& bounds.end matches Bound::Excluded(b) ==> b.side_spec(x) == Side::After
    } by {
        if t.contains(x) {
            let j = choose|j: int| 0 <= j < t.len() && t[j] == x;
            assert(u.contains(u[j]));
            let i = choose|i: int| 0 <= i < r.len() && r[i] == u[j];
            assert(s[i] == x);
        }
        if s.contains(x) && u.contains((x, ())) {
            let j = choose|j: int| 0 <= j < u.len() && u[j] == (x, ());
            assert(t[j] == x);
        }
        if s.contains(x) {
            let i = choose|i: int| 0 <= i < s.len() && s[i] == x;
            assert(r[i] == (x, ()));
        }
    }
}

/// Bounds whose start is less than their end make a range, and so do bounds
/// that are open on a side. Bounds whose start is greater do not. Equal ends
/// make a range unless both are excluded.
pub proof fn law_bounds_fault<P: Ord>(bounds: Bounds<P>)
    requires
        lawful::<P>(),
    ensures
        bounds.start is Unbounded || bounds.end is Unbounded ==> bounds.fault() is None,
        forall|b: P, e: P|
            #![trigger lt(b, e)]
            (bounds.start == Bound::Included(b) || bounds.start == Bound::Excluded(b)) && (
            bounds.end == Bound::Included(e) || bounds.end == Bound::Excluded(e)) ==> {
                &&& lt(b, e) ==> bounds.fault() is None
                &&& lt(e, b) ==> bounds.fault() == Some(BoundsError::Inverted)
                &&& !lt(b, e) && !lt(e, b) ==> bounds.fault() == (if bounds.start is Excluded
                    && bounds.end is Excluded {
                    Some(BoundsError::EqualExcluded)
                } else {
                    None
                })
            },
{
    lemma_order::<P>();
}

/// A step of a traversal comes to the least record of the range that is greater
/// than the last key it came to, and to none where there is none.
pub proof fn law_step<K: Ord, V, P: Probe<K>>(
    place: Place<K>,
    s: Seq<(K, V)>,
    bounds: Bounds<P>,
)
    requires
        lawful::<K>(),
        P::probes(),
        sorted(s),
        place matches Place::Behind(last) ==> bounds.contains(last),
    ensures
        ({
            let (next, found) = advanced(place, s, bounds);
            &&& place is End ==> found is None
            &&& found is None ==> next is End
            &&& found matches Some(e) ==> {
                &&& next == Place::Behind(e.0)
                &&& s.contains(e)
                &&& bounds.contains(e.0)
                &&& place matches Place::Behind(last) ==> lt(last, e.0)
            }
            &&& forall|i: int|
                0 <= i < s.len() && bounds.contains((#[trigger] s[i]).0) && place !is End && (
                place matches Place::Behind(last) ==> lt(last, s[i].0)) ==> found is Some && !lt(
                    s[i].0,
                    (found->0).0,
                )
        }),
{
    lemma_order::<K>();
    lemma_advanced(place, s, bounds);
    let (next, found) = advanced(place, s, bounds);
    assert forall|i: int|
        0 <= i < s.len() && bounds.contains((#[trigger] s[i]).0) && place !is End && (
        place matches Place::Behind(last) ==> lt(last, s[i].0)) implies found is Some && !lt(
        s[i].0,
        (found->0).0,
    ) by {}
}

} // verus!
