//! What holds of the collections as a whole, over the descriptions that the
//! contracts of their functions use.

use vstd::prelude::*;

use crate::order::{
    consistent, cut_of, lawful, lemma_cut_consistent, lemma_cut_sides, lemma_order, lt, Side,
};
use crate::iter::keys_in;
use crate::map::extended;
use crate::records::{
    ascending, holds, inserted, lemma_inserted_sorted, lemma_partition_point, lemma_past_around, lemma_rank,
    lemma_removed_sorted, lookup, rank, rank_past, removed, sorted,
};

use crate::set::{
    disjoint, keyed, lemma_keyed, lemma_keys, lemma_member, lemma_place, member, place, subset,
    with_value, with_values, without_value,
};

verus! {

/// The place of a position is the only one before which it lies after every
/// record, and from which on it lies after none.
proof fn lemma_rank_is<K: Ord, V>(s: Seq<(K, V)>, c: spec_fn(K) -> Side, r: int)
    requires
        0 <= r <= s.len(),
        forall|i: int| 0 <= i < r ==> c((#[trigger] s[i]).0) == Side::After,
        forall|i: int| r <= i < s.len() ==> c((#[trigger] s[i]).0) != Side::After,
    ensures
        rank(s, c) == r,
{
    lemma_partition_point(s, |e: (K, V)| c(e.0) == Side::After, r);
}

/// Whether two keys are the same to a map.
pub open spec fn same_key<K: Ord>(a: K, b: K) -> bool {
    !lt(a, b) && !lt(b, a)
}

/// A map gives back what was inserted last under a key.
pub proof fn law_insert_then_get<K: Ord, V>(s: Seq<(K, V)>, key: K, value: V)
    requires
        lawful::<K>(),
        sorted(s),
    ensures
        holds(inserted(s, key, value), cut_of(key)),
        lookup(inserted(s, key, value), cut_of(key)) == Some(value),
        rank(inserted(s, key, value), cut_of(key)) == rank(s, cut_of(key)),
{
    let c = cut_of(key);
    let t = inserted(s, key, value);
    let r = rank(s, c);
    lemma_cut_consistent(key);
    lemma_cut_sides(key);
    lemma_rank(s, c);
    assert forall|i: int| 0 <= i < r implies c((#[trigger] t[i]).0) == Side::After by {
        assert(t[i] == s[i]);
    }
    assert forall|i: int| r <= i < t.len() implies c((#[trigger] t[i]).0) != Side::After by {
        if holds(s, c) {
            assert(t[i].0 == s[i].0);
        } else if i > r {
            assert(t[i] == s[i - 1]);
        }
    }
    lemma_rank_is(t, c, r);
}

/// Inserting under a key leaves every other key as it was.
pub proof fn law_insert_keeps_others<K: Ord, V>(s: Seq<(K, V)>, key: K, value: V, other: K)
    requires
        lawful::<K>(),
        sorted(s),
        !same_key(key, other),
    ensures
        holds(inserted(s, key, value), cut_of(other)) == holds(s, cut_of(other)),
        lookup(inserted(s, key, value), cut_of(other)) == lookup(s, cut_of(other)),
        rank(inserted(s, key, value), cut_of(other)) == rank(s, cut_of(other)) + (if !holds(
            s,
            cut_of(key),
        ) && lt(key, other) {
            1int
        } else {
            0
        }),
{
    let c = cut_of(key);
    let o = cut_of(other);
    let t = inserted(s, key, value);
    let r = rank(s, c);
    let q = rank(s, o);
    lemma_cut_consistent(key);
    lemma_cut_consistent(other);
    lemma_cut_sides(key);
    lemma_cut_sides(other);
    lemma_rank(s, c);
    lemma_rank(s, o);
    lemma_order::<K>();
    if holds(s, c) {
        assert forall|i: int| 0 <= i < s.len() implies (#[trigger] t[i]).0 == s[i].0 by {}
        lemma_rank_is(t, o, q);
        if holds(s, o) && q == r {
            assert(c(s[r].0) == Side::At && o(s[r].0) == Side::At);
        }
    } else if lt(key, other) {
        // The new record stands before the place of the other key.
        assert(r <= q) by {
            if q < r {
                assert(c(s[q].0) == Side::After);
                assert(o(s[q].0) != Side::After);
            }
        }
        assert forall|i: int| 0 <= i < q + 1 implies o((#[trigger] t[i]).0) == Side::After by {
            if i < r {
                assert(t[i] == s[i]);
            } else if i > r {
                assert(t[i] == s[i - 1]);
            }
        }
        assert forall|i: int| q + 1 <= i < t.len() implies o((#[trigger] t[i]).0)
            != Side::After by {
            assert(t[i] == s[i - 1]);
        }
        lemma_rank_is(t, o, q + 1);
        if q < s.len() {
            assert(t[q + 1] == s[q]);
        }
    } else {
        assert(lt(other, key));
        assert(q <= r) by {
            if r < q {
                assert(o(s[r].0) == Side::After);
                assert(c(s[r].0) != Side::After);
            }
        }
        assert forall|i: int| 0 <= i < q implies o((#[trigger] t[i]).0) == Side::After by {
            assert(t[i] == s[i]);
        }
        assert forall|i: int| q <= i < t.len() implies o((#[trigger] t[i]).0) != Side::After by {
            if i < r {
                assert(t[i] == s[i]);
            } else if i > r {
                assert(t[i] == s[i - 1]);
            }
        }
        lemma_rank_is(t, o, q);
        if q < r {
            assert(t[q] == s[q]);
        } else if q < s.len() {
            // Both keys have the same place: the new record stands there.
            assert(c(s[q].0) == Side::Before);
            assert(o(s[q].0) == Side::Before);
        }
    }
}

/// The order of insertions under different keys does not matter.
pub proof fn law_inserts_commute<K: Ord, V>(s: Seq<(K, V)>, a: K, x: V, b: K, y: V)
    requires
        lawful::<K>(),
        sorted(s),
        !same_key(a, b),
    ensures
        inserted(inserted(s, a, x), b, y) == inserted(inserted(s, b, y), a, x),
{
    lemma_order::<K>();
    if lt(a, b) {
        lemma_inserts_commute(s, a, x, b, y);
    } else {
        lemma_inserts_commute(s, b, y, a, x);
    }
}

/// The order of insertions under two ascending keys does not matter.
proof fn lemma_inserts_commute<K: Ord, V>(s: Seq<(K, V)>, a: K, x: V, b: K, y: V)
    requires
        lawful::<K>(),
        sorted(s),
        lt(a, b),
    ensures
        inserted(inserted(s, a, x), b, y) == inserted(inserted(s, b, y), a, x),
{
    let ca = cut_of(a);
    let cb = cut_of(b);
    let r = rank(s, ca);
    let q = rank(s, cb);
    lemma_cut_consistent(a);
    lemma_cut_consistent(b);
    lemma_cut_sides(a);
    lemma_cut_sides(b);
    lemma_order::<K>();
    lemma_rank(s, ca);
    lemma_rank(s, cb);
    law_insert_keeps_others(s, a, x, b);
    law_insert_keeps_others(s, b, y, a);
    assert(r <= q) by {
        if q < r {
            assert(ca(s[q].0) == Side::After);
            assert(cb(s[q].0) != Side::After);
        }
    }
    if holds(s, ca) {
        assert(ca(s[r].0) == Side::At);
        assert(lt(s[r].0, b));
        assert(cb(s[r].0) == Side::After);
        assert(r < q);
    }
    assert(inserted(inserted(s, a, x), b, y) =~= inserted(inserted(s, b, y), a, x));
}

/// Inserting adds a record exactly when the key was absent.
pub proof fn law_insert_len<K: Ord, V>(s: Seq<(K, V)>, key: K, value: V)
    requires
        lawful::<K>(),
        sorted(s),
    ensures
        sorted(inserted(s, key, value)),
        inserted(s, key, value).len() == s.len() + (if holds(s, cut_of(key)) {
            0int
        } else {
            1
        }),
{
    lemma_cut_consistent(key);
    lemma_rank(s, cut_of(key));
    lemma_inserted_sorted(s, key, value);
}

/// A removed key is absent.
pub proof fn law_remove_then_get<K: Ord, V>(s: Seq<(K, V)>, c: spec_fn(K) -> Side)
    requires
        sorted(s),
        consistent(c),
    ensures
        !holds(removed(s, c), c),
        lookup(removed(s, c), c) is None,
        rank(removed(s, c), c) == rank(s, c),
{
    let t = removed(s, c);
    let r = rank(s, c);
    lemma_rank(s, c);
    if holds(s, c) {
        assert forall|i: int| 0 <= i < r implies c((#[trigger] t[i]).0) == Side::After by {
            assert(t[i] == s[i]);
        }
        assert forall|i: int| r <= i < t.len() implies c((#[trigger] t[i]).0) == Side::Before by {
            assert(t[i] == s[i + 1]);
        }
        lemma_rank_is(t, c, r);
    }
}

/// Removing takes a record away exactly when there was one.
pub proof fn law_remove_len<K: Ord, V>(s: Seq<(K, V)>, c: spec_fn(K) -> Side)
    requires
        sorted(s),
        consistent(c),
    ensures
        sorted(removed(s, c)),
        s.len() == removed(s, c).len() + (if holds(s, c) {
            1int
        } else {
            0
        }),
{
    lemma_rank(s, c);
    lemma_removed_sorted(s, c);
}

/// Removing a key leaves every other key as it was.
pub proof fn law_remove_keeps_others<K: Ord, V>(s: Seq<(K, V)>, c: spec_fn(K) -> Side, other: K)
    requires
        lawful::<K>(),
        sorted(s),
        consistent(c),
        c(other) != Side::At,
    ensures
        holds(removed(s, c), cut_of(other)) == holds(s, cut_of(other)),
        lookup(removed(s, c), cut_of(other)) == lookup(s, cut_of(other)),
{
    let o = cut_of(other);
    let t = removed(s, c);
    let r = rank(s, c);
    let q = rank(s, o);
    lemma_cut_consistent(other);
    lemma_cut_sides(other);
    lemma_rank(s, c);
    lemma_rank(s, o);
    if holds(s, c) {
        // The removed record is not the one of the other key.
        assert(o(s[r].0) != Side::At) by {
            if o(s[r].0) == Side::At {
                assert(c(s[r].0) == c(other));
            }
        }
        if r < q {
            assert forall|i: int| 0 <= i < q - 1 implies o((#[trigger] t[i]).0)
                == Side::After by {
                let k = if i < r { i } else { i + 1 };
                assert(t[i] == s[k]);
            }
            assert forall|i: int| q - 1 <= i < t.len() implies o((#[trigger] t[i]).0)
                != Side::After by {
                assert(t[i] == s[i + 1]);
            }
            lemma_rank_is(t, o, q - 1);
            if q < s.len() {
                assert(t[q - 1] == s[q]);
            }
        } else {
            assert forall|i: int| 0 <= i < q implies o((#[trigger] t[i]).0) == Side::After by {
                assert(t[i] == s[i]);
            }
            assert forall|i: int| q <= i < t.len() implies o((#[trigger] t[i]).0)
                != Side::After by {
                let k = if i < r { i } else { i + 1 };
                assert(t[i] == s[k]);
            }
            lemma_rank_is(t, o, q);
            if q < r {
                assert(t[q] == s[q]);
            } else if q < t.len() {
                assert(t[q] == s[q + 1]);
                assert(o(s[q + 1].0) == Side::Before);
            }
        }
    }
}

/// Removing a key that was just added undoes the insertion.
pub proof fn law_remove_undoes_insert<K: Ord, V>(s: Seq<(K, V)>, key: K, value: V)
    requires
        lawful::<K>(),
        sorted(s),
        !holds(s, cut_of(key)),
    ensures
        removed(inserted(s, key, value), cut_of(key)) == s,
{
    law_insert_then_get(s, key, value);
    lemma_cut_consistent(key);
    lemma_rank(s, cut_of(key));
    assert(removed(inserted(s, key, value), cut_of(key)) =~= s);
}

/// Inserting a removed record again undoes the removal.
pub proof fn law_insert_undoes_remove<K: Ord, V>(s: Seq<(K, V)>, i: int)
    requires
        lawful::<K>(),
        sorted(s),
        0 <= i < s.len(),
    ensures
        removed(s, cut_of(s[i].0)) == s.remove(i),
        inserted(removed(s, cut_of(s[i].0)), s[i].0, s[i].1) == s,
{
    let c = cut_of(s[i].0);
    lemma_cut_consistent(s[i].0);
    lemma_cut_sides(s[i].0);
    lemma_rank(s, c);
    assert(rank(s, c) == i);
    law_remove_then_get(s, c);
    assert(inserted(removed(s, c), s[i].0, s[i].1) =~= s);
}

/// Of several insertions under one key the last one counts.
pub proof fn law_insert_twice<K: Ord, V>(s: Seq<(K, V)>, key: K, first: V, second: V)
    requires
        lawful::<K>(),
        sorted(s),
    ensures
        inserted(inserted(s, key, first), key, second) == inserted(s, key, second),
{
    law_insert_then_get(s, key, first);
    lemma_cut_consistent(key);
    lemma_rank(s, cut_of(key));
    assert(inserted(inserted(s, key, first), key, second) =~= inserted(s, key, second));
}

/// A map keeps the key under which a record was first inserted.
pub proof fn law_insert_keeps_key<K: Ord, V>(s: Seq<(K, V)>, key: K, value: V)
    requires
        lawful::<K>(),
        sorted(s),
        holds(s, cut_of(key)),
    ensures
        inserted(s, key, value).len() == s.len(),
        forall|i: int|
            0 <= i < s.len() ==> (#[trigger] inserted(s, key, value)[i]).0 == s[i].0,
{
    lemma_cut_consistent(key);
    lemma_rank(s, cut_of(key));
}

/// What is written through the entry of a key is what the map gives back under
/// it; every other key is as it was.
pub proof fn law_write_then_get<K: Ord, V>(
    s: Seq<(K, V)>,
    c: spec_fn(K) -> Side,
    value: V,
    other: spec_fn(K) -> Side,
)
    requires
        sorted(s),
        consistent(c),
        consistent(other),
        holds(s, c),
    ensures
        ({
            let t = s.update(rank(s, c), (s[rank(s, c)].0, value));
            &&& sorted(t)
            &&& rank(t, c) == rank(s, c)
            &&& holds(t, c)
            &&& lookup(t, c) == Some(value)
            &&& removed(t, c) == removed(s, c)
            &&& holds(t, other) == holds(s, other)
            &&& other(s[rank(s, c)].0) != Side::At ==> lookup(t, other) == lookup(s, other)
        }),
{
    let r = rank(s, c);
    let t = s.update(r, (s[r].0, value));
    lemma_rank(s, c);
    lemma_rank(s, other);
    assert forall|i: int| 0 <= i < s.len() implies (#[trigger] t[i]).0 == s[i].0 by {}
    lemma_rank_is(t, c, r);
    lemma_rank_is(t, other, rank(s, other));
    assert forall|i: int, j: int| 0 <= i < j < t.len() implies lt(
        (#[trigger] t[i]).0,
        (#[trigger] t[j]).0,
    ) by {
        assert(lt(s[i].0, s[j].0));
    }
    assert(removed(t, c) =~= removed(s, c));
}

/// Removing twice is removing once.
pub proof fn law_remove_twice<K: Ord, V>(s: Seq<(K, V)>, c: spec_fn(K) -> Side)
    requires
        sorted(s),
        consistent(c),
    ensures
        removed(removed(s, c), c) == removed(s, c),
{
    law_remove_then_get(s, c);
}

/// The first record has the least key and the last one the greatest.
pub proof fn law_ends<K: Ord, V>(s: Seq<(K, V)>, i: int)
    requires
        lawful::<K>(),
        sorted(s),
        0 <= i < s.len(),
    ensures
        !lt(s[i].0, s[0].0),
        !lt(s.last().0, s[i].0),
{
    lemma_order::<K>();
    if i > 0 {
        assert(lt(s[0].0, s[i].0));
    }
    if i < s.len() - 1 {
        assert(lt(s[i].0, s.last().0));
    }
}

/// An iterator that looks for the record behind the last key it returned
/// neither goes back nor repeats a key nor skips one, whatever records there
/// are when it looks: it finds the least key that is greater.
pub proof fn law_iteration_advances<K: Ord, V>(s: Seq<(K, V)>, last: K)
    requires
        lawful::<K>(),
        sorted(s),
    ensures
        0 <= rank_past(s, cut_of(last)) <= s.len(),
        rank_past(s, cut_of(last)) < s.len() ==> lt(last, s[rank_past(s, cut_of(last))].0),
        forall|i: int|
            0 <= i < s.len() && lt(last, (#[trigger] s[i]).0) ==> rank_past(s, cut_of(last)) <= i,
        forall|i: int|
            rank_past(s, cut_of(last)) <= i < s.len() ==> lt(last, (#[trigger] s[i]).0),
{
    let c = cut_of(last);
    lemma_cut_consistent(last);
    lemma_cut_sides(last);
    lemma_rank(s, c);
    lemma_past_around(Seq::empty(), s, Seq::empty(), c);
    assert forall|i: int| 0 <= i < s.len() implies (lt(last, (#[trigger] s[i]).0) <==> c(s[i].0)
        == Side::Before) by {}
}

/// An inserted value is a member; every other value is one as before.
pub proof fn law_set_insert<T: Ord>(s: Seq<T>, value: T, other: T)
    requires
        lawful::<T>(),
        ascending(s),
    ensures
        ascending(with_value(s, value)),
        member(with_value(s, value), cut_of(other)) == (same_key(value, other) || member(
            s,
            cut_of(other),
        )),
        with_value(s, value).len() == s.len() + (if member(s, cut_of(value)) {
            0int
        } else {
            1
        }),
{
    let r = keyed(s);
    let t = inserted(r, value, ());
    lemma_keyed(s, value, cut_of(value));
    lemma_keys(r, cut_of(value));
    lemma_keys(r, cut_of(other));
    lemma_keys(t, cut_of(other));
    law_insert_len(r, value, ());
    lemma_keys_ascend(t);
    if same_key(value, other) {
        law_insert_then_get(r, value, ());
        lemma_same_cut(value, other);
    } else {
        law_insert_keeps_others(r, value, (), other);
    }
}

/// A removed value is no member; every other value is one as before.
pub proof fn law_set_remove<T: Ord>(s: Seq<T>, value: T, other: T)
    requires
        lawful::<T>(),
        ascending(s),
    ensures
        ascending(without_value(s, cut_of(value))),
        member(without_value(s, cut_of(value)), cut_of(other)) == (!same_key(value, other)
            && member(s, cut_of(other))),
        s.len() == without_value(s, cut_of(value)).len() + (if member(s, cut_of(value)) {
            1int
        } else {
            0
        }),
{
    let r = keyed(s);
    let c = cut_of(value);
    let t = removed(r, c);
    lemma_cut_consistent(value);
    lemma_cut_sides(value);
    lemma_keyed(s, value, c);
    lemma_keys(r, c);
    lemma_keys(r, cut_of(other));
    lemma_keys(t, cut_of(other));
    law_remove_len(r, c);
    lemma_keys_ascend(t);
    if same_key(value, other) {
        law_remove_then_get(r, c);
        lemma_same_cut(value, other);
    } else {
        assert(c(other) != Side::At);
        law_remove_keeps_others(r, c, other);
    }
}

/// The keys of sorted records ascend.
proof fn lemma_keys_ascend<T: Ord>(r: Seq<(T, ())>)
    requires
        sorted(r),
    ensures
        ascending(keys_in(r)),
{
    let k = keys_in(r);
    assert forall|i: int, j: int| 0 <= i < j < k.len() implies lt(
        #[trigger] k[i],
        #[trigger] k[j],
    ) by {
        assert(lt(r[i].0, r[j].0));
    }
}

/// Keys that are the same to a map have the same position.
proof fn lemma_same_cut<K: Ord>(a: K, b: K)
    requires
        lawful::<K>(),
        same_key(a, b),
    ensures
        cut_of(a) == cut_of(b),
{
    assert forall|x: K| #[trigger] cut_of(a)(x) == cut_of(b)(x) by {
        lemma_cut_sides(a);
        lemma_cut_sides(b);
        lemma_order::<K>();
        assert(cut_of(a)(x) == Side::Before <==> lt(a, x));
        assert(cut_of(b)(x) == Side::Before <==> lt(b, x));
        assert(cut_of(a)(x) == Side::After <==> lt(x, a));
        assert(cut_of(b)(x) == Side::After <==> lt(x, b));
        assert(lt(a, x) <==> lt(b, x)) by {
            if lt(a, x) && !lt(b, x) {
                assert(!lt(a, b) && !lt(b, x));
                assert(!lt(a, x));
            }
            if lt(b, x) && !lt(a, x) {
                assert(!lt(b, a) && !lt(a, x));
                assert(!lt(b, x));
            }
        }
        assert(lt(x, a) <==> lt(x, b)) by {
            if lt(x, a) && !lt(x, b) {
                assert(!lt(x, b) && !lt(b, a));
                assert(!lt(x, a));
            }
            if lt(x, b) && !lt(x, a) {
                assert(!lt(x, a) && !lt(a, b));
                assert(!lt(x, b));
            }
        }
    }
    assert(cut_of(a) =~= cut_of(b));
}

/// Every set is a subset of itself, and a subset of a subset is a subset.
pub proof fn law_subset_order<T: Ord>(a: Seq<T>, b: Seq<T>, c: Seq<T>)
    requires
        lawful::<T>(),
        ascending(a),
        ascending(b),
        ascending(c),
    ensures
        subset(a, a),
        subset(a, b) && subset(b, c) ==> subset(a, c),
{
    assert forall|i: int| 0 <= i < a.len() implies member(a, cut_of(#[trigger] a[i])) by {
        lemma_cut_consistent(a[i]);
        lemma_cut_sides(a[i]);
        assert(cut_of(a[i])(a[i]) == Side::At);
        lemma_member(a, cut_of(a[i]));
    }
    if subset(a, b) && subset(b, c) {
        assert forall|i: int| 0 <= i < a.len() implies member(c, cut_of(#[trigger] a[i])) by {
            let j = place(b, cut_of(a[i]));
            lemma_cut_consistent(a[i]);
            lemma_cut_sides(a[i]);
            lemma_place(b, cut_of(a[i]));
            assert(member(b, cut_of(a[i])));
            assert(cut_of(a[i])(b[j]) == Side::At);
            lemma_same_cut(a[i], b[j]);
            assert(member(c, cut_of(b[j])));
        }
    }
}

/// A set that shares no value with one that contains it is empty.
pub proof fn law_disjoint_subset<T: Ord>(a: Seq<T>, b: Seq<T>)
    requires
        disjoint(a, b),
        subset(a, b),
    ensures
        a.len() == 0,
{
    if a.len() > 0 {
        assert(member(b, cut_of(a[0])));
    }
}

/// Whether a value is one of those given, in any order.
pub open spec fn given<T: Ord>(values: Seq<T>, other: T) -> bool {
    exists|i: int| 0 <= i < values.len() && same_key(#[trigger] values[i], other)
}

/// A value is given when it is the last one or given before.
proof fn lemma_given<T: Ord>(values: Seq<T>, other: T)
    requires
        values.len() > 0,
    ensures
        given(values, other) <==> given(values.drop_last(), other) || same_key(
            values.last(),
            other,
        ),
{
    let init = values.drop_last();
    if given(values, other) && !same_key(values.last(), other) {
        let i = choose|i: int| 0 <= i < values.len() && same_key(#[trigger] values[i], other);
        assert(init[i] == values[i]);
    }
    if given(init, other) {
        let i = choose|i: int| 0 <= i < init.len() && same_key(#[trigger] init[i], other);
        assert(values[i] == init[i]);
    }
    if same_key(values.last(), other) {
        assert(values[values.len() - 1] == values.last());
    }
}

/// Inserting values one after the other makes members of exactly them and of
/// those that were.
pub proof fn law_set_extend<T: Ord>(s: Seq<T>, values: Seq<T>, other: T)
    requires
        lawful::<T>(),
        ascending(s),
    ensures
        ascending(with_values(s, values)),
        member(with_values(s, values), cut_of(other)) <==> member(s, cut_of(other)) || given(
            values,
            other,
        ),
    decreases values.len(),
{
    if values.len() > 0 {
        law_set_extend(s, values.drop_last(), other);
        law_set_insert(with_values(s, values.drop_last()), values.last(), other);
        lemma_given(values, other);
    }
}

/// Inserting entries one after the other leaves the last value given for a
/// key, and what was there for a key that is not given.
pub proof fn law_extend<K: Ord, V>(s: Seq<(K, V)>, entries: Seq<(K, V)>, key: K)
    requires
        lawful::<K>(),
        sorted(s),
    ensures
        sorted(extended(s, entries)),
        (forall|i: int| 0 <= i < entries.len() ==> !same_key((#[trigger] entries[i]).0, key))
            ==> lookup(extended(s, entries), cut_of(key)) == lookup(s, cut_of(key)),
        forall|i: int|
            0 <= i < entries.len() && same_key((#[trigger] entries[i]).0, key) && (forall|j: int|
                i < j < entries.len() ==> !same_key((#[trigger] entries[j]).0, key)) ==> lookup(
                extended(s, entries),
                cut_of(key),
            ) == Some(entries[i].1),
    decreases entries.len(),
{
    if entries.len() > 0 {
        let init = entries.drop_last();
        let last = entries.last();
        let t = extended(s, init);
        law_extend(s, init, key);
        law_insert_len(t, last.0, last.1);
        assert(entries[entries.len() - 1] == last);
        if same_key(last.0, key) {
            law_insert_then_get(t, last.0, last.1);
            lemma_same_cut(last.0, key);
        } else {
            law_insert_keeps_others(t, last.0, last.1, key);
        }
        assert forall|i: int| 0 <= i < init.len() implies #[trigger] init[i] == entries[i] by {}
        if forall|i: int| 0 <= i < entries.len() ==> !same_key((#[trigger] entries[i]).0, key) {
            assert forall|i: int| 0 <= i < init.len() implies !same_key(
                (#[trigger] init[i]).0,
                key,
            ) by {
                assert(init[i] == entries[i]);
            }
        }
        assert forall|i: int|
            0 <= i < entries.len() && same_key((#[trigger] entries[i]).0, key) && (forall|j: int|
                i < j < entries.len() ==> !same_key((#[trigger] entries[j]).0, key)) implies lookup(
            extended(s, entries),
            cut_of(key),
        ) == Some(entries[i].1) by {
            if i < init.len() {
                assert(!same_key(entries[entries.len() - 1].0, key));
                assert(init[i] == entries[i]);
                assert forall|j: int| i < j < init.len() implies !same_key(
                    (#[trigger] init[j]).0,
                    key,
                ) by {
                    assert(init[j] == entries[j]);
                }
            }
        }
    }
}

} // verus!
