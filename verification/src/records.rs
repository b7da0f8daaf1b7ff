//! The ordered map as a mathematical object: a sequence of records sorted by
//! key, and what looking up, inserting and removing mean for it.

use vstd::prelude::*;

use crate::order::{
    consistent, cut_of, lawful, lemma_cut_consistent, lemma_cut_sides, lemma_order, lt, Side,
};

verus! {

/// One past the last element that satisfies `f`.
///
/// When `f` holds of a prefix and of nothing else, this is where the prefix
/// ends.
pub open spec fn partition_point<T>(s: Seq<T>, f: spec_fn(T) -> bool) -> int
    decreases s.len(),
{
    if s.len() == 0 {
        0
    } else if f(s.last()) {
        s.len() as int
    } else {
        partition_point(s.drop_last(), f)
    }
}

/// A prefix of which alone `f` holds ends at the partition point.
pub proof fn lemma_partition_point<T>(s: Seq<T>, f: spec_fn(T) -> bool, r: int)
    requires
        0 <= r <= s.len(),
        forall|i: int| 0 <= i < r ==> f(#[trigger] s[i]),
        forall|i: int| r <= i < s.len() ==> !f(#[trigger] s[i]),
    ensures
        partition_point(s, f) == r,
    decreases s.len(),
{
    if s.len() > r {
        assert forall|i: int| 0 <= i < r implies f(#[trigger] s.drop_last()[i]) by {
            assert(f(s[i]));
        }
        assert forall|i: int| r <= i < s.drop_last().len() implies !f(
            #[trigger] s.drop_last()[i],
        ) by {
            assert(!f(s[i]));
        }
        lemma_partition_point(s.drop_last(), f, r);
    }
}

/// Keys in strictly ascending order.
pub open spec fn ascending<K: Ord>(s: Seq<K>) -> bool {
    forall|i: int, j: int| 0 <= i < j < s.len() ==> lt(#[trigger] s[i], #[trigger] s[j])
}

/// Records in strictly ascending key order.
pub open spec fn sorted<K: Ord, V>(s: Seq<(K, V)>) -> bool {
    forall|i: int, j: int| 0 <= i < j < s.len() ==> lt((#[trigger] s[i]).0, (#[trigger] s[j]).0)
}

/// The number of records that the position `c` lies after.
pub open spec fn rank<K, V>(s: Seq<(K, V)>, c: spec_fn(K) -> Side) -> int {
    partition_point(s, |e: (K, V)| c(e.0) == Side::After)
}

/// The number of records that the position `c` does not lie before.
pub open spec fn rank_past<K, V>(s: Seq<(K, V)>, c: spec_fn(K) -> Side) -> int {
    partition_point(s, |e: (K, V)| c(e.0) != Side::Before)
}

/// Whether a record lies at the position `c`.
pub open spec fn holds<K, V>(s: Seq<(K, V)>, c: spec_fn(K) -> Side) -> bool {
    rank(s, c) < s.len() && c(s[rank(s, c)].0) == Side::At
}

/// The value of the record at the position `c`.
pub open spec fn lookup<K, V>(s: Seq<(K, V)>, c: spec_fn(K) -> Side) -> Option<V> {
    if holds(s, c) {
        Some(s[rank(s, c)].1)
    } else {
        None
    }
}

/// The records after inserting `value` under `key`. An equal key that is
/// already stored is kept, and only its value replaced.
pub open spec fn inserted<K: Ord, V>(s: Seq<(K, V)>, key: K, value: V) -> Seq<(K, V)> {
    let r = rank(s, cut_of(key));
    if holds(s, cut_of(key)) {
        s.update(r, (s[r].0, value))
    } else {
        s.insert(r, (key, value))
    }
}

/// The records after removing the one at the position `c`, if there is one.
pub open spec fn removed<K, V>(s: Seq<(K, V)>, c: spec_fn(K) -> Side) -> Seq<(K, V)> {
    if holds(s, c) {
        s.remove(rank(s, c))
    } else {
        s
    }
}

/// In sorted records a position that agrees with the order lies after the
/// records below its rank, before those above it, and at or before the one
/// there.
pub proof fn lemma_rank<K: Ord, V>(s: Seq<(K, V)>, c: spec_fn(K) -> Side)
    requires
        sorted(s),
        consistent(c),
    ensures
        0 <= rank(s, c) <= s.len(),
        forall|i: int| 0 <= i < rank(s, c) ==> c((#[trigger] s[i]).0) == Side::After,
        forall|i: int| rank(s, c) <= i < s.len() ==> c((#[trigger] s[i]).0) != Side::After,
        forall|i: int| rank(s, c) < i < s.len() ==> c((#[trigger] s[i]).0) == Side::Before,
    decreases s.len(),
{
    let f = |e: (K, V)| c(e.0) == Side::After;
    let r = rank(s, c);
    if s.len() > 0 && !f(s.last()) {
        assert(sorted(s.drop_last()));
        lemma_rank(s.drop_last(), c);
        assert forall|i: int| 0 <= i < r implies c((#[trigger] s[i]).0) == Side::After by {
            assert(s.drop_last()[i] == s[i]);
        }
        assert forall|i: int| r <= i < s.len() implies c((#[trigger] s[i]).0)
            != Side::After by {
            if i < s.len() - 1 {
                assert(s.drop_last()[i] == s[i]);
            }
        }
    } else if s.len() > 0 {
        assert forall|i: int| 0 <= i < s.len() implies c((#[trigger] s[i]).0)
            == Side::After by {
            if i < s.len() - 1 {
                assert(lt(s[i].0, s.last().0));
            }
        }
    }
    assert forall|i: int| r < i < s.len() implies c((#[trigger] s[i]).0) == Side::Before by {
        assert(lt(s[r].0, s[i].0));
        assert(c(s[r].0) != Side::After);
    }
}

/// Inserting a record keeps records sorted.
pub proof fn lemma_inserted_sorted<K: Ord, V>(s: Seq<(K, V)>, key: K, value: V)
    requires
        lawful::<K>(),
        sorted(s),
    ensures
        sorted(inserted(s, key, value)),
{
    let c = cut_of(key);
    lemma_order::<K>();
    lemma_cut_consistent(key);
    lemma_rank(s, c);
    lemma_cut_sides::<K>(key);
    let r = rank(s, c);
    let t = inserted(s, key, value);
    assert forall|i: int, j: int| 0 <= i < j < t.len() implies lt(
        (#[trigger] t[i]).0,
        (#[trigger] t[j]).0,
    ) by {
        if holds(s, c) {
            assert(lt(s[i].0, s[j].0));
        } else {
            let x = if i < r { i } else { i - 1 };
            let y = if j < r { j } else { j - 1 };
            if i != r && j != r {
                assert(lt(s[x].0, s[y].0));
            } else if i == r {
                assert(c(s[y].0) == Side::Before);
            } else {
                assert(c(s[x].0) == Side::After);
            }
        }
    }
}

/// Removing a record keeps records sorted.
pub proof fn lemma_removed_sorted<K: Ord, V>(s: Seq<(K, V)>, c: spec_fn(K) -> Side)
    requires
        sorted(s),
        consistent(c),
    ensures
        sorted(removed(s, c)),
{
    lemma_rank(s, c);
    let r = rank(s, c);
    let t = removed(s, c);
    if holds(s, c) {
        assert forall|i: int, j: int| 0 <= i < j < t.len() implies lt(
            (#[trigger] t[i]).0,
            (#[trigger] t[j]).0,
        ) by {
            let x = if i < r { i } else { i + 1 };
            let y = if j < r { j } else { j + 1 };
            assert(lt(s[x].0, s[y].0));
        }
    }
}

/// What a position finds among records is decided by those that it is not
/// after or before anyway.
pub proof fn lemma_around<K: Ord, V>(
    a: Seq<(K, V)>,
    s: Seq<(K, V)>,
    b: Seq<(K, V)>,
    c: spec_fn(K) -> Side,
)
    requires
        sorted(s),
        consistent(c),
        forall|i: int| 0 <= i < a.len() ==> c((#[trigger] a[i]).0) == Side::After,
        forall|i: int| 0 <= i < b.len() ==> c((#[trigger] b[i]).0) == Side::Before,
    ensures
        rank(a + s + b, c) == a.len() + rank(s, c),
        holds(a + s + b, c) == holds(s, c),
        lookup(a + s + b, c) == lookup(s, c),
        removed(a + s + b, c) == a + removed(s, c) + b,
{
    let t = a + s + b;
    let r = rank(s, c);
    lemma_rank(s, c);
    let f = |e: (K, V)| c(e.0) == Side::After;
    assert forall|i: int| 0 <= i < a.len() + r implies f(#[trigger] t[i]) by {
        if i < a.len() {
            assert(t[i] == a[i]);
        } else {
            assert(t[i] == s[i - a.len()]);
        }
    }
    assert forall|i: int| a.len() + r <= i < t.len() implies !f(#[trigger] t[i]) by {
        if i < a.len() + s.len() {
            assert(t[i] == s[i - a.len()]);
        } else {
            assert(t[i] == b[i - a.len() - s.len()]);
        }
    }
    lemma_partition_point(t, f, a.len() + r);
    if r < s.len() {
        assert(t[a.len() + r] == s[r]);
    } else if b.len() > 0 {
        assert(t[a.len() + r] == b[0]);
    }
    if holds(s, c) {
        assert(removed(t, c) =~= a + removed(s, c) + b);
    }
}

/// Inserting a key changes only the records that it is not after or before
/// anyway.
pub proof fn lemma_insert_around<K: Ord, V>(
    a: Seq<(K, V)>,
    s: Seq<(K, V)>,
    b: Seq<(K, V)>,
    key: K,
    value: V,
)
    requires
        lawful::<K>(),
        sorted(s),
        forall|i: int| 0 <= i < a.len() ==> cut_of(key)((#[trigger] a[i]).0) == Side::After,
        forall|i: int| 0 <= i < b.len() ==> cut_of(key)((#[trigger] b[i]).0) == Side::Before,
    ensures
        inserted(a + s + b, key, value) == a + inserted(s, key, value) + b,
{
    let c = cut_of(key);
    lemma_cut_consistent(key);
    lemma_around(a, s, b, c);
    lemma_rank(s, c);
    assert(inserted(a + s + b, key, value) =~= a + inserted(s, key, value) + b);
}

/// The first record that a position does not lie after, or lies before, is
/// found among the records that it is not after or before anyway.
pub proof fn lemma_past_around<K: Ord, V>(
    a: Seq<(K, V)>,
    s: Seq<(K, V)>,
    b: Seq<(K, V)>,
    c: spec_fn(K) -> Side,
)
    requires
        sorted(s),
        consistent(c),
        forall|i: int| 0 <= i < a.len() ==> c((#[trigger] a[i]).0) == Side::After,
        forall|i: int| 0 <= i < b.len() ==> c((#[trigger] b[i]).0) == Side::Before,
    ensures
        rank_past(s, c) == rank(s, c) + (if holds(s, c) {
            1int
        } else {
            0
        }),
        rank_past(a + s + b, c) == a.len() + rank_past(s, c),
{
    let t = a + s + b;
    lemma_rank(s, c);
    lemma_around(a, s, b, c);
    let f = |e: (K, V)| c(e.0) != Side::Before;
    let r = rank(s, c) + (if holds(s, c) {
        1int
    } else {
        0
    });
    assert forall|i: int| r <= i < s.len() implies !f(#[trigger] s[i]) by {
        if i == rank(s, c) {
            assert(c(s[i].0) != Side::After);
        }
    }
    lemma_partition_point(s, f, r);
    assert forall|i: int| 0 <= i < a.len() + r implies f(#[trigger] t[i]) by {
        if i < a.len() {
            assert(t[i] == a[i]);
        } else {
            assert(t[i] == s[i - a.len()]);
        }
    }
    assert forall|i: int| a.len() + r <= i < t.len() implies !f(#[trigger] t[i]) by {
        if i < a.len() + s.len() {
            assert(t[i] == s[i - a.len()]);
        } else {
            assert(t[i] == b[i - a.len() - s.len()]);
        }
    }
    lemma_partition_point(t, f, a.len() + r);
}

} // verus!
