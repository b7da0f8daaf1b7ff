//! The order of keys, probes that look keys up, and sorted sequences.

use std::cmp::Ordering;

use vstd::laws_cmp::obeys_cmp;
use vstd::prelude::*;
use vstd::std_specs::cmp::OrdSpec;

verus! {

/// Where a probe lies relative to a key.
#[derive(Clone, Copy, Debug, PartialEq, Eq, Structural)]
pub enum Side {
    /// The probe precedes the key.
    Before,
    /// The probe names the key.
    At,
    /// The probe follows the key.
    After,
}

/// Whether `K`'s `Ord` is a total order, as every ordered collection expects.
pub open spec fn lawful<K: Ord>() -> bool {
    obeys_cmp::<K>()
}

/// Strict key order.
pub open spec fn lt<K: Ord>(a: K, b: K) -> bool {
    a.cmp_spec(&b) == Ordering::Less
}

/// Where the key `k` lies relative to any other key.
pub open spec fn side_of<K: Ord>(k: K, x: K) -> Side {
    match k.cmp_spec(&x) {
        Ordering::Less => Side::Before,
        Ordering::Equal => Side::At,
        Ordering::Greater => Side::After,
    }
}

/// The position of the key `k` in the key space.
pub open spec fn cut_of<K: Ord>(k: K) -> spec_fn(K) -> Side {
    |x: K| side_of(k, x)
}

/// A position that agrees with the key order: it is after a prefix of the
/// keys, at one class of equal keys at most, and before all the others.
pub open spec fn consistent<K: Ord>(c: spec_fn(K) -> Side) -> bool {
    forall|a: K, b: K|
        #![trigger c(a), c(b)]
        {
            &&& lt(a, b) && c(b) != Side::Before ==> c(a) == Side::After
            &&& lt(a, b) && c(a) != Side::After ==> c(b) == Side::Before
            &&& !lt(a, b) && !lt(b, a) ==> c(a) == c(b)
        }
}

/// The laws of the strict order, for a type whose `Ord` is lawful.
pub proof fn lemma_order<K: Ord>()
    requires
        lawful::<K>(),
    ensures
        forall|a: K, b: K, c: K| #[trigger]
            lt(a, b) && #[trigger] lt(b, c) ==> lt(a, c),
        forall|a: K, b: K| #[trigger] lt(a, b) ==> !lt(b, a),
        forall|a: K, b: K, c: K|
            #![trigger lt(a, b), lt(b, c)]
            !lt(a, b) && !lt(b, c) ==> !lt(a, c),
        forall|a: K| !#[trigger] lt(a, a),
{
    reveal(vstd::laws_cmp::obeys_cmp_ord);
    reveal(vstd::laws_cmp::obeys_cmp_partial_ord);
    reveal(vstd::laws_cmp::obeys_partial_cmp_spec_properties);
    reveal(vstd::laws_eq::obeys_eq_spec_properties);
}

/// The position of a key agrees with the key order.
pub proof fn lemma_cut_consistent<K: Ord>(k: K)
    requires
        lawful::<K>(),
    ensures
        consistent(cut_of(k)),
{
    reveal(vstd::laws_cmp::obeys_cmp_ord);
    reveal(vstd::laws_cmp::obeys_cmp_partial_ord);
    reveal(vstd::laws_cmp::obeys_partial_cmp_spec_properties);
    reveal(vstd::laws_eq::obeys_eq_spec_properties);
    let c = cut_of(k);
    assert forall|a: K, b: K| #![trigger c(a), c(b)] true implies ({
        &&& lt(a, b) && c(b) != Side::Before ==> c(a) == Side::After
        &&& lt(a, b) && c(a) != Side::After ==> c(b) == Side::Before
        &&& !lt(a, b) && !lt(b, a) ==> c(a) == c(b)
    }) by {
        assert(c(a) == side_of(k, a));
        assert(c(b) == side_of(k, b));
    }
}

/// A key lies before the keys that follow it and after those that precede it.
pub proof fn lemma_cut_sides<K: Ord>(k: K)
    requires
        lawful::<K>(),
    ensures
        forall|x: K|
            #![trigger cut_of(k)(x)]
            {
                &&& cut_of(k)(x) == Side::Before <==> lt(k, x)
                &&& cut_of(k)(x) == Side::After <==> lt(x, k)
            },
        cut_of(k)(k) == Side::At,
{
    reveal(vstd::laws_cmp::obeys_cmp_ord);
    reveal(vstd::laws_cmp::obeys_cmp_partial_ord);
    reveal(vstd::laws_cmp::obeys_partial_cmp_spec_properties);
    reveal(vstd::laws_eq::obeys_eq_spec_properties);
    assert forall|x: K| #![trigger cut_of(k)(x)] true implies ({
        &&& cut_of(k)(x) == Side::Before <==> lt(k, x)
        &&& cut_of(k)(x) == Side::After <==> lt(x, k)
    }) by {
        assert(cut_of(k)(x) == side_of(k, x));
    }
    lemma_order::<K>();
    assert(!lt(k, k));
}

/// Something that can be looked up among keys of type `K`.
///
/// Every key is its own probe. Another type can be one too when it orders
/// itself against keys as some key would, such as a borrowed form of a key.
pub trait Probe<K: Ord> {
    /// Whether `side` is specified by `side_spec`.
    spec fn probes() -> bool;

    /// Where this probe lies relative to `key`.
    spec fn side_spec(&self, key: K) -> Side;

    /// Every probe agrees with the key order.
    proof fn lemma_probe_consistent(&self)
        requires
            lawful::<K>(),
            Self::probes(),
        ensures
            consistent(|x: K| self.side_spec(x)),
    ;

    /// Compares this probe with `key`.
    fn side(&self, key: &K) -> (side: Side)
        ensures
            Self::probes() ==> side == self.side_spec(*key),
    ;
}

/// The position of a probe in the key space.
pub open spec fn cut<K: Ord, P: Probe<K> + ?Sized>(probe: &P) -> spec_fn(K) -> Side {
    |x: K| probe.side_spec(x)
}

impl<K: Ord> Probe<K> for K {
    open spec fn probes() -> bool {
        lawful::<K>()
    }

    open spec fn side_spec(&self, key: K) -> Side {
        side_of(*self, key)
    }

    proof fn lemma_probe_consistent(&self) {
        lemma_cut_consistent(*self);
        assert(cut_of(*self) =~= |x: K| self.side_spec(x));
    }

    fn side(&self, key: &K) -> (side: Side) {
        proof {
            reveal(vstd::laws_cmp::obeys_cmp_ord);
        }
        match self.cmp(key) {
            Ordering::Less => Side::Before,
            Ordering::Equal => Side::At,
            Ordering::Greater => Side::After,
        }
    }
}

} // verus!
