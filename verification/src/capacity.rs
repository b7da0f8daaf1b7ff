//! How many records a tree of a given depth can hold, and must.

use vstd::arithmetic::power::pow;
use vstd::prelude::*;

use crate::shape::{
    contents, flat, items_in, lemma_flat_at, lemma_page, linked, slots_in, tree_ok, Pages,
};

verus! {

/// A sequence that takes from `a` to `b` elements for each page.
proof fn lemma_flat_bounds<T>(f: spec_fn(usize) -> Seq<T>, ids: Seq<usize>, a: int, b: int)
    requires
        forall|k: int| 0 <= k < ids.len() ==> a <= f(#[trigger] ids[k]).len() <= b,
    ensures
        a * ids.len() <= flat(f, ids).len() <= b * ids.len(),
    decreases ids.len(),
{
    if ids.len() > 0 {
        let j = ids.len() - 1;
        lemma_flat_at(f, ids, j);
        assert(ids.skip(j + 1) =~= Seq::empty());
        assert forall|k: int| 0 <= k < ids.take(j).len() implies a <= f(
            #[trigger] ids.take(j)[k],
        ).len() <= b by {
            assert(ids.take(j)[k] == ids[k]);
        }
        lemma_flat_bounds(f, ids.take(j), a, b);
        assert(a <= f(ids[j]).len() <= b);
        assert(a * ids.len() == a * j + a) by (nonlinear_arith)
            requires
                j == ids.len() - 1,
        ;
        assert(b * ids.len() == b * j + b) by (nonlinear_arith)
            requires
                j == ids.len() - 1,
        ;
    } else {
        assert(a * ids.len() == 0) by (nonlinear_arith)
            requires
                ids.len() == 0,
        ;
        assert(b * ids.len() == 0) by (nonlinear_arith)
            requires
                ids.len() == 0,
        ;
    }
}

/// A level has at most as many pages as full pages above it have children.
proof fn lemma_width_most<K: Ord, V>(pages: Pages<K, V>, levels: Seq<Seq<usize>>, n: int, d: int)
    requires
        3 <= n,
        tree_ok(pages, levels, n),
        0 <= d < levels.len(),
    ensures
        levels[d].len() <= pow(n + 1, d as nat),
    decreases d,
{
    reveal(pow);
    if d > 0 {
        let ids = levels[d - 1];
        lemma_width_most(pages, levels, n, d - 1);
        assert forall|k: int| 0 <= k < ids.len() implies 0 <= slots_in(pages)(
            #[trigger] ids[k],
        ).len() <= n + 1 by {
            lemma_page(pages, levels, n, d - 1, k);
        }
        lemma_flat_bounds(slots_in(pages), ids, 0, n + 1);
        assert(linked(pages, levels, d - 1));
        assert(flat(slots_in(pages), ids).len() == levels[d].len());
        assert((n + 1) * ids.len() <= (n + 1) * pow(n + 1, (d - 1) as nat)) by (nonlinear_arith)
            requires
                3 <= n,
                ids.len() <= pow(n + 1, (d - 1) as nat),
        ;
    }
}

/// A level below a root that parts its children has at least as many pages as
/// minimal pages above it have children.
proof fn lemma_width_least<K: Ord, V>(pages: Pages<K, V>, levels: Seq<Seq<usize>>, n: int, d: int)
    requires
        3 <= n,
        tree_ok(pages, levels, n),
        levels.len() > 1,
        pages[levels[0][0] as int].keys().len() >= 1,
        1 <= d < levels.len(),
    ensures
        levels[d].len() >= 2 * pow((n - 1) / 2 + 1, (d - 1) as nat),
    decreases d,
{
    reveal(pow);
    let m = (n - 1) / 2;
    let ids = levels[d - 1];
    assert(linked(pages, levels, d - 1));
    assert(flat(slots_in(pages), ids).len() == levels[d].len());
    if d == 1 {
        lemma_page(pages, levels, n, 0, 0);
        lemma_flat_at(slots_in(pages), ids, 0);
        assert(levels[d].len() >= 2);
        assert(pow(m + 1, 0) == 1);
    } else {
        lemma_width_least(pages, levels, n, d - 1);
        assert forall|k: int| 0 <= k < ids.len() implies m + 1 <= slots_in(pages)(
            #[trigger] ids[k],
        ).len() <= n + 1 by {
            lemma_page(pages, levels, n, d - 1, k);
        }
        lemma_flat_bounds(slots_in(pages), ids, m + 1, n + 1);
        assert(pow(m + 1, (d - 1) as nat) == (m + 1) * pow(m + 1, (d - 2) as nat));
        assert((m + 1) * ids.len() >= 2 * ((m + 1) * pow(m + 1, (d - 2) as nat)))
            by (nonlinear_arith)
            requires
                m >= 1,
                ids.len() >= 2 * pow(m + 1, (d - 2) as nat),
        ;
    }
}

/// A tree of a given depth holds no more records than one of full pages, and
/// one that has grown no fewer than one of minimal pages below its root.
pub proof fn law_capacity<K: Ord, V>(pages: Pages<K, V>, levels: Seq<Seq<usize>>, n: int)
    requires
        3 <= n,
        tree_ok(pages, levels, n),
        levels.len() > 1 ==> pages[levels[0][0] as int].keys().len() >= 1,
    ensures
        contents(pages, levels).len() <= n * pow(n + 1, (levels.len() - 1) as nat),
        levels.len() > 1 ==> contents(pages, levels).len() >= (n / 2) * (2 * pow(
            (n - 1) / 2 + 1,
            (levels.len() - 2) as nat,
        )),
{
    let d = levels.len() - 1;
    let ids = levels[d];
    lemma_width_most(pages, levels, n, d);
    let least = if levels.len() > 1 {
        n / 2
    } else {
        0
    };
    assert forall|k: int| 0 <= k < ids.len() implies least <= items_in(pages)(
        #[trigger] ids[k],
    ).len() <= n by {
        lemma_page(pages, levels, n, d, k);
    }
    lemma_flat_bounds(items_in(pages), ids, least, n);
    assert(n * ids.len() <= n * pow(n + 1, d as nat)) by (nonlinear_arith)
        requires
            3 <= n,
            ids.len() <= pow(n + 1, d as nat),
    ;
    if levels.len() > 1 {
        lemma_width_least(pages, levels, n, d);
        let w = 2 * pow((n - 1) / 2 + 1, (d - 1) as nat);
        assert(least * ids.len() >= least * w) by (nonlinear_arith)
            requires
                least >= 0,
                ids.len() >= w,
        ;
    }
}

} // verus!
