//! A tree of latched pages between any two steps of its traversals.
//!
//! A step changes the pages it holds latched, and nothing else. Some changes
//! leave sibling links to be repaired by later steps: the page behind a split
//! one still names the old predecessor, and the page before a merged one still
//! leads to the retired page. What is stated here holds at every moment, with
//! any number of such repairs outstanding: every step keeps the tree sound,
//! the structural ones leave its records as they are, and a leaf at which a
//! traversal arrives decides what the tree holds under the key, whichever way
//! the traversal came and whatever happened meanwhile.

use vstd::prelude::*;

use crate::node::{child_slot, lemma_child_slot};
use crate::order::{consistent, cut_of, lawful, lemma_cut_consistent, Side};
use crate::page::{lemma_leaf_insert, lemma_leaf_remove, Body, Page, Route};
use crate::records::{
    holds, inserted, lemma_around, lemma_insert_around, lemma_rank, lookup, removed, sorted,
};
use crate::shape::{
    contents, depth_ok, distinct, flat, items_in, lemma_child, lemma_child_owns,
    lemma_contents_sorted, lemma_flat_at, lemma_flat_one, lemma_flat_same, lemma_leaf_change, lemma_leaf_owns, lemma_page, offset, page_ok, tree_ok,
    Pages,
};
use crate::store::{lemma_used, lemma_used_insert, lemma_used_remove};
use crate::surgery::{
    child_merged, child_split, lemma_lend_from_left, lemma_lend_from_right, lemma_merge_children,
    lemma_shrink_root, lemma_siblings, lemma_split_child, lemma_split_root, root_shrunk,
    root_split, unused,
};

verus! {

/// The pages of a tree between two steps.
pub ghost struct Latched<K, V> {
    /// The pages as they are.
    pub pages: Pages<K, V>,
    /// The pages as they will be once every outstanding repair of a sibling
    /// link is done.
    pub settled: Pages<K, V>,
    /// The active pages of each level in key order, from the root down.
    pub levels: Seq<Seq<usize>>,
    /// The published root.
    pub root: usize,
}

/// Whether two pages differ in their sibling links at most.
pub open spec fn agree<K, V>(a: Page<K, V, usize>, b: Page<K, V, usize>) -> bool {
    a == (Page { right: a.right, previous: a.previous, ..b })
}

/// Whether a traversal at the page `from` is forwarded to the page `to` by no
/// more than `hops` retired pages.
pub open spec fn leads<K, V>(pages: Pages<K, V>, from: usize, to: usize, hops: nat) -> bool
    decreases hops,
{
    from == to || hops > 0 && from < pages.len() && match pages[from as int].body {
        Body::Redirect(next) => leads(pages, next, to, (hops - 1) as nat),
        _ => false,
    }
}

/// Whether a traversal at the page `from` is forwarded to the page `to`.
pub open spec fn reaches<K, V>(pages: Pages<K, V>, from: usize, to: usize) -> bool {
    exists|hops: nat| leads(pages, from, to, hops)
}

/// Whether every page that forwards traversals still forwards them.
spec fn forwards<K, V>(pages: Pages<K, V>, after: Pages<K, V>) -> bool {
    &&& after.len() >= pages.len()
    &&& forall|id: int|
        0 <= id < pages.len() && (#[trigger] pages[id]).body is Redirect ==> after[id].body
            == pages[id].body
}

/// Forwarding goes on as long as no retired page comes back.
proof fn lemma_leads<K, V>(
    pages: Pages<K, V>,
    after: Pages<K, V>,
    from: usize,
    to: usize,
    hops: nat,
)
    requires
        forwards(pages, after),
        leads(pages, from, to, hops),
    ensures
        leads(after, from, to, hops),
    decreases hops,
{
    if from != to {
        if let Body::Redirect(next) = pages[from as int].body {
            lemma_leads(pages, after, next, to, (hops - 1) as nat);
        }
    }
}

/// Forwarding goes on as long as no retired page comes back.
proof fn lemma_reaches<K, V>(pages: Pages<K, V>, after: Pages<K, V>, from: usize, to: usize)
    requires
        forwards(pages, after),
        reaches(pages, from, to),
    ensures
        reaches(after, from, to),
{
    let hops = choose|hops: nat| leads(pages, from, to, hops);
    lemma_leads(pages, after, from, to, hops);
}

/// Forwarding goes on past a page that forwards in turn.
proof fn lemma_leads_on<K, V>(pages: Pages<K, V>, from: usize, to: usize, next: usize, hops: nat)
    requires
        leads(pages, from, to, hops),
        to < pages.len(),
        pages[to as int].body == Body::<K, V, usize>::Redirect(next),
    ensures
        leads(pages, from, next, hops + 1),
    decreases hops,
{
    if from == to {
        assert(leads(pages, next, next, hops));
    } else {
        if let Body::Redirect(step) = pages[from as int].body {
            lemma_leads_on(pages, step, to, next, (hops - 1) as nat);
        }
    }
}

impl<K: Ord, V> Latched<K, V> {
    /// The records of the tree in key order.
    pub open spec fn records(self) -> Seq<(K, V)> {
        contents(self.pages, self.levels)
    }

    /// Whether every page leads to the next one of its level, past pages that
    /// were retired.
    pub open spec fn chained(self) -> bool {
        forall|d: int, j: int|
            #![trigger self.levels[d][j]]
            0 <= d < self.levels.len() && 0 <= j < self.levels[d].len() - 1
                ==> self.pages[self.levels[d][j] as int].right is Some && reaches(
                self.pages,
                self.pages[self.levels[d][j] as int].right->0,
                self.levels[d][j + 1],
            )
    }

    /// The invariant between any two steps. The settled pages form a good
    /// tree; the pages as they are differ from them in sibling links at most;
    /// every page is active or retired; and links lead where they have to.
    pub open spec fn sound(self, n: int) -> bool {
        &&& 3 <= n
        &&& tree_ok(self.settled, self.levels, n)
        &&& self.settled.len() == self.pages.len()
        &&& self.pages.len() <= usize::MAX
        &&& forall|id: int|
            0 <= id < self.pages.len() ==> agree(#[trigger] self.pages[id], self.settled[id])
        &&& forall|id: int|
            0 <= id < self.pages.len() ==> (#[trigger] self.pages[id]).body is Redirect
                || !unused(self.levels, id as usize)
        &&& self.root == self.levels[0][0]
        &&& self.chained()
    }

    /// The records are those of the settled pages.
    proof fn lemma_records(self, n: int)
        requires
            self.sound(n),
        ensures
            self.records() == contents(self.settled, self.levels),
    {
        let d = self.levels.len() - 1;
        let ids = self.levels[d];
        assert forall|j: int| 0 <= j < ids.len() implies items_in(self.pages)(#[trigger] ids[j])
            == items_in(self.settled)(ids[j]) by {
            lemma_page(self.settled, self.levels, n, d, j);
            assert(agree(self.pages[ids[j] as int], self.settled[ids[j] as int]));
        }
        lemma_flat_same(items_in(self.pages), items_in(self.settled), ids);
    }

    /// The records are sorted by key.
    pub proof fn lemma_sorted(self, n: int)
        requires
            lawful::<K>(),
            self.sound(n),
        ensures
            sorted(self.records()),
    {
        self.lemma_records(n);
        lemma_contents_sorted(self.settled, self.levels, n);
    }

    /// The place of a page that is not retired.
    proof fn lemma_place(self, n: int, id: usize) -> (at: (int, int))
        requires
            self.sound(n),
            id < self.pages.len(),
            self.pages[id as int].body !is Redirect,
        ensures
            0 <= at.0 < self.levels.len(),
            0 <= at.1 < self.levels[at.0].len(),
            self.levels[at.0][at.1] == id,
            agree(self.pages[id as int], self.settled[id as int]),
            self.settled[id as int].local(n),
            self.pages[id as int].body is Leaf <==> at.0 == self.levels.len() - 1,
            self.pages[id as int].is_root <==> at.0 == 0,
            !self.pages[id as int].is_root ==> self.pages[id as int].occupancy()
                >= self.pages[id as int].minimum(n),
    {
        assert(self.pages[id as int].body is Redirect || !unused(self.levels, id));
        let at = lemma_used(self.levels, id);
        lemma_page(self.settled, self.levels, n, at.0, at.1);
        assert(agree(self.pages[id as int], self.settled[id as int]));
        at
    }

    /// A leaf at which a traversal arrives holds under the key exactly what the
    /// tree holds, whichever way the traversal came.
    pub proof fn law_arrival_decides(self, n: int, id: usize, c: spec_fn(K) -> Side)
        requires
            lawful::<K>(),
            self.sound(n),
            consistent(c),
            id < self.pages.len(),
            self.pages[id as int].body is Leaf,
            self.pages[id as int].route(c) is Here,
        ensures
            holds(self.pages[id as int].items(), c) == holds(self.records(), c),
            lookup(self.pages[id as int].items(), c) == lookup(self.records(), c),
    {
        let (d, j) = self.lemma_place(n, id);
        let ids = self.levels.last();
        self.lemma_records(n);
        lemma_leaf_owns(self.settled, self.levels, n, j, c);
        lemma_around(
            flat(items_in(self.settled), ids.take(j)),
            self.settled[id as int].items(),
            flat(items_in(self.settled), ids.skip(j + 1)),
            c,
        );
    }

    /// A leaf without a lower fence holds the least record of the tree. It is
    /// empty only where the tree is.
    pub proof fn law_first_leaf(self, n: int, id: usize)
        requires
            self.sound(n),
            id < self.pages.len(),
            self.pages[id as int].body is Leaf,
            self.pages[id as int].low is None,
        ensures
            ({
                let s = self.pages[id as int].items();
                &&& s.len() == 0 <==> self.records().len() == 0
                &&& s.len() > 0 ==> self.records()[0] == s[0]
            }),
    {
        let (d, j) = self.lemma_place(n, id);
        let ids = self.levels.last();
        lemma_page(self.settled, self.levels, n, d, j);
        self.lemma_records(n);
        lemma_flat_at(items_in(self.settled), ids, j);
        assert(ids.take(0) =~= Seq::empty());
        if self.pages[id as int].items().len() == 0 {
            assert(ids.skip(1) =~= Seq::empty());
        }
    }

    /// A leaf without a successor holds the greatest record of the tree. It is
    /// empty only where the tree is.
    pub proof fn law_last_leaf(self, n: int, id: usize)
        requires
            self.sound(n),
            id < self.pages.len(),
            self.pages[id as int].body is Leaf,
            self.pages[id as int].right is None,
        ensures
            self.pages[id as int].high is None,
            ({
                let s = self.pages[id as int].items();
                &&& s.len() == 0 <==> self.records().len() == 0
                &&& s.len() > 0 ==> self.records().last() == s.last()
            }),
    {
        let (d, j) = self.lemma_place(n, id);
        let ids = self.levels.last();
        assert(self.levels[d][j] == id);
        assert(j + 1 == ids.len());
        lemma_page(self.settled, self.levels, n, d, j);
        self.lemma_records(n);
        lemma_flat_at(items_in(self.settled), ids, j);
        assert(ids.skip(j + 1) =~= Seq::empty());
        if self.pages[id as int].items().len() == 0 {
            assert(ids.take(0) =~= Seq::empty());
        }
    }

    /// A leaf whose interval ends has a successor.
    pub proof fn law_fence_has_successor(self, n: int, id: usize)
        requires
            self.sound(n),
            id < self.pages.len(),
            self.pages[id as int].body !is Redirect,
            self.pages[id as int].high is Some,
        ensures
            self.pages[id as int].right is Some,
    {
        let (d, j) = self.lemma_place(n, id);
        lemma_page(self.settled, self.levels, n, d, j);
        assert(self.levels[d][j] == id);
    }

    /// What an active page holds by itself.
    pub proof fn lemma_local(self, n: int, id: usize)
        requires
            self.sound(n),
            id < self.pages.len(),
            self.pages[id as int].body !is Redirect,
        ensures
            self.pages[id as int].high is Some ==> self.pages[id as int].right is Some,
            self.pages[id as int].local(n),
    {
        let _ = self.lemma_place(n, id);
        if self.pages[id as int].high is Some {
            self.law_fence_has_successor(n, id);
        }
    }

    /// A traversal that moves right from a page gets to the next page of the
    /// level, past retired pages, and a key beyond the page is not below it.
    pub proof fn law_moving_right_advances(self, n: int, d: int, j: int, c: spec_fn(K) -> Side)
        requires
            self.sound(n),
            0 <= d < self.levels.len(),
            0 <= j < self.levels[d].len(),
            self.pages[self.levels[d][j] as int].route(c) is Right,
        ensures
            j + 1 < self.levels[d].len(),
            ({
                let p = self.pages[self.levels[d][j] as int];
                let next = self.levels[d][j + 1];
                &&& p.route(c) matches Route::Right(to) && reaches(self.pages, to, next)
                &&& self.pages[next as int].route(c) !is Restart
            }),
    {
        let id = self.levels[d][j];
        lemma_page(self.settled, self.levels, n, d, j);
        assert(agree(self.pages[id as int], self.settled[id as int]));
        assert(j + 1 < self.levels[d].len());
        lemma_page(self.settled, self.levels, n, d, j + 1);
        let next = self.levels[d][j + 1];
        assert(agree(self.pages[next as int], self.settled[next as int]));
    }

    /// A tree of one empty leaf is sound and has no records.
    pub proof fn law_new(n: int) -> (tree: Self)
        requires
            3 <= n,
        ensures
            tree.sound(n),
            tree.records() == Seq::<(K, V)>::empty(),
            tree.pages == seq![
                Page {
                    is_root: true,
                    low: None::<K>,
                    high: None::<K>,
                    previous: None::<usize>,
                    right: None::<usize>,
                    body: Body::Leaf(Seq::<(K, V)>::empty()),
                },
            ],
            tree.root == 0,
    {
        let leaf = Page {
            is_root: true,
            low: None::<K>,
            high: None::<K>,
            previous: None::<usize>,
            right: None::<usize>,
            body: Body::<K, V, usize>::Leaf(Seq::empty()),
        };
        let levels = seq![seq![0usize]];
        let tree = Latched { pages: seq![leaf], settled: seq![leaf], levels, root: 0 };
        assert forall|d: int| 0 <= d < levels.len() implies #[trigger] depth_ok(
            tree.settled,
            levels,
            n,
            d,
        ) by {
            assert(page_ok(tree.settled, levels[0], 0, n, true, true));
        }
        assert(!unused(levels, 0)) by {
            assert(levels[0][0] == 0);
        }
        assert(levels.last() == seq![0usize]);
        lemma_flat_one(items_in(tree.pages), 0usize);
        tree
    }

    /// A traversal can start at the root with any key, and a page that lets it
    /// pass sends it to a child at which it does not have to start again.
    pub proof fn law_descent_advances(self, n: int, id: usize, c: spec_fn(K) -> Side)
        requires
            self.sound(n),
            consistent(c),
            id < self.pages.len(),
            self.pages[id as int].body is Internal,
            self.pages[id as int].route(c) is Here,
        ensures
            self.pages[self.root as int].route(c) is Here,
            ({
                let p = self.pages[id as int];
                let slot = child_slot(p.keys(), c);
                &&& 0 <= slot < p.children().len()
                &&& p.children()[slot] < self.pages.len()
                &&& self.pages[p.children()[slot] as int].body !is Redirect
                &&& self.pages[p.children()[slot] as int].route(c) is Here
            }),
    {
        let (d, j) = self.lemma_place(n, id);
        let p = self.pages[id as int];
        let slot = child_slot(p.keys(), c);
        lemma_child_slot(p.keys(), c);
        lemma_child(self.settled, self.levels, n, d, j, slot);
        lemma_child_owns(self.settled[id as int], slot, c);
        let child = p.children()[slot];
        assert(agree(self.pages[child as int], self.settled[child as int]));
        lemma_page(self.settled, self.levels, n, 0, 0);
        assert(agree(self.pages[self.root as int], self.settled[self.root as int]));
    }

    /// Changing the records of a leaf, which stays good, keeps the tree sound.
    proof fn lemma_write(self, n: int, id: usize, items: Seq<(K, V)>, j: int) -> (next: Self)
        requires
            self.sound(n),
            id < self.pages.len(),
            self.pages[id as int].body is Leaf,
            0 <= j < self.levels.last().len(),
            self.levels.last()[j] == id,
            self.settled[id as int].with_items(items).local(n),
            self.pages[id as int].is_root || items.len() >= n / 2,
        ensures
            next.sound(n),
            next.pages == self.pages.update(id as int, self.pages[id as int].with_items(items)),
            next.levels == self.levels,
            next.root == self.root,
            next.records() == flat(items_in(self.settled), self.levels.last().take(j)) + items
                + flat(items_in(self.settled), self.levels.last().skip(j + 1)),
    {
        let next = Latched {
            pages: self.pages.update(id as int, self.pages[id as int].with_items(items)),
            settled: self.settled.update(id as int, self.settled[id as int].with_items(items)),
            levels: self.levels,
            root: self.root,
        };
        assert(agree(self.pages[id as int], self.settled[id as int]));
        assert forall|d: int, k: int|
            #![trigger self.levels[d][k]]
            0 <= d < self.levels.len() && 0 <= k < self.levels[d].len() implies self.levels[d][k]
            < self.pages.len() by {
            lemma_page(self.settled, self.levels, n, d, k);
        }
        lemma_leaf_change(self.settled, next.settled, self.levels, n, j, items);
        assert forall|k: int| 0 <= k < next.pages.len() implies agree(
            #[trigger] next.pages[k],
            next.settled[k],
        ) && (next.pages[k].body is Redirect || !unused(next.levels, k as usize)) by {
            assert(agree(self.pages[k], self.settled[k]));
            assert(self.pages[k].body is Redirect || !unused(self.levels, k as usize));
        }
        self.lemma_chained(next);
        next.lemma_records(n);
        next
    }

    /// Links that did not change lead where they led.
    proof fn lemma_chained(self, next: Self)
        requires
            self.chained(),
            forwards(self.pages, next.pages),
            next.levels == self.levels,
            forall|d: int, j: int|
                #![trigger self.levels[d][j]]
                0 <= d < self.levels.len() && 0 <= j < self.levels[d].len()
                    ==> next.pages[self.levels[d][j] as int].right
                    == self.pages[self.levels[d][j] as int].right,
        ensures
            next.chained(),
    {
        assert forall|d: int, j: int|
            #![trigger next.levels[d][j]]
            0 <= d < next.levels.len() && 0 <= j < next.levels[d].len() - 1 implies next.pages[next.levels[d][j] as int].right
            is Some && reaches(
            next.pages,
            next.pages[next.levels[d][j] as int].right->0,
            next.levels[d][j + 1],
        ) by {
            assert(self.levels[d][j] == next.levels[d][j]);
            lemma_reaches(
                self.pages,
                next.pages,
                self.pages[self.levels[d][j] as int].right->0,
                self.levels[d][j + 1],
            );
        }
    }

    /// Inserting into the leaf at which a traversal arrives inserts into the
    /// tree.
    pub proof fn law_insert_at_leaf(self, n: int, id: usize, key: K, value: V) -> (next: Self)
        requires
            lawful::<K>(),
            self.sound(n),
            id < self.pages.len(),
            self.pages[id as int].body is Leaf,
            self.pages[id as int].route(cut_of(key)) is Here,
            self.pages[id as int].occupancy() < n || holds(
                self.pages[id as int].items(),
                cut_of(key),
            ),
        ensures
            next.sound(n),
            next.pages == self.pages.update(
                id as int,
                self.pages[id as int].with_items(
                    inserted(self.pages[id as int].items(), key, value),
                ),
            ),
            next.records() == inserted(self.records(), key, value),
    {
        let c = cut_of(key);
        let (d, j) = self.lemma_place(n, id);
        let s = self.pages[id as int].items();
        let ids = self.levels.last();
        lemma_cut_consistent(key);
        lemma_leaf_insert(self.settled[id as int], n, key, value);
        lemma_leaf_owns(self.settled, self.levels, n, j, c);
        lemma_rank(s, c);
        lemma_insert_around(
            flat(items_in(self.settled), ids.take(j)),
            s,
            flat(items_in(self.settled), ids.skip(j + 1)),
            key,
            value,
        );
        self.lemma_records(n);
        self.lemma_write(n, id, inserted(s, key, value), j)
    }

    /// Removing from the leaf at which a traversal arrives removes from the
    /// tree.
    pub proof fn law_remove_at_leaf(self, n: int, id: usize, c: spec_fn(K) -> Side) -> (next: Self)
        requires
            lawful::<K>(),
            self.sound(n),
            consistent(c),
            id < self.pages.len(),
            self.pages[id as int].body is Leaf,
            self.pages[id as int].route(c) is Here,
            self.pages[id as int].is_root || self.pages[id as int].occupancy() > n / 2,
        ensures
            next.sound(n),
            next.pages == self.pages.update(
                id as int,
                self.pages[id as int].with_items(removed(self.pages[id as int].items(), c)),
            ),
            next.records() == removed(self.records(), c),
    {
        let (d, j) = self.lemma_place(n, id);
        let s = self.pages[id as int].items();
        let ids = self.levels.last();
        lemma_leaf_remove(self.settled[id as int], n, c);
        lemma_leaf_owns(self.settled, self.levels, n, j, c);
        lemma_rank(s, c);
        lemma_around(
            flat(items_in(self.settled), ids.take(j)),
            s,
            flat(items_in(self.settled), ids.skip(j + 1)),
            c,
        );
        self.lemma_records(n);
        self.lemma_write(n, id, removed(s, c), j)
    }

    /// After a split the left half leads to the right one, which leads where
    /// the page led, and every other link leads where it led.
    proof fn lemma_split_links(self, next: Self, d: int, q: int, right: usize)
        requires
            self.chained(),
            distinct(self.levels),
            0 <= d < self.levels.len(),
            0 <= q < self.levels[d].len(),
            next.levels == self.levels.update(d, self.levels[d].insert(q + 1, right)),
            forwards(self.pages, next.pages),
            next.pages[self.levels[d][q] as int].right == Some(right),
            next.pages[right as int].right == self.pages[self.levels[d][q] as int].right,
            forall|e: int, m: int|
                #![trigger self.levels[e][m]]
                0 <= e < self.levels.len() && 0 <= m < self.levels[e].len() && self.levels[e][m]
                    != self.levels[d][q] ==> next.pages[self.levels[e][m] as int].right
                    == self.pages[self.levels[e][m] as int].right,
        ensures
            next.chained(),
    {
        let levels = self.levels;
        assert forall|e: int, m: int|
            #![trigger next.levels[e][m]]
            0 <= e < next.levels.len() && 0 <= m < next.levels[e].len()
                - 1 implies next.pages[next.levels[e][m] as int].right is Some && reaches(
            next.pages,
            next.pages[next.levels[e][m] as int].right->0,
            next.levels[e][m + 1],
        ) by {
            if e == d && m == q {
                assert(next.levels[e][m] == levels[d][q]);
                assert(next.levels[e][m + 1] == right);
                assert(leads(next.pages, right, right, 0));
            } else {
                // The place that the page, or the one it was split from, had.
                let o = if e == d && m > q {
                    m - 1
                } else {
                    m
                };
                assert(levels[e][o + 1] == next.levels[e][m + 1]);
                assert(next.pages[next.levels[e][m] as int].right
                    == self.pages[levels[e][o] as int].right) by {
                    if e == d && m == q + 1 {
                        assert(next.levels[e][m] == right);
                    } else {
                        assert(next.levels[e][m] == levels[e][o]);
                        assert(levels[e][o] != levels[d][q]);
                    }
                }
                lemma_reaches(
                    self.pages,
                    next.pages,
                    self.pages[levels[e][o] as int].right->0,
                    levels[e][o + 1],
                );
            }
        }
    }

    /// Splitting a full child below a parent with room keeps the tree sound and
    /// its records as they are, though the page behind the new one does not
    /// name it yet.
    #[verifier::rlimit(60)]
    #[verifier::spinoff_prover]
    pub proof fn law_split_step(self, n: int, above: usize, i: int) -> (next: Self)
        requires
            lawful::<K>(),
            self.sound(n),
            above < self.pages.len() < usize::MAX,
            self.pages[above as int].body is Internal,
            0 <= i < self.pages[above as int].children().len(),
            self.pages[above as int].occupancy() < n,
            self.pages[self.pages[above as int].children()[i] as int].occupancy() == n,
        ensures
            next.sound(n),
            ({
                let p = self.pages[above as int];
                let child = p.children()[i];
                let c = self.pages[child as int];
                let right = self.pages.len() as usize;
                next.pages == self.pages.update(
                    above as int,
                    p.with_split(i, c.split_key(n), right),
                ).update(child as int, c.left_half(n, right)).push(c.right_half(n, child))
            }),
            next.records() == self.records(),
    {
        let (d0, j) = self.lemma_place(n, above);
        let d = d0 + 1;
        let p = self.pages[above as int];
        let sp = self.settled[above as int];
        let child = p.children()[i];
        let right = self.pages.len() as usize;
        let levels = self.levels;
        let q = offset(self.settled, levels, d - 1, j) + i;
        lemma_child(self.settled, levels, n, d - 1, j, i);
        let c = self.pages[child as int];
        let sc = self.settled[child as int];
        assert(agree(c, sc));
        assert(levels[d - 1][j] != levels[d][q]);
        let base = self.settled.update(above as int, sp.with_split(i, sc.split_key(n), right)).update(
            child as int,
            sc.left_half(n, right),
        ).push(sc.right_half(n, child));
        let settled = match sc.right {
            Some(s) => base.update(
                s as int,
                Page { previous: Some(right), ..self.settled[s as int] },
            ),
            None => base,
        };
        let next = Latched {
            pages: self.pages.update(above as int, p.with_split(i, c.split_key(n), right)).update(
                child as int,
                c.left_half(n, right),
            ).push(c.right_half(n, child)),
            settled,
            levels: levels.update(d, levels[d].insert(q + 1, right)),
            root: self.root,
        };
        assert forall|e: int, k: int|
            #![trigger levels[e][k]]
            0 <= e < levels.len() && 0 <= k < levels[e].len() implies levels[e][k]
            < self.pages.len() by {
            lemma_page(self.settled, levels, n, e, k);
        }
        if sc.right is Some {
            assert(sc.right == Some(levels[d][q + 1]));
            assert(levels[d][q + 1] != levels[d][q]);
            assert(levels[d][q + 1] != levels[d - 1][j]);
        }
        assert(unused(levels, right));
        assert(child_split(self.settled, settled, levels, n, d, j, i, right));
        lemma_split_child(self.settled, settled, levels, n, d, j, i, right);
        assert forall|k: int| 0 <= k < next.pages.len() implies agree(
            #[trigger] next.pages[k],
            next.settled[k],
        ) by {
            if k < self.pages.len() {
                assert(agree(self.pages[k], self.settled[k]));
            }
        }
        assert forall|k: int| 0 <= k < next.pages.len() implies (#[trigger] next.pages[k]).body
            is Redirect || !unused(next.levels, k as usize) by {
            if k == self.pages.len() {
                lemma_used_insert(levels, d, q + 1, right, right);
            } else if self.pages[k].body !is Redirect {
                assert(self.pages[k].body is Redirect || !unused(levels, k as usize));
                lemma_used_insert(levels, d, q + 1, right, k as usize);
            }
        }
        assert(forwards(self.pages, next.pages));
        self.lemma_split_links(next, d, q, right);
        assert(next.levels[0][0] == levels[0][0]);
        self.lemma_records(n);
        next.lemma_records(n);
        next
    }

    /// Moving a record or child between two neighbouring children of a page
    /// keeps the tree sound and its records as they are.
    #[verifier::rlimit(60)]
    #[verifier::spinoff_prover]
    pub proof fn law_lend_step(self, n: int, above: usize, i: int, to_right: bool) -> (next: Self)
        requires
            lawful::<K>(),
            self.sound(n),
            above < self.pages.len(),
            self.pages[above as int].body is Internal,
            0 <= i < self.pages[above as int].children().len() - 1,
            ({
                let p = self.pages[above as int];
                let l = self.pages[p.children()[i] as int];
                let r = self.pages[p.children()[i + 1] as int];
                let (lender, borrower) = if to_right {
                    (l, r)
                } else {
                    (r, l)
                };
                &&& lender.occupancy() > lender.minimum(n)
                &&& borrower.occupancy() <= borrower.minimum(n)
            }),
        ensures
            next.sound(n),
            ({
                let p = self.pages[above as int];
                let left = p.children()[i];
                let right = p.children()[i + 1];
                let l = self.pages[left as int];
                let r = self.pages[right as int];
                let separator = p.keys()[i];
                next.pages == (if to_right {
                    self.pages.update(above as int, p.with_key(i, l.last_boundary())).update(
                        left as int,
                        l.without_last(),
                    ).update(right as int, r.with_last_of(l, separator))
                } else {
                    self.pages.update(above as int, p.with_key(i, r.first_boundary())).update(
                        left as int,
                        l.with_first_of(r, separator),
                    ).update(right as int, r.without_first())
                })
            }),
            next.records() == self.records(),
    {
        let (d0, j) = self.lemma_place(n, above);
        let d = d0 + 1;
        let levels = self.levels;
        let p = self.pages[above as int];
        let sp = self.settled[above as int];
        let left = p.children()[i];
        let right = p.children()[i + 1];
        lemma_siblings(self.settled, levels, n, d, j, i);
        let l = self.pages[left as int];
        let r = self.pages[right as int];
        let sl = self.settled[left as int];
        let sr = self.settled[right as int];
        let separator = p.keys()[i];
        assert(agree(l, sl) && agree(r, sr));
        let next = Latched {
            pages: if to_right {
                self.pages.update(above as int, p.with_key(i, l.last_boundary())).update(
                    left as int,
                    l.without_last(),
                ).update(right as int, r.with_last_of(l, separator))
            } else {
                self.pages.update(above as int, p.with_key(i, r.first_boundary())).update(
                    left as int,
                    l.with_first_of(r, separator),
                ).update(right as int, r.without_first())
            },
            settled: if to_right {
                self.settled.update(above as int, sp.with_key(i, sl.last_boundary())).update(
                    left as int,
                    sl.without_last(),
                ).update(right as int, sr.with_last_of(sl, separator))
            } else {
                self.settled.update(above as int, sp.with_key(i, sr.first_boundary())).update(
                    left as int,
                    sl.with_first_of(sr, separator),
                ).update(right as int, sr.without_first())
            },
            levels,
            root: self.root,
        };
        assert forall|e: int, k: int|
            #![trigger levels[e][k]]
            0 <= e < levels.len() && 0 <= k < levels[e].len() implies levels[e][k]
            < self.pages.len() by {
            lemma_page(self.settled, levels, n, e, k);
        }
        if to_right {
            lemma_lend_from_left(self.settled, next.settled, levels, n, d, j, i);
        } else {
            lemma_lend_from_right(self.settled, next.settled, levels, n, d, j, i);
        }
        assert forall|k: int| 0 <= k < next.pages.len() implies agree(
            #[trigger] next.pages[k],
            next.settled[k],
        ) && (next.pages[k].body is Redirect || !unused(next.levels, k as usize)) by {
            assert(agree(self.pages[k], self.settled[k]));
            assert(self.pages[k].body is Redirect || !unused(self.levels, k as usize));
        }
        self.lemma_chained(next);
        self.lemma_records(n);
        next.lemma_records(n);
        next
    }

    /// After a merge the page before the retired one is forwarded by it, and
    /// every other link leads where it led.
    proof fn lemma_merge_links(self, next: Self, d: int, q: int)
        requires
            self.chained(),
            distinct(self.levels),
            0 <= d < self.levels.len(),
            0 <= q < self.levels[d].len() - 1,
            next.levels == self.levels.update(d, self.levels[d].remove(q)),
            forwards(self.pages, next.pages),
            self.levels[d][q] < next.pages.len(),
            next.pages[self.levels[d][q] as int].body == Body::<K, V, usize>::Redirect(
                self.levels[d][q + 1],
            ),
            forall|e: int, m: int|
                #![trigger self.levels[e][m]]
                0 <= e < self.levels.len() && 0 <= m < self.levels[e].len()
                    ==> next.pages[self.levels[e][m] as int].right
                    == self.pages[self.levels[e][m] as int].right,
        ensures
            next.chained(),
    {
        let levels = self.levels;
        let left = levels[d][q];
        let right = levels[d][q + 1];
        assert forall|e: int, m: int|
            #![trigger next.levels[e][m]]
            0 <= e < next.levels.len() && 0 <= m < next.levels[e].len()
                - 1 implies next.pages[next.levels[e][m] as int].right is Some && reaches(
            next.pages,
            next.pages[next.levels[e][m] as int].right->0,
            next.levels[e][m + 1],
        ) by {
            let o = if e == d && m >= q {
                m + 1
            } else {
                m
            };
            assert(next.levels[e][m] == levels[e][o]);
            let to = self.pages[levels[e][o] as int].right->0;
            lemma_reaches(self.pages, next.pages, to, levels[e][o + 1]);
            if e == d && m + 1 == q {
                assert(levels[e][o + 1] == left);
                assert(next.levels[e][m + 1] == right);
                let hops = choose|hops: nat| leads(next.pages, to, left, hops);
                lemma_leads_on(next.pages, to, left, right, hops);
            } else {
                assert(next.levels[e][m + 1] == levels[e][o + 1]);
            }
        }
    }

    /// Merging two minimal neighbouring children of a page keeps the tree sound
    /// and its records as they are, though the page before them still leads to
    /// the retired one.
    #[verifier::rlimit(60)]
    #[verifier::spinoff_prover]
    pub proof fn law_merge_step(self, n: int, above: usize, i: int) -> (next: Self)
        requires
            lawful::<K>(),
            self.sound(n),
            above < self.pages.len(),
            self.pages[above as int].body is Internal,
            self.pages[above as int].is_root || self.pages[above as int].occupancy()
                > self.pages[above as int].minimum(n),
            0 <= i < self.pages[above as int].children().len() - 1,
            ({
                let p = self.pages[above as int];
                let l = self.pages[p.children()[i] as int];
                let r = self.pages[p.children()[i + 1] as int];
                l.occupancy() <= l.minimum(n) && r.occupancy() <= r.minimum(n)
            }),
        ensures
            next.sound(n),
            ({
                let p = self.pages[above as int];
                let left = p.children()[i];
                let right = p.children()[i + 1];
                let l = self.pages[left as int];
                let r = self.pages[right as int];
                next.pages == self.pages.update(above as int, p.without_child(i)).update(
                    left as int,
                    l.retired_to(right),
                ).update(right as int, r.merged_with(l, p.keys()[i]))
            }),
            next.records() == self.records(),
    {
        let (d0, j) = self.lemma_place(n, above);
        let d = d0 + 1;
        let levels = self.levels;
        let p = self.pages[above as int];
        let sp = self.settled[above as int];
        let left = p.children()[i];
        let right = p.children()[i + 1];
        let q = offset(self.settled, levels, d - 1, j) + i;
        lemma_siblings(self.settled, levels, n, d, j, i);
        let l = self.pages[left as int];
        let r = self.pages[right as int];
        let sl = self.settled[left as int];
        let sr = self.settled[right as int];
        let separator = p.keys()[i];
        assert(agree(l, sl) && agree(r, sr));
        let base = self.settled.update(above as int, sp.without_child(i)).update(
            left as int,
            sl.retired_to(right),
        ).update(right as int, sr.merged_with(sl, separator));
        let settled = match sl.previous {
            Some(s) => base.update(s as int, Page { right: Some(right), ..self.settled[s as int] }),
            None => base,
        };
        let next = Latched {
            pages: self.pages.update(above as int, p.without_child(i)).update(
                left as int,
                l.retired_to(right),
            ).update(right as int, r.merged_with(l, separator)),
            settled,
            levels: levels.update(d, levels[d].remove(q)),
            root: self.root,
        };
        assert forall|e: int, k: int|
            #![trigger levels[e][k]]
            0 <= e < levels.len() && 0 <= k < levels[e].len() implies levels[e][k]
            < self.pages.len() by {
            lemma_page(self.settled, levels, n, e, k);
        }
        if sl.previous is Some {
            assert(sl.previous == Some(levels[d][q - 1]));
            assert(levels[d][q - 1] != levels[d][q]);
            assert(levels[d][q - 1] != levels[d][q + 1]);
            assert(levels[d][q - 1] != levels[d - 1][j]);
        }
        assert(child_merged(self.settled, settled, levels, d, j, i));
        lemma_merge_children(self.settled, settled, levels, n, d, j, i);
        assert forall|k: int| 0 <= k < next.pages.len() implies agree(
            #[trigger] next.pages[k],
            next.settled[k],
        ) by {
            assert(agree(self.pages[k], self.settled[k]));
        }
        assert forall|k: int| 0 <= k < next.pages.len() implies (#[trigger] next.pages[k]).body
            is Redirect || !unused(next.levels, k as usize) by {
            if k != left && self.pages[k].body !is Redirect {
                assert(self.pages[k].body is Redirect || !unused(levels, k as usize));
                lemma_used_remove(levels, d, q, k as usize);
            }
        }
        assert(forwards(self.pages, next.pages));
        self.lemma_merge_links(next, d, q);
        assert(next.levels[0][0] == levels[0][0]);
        self.lemma_records(n);
        next.lemma_records(n);
        next
    }

    /// Repairing a sibling link keeps the tree sound: naming another
    /// predecessor or none, or leading past a retired page to where it
    /// forwards. The page itself may have been retired meanwhile.
    pub proof fn law_relink_step(
        self,
        n: int,
        id: usize,
        previous: Option<usize>,
        past: bool,
    ) -> (next: Self)
        requires
            self.sound(n),
            id < self.pages.len(),
            past ==> (self.pages[id as int].right matches Some(y) && y < self.pages.len()
                && self.pages[y as int].body is Redirect),
        ensures
            next.sound(n),
            next.pages == self.pages.update(
                id as int,
                Page {
                    previous,
                    right: if past {
                        Some(self.pages[self.pages[id as int].right->0 as int].body->Redirect_0)
                    } else {
                        self.pages[id as int].right
                    },
                    ..self.pages[id as int]
                },
            ),
            next.records() == self.records(),
    {
        let levels = self.levels;
        let y = self.pages[id as int].right->0;
        let z = self.pages[y as int].body->Redirect_0;
        let next = Latched {
            pages: self.pages.update(
                id as int,
                Page {
                    previous,
                    right: if past {
                        Some(z)
                    } else {
                        self.pages[id as int].right
                    },
                    ..self.pages[id as int]
                },
            ),
            ..self
        };
        assert forall|e: int, k: int|
            #![trigger levels[e][k]]
            0 <= e < levels.len() && 0 <= k < levels[e].len() implies levels[e][k]
            < self.pages.len() && self.pages[levels[e][k] as int].body !is Redirect by {
            lemma_page(self.settled, levels, n, e, k);
            assert(agree(
                self.pages[levels[e][k] as int],
                self.settled[levels[e][k] as int],
            ));
        }
        assert forall|k: int| 0 <= k < next.pages.len() implies agree(
            #[trigger] next.pages[k],
            next.settled[k],
        ) && (next.pages[k].body is Redirect || !unused(next.levels, k as usize)) by {
            assert(agree(self.pages[k], self.settled[k]));
            assert(self.pages[k].body is Redirect || !unused(self.levels, k as usize));
        }
        assert(forwards(self.pages, next.pages));
        assert forall|e: int, m: int|
            #![trigger next.levels[e][m]]
            0 <= e < next.levels.len() && 0 <= m < next.levels[e].len()
                - 1 implies next.pages[next.levels[e][m] as int].right is Some && reaches(
            next.pages,
            next.pages[next.levels[e][m] as int].right->0,
            next.levels[e][m + 1],
        ) by {
            let from = levels[e][m];
            let to = levels[e][m + 1];
            assert(next.levels[e][m] == from);
            lemma_reaches(self.pages, next.pages, self.pages[from as int].right->0, to);
            if from == id && past {
                let hops = choose|hops: nat| leads(next.pages, y, to, hops);
                assert(y != to);
                assert(leads(next.pages, z, to, (hops - 1) as nat));
            }
        }
        self.lemma_records(n);
        next.lemma_records(n);
        next
    }

    /// Splitting a full root below a new one keeps the tree sound and its
    /// records as they are.
    #[verifier::rlimit(60)]
    #[verifier::spinoff_prover]
    pub proof fn law_root_split_step(self, n: int) -> (next: Self)
        requires
            lawful::<K>(),
            self.sound(n),
            self.pages.len() < usize::MAX - 1,
            self.pages[self.root as int].occupancy() == n,
        ensures
            next.sound(n),
            ({
                let p = self.pages[self.root as int];
                let right = self.pages.len() as usize;
                let top = (self.pages.len() + 1) as usize;
                &&& next.root == top
                &&& next.pages == self.pages.update(
                    self.root as int,
                    Page { is_root: false, ..p.left_half(n, right) },
                ).push(p.right_half(n, self.root)).push(
                    Page {
                        is_root: true,
                        low: None,
                        high: None,
                        previous: None,
                        right: None,
                        body: Body::Internal(seq![p.split_key(n)], seq![self.root, right]),
                    },
                )
            }),
            next.records() == self.records(),
    {
        let levels = self.levels;
        let root = self.root;
        let p = self.pages[root as int];
        let sp = self.settled[root as int];
        let right = self.pages.len() as usize;
        let top = (self.pages.len() + 1) as usize;
        lemma_page(self.settled, levels, n, 0, 0);
        assert(agree(p, sp));
        let crown = Page {
            is_root: true,
            low: None,
            high: None,
            previous: None,
            right: None,
            body: Body::<K, V, usize>::Internal(seq![p.split_key(n)], seq![root, right]),
        };
        let next = Latched {
            pages: self.pages.update(
                root as int,
                Page { is_root: false, ..p.left_half(n, right) },
            ).push(p.right_half(n, root)).push(crown),
            settled: self.settled.update(
                root as int,
                Page { is_root: false, ..sp.left_half(n, right) },
            ).push(sp.right_half(n, root)).push(crown),
            levels: seq![seq![top], seq![root, right]] + levels.skip(1),
            root: top,
        };
        assert forall|e: int, k: int|
            #![trigger levels[e][k]]
            0 <= e < levels.len() && 0 <= k < levels[e].len() implies levels[e][k]
            < self.pages.len() by {
            lemma_page(self.settled, levels, n, e, k);
        }
        assert(unused(levels, right) && unused(levels, top));
        assert(root_split(self.settled, next.settled, levels, n, right, top));
        lemma_split_root(self.settled, next.settled, levels, n, right, top);
        assert forall|k: int| 0 <= k < next.pages.len() implies agree(
            #[trigger] next.pages[k],
            next.settled[k],
        ) by {
            if k < self.pages.len() {
                assert(agree(self.pages[k], self.settled[k]));
            }
        }
        assert forall|k: int| 0 <= k < next.pages.len() implies (#[trigger] next.pages[k]).body
            is Redirect || !unused(next.levels, k as usize) by {
            if k == top {
                assert(next.levels[0][0] == top);
            } else if k == right {
                assert(next.levels[1][1] == right);
            } else if k == root {
                assert(next.levels[1][0] == root);
            } else if self.pages[k].body !is Redirect {
                assert(self.pages[k].body is Redirect || !unused(levels, k as usize));
                let (e, m) = lemma_used(levels, k as usize);
                assert(e > 0) by {
                    if e == 0 {
                        assert(m == 0);
                    }
                }
                assert(next.levels[e + 1] == levels[e]);
                assert(next.levels[e + 1][m] == levels[e][m]);
            }
        }
        assert(forwards(self.pages, next.pages));
        assert forall|e: int, m: int|
            #![trigger next.levels[e][m]]
            0 <= e < next.levels.len() && 0 <= m < next.levels[e].len()
                - 1 implies next.pages[next.levels[e][m] as int].right is Some && reaches(
            next.pages,
            next.pages[next.levels[e][m] as int].right->0,
            next.levels[e][m + 1],
        ) by {
            if e == 1 {
                assert(m == 0);
                assert(leads(next.pages, right, right, 0));
            } else {
                assert(e >= 2);
                assert(next.levels[e] == levels[e - 1]);
                assert(levels[e - 1][m] != levels[0][0]);
                assert(next.levels[e][m] == levels[e - 1][m]);
                lemma_reaches(
                    self.pages,
                    next.pages,
                    self.pages[levels[e - 1][m] as int].right->0,
                    levels[e - 1][m + 1],
                );
            }
        }
        self.lemma_records(n);
        next.lemma_records(n);
        next
    }

    /// Replacing an empty root by its only child keeps the tree sound and its
    /// records as they are.
    #[verifier::rlimit(60)]
    #[verifier::spinoff_prover]
    pub proof fn law_root_collapse_step(self, n: int) -> (next: Self)
        requires
            self.sound(n),
            self.pages[self.root as int].body is Internal,
            self.pages[self.root as int].keys().len() == 0,
        ensures
            next.sound(n),
            ({
                let heir = self.pages[self.root as int].children()[0];
                &&& next.root == heir
                &&& next.pages == self.pages.update(
                    heir as int,
                    Page {
                        is_root: true,
                        low: None,
                        high: None,
                        previous: None,
                        right: None,
                        body: self.pages[heir as int].body,
                    },
                ).update(
                    self.root as int,
                    Page {
                        is_root: false,
                        low: None,
                        high: None,
                        previous: None,
                        right: None,
                        body: Body::Redirect(heir),
                    },
                )
            }),
            next.records() == self.records(),
    {
        let levels = self.levels;
        let root = self.root;
        let p = self.pages[root as int];
        lemma_page(self.settled, levels, n, 0, 0);
        assert(agree(p, self.settled[root as int]));
        let heir = p.children()[0];
        lemma_child(self.settled, levels, n, 0, 0, 0);
        assert(agree(self.pages[heir as int], self.settled[heir as int]));
        let q = offset(self.settled, levels, 0, 0);
        assert(levels[1][q] != levels[0][0]);
        let crowned = Page {
            is_root: true,
            low: None::<K>,
            high: None::<K>,
            previous: None::<usize>,
            right: None::<usize>,
            body: self.pages[heir as int].body,
        };
        let retired = Page {
            is_root: false,
            low: None::<K>,
            high: None::<K>,
            previous: None::<usize>,
            right: None::<usize>,
            body: Body::<K, V, usize>::Redirect(heir),
        };
        let next = Latched {
            pages: self.pages.update(heir as int, crowned).update(root as int, retired),
            settled: self.settled.update(heir as int, crowned).update(root as int, retired),
            levels: levels.skip(1),
            root: heir,
        };
        assert forall|e: int, k: int|
            #![trigger levels[e][k]]
            0 <= e < levels.len() && 0 <= k < levels[e].len() implies levels[e][k]
            < self.pages.len() by {
            lemma_page(self.settled, levels, n, e, k);
        }
        assert(root_shrunk(self.settled, next.settled, levels));
        lemma_shrink_root(self.settled, next.settled, levels, n);
        assert forall|k: int| 0 <= k < next.pages.len() implies agree(
            #[trigger] next.pages[k],
            next.settled[k],
        ) by {
            assert(agree(self.pages[k], self.settled[k]));
        }
        assert forall|k: int| 0 <= k < next.pages.len() implies (#[trigger] next.pages[k]).body
            is Redirect || !unused(next.levels, k as usize) by {
            if k != root && self.pages[k].body !is Redirect {
                assert(self.pages[k].body is Redirect || !unused(levels, k as usize));
                let (e, m) = lemma_used(levels, k as usize);
                assert(e > 0) by {
                    if e == 0 {
                        assert(m == 0);
                    }
                }
                assert(next.levels[e - 1] == levels[e]);
                assert(next.levels[e - 1][m] == levels[e][m]);
            }
        }
        assert(forwards(self.pages, next.pages));
        assert(next.levels[0].len() == 1);
        assert forall|e: int, m: int|
            #![trigger next.levels[e][m]]
            0 <= e < next.levels.len() && 0 <= m < next.levels[e].len()
                - 1 implies next.pages[next.levels[e][m] as int].right is Some && reaches(
            next.pages,
            next.pages[next.levels[e][m] as int].right->0,
            next.levels[e][m + 1],
        ) by {
            assert(e > 0);
            assert(next.levels[e] == levels[e + 1]);
            assert(next.levels[e][m] == levels[e + 1][m]);
            assert(levels[e + 1][m] != levels[0][0]);
            assert(levels[e + 1][m] != levels[1][q]);
            lemma_reaches(
                self.pages,
                next.pages,
                self.pages[levels[e + 1][m] as int].right->0,
                levels[e + 1][m + 1],
            );
        }
        self.lemma_records(n);
        next.lemma_records(n);
        next
    }
}

} // verus!
