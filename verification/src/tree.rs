//! The tree: a store of pages and the algorithms that traverse and change it.

use vstd::arithmetic::power::pow;
use vstd::pervasive::unreached;
use vstd::prelude::*;

use crate::capacity::law_capacity;
use crate::check;
use crate::check::{
    chain_limit, gather, grown, law_passing_tree, law_tree_acceptance, lemma_good_tree_passes,
    level_chains, tree_fault, Violation,
};
use crate::handle::KeyHandle;
use crate::node::{
    child_slot, fence, lemma_child_slot, models, Balance, FastInsert, FastRemove, InsertAttempt,
    InsertStep, Link, Node, RemoveAttempt, RemoveStep, Pursuit, Scan, Seek,
};
use crate::order::{consistent, cut, cut_of, lawful, lemma_cut_consistent, lemma_cut_sides, lemma_order, lt, Probe, Side};
use crate::page::{lemma_merge, lemma_split, within, Body, Page};
use crate::records::{
    holds, inserted, lemma_around, lemma_insert_around, lemma_past_around, lemma_rank, lookup, rank,
    rank_past, removed, sorted,
};
use crate::repair::{
    law_forwarding_row, law_repair_follows_chain, repair_merged_link, repair_split_backlink,
    take_page,
};
use crate::routing::law_one_owner;
use crate::shape::{
    contents, depth_ok, flat, items_in, lemma_child, lemma_child_owns, lemma_contents_sorted,
    lemma_flat_at, lemma_flat_one, lemma_leaf_change, lemma_leaf_owns, lemma_page, linked, offset,
    page_ok, slots_in, tree_ok, Pages,
};
use crate::store::{
    accounted, lemma_added, lemma_entered, lemma_left, lemma_root_entered, lemma_root_left,
    lemma_taken, split_levels,
};
use crate::surgery::{
    child_split, lemma_lend_from_left, lemma_lend_from_right, lemma_merge_children,
    lemma_shrink_root, lemma_siblings, lemma_split_child, lemma_split_root, unused,
};

verus! {

impl Link for usize {
    type Back = usize;

    open spec fn target(back: usize) -> usize {
        back
    }

    fn share(&self) -> (link: Self) {
        *self
    }

    fn weaken(&self) -> (back: usize) {
        *self
    }

    fn share_back(back: &usize) -> (other: usize) {
        *back
    }

    fn same(&self, other: &Self) -> (b: bool) {
        *self == *other
    }
}

/// Owns all pages and implements traversal, insertion, deletion, and checks.
///
/// Pages refer to each other by their place in the store. A page that was
/// merged away is put back to use when the next page is needed.
pub struct Tree<K, V, const N: usize> {
    /// The pages.
    pages: Vec<Node<K, V, usize, N>>,
    /// Pages of the store that the tree does not use.
    free: Vec<usize>,
    /// The published root.
    root: usize,
    /// Exact number of records.
    len: usize,
    /// The pages of each level in key order, from the root to the leaves.
    levels: Ghost<Seq<Seq<usize>>>,
}

/// The place of a record: its leaf, and its index there.
#[derive(Clone, Copy)]
pub struct Spot {
    page: usize,
    index: usize,
    /// The number of records before this one.
    rank: Ghost<int>,
}

impl Spot {
    /// The number of records before this one.
    pub closed spec fn rank(self) -> int {
        self.rank@
    }
}

/// The levels of a tree that consists of its first page.
spec fn root_level() -> Seq<Seq<usize>> {
    seq![seq![0usize]]
}

impl<K, V, const N: usize> Tree<K, V, N> {
    /// The records in key order.
    pub closed spec fn view(&self) -> Seq<(K, V)> {
        contents(models(self.pages@), self.levels@)
    }

    /// The number of levels.
    pub closed spec fn depth(&self) -> nat {
        self.levels@.len()
    }

    /// The value of the record counter.
    pub closed spec fn count(&self) -> usize {
        self.len
    }

    /// Creates a tree containing one empty root leaf.
    pub fn new() -> (tree: Self)
        requires
            3 <= N < usize::MAX,
        ensures
            tree@ == Seq::<(K, V)>::empty(),
            tree.depth() == 1,
            tree.count() == 0,
            tree.fresh(),
    {
        let mut pages = Vec::new();
        pages.push(Node::leaf_root());
        let tree = Self {
            pages,
            free: Vec::new(),
            root: 0,
            len: 0,
            levels: Ghost(root_level()),
        };
        proof {
            lemma_flat_one(items_in(models(tree.pages@)), 0usize);
            assert(tree.levels@.last() == seq![0usize]);
        }
        tree
    }

    /// A tree as it was made.
    pub closed spec fn fresh(&self) -> bool {
        &&& self.pages@.len() == 1
        &&& self.pages@[0].stored()
        &&& self.pages@[0]@ == (Page {
            is_root: true,
            low: None::<K>,
            high: None::<K>,
            previous: None::<usize>,
            right: None::<usize>,
            body: Body::Leaf(Seq::<(K, V)>::empty()),
        })
        &&& self.free@.len() == 0
        &&& self.root == 0
        &&& self.len == 0
        &&& self.levels@ == seq![seq![0usize]]
    }

    /// Returns the number of records.
    pub fn len(&self) -> (n: usize)
        ensures
            n == self.count(),
    {
        self.len
    }
}

impl<K: Ord, V, const N: usize> Tree<K, V, N> {
    /// The invariant but for the record counter and the size of the root.
    spec fn shaped(&self) -> bool {
        let levels = self.levels@;
        &&& 3 <= N < usize::MAX
        &&& tree_ok(models(self.pages@), levels, N as int)
        &&& self.root == levels[0][0]
        &&& forall|k: int| 0 <= k < self.pages@.len() ==> (#[trigger] self.pages@[k]).wf()
        &&& accounted(levels, self.free@, Set::empty(), self.pages@.len())
    }

    /// Whether a root above the leaves parts at least two children.
    spec fn rooted(&self) -> bool {
        self.levels@.len() > 1 ==> models(self.pages@)[self.root as int].keys().len() >= 1
    }

    /// The invariant of a tree: every level is a chain of pages that part the
    /// key space, every page is filled to its minimum, every level consists of
    /// the children of the one above, and the counter counts the records.
    pub closed spec fn wf(&self) -> bool {
        &&& self.shaped()
        &&& self.rooted()
        &&& self.len == self@.len()
    }

    /// A new tree satisfies the invariant.
    pub proof fn lemma_fresh(&self)
        requires
            3 <= N < usize::MAX,
            self.fresh(),
        ensures
            self.wf(),
            self@ == Seq::<(K, V)>::empty(),
    {
        let pages = models(self.pages@);
        let levels = self.levels@;
        lemma_flat_one(items_in(pages), 0usize);
        assert(levels.last() == seq![0usize]);
        assert(levels[0] == seq![0usize]);
        assert forall|d: int| 0 <= d < levels.len() implies #[trigger] depth_ok(
            pages,
            levels,
            N as int,
            d,
        ) by {
            assert(page_ok(pages, levels[0], 0, N as int, true, true));
        }
        assert(levels[0][0] == 0);
    }

    /// The records of a tree are sorted by key.
    pub proof fn lemma_sorted(&self)
        requires
            lawful::<K>(),
            self.wf(),
        ensures
            sorted(self@),
            self.count() == self@.len(),
    {
        lemma_contents_sorted(models(self.pages@), self.levels@, N as int);
    }

    /// Whether a leaf at place `j` of the leaves is at `id`.
    spec fn leaf_at(&self, id: usize, j: int) -> bool {
        0 <= j < self.levels@.last().len() && self.levels@.last()[j] == id
    }

    /// The number of records in the leaves before place `j`.
    spec fn before(&self, j: int) -> int {
        flat(items_in(models(self.pages@)), self.levels@.last().take(j)).len() as int
    }

    /// Whether `spot` is the place of a record of this tree.
    pub closed spec fn locates(&self, spot: Spot) -> bool {
        exists|j: int| #[trigger] self.leaf_at(spot.page, j) && self.before(j) + spot.index
            == spot.rank() && spot.index < models(self.pages@)[spot.page as int].items().len()
    }

    /// What is known of a page of the tree.
    proof fn lemma_at(&self, d: int, j: int)
        requires
            self.shaped(),
            0 <= d < self.levels@.len(),
            0 <= j < self.levels@[d].len(),
        ensures
            ({
                let id = self.levels@[d][j];
                let p = models(self.pages@)[id as int];
                &&& id < self.pages@.len()
                &&& self.pages@[id as int]@ == p
                &&& self.pages@[id as int].wf()
                &&& page_ok(
                    models(self.pages@),
                    self.levels@[d],
                    j,
                    N as int,
                    d == 0,
                    d + 1 == self.levels@.len(),
                )
            }),
    {
        lemma_page(models(self.pages@), self.levels@, N as int, d, j);
    }

    /// Descends to the leaf that owns the probe.
    fn leaf_read_for<P: Probe<K> + ?Sized>(&self, probe: &P) -> (result: (usize, Ghost<int>))
        requires
            lawful::<K>(),
            P::probes(),
            self.shaped(),
        ensures
            self.leaf_at(result.0, result.1@),
            result.0 < self.pages@.len(),
            self.pages@[result.0 as int].wf(),
            self.pages@[result.0 as int]@.body is Leaf,
            self.pages@[result.0 as int]@.owns(cut(probe)),
    {
        let ghost c = cut(probe);
        let ghost levels = self.levels@;
        let ghost pages = models(self.pages@);
        let mut node = self.root;
        let ghost mut d: int = 0;
        let ghost mut j: int = 0;
        proof {
            self.lemma_at(0, 0);
        }
        loop
            invariant
                lawful::<K>(),
                P::probes(),
                self.shaped(),
                levels == self.levels@,
                pages == models(self.pages@),
                c == cut(probe),
                0 <= d < levels.len(),
                0 <= j < levels[d].len(),
                node == levels[d][j],
                pages[node as int].owns(c),
            decreases levels.len() - d,
        {
            proof {
                self.lemma_at(d, j);
            }
            match self.pages[node].seek(probe) {
                Seek::Arrived => {
                    return (node, Ghost(j));
                },
                Seek::Visit(next) => {
                    proof {
                        let p = pages[node as int];
                        let i = child_slot(p.keys(), c);
                        probe.lemma_probe_consistent();
                        lemma_child(pages, levels, N as int, d, j, i);
                        lemma_child_slot(p.keys(), c);
                        lemma_child_owns(p, i, c);
                        j = offset(pages, levels, d, j) + i;
                        d = d + 1;
                    }
                    node = next;
                },
                Seek::Restart => unreached(),
            }
        }
    }

    /// What the leaf at place `j` says of a position that it owns.
    proof fn lemma_leaf(&self, j: int, c: spec_fn(K) -> Side)
        requires
            lawful::<K>(),
            self.shaped(),
            0 <= j < self.levels@.last().len(),
            consistent(c),
            models(self.pages@)[self.levels@.last()[j] as int].owns(c),
        ensures
            ({
                let s = models(self.pages@)[self.levels@.last()[j] as int].items();
                &&& sorted(s)
                &&& 0 <= rank(s, c) <= s.len()
                &&& 0 <= self.before(j)
                &&& self.before(j) + s.len() <= self@.len()
                &&& forall|i: int|
                    0 <= i < s.len() ==> #[trigger] s[i] == self@[self.before(j) + i]
                &&& rank(self@, c) == self.before(j) + rank(s, c)
                &&& holds(self@, c) == holds(s, c)
                &&& lookup(self@, c) == lookup(s, c)
                &&& rank_past(s, c) == rank(s, c) + (if holds(s, c) {
                    1int
                } else {
                    0
                })
                &&& rank_past(self@, c) == self.before(j) + rank_past(s, c)
            }),
    {
        let pages = models(self.pages@);
        let ids = self.levels@.last();
        let s = pages[ids[j] as int].items();
        let a = flat(items_in(pages), ids.take(j));
        let b = flat(items_in(pages), ids.skip(j + 1));
        self.lemma_at(self.levels@.len() - 1, j);
        lemma_leaf_owns(pages, self.levels@, N as int, j, c);
        lemma_rank(s, c);
        lemma_around(a, s, b, c);
        lemma_past_around(a, s, b, c);
        assert forall|i: int| 0 <= i < s.len() implies #[trigger] s[i] == self@[self.before(j)
            + i] by {
            assert((a + s + b)[a.len() + i] == s[i]);
        }
    }

    /// Finds the place of a key.
    pub fn get<P: Probe<K> + ?Sized>(&self, probe: &P) -> (spot: Option<Spot>)
        requires
            lawful::<K>(),
            P::probes(),
            self.wf(),
        ensures
            match spot {
                Some(spot) => {
                    &&& holds(self@, cut(probe))
                    &&& self.locates(spot)
                    &&& spot.rank() == rank(self@, cut(probe))
                },
                None => !holds(self@, cut(probe)),
            },
    {
        let (page, j) = self.leaf_read_for(probe);
        proof {
            probe.lemma_probe_consistent();
            self.lemma_leaf(j@, cut(probe));
        }
        match self.pages[page].search(probe) {
            Ok(index) => Some(self.spot(page, index, j)),
            Err(_) => None,
        }
    }

    /// Returns the record at a place.
    pub fn record(&self, spot: Spot) -> (record: (&K, &V))
        requires
            self.wf(),
            self.locates(spot),
        ensures
            0 <= spot.rank() < self@.len(),
            *record.0 == self@[spot.rank()].0,
            *record.1 == self@[spot.rank()].1,
    {
        proof {
            self.lemma_located(spot);
        }
        self.pages[spot.page].record_at(spot.index)
    }

    /// Shares the key at a place.
    pub fn key_at(&self, spot: Spot) -> (key: KeyHandle<K>)
        requires
            self.wf(),
            self.locates(spot),
        ensures
            0 <= spot.rank() < self@.len(),
            key@ == self@[spot.rank()].0,
    {
        proof {
            self.lemma_located(spot);
        }
        self.pages[spot.page].key_at(spot.index)
    }

    /// Names a place in the leaf at place `j`.
    fn spot(&self, page: usize, index: usize, Ghost(j): Ghost<int>) -> (spot: Spot)
        requires
            self.leaf_at(page, j),
            index < models(self.pages@)[page as int].items().len(),
        ensures
            self.locates(spot),
            spot.page == page,
            spot.index == index,
            spot.rank() == self.before(j) + index,
    {
        let spot = Spot { page, index, rank: Ghost(self.before(j) + index) };
        assert(self.leaf_at(spot.page, j));
        spot
    }

    /// What is known of a place.
    proof fn lemma_located(&self, spot: Spot) -> (j: int)
        requires
            self.shaped(),
            self.locates(spot),
        ensures
            self.leaf_at(spot.page, j),
            self.before(j) + spot.index == spot.rank(),
            spot.page < self.pages@.len(),
            self.pages@[spot.page as int].wf(),
            spot.index < self.pages@[spot.page as int]@.items().len(),
            0 <= spot.rank() < self@.len(),
            self.pages@[spot.page as int]@.items()[spot.index as int] == self@[spot.rank()],
    {
        let j = choose|j: int|
            #[trigger] self.leaf_at(spot.page, j) && self.before(j) + spot.index == spot.rank()
                && spot.index < models(self.pages@)[spot.page as int].items().len();
        let ids = self.levels@.last();
        self.lemma_at(self.levels@.len() - 1, j);
        lemma_flat_at(items_in(models(self.pages@)), ids, j);
        j
    }

    /// Descends through first-child pointers to a leaf.
    fn leftmost_leaf(&self) -> (node: usize)
        requires
            self.shaped(),
        ensures
            self.leaf_at(node, 0),
    {
        let ghost levels = self.levels@;
        let ghost pages = models(self.pages@);
        let mut node = self.root;
        let ghost mut d: int = 0;
        loop
            invariant
                self.shaped(),
                levels == self.levels@,
                pages == models(self.pages@),
                0 <= d < levels.len(),
                levels[d].len() > 0,
                node == levels[d][0],
            decreases levels.len() - d,
        {
            proof {
                self.lemma_at(d, 0);
            }
            match self.pages[node].descend_first() {
                Seek::Visit(next) => {
                    proof {
                        lemma_child(pages, levels, N as int, d, 0, 0);
                        assert(levels[d].take(0) =~= Seq::empty());
                        d = d + 1;
                    }
                    node = next;
                },
                Seek::Arrived => {
                    return node;
                },
                Seek::Restart => unreached(),
            }
        }
    }

    /// Descends through last-child pointers to a leaf.
    fn rightmost_leaf(&self) -> (node: usize)
        requires
            self.shaped(),
        ensures
            self.leaf_at(node, self.levels@.last().len() - 1),
    {
        let ghost levels = self.levels@;
        let ghost pages = models(self.pages@);
        let mut node = self.root;
        let ghost mut d: int = 0;
        loop
            invariant
                self.shaped(),
                levels == self.levels@,
                pages == models(self.pages@),
                0 <= d < levels.len(),
                levels[d].len() > 0,
                node == levels[d].last(),
            decreases levels.len() - d,
        {
            let ghost j = levels[d].len() - 1;
            proof {
                self.lemma_at(d, j);
            }
            match self.pages[node].descend_last() {
                Seek::Visit(next) => {
                    proof {
                        let p = pages[node as int];
                        let i = p.children().len() - 1;
                        lemma_child(pages, levels, N as int, d, j, i);
                        lemma_flat_at(slots_in(pages), levels[d], j);
                        assert(levels[d].skip(j + 1) =~= Seq::empty());
                        assert(linked(pages, levels, d));
                        assert(slots_in(pages)(node) == p.slots());
                        d = d + 1;
                    }
                    node = next;
                },
                Seek::Arrived => {
                    return node;
                },
                Seek::Restart => unreached(),
            }
        }
    }

    /// A tree has no more levels than pages.
    proof fn lemma_depth(&self)
        requires
            self.shaped(),
        ensures
            1 <= self.depth() <= self.pages@.len(),
    {
        let levels = self.levels@;
        let firsts = Seq::new(levels.len(), |d: int| levels[d][0] as int);
        self.lemma_at(0, 0);
        assert forall|d: int| 0 <= d < levels.len() implies (#[trigger] levels[d]).len() > 0 by {
            self.lemma_inhabited(d);
        }
        assert forall|d: int| 0 <= d < firsts.len() implies 0 <= #[trigger] firsts[d]
            < self.pages@.len() by {
            assert(levels[d].len() > 0);
            self.lemma_at(d, 0);
        }
        assert(firsts.no_duplicates()) by {
            assert forall|a: int, b: int|
                0 <= a < firsts.len() && 0 <= b < firsts.len() && a != b implies firsts[a]
                != firsts[b] by {
                assert(levels[a].len() > 0 && levels[b].len() > 0);
                assert(levels[a][0] != levels[b][0]);
            }
        }
        firsts.unique_seq_to_set();
        vstd::set_lib::lemma_int_range(0, self.pages@.len() as int);
        assert(firsts.to_set().subset_of(
            vstd::set_lib::set_int_range(0, self.pages@.len() as int),
        ));
        vstd::set_lib::lemma_len_subset(
            firsts.to_set(),
            vstd::set_lib::set_int_range(0, self.pages@.len() as int),
        );
    }

    /// Every level has a page.
    proof fn lemma_inhabited(&self, d: int)
        requires
            self.shaped(),
            0 <= d < self.levels@.len(),
        ensures
            self.levels@[d].len() > 0,
        decreases d,
    {
        if d > 0 {
            self.lemma_inhabited(d - 1);
            self.lemma_at(d - 1, 0);
            lemma_child(models(self.pages@), self.levels@, N as int, d - 1, 0, 0);
        }
    }

    /// Returns the number of page levels.
    pub fn height(&self) -> (n: usize)
        requires
            self.wf(),
        ensures
            n == self.depth(),
    {
        let ghost levels = self.levels@;
        let ghost pages = models(self.pages@);
        proof {
            self.lemma_depth();
            assert(self.pages.len() <= usize::MAX);
        }
        let mut height: usize = 1;
        let mut node = self.root;
        loop
            invariant
                self.shaped(),
                levels == self.levels@,
                levels.len() <= usize::MAX,
                pages == models(self.pages@),
                1 <= height <= levels.len(),
                levels[height - 1].len() > 0,
                node == levels[height - 1][0],
            decreases levels.len() - height,
        {
            proof {
                self.lemma_at(height - 1, 0);
            }
            match self.pages[node].descend_first() {
                Seek::Visit(next) => {
                    proof {
                        lemma_child(pages, levels, N as int, height - 1, 0, 0);
                        assert(levels[height - 1].take(0) =~= Seq::empty());
                    }
                    node = next;
                    height = height + 1;
                },
                Seek::Arrived => {
                    return height;
                },
                Seek::Restart => unreached(),
            }
        }
    }

    /// Returns the place of the first record in key order.
    pub fn first_entry(&self) -> (spot: Option<Spot>)
        requires
            self.wf(),
        ensures
            match spot {
                Some(spot) => self@.len() > 0 && self.locates(spot) && spot.rank() == 0,
                None => self@.len() == 0,
            },
    {
        let page = self.leftmost_leaf();
        let ghost ids = self.levels@.last();
        proof {
            self.lemma_at(self.levels@.len() - 1, 0);
            lemma_flat_at(items_in(models(self.pages@)), ids, 0);
            assert(ids.take(0) =~= Seq::empty());
        }
        match self.pages[page].scan_first() {
            Scan::Found(index) => Some(self.spot(page, index, Ghost(0))),
            Scan::End => {
                assert(ids.skip(1) =~= Seq::empty());
                None
            },
            Scan::Next(_) | Scan::Restart => unreached(),
        }
    }

    /// Returns the place of the last record in key order.
    pub fn last_entry(&self) -> (spot: Option<Spot>)
        requires
            self.wf(),
        ensures
            match spot {
                Some(spot) => self@.len() > 0 && self.locates(spot) && spot.rank() == self@.len() - 1,
                None => self@.len() == 0,
            },
    {
        let page = self.rightmost_leaf();
        let ghost ids = self.levels@.last();
        let ghost j = ids.len() - 1;
        proof {
            self.lemma_at(self.levels@.len() - 1, j);
            lemma_flat_at(items_in(models(self.pages@)), ids, j);
            assert(ids.skip(j + 1) =~= Seq::empty());
        }
        match self.pages[page].scan_last() {
            Scan::Found(index) => Some(self.spot(page, index, Ghost(j))),
            Scan::End => {
                assert(ids.take(j) =~= Seq::empty());
                None
            },
            Scan::Next(_) | Scan::Restart => unreached(),
        }
    }

    /// Returns the place of the least record satisfying an inclusive or
    /// exclusive bound.
    #[verifier::rlimit(40)]
    pub fn entry_at_or_after<P: Probe<K> + ?Sized>(
        &self,
        probe: &P,
        inclusive: bool,
    ) -> (spot: Option<Spot>)
        requires
            lawful::<K>(),
            P::probes(),
            self.wf(),
        ensures
            ({
                let r = if inclusive {
                    rank(self@, cut(probe))
                } else {
                    rank_past(self@, cut(probe))
                };
                match spot {
                    Some(spot) => 0 <= r < self@.len() && self.locates(spot) && spot.rank() == r,
                    None => r == self@.len(),
                }
            }),
    {
        let (first, Ghost(start)) = self.leaf_read_for(probe);
        let ghost ids = self.levels@.last();
        let ghost f = items_in(models(self.pages@));
        let ghost c = cut(probe);
        let ghost r = if inclusive {
            rank(self@, c)
        } else {
            rank_past(self@, c)
        };
        let mut page = first;
        let mut passed: Option<KeyHandle<K>> = None;
        let ghost mut j = start;
        proof {
            probe.lemma_probe_consistent();
            self.lemma_leaf(start, c);
        }
        loop
            invariant
                lawful::<K>(),
                P::probes(),
                self.wf(),
                ids == self.levels@.last(),
                f == items_in(models(self.pages@)),
                c == cut(probe),
                consistent(c),
                r == (if inclusive {
                    rank(self@, c)
                } else {
                    rank_past(self@, c)
                }),
                0 <= start < ids.len(),
                models(self.pages@)[ids[start] as int].owns(c),
                start <= j < ids.len(),
                page == ids[j],
                j == start ==> passed is None,
                j > start ==> j == start + 1 && r == self.before(j) && fence(passed) == models(
                    self.pages@,
                )[page as int].low,
            decreases ids.len() - j,
        {
            let ghost s = f(page);
            proof {
                self.lemma_at(self.levels@.len() - 1, j);
                lemma_flat_at(f, ids, j);
                self.lemma_leaf(start, c);
                if j > start {
                    let p = models(self.pages@)[page as int];
                    lemma_leaf_owns(models(self.pages@), self.levels@, N as int, start, c);
                    lemma_flat_at(f, ids.skip(start + 1), 0);
                    assert(ids.skip(start + 1)[0] == page);
                    assert(ids.skip(start + 1).take(0) =~= Seq::empty());
                    assert forall|i: int| 0 <= i < s.len() implies c((#[trigger] s[i]).0)
                        == Side::Before by {
                        assert(flat(f, ids.skip(start + 1))[i] == s[i]);
                    }
                    lemma_rank(s, c);
                    lemma_past_around(Seq::empty(), s, Seq::empty(), c);
                    assert(c(s[0].0) == Side::Before);
                    // The page owns the fence that parts it from the one before.
                    lemma_order::<K>();
                    lemma_cut_sides(p.low->0);
                    assert(within(s[0].0, p.low, p.high));
                    assert(p.route(cut_of(p.low->0)) is Here);
                }
            }
            match self.pages[page].scan_from(probe, inclusive, passed) {
                Pursuit::Found(index) => {
                    return Some(self.spot(page, index, Ghost(j)));
                },
                Pursuit::Next(next, left) => {
                    proof {
                        self.lemma_at(self.levels@.len() - 1, j + 1);
                        j = j + 1;
                    }
                    page = next;
                    passed = left;
                },
                Pursuit::End => {
                    assert(ids.skip(j + 1) =~= Seq::empty());
                    return None;
                },
                Pursuit::Restart => {
                    return unreached();
                },
            }
        }
    }

    /// Whether two trees differ at most in the page at `id`.
    spec fn differs_at(&self, after: &Self, id: usize) -> bool {
        &&& after.levels@ == self.levels@
        &&& after.root == self.root
        &&& after.free@ == self.free@
        &&& after.pages@.len() == self.pages@.len()
        &&& after.pages@[id as int].wf()
        &&& forall|k: int|
            0 <= k < self.pages@.len() && k != id ==> after.pages@[k] == self.pages@[k]
    }

    /// Changing the records of the leaf at place `j`, which stays good.
    proof fn lemma_leaf_set(&self, after: &Self, j: int, items: Seq<(K, V)>)
        requires
            self.shaped(),
            0 <= j < self.levels@.last().len(),
            self.differs_at(after, self.levels@.last()[j]),
            ({
                let id = self.levels@.last()[j] as int;
                let p = self.pages@[id]@;
                &&& after.pages@[id]@ == p.with_items(items)
                &&& p.with_items(items).local(N as int)
                &&& p.is_root || items.len() >= N / 2
            }),
        ensures
            after.shaped(),
            after.rooted() == self.rooted(),
            after@ == flat(items_in(models(self.pages@)), self.levels@.last().take(j)) + items
                + flat(items_in(models(self.pages@)), self.levels@.last().skip(j + 1)),
    {
        let pages = models(self.pages@);
        let next = models(after.pages@);
        let levels = self.levels@;
        let id = levels.last()[j];
        self.lemma_at(levels.len() - 1, j);
        assert forall|d: int, k: int|
            #![trigger levels[d][k]]
            0 <= d < levels.len() && 0 <= k < levels[d].len() && levels[d][k]
                != id implies next[levels[d][k] as int] == pages[levels[d][k] as int] by {
            self.lemma_at(d, k);
        }
        lemma_leaf_change(pages, next, levels, N as int, j, items);
        self.lemma_at(0, 0);
        if levels.len() > 1 {
            assert(levels[0][0] != levels[levels.len() - 1][j]);
        }
    }

    /// Inserting a record into the leaf that owns its key.
    proof fn lemma_leaf_inserted(&self, after: &Self, j: int, key: K, value: V)
        requires
            lawful::<K>(),
            self.shaped(),
            0 <= j < self.levels@.last().len(),
            ({
                let id = self.levels@.last()[j];
                let p = self.pages@[id as int]@;
                &&& p.owns(cut_of(key))
                &&& self.differs_at(after, id)
                &&& after.pages@[id as int]@ == p.with_items(inserted(p.items(), key, value))
            }),
        ensures
            after.shaped(),
            after.rooted() == self.rooted(),
            after@ == inserted(self@, key, value),
            ({
                let s = self.pages@[self.levels@.last()[j] as int]@.items();
                &&& holds(self@, cut_of(key)) == holds(s, cut_of(key))
                &&& lookup(self@, cut_of(key)) == lookup(s, cut_of(key))
            }),
            after@.len() == self@.len() + (if holds(self@, cut_of(key)) {
                0int
            } else {
                1
            }),
    {
        let c = cut_of(key);
        let pages = models(self.pages@);
        let levels = self.levels@;
        let s = self.pages@[levels.last()[j] as int]@.items();
        self.lemma_at(levels.len() - 1, j);
        lemma_cut_consistent(key);
        self.lemma_leaf(j, c);
        lemma_leaf_owns(pages, levels, N as int, j, c);
        lemma_insert_around(
            flat(items_in(pages), levels.last().take(j)),
            s,
            flat(items_in(pages), levels.last().skip(j + 1)),
            key,
            value,
        );
        self.lemma_leaf_set(after, j, inserted(s, key, value));
        lemma_contents_sorted(pages, levels, N as int);
        lemma_rank(self@, c);
    }

    /// Removing a record from the leaf that owns its key.
    proof fn lemma_leaf_removed(&self, after: &Self, j: int, c: spec_fn(K) -> Side)
        requires
            lawful::<K>(),
            consistent(c),
            self.shaped(),
            0 <= j < self.levels@.last().len(),
            ({
                let id = self.levels@.last()[j];
                let p = self.pages@[id as int]@;
                &&& p.owns(c)
                &&& self.differs_at(after, id)
                &&& after.pages@[id as int]@ == p.with_items(removed(p.items(), c))
                &&& holds(p.items(), c) && !p.is_root ==> p.items().len() > N / 2
            }),
        ensures
            after.shaped(),
            after.rooted() == self.rooted(),
            after@ == removed(self@, c),
            ({
                let s = self.pages@[self.levels@.last()[j] as int]@.items();
                &&& holds(self@, c) == holds(s, c)
                &&& lookup(self@, c) == lookup(s, c)
            }),
            self@.len() == after@.len() + (if holds(self@, c) {
                1int
            } else {
                0
            }),
    {
        let pages = models(self.pages@);
        let levels = self.levels@;
        let s = self.pages@[levels.last()[j] as int]@.items();
        self.lemma_at(levels.len() - 1, j);
        self.lemma_leaf(j, c);
        lemma_leaf_owns(pages, levels, N as int, j, c);
        lemma_around(
            flat(items_in(pages), levels.last().take(j)),
            s,
            flat(items_in(pages), levels.last().skip(j + 1)),
            c,
        );
        self.lemma_leaf_set(after, j, removed(s, c));
        lemma_contents_sorted(pages, levels, N as int);
        lemma_rank(self@, c);
    }

    /// Changing the value at a place.
    proof fn lemma_value_set(&self, after: &Self, spot: Spot, value: V)
        requires
            self.wf(),
            self.locates(spot),
            self.differs_at(after, spot.page),
            after.len == self.len,
            ({
                let p = self.pages@[spot.page as int]@;
                let i = spot.index as int;
                after.pages@[spot.page as int]@ == p.with_items(
                    p.items().update(i, (p.items()[i].0, value)),
                )
            }),
            after.pages@[spot.page as int].wf(),
        ensures
            after.wf(),
            after@ == self@.update(spot.rank(), (self@[spot.rank()].0, value)),
    {
        let j = self.lemma_located(spot);
        let pages = models(self.pages@);
        let ids = self.levels@.last();
        let p = pages[spot.page as int];
        let i = spot.index as int;
        let items = p.items().update(i, (p.items()[i].0, value));
        self.lemma_at(self.levels@.len() - 1, j);
        self.lemma_leaf_set(after, j, items);
        lemma_flat_at(items_in(pages), ids, j);
        assert(after@ =~= self@.update(spot.rank(), (self@[spot.rank()].0, value)));
    }

    /// Returns the record at a place, with its value open to change.
    pub fn record_mut(&mut self, spot: Spot) -> (record: (&K, &mut V))
        requires
            old(self).wf(),
            old(self).locates(spot),
        ensures
            0 <= spot.rank() < old(self)@.len(),
            *record.0 == old(self)@[spot.rank()].0,
            *record.1 == old(self)@[spot.rank()].1,
            final(self)@ == old(self)@.update(
                spot.rank(),
                (old(self)@[spot.rank()].0, *final(record.1)),
            ),
            final(self).wf(),
            final(self).depth() == old(self).depth(),
    {
        proof {
            let _ = self.lemma_located(spot);
            assert forall|after: Self, value: V|
                #![trigger after.pages@, self@.update(spot.rank(), (self@[spot.rank()].0, value))]
                ({
                    let p = self.pages@[spot.page as int]@;
                    let i = spot.index as int;
                    &&& self.differs_at(&after, spot.page)
                    &&& after.len == self.len
                    &&& after.pages@[spot.page as int].wf()
                    &&& after.pages@[spot.page as int]@ == p.with_items(
                        p.items().update(i, (p.items()[i].0, value)),
                    )
                }) implies after.wf() && after@ == self@.update(
                spot.rank(),
                (self@[spot.rank()].0, value),
            ) by {
                self.lemma_value_set(&after, spot, value);
            }
        }
        self.pages[spot.page].record_at_mut(spot.index)
    }

    /// The place among the leaves of the one whose interval contains the
    /// position `c`.
    spec fn owner(&self, c: spec_fn(K) -> Side) -> int {
        choose|j: int|
            0 <= j < self.levels@.last().len() && models(
                self.pages@,
            )[#[trigger] self.levels@.last()[j] as int].owns(c)
    }

    /// The leaf whose interval contains the position `c`.
    spec fn destination(&self, c: spec_fn(K) -> Side) -> Page<K, V, usize> {
        models(self.pages@)[self.levels@.last()[self.owner(c)] as int]
    }

    /// Whether the leaf that owns the position `c` has no room for a record.
    pub closed spec fn crowded(&self, c: spec_fn(K) -> Side) -> bool {
        self.destination(c).items().len() == N
    }

    /// Whether the leaf that owns the position `c` cannot spare a record.
    pub closed spec fn sparse(&self, c: spec_fn(K) -> Side) -> bool {
        !self.destination(c).is_root && self.destination(c).items().len() <= N / 2
    }

    /// Whether the root has no room for a record or a separator.
    pub closed spec fn full(&self) -> bool {
        models(self.pages@)[self.root as int].occupancy() == N
    }

    /// Whether the root parts two children only, neither of which can spare a
    /// record or a child.
    pub closed spec fn slim(&self) -> bool {
        let pages = models(self.pages@);
        let root = pages[self.root as int];
        let left = pages[root.children()[0] as int];
        let right = pages[root.children()[1] as int];
        &&& self.levels@.len() > 1
        &&& root.keys().len() == 1
        &&& left.occupancy() <= left.minimum(N as int)
        &&& right.occupancy() <= right.minimum(N as int)
    }

    /// One leaf owns a position.
    proof fn lemma_owner(&self, j: int, c: spec_fn(K) -> Side)
        requires
            lawful::<K>(),
            self.shaped(),
            0 <= j < self.levels@.last().len(),
            consistent(c),
            models(self.pages@)[self.levels@.last()[j] as int].owns(c),
        ensures
            self.owner(c) == j,
    {
        let pages = models(self.pages@);
        let d = self.levels@.len() - 1;
        let k = law_one_owner(pages, self.levels@, N as int, d, c);
        assert(self.levels@[d][j] == self.levels@.last()[j]);
        assert(pages[self.levels@[d][self.owner(c)] as int].owns(c));
    }

    /// Attempts a replacement or a non-splitting insert in one leaf.
    fn try_insert_without_split(&mut self, key: K, value: V) -> (result: FastInsert<K, V>)
        requires
            lawful::<K>(),
            old(self).wf(),
            old(self)@.len() < usize::MAX,
        ensures
            final(self).wf(),
            if !holds(old(self)@, cut_of(key)) && old(self).crowded(cut_of(key)) {
                &&& result == FastInsert::Reshape(key, value)
                &&& final(self)@ == old(self)@
                &&& models(final(self).pages@) == models(old(self).pages@)
            } else {
                &&& result == FastInsert::<K, V>::Done(
                    lookup(old(self)@, cut_of(key)),
                    !holds(old(self)@, cut_of(key)),
                )
                &&& final(self)@ == inserted(old(self)@, key, value)
            },
            old(self).differs_at(
                final(self),
                old(self).levels@.last()[old(self).owner(cut_of(key))],
            ),
            final(self).depth() == old(self).depth(),
    {
        let (page, Ghost(j)) = self.leaf_read_for(&key);
        proof {
            assert(cut(&key) =~= cut_of(key));
            key.lemma_probe_consistent();
            self.lemma_leaf(j, cut_of(key));
            self.lemma_owner(j, cut_of(key));
        }
        let result = self.pages[page].fast_insert(key, value);
        match &result {
            FastInsert::Done(_, added) => {
                proof {
                    old(self).lemma_leaf_inserted(self, j, key, value);
                }
                if *added {
                    self.len = self.len + 1;
                }
            },
            FastInsert::Reshape(_, _) => {
                proof {
                    old(self).lemma_same_models(self, page);
                }
            },
        }
        result
    }

    /// Provides a page that the tree does not use: one that is free, where there
    /// is one, and otherwise a new one. The page is held out along with `held`.
    fn new_page(&mut self, Ghost(held): Ghost<Set<usize>>) -> (id: usize)
        requires
            accounted(old(self).levels@, old(self).free@, held, old(self).pages@.len()),
            forall|k: int|
                0 <= k < old(self).pages@.len() ==> (#[trigger] old(self).pages@[k]).wf(),
        ensures
            id < final(self).pages@.len(),
            unused(old(self).levels@, id),
            !held.contains(id),
            accounted(
                final(self).levels@,
                final(self).free@,
                held.insert(id),
                final(self).pages@.len(),
            ),
            if old(self).free@.len() > 0 {
                &&& id == old(self).free@.last()
                &&& final(self).free@ == old(self).free@.drop_last()
                &&& final(self).pages@ == old(self).pages@
            } else {
                &&& id == old(self).pages@.len()
                &&& final(self).free@ == old(self).free@
                &&& final(self).pages@.len() == old(self).pages@.len() + 1
            },
            old(self).pages@.is_prefix_of(final(self).pages@),
            forall|k: int|
                0 <= k < final(self).pages@.len() ==> (#[trigger] final(self).pages@[k]).wf(),
            final(self).root == old(self).root,
            final(self).len == old(self).len,
            final(self).levels@ == old(self).levels@,
    {
        match self.free.pop() {
            Some(id) => {
                proof {
                    lemma_taken(self.levels@, old(self).free@, held, self.pages@.len());
                }
                id
            },
            None => {
                let id = self.pages.len();
                self.pages.push(Node::forwarding(id));
                proof {
                    lemma_added(self.levels@, self.free@, held, id);
                }
                id
            },
        }
    }

    /// Splits the full child at `index` of the page at `node`, which has room
    /// for one more separator. Returns the new page, and whether it takes over
    /// the key.
    #[verifier::rlimit(40)]
    fn split_full_child(
        &mut self,
        node: usize,
        index: usize,
        child_ref: usize,
        key: &K,
        Ghost(d): Ghost<int>,
        Ghost(j): Ghost<int>,
    ) -> (split: (usize, bool))
        requires
            lawful::<K>(),
            old(self).shaped(),
            1 <= d < old(self).levels@.len(),
            0 <= j < old(self).levels@[d - 1].len(),
            old(self).levels@[d - 1][j] == node,
            ({
                let pages = models(old(self).pages@);
                &&& index < pages[node as int].children().len()
                &&& child_ref == pages[node as int].children()[index as int]
                &&& pages[node as int].occupancy() < N
                &&& pages[child_ref as int].occupancy() == N
            }),
        ensures
            final(self).shaped(),
            old(self).rooted() ==> final(self).rooted(),
            final(self)@ == old(self)@,
            final(self).len == old(self).len,
            child_split(
                models(old(self).pages@),
                models(final(self).pages@),
                old(self).levels@,
                N as int,
                d,
                j,
                index as int,
                split.0,
            ),
            ({
                let pages = models(old(self).pages@);
                let levels = old(self).levels@;
                let q = offset(pages, levels, d - 1, j) + index;
                &&& final(self).levels@ == levels.update(d, levels[d].insert(q + 1, split.0))
                &&& split.1 == (cut(key)(pages[child_ref as int].split_key(N as int))
                    != Side::Before)
            }),
    {
        let ghost pages = models(self.pages@);
        let ghost levels = self.levels@;
        let ghost i = index as int;
        let ghost q = offset(pages, levels, d - 1, j) + i;
        let ghost c = pages[child_ref as int];
        proof {
            self.lemma_at(d - 1, j);
            lemma_child(pages, levels, N as int, d - 1, j, i);
            self.lemma_at(d, q);
            if c.right is Some {
                self.lemma_at(d, q + 1);
            }
            assert(levels[d - 1][j] != levels[d][q]);
        }
        let right_ref = self.new_page(Ghost(Set::empty()));
        proof {
            assert(levels[d - 1][j] != right_ref && levels[d][q] != right_ref);
        }
        let mut parent = take_page(&mut self.pages, node);
        let mut child = take_page(&mut self.pages, child_ref);
        let split = parent.split_child(index, &mut child, &child_ref, &right_ref);
        let goes_right = split.takes(key);
        self.pages[node] = parent;
        self.pages[child_ref] = child;
        self.pages[right_ref] = split.right;
        proof {
            lemma_split(c, N as int, right_ref, child_ref);
            if c.right is Some {
                assert(levels[d][q + 1] != levels[d][q]);
                assert(levels[d][q + 1] != levels[d - 1][j]);
                assert(levels[d][q + 1] != right_ref);
            }
        }
        let ghost mid = models(self.pages@);
        proof {
            if let Some(s) = split.old_successor {
                assert(mid[s as int] == pages[s as int]);
                law_forwarding_row(mid, right_ref, seq![s]);
            }
        }
        repair_split_backlink(&mut self.pages, right_ref, split.old_successor);
        proof {
            let after = models(self.pages@);
            let next = levels.update(d, levels[d].insert(q + 1, right_ref));
            assert(after.len() == mid.len());
            assert forall|e: int, k: int|
                #![trigger levels[e][k]]
                0 <= e < levels.len() && 0 <= k < levels[e].len() && levels[e][k] != node
                    && levels[e][k] != child_ref && c.right != Some(
                    levels[e][k],
                ) implies after[levels[e][k] as int] == pages[levels[e][k] as int] by {
                old(self).lemma_at(e, k);
            }
            lemma_split_child(pages, after, levels, N as int, d, j, i, right_ref);
            assert(Set::<usize>::empty().insert(right_ref) =~= set![right_ref]);
            lemma_entered(levels, self.free@, self.pages@.len(), d, q + 1, right_ref);
            old(self).lemma_at(0, 0);
            assert(next[0][0] == levels[0][0]);
            if d > 1 {
                assert(levels[0][0] != levels[d - 1][j]);
            }
            assert(levels[0][0] != levels[d][q]);
        }
        self.levels = Ghost(levels.update(d, levels[d].insert(q + 1, right_ref)));
        (right_ref, goes_right)
    }

    /// Replacing a page by one with the same model.
    proof fn lemma_same_models(&self, after: &Self, id: usize)
        requires
            self.shaped(),
            id < self.pages@.len(),
            self.differs_at(after, id),
            after.pages@[id as int]@ == self.pages@[id as int]@,
        ensures
            models(after.pages@) == models(self.pages@),
            after.shaped(),
            after.rooted() == self.rooted(),
            after@ == self@,
    {
        assert(models(after.pages@) =~= models(self.pages@));
    }

    /// Runs one top-down insertion pass, which splits full pages on its way.
    /// A full root has no parent that could split it.
    #[verifier::rlimit(40)]
    fn insert_attempt(&mut self, key: K, value: V) -> (attempt: InsertAttempt<K, V>)
        requires
            lawful::<K>(),
            old(self).wf(),
            old(self)@.len() < usize::MAX,
        ensures
            final(self).wf(),
            final(self).depth() == old(self).depth(),
            if old(self).full() {
                attempt == InsertAttempt::Retry(key, value) && final(self)@ == old(self)@
            } else {
                &&& attempt == InsertAttempt::<K, V>::Done(lookup(old(self)@, cut_of(key)))
                &&& final(self)@ == inserted(old(self)@, key, value)
            },
    {
        let ghost c = cut_of(key);
        let mut moving_key = key;
        let mut moving_value = value;
        let mut node = self.root;
        let ghost mut d: int = 0;
        let ghost mut j: int = 0;
        proof {
            assert(cut(&key) =~= c);
            key.lemma_probe_consistent();
            self.lemma_at(0, 0);
        }
        loop
            invariant
                lawful::<K>(),
                moving_key == key,
                moving_value == value,
                c == cut_of(key),
                c == cut(&key),
                consistent(c),
                self.shaped(),
                self.rooted(),
                self@ == old(self)@,
                self.len == old(self).len,
                old(self).len == old(self)@.len(),
                old(self)@.len() < usize::MAX,
                self.levels@.len() == old(self).levels@.len(),
                0 <= d < self.levels@.len(),
                0 <= j < self.levels@[d].len(),
                node == self.levels@[d][j],
                models(self.pages@)[node as int].owns(c),
                models(self.pages@)[node as int].occupancy() == N ==> old(self).full(),
                d == 0 ==> (old(self).full() <==> models(self.pages@)[node as int].occupancy()
                    == N),
                d > 0 ==> !old(self).full(),
            decreases self.levels@.len() - d,
        {
            let ghost before = *self;
            let ghost pages = models(self.pages@);
            let ghost levels = self.levels@;
            let ghost p = pages[node as int];
            proof {
                self.lemma_at(d, j);
            }
            match self.pages[node].insert_step(moving_key, moving_value) {
                InsertStep::Done(replaced, added) => {
                    proof {
                        before.lemma_leaf_inserted(self, j, key, value);
                    }
                    if added {
                        self.len = self.len + 1;
                    }
                    return InsertAttempt::Done(replaced);
                },
                InsertStep::Child(index, child_ref, k, v) => {
                    moving_key = k;
                    moving_value = v;
                    proof {
                        before.lemma_same_models(self, node);
                        lemma_child(pages, levels, N as int, d, j, index as int);
                        lemma_child_slot(p.keys(), c);
                        lemma_child_owns(p, index as int, c);
                        self.lemma_at(d + 1, offset(pages, levels, d, j) + index);
                    }
                    if self.pages[child_ref].occupancy() == N {
                        let ghost child = pages[child_ref as int];
                        proof {
                            lemma_split(child, N as int, 0usize, 0usize);
                        }
                        let (right, goes_right) = self.split_full_child(
                            node,
                            index,
                            child_ref,
                            &moving_key,
                            Ghost(d + 1),
                            Ghost(j),
                        );
                        proof {
                            let after = models(self.pages@);
                            let next = self.levels@;
                            let i = if goes_right {
                                index + 1
                            } else {
                                index as int
                            };
                            assert(next[d] == levels[d]);
                            lemma_split(child, N as int, right, child_ref);
                            lemma_child(after, next, N as int, d, j, i);
                            j = offset(after, next, d, j) + i;
                            d = d + 1;
                        }
                        node = if goes_right {
                            right
                        } else {
                            child_ref
                        };
                    } else {
                        proof {
                            j = offset(pages, levels, d, j) + index;
                            d = d + 1;
                        }
                        node = child_ref;
                    }
                },
                InsertStep::Retry(k, v) => {
                    proof {
                        before.lemma_same_models(self, node);
                    }
                    return InsertAttempt::Retry(k, v);
                },
                InsertStep::Right(_, _, _) => {
                    return unreached();
                },
            }
        }
    }

    /// Splits a full root below a new one.
    #[verifier::rlimit(40)]
    #[verifier::spinoff_prover]
    fn split_root_if_full(&mut self)
        requires
            lawful::<K>(),
            old(self).wf(),
        ensures
            final(self).wf(),
            final(self)@ == old(self)@,
            !final(self).full(),
            if old(self).full() {
                final(self).depth() == old(self).depth() + 1
            } else {
                *final(self) == *old(self)
            },
    {
        let ghost pages = models(self.pages@);
        let ghost levels = self.levels@;
        let root_ref = self.root;
        let ghost p = pages[root_ref as int];
        proof {
            self.lemma_at(0, 0);
        }
        if self.pages[root_ref].occupancy() < N {
            return;
        }
        let right_ref = self.new_page(Ghost(Set::empty()));
        let top = self.new_page(Ghost(Set::empty().insert(right_ref)));
        proof {
            assert(right_ref != top) by {
                assert(Set::empty().insert(right_ref).contains(right_ref));
            }
            assert(levels[0][0] != right_ref && levels[0][0] != top);
            lemma_split(p, N as int, right_ref, root_ref);
        }
        let mut root = take_page(&mut self.pages, root_ref);
        let split = root.split_full(&root_ref, &right_ref);
        root.demote();
        self.pages[root_ref] = root;
        self.pages[right_ref] = split.right;
        self.pages[top] = Node::root_from_split(root_ref, split.separator, right_ref);
        self.root = top;
        repair_split_backlink(&mut self.pages, right_ref, split.old_successor);
        self.levels = Ghost(split_levels(levels, root_ref, right_ref, top));
        proof {
            let after = models(self.pages@);
            let next = self.levels@;
            assert forall|e: int, k: int|
                #![trigger levels[e][k]]
                0 <= e < levels.len() && 0 <= k < levels[e].len() && levels[e][k]
                    != root_ref implies after[levels[e][k] as int] == pages[levels[e][k] as int] by {
                old(self).lemma_at(e, k);
            }
            lemma_split_root(pages, after, levels, N as int, right_ref, top);
            assert(Set::<usize>::empty().insert(right_ref).insert(top) =~= set![right_ref, top]);
            lemma_root_entered(levels, self.free@, self.pages@.len(), right_ref, top);
            assert(after[top as int].keys() == seq![p.split_key(N as int)]);
        }
    }

    /// Inserts or replaces one record.
    pub fn insert(&mut self, key: K, value: V) -> (replaced: Option<V>)
        requires
            lawful::<K>(),
            old(self).wf(),
            old(self)@.len() < usize::MAX,
        ensures
            final(self).wf(),
            final(self)@ == inserted(old(self)@, key, value),
            replaced == lookup(old(self)@, cut_of(key)),
            final(self).depth() == old(self).depth() + (if !holds(old(self)@, cut_of(key)) && old(
                self,
            ).crowded(cut_of(key)) && old(self).full() {
                1int
            } else {
                0
            }),
    {
        match self.try_insert_without_split(key, value) {
            FastInsert::Done(replaced, _) => replaced,
            FastInsert::Reshape(key, value) => {
                self.split_root_if_full();
                match self.insert_attempt(key, value) {
                    InsertAttempt::Done(replaced) => replaced,
                    InsertAttempt::Retry(_, _) => unreached(),
                }
            },
        }
    }

    /// Attempts a removal that leaves the destination at or above its minimum.
    fn try_remove_without_rebalance<P: Probe<K> + ?Sized>(&mut self, probe: &P) -> (result:
        FastRemove<V>)
        requires
            lawful::<K>(),
            P::probes(),
            old(self).wf(),
        ensures
            final(self).wf(),
            if holds(old(self)@, cut(probe)) && old(self).sparse(cut(probe)) {
                &&& result == FastRemove::<V>::Reshape
                &&& final(self)@ == old(self)@
                &&& models(final(self).pages@) == models(old(self).pages@)
            } else {
                &&& result == FastRemove::<V>::Done(lookup(old(self)@, cut(probe)))
                &&& final(self)@ == removed(old(self)@, cut(probe))
            },
            old(self).differs_at(
                final(self),
                old(self).levels@.last()[old(self).owner(cut(probe))],
            ),
            final(self).depth() == old(self).depth(),
    {
        let (page, Ghost(j)) = self.leaf_read_for(probe);
        let ghost c = cut(probe);
        proof {
            probe.lemma_probe_consistent();
            self.lemma_leaf(j, c);
            self.lemma_owner(j, c);
        }
        let result = self.pages[page].fast_remove(probe);
        match &result {
            FastRemove::Done(value) => {
                proof {
                    assert(self.pages@[page as int]@ == old(self).pages@[page as int]@.with_items(
                        removed(old(self).pages@[page as int]@.items(), c),
                    ));
                    old(self).lemma_leaf_removed(self, j, c);
                }
                if value.is_some() {
                    self.decrement_len();
                }
            },
            FastRemove::Reshape => {
                proof {
                    old(self).lemma_same_models(self, page);
                }
            },
        }
        result
    }

    /// Decrements the record counter.
    fn decrement_len(&mut self)
        requires
            old(self).len > 0,
        ensures
            *final(self) == (Self { len: (old(self).len - 1) as usize, ..*old(self) }),
    {
        self.len = self.len - 1;
    }

    /// Whether `after` comes from this tree by merging two neighbouring
    /// children of the page at place `j` of the level above `d`.
    spec fn merges(&self, after: &Self, d: int, j: int, i: int) -> bool {
        let pages = models(self.pages@);
        let next = models(after.pages@);
        let levels = self.levels@;
        let above = levels[d - 1][j];
        let p = pages[above as int];
        let left = p.children()[i];
        let right = p.children()[i + 1];
        let l = pages[left as int];
        let r = pages[right as int];
        let q = offset(pages, levels, d - 1, j) + i;
        &&& l.occupancy() <= l.minimum(N as int) && r.occupancy() <= r.minimum(N as int)
        &&& d == 1 || p.occupancy() > (N - 1) / 2
        &&& after.pages@.len() == self.pages@.len()
        &&& forall|k: int| 0 <= k < after.pages@.len() ==> (#[trigger] after.pages@[k]).wf()
        &&& next[above as int] == p.without_child(i)
        &&& next[right as int] == r.merged_with(l, p.keys()[i])
        &&& l.previous matches Some(s) ==> next[s as int] == (Page {
            right: Some(right),
            ..pages[s as int]
        })
        &&& forall|k: int|
            0 <= k < self.pages@.len() && k != above && k != left && k != right && (
            l.previous matches Some(s) ==> s != k) ==> #[trigger] next[k] == pages[k]
        &&& after.levels@ == levels.update(d, levels[d].remove(q))
        &&& after.free@ == self.free@.push(left)
        &&& after.root == self.root
    }

    /// Merging two children keeps a tree good.
    proof fn lemma_merged(&self, after: &Self, d: int, j: int, i: int)
        requires
            lawful::<K>(),
            self.shaped(),
            1 <= d < self.levels@.len(),
            0 <= j < self.levels@[d - 1].len(),
            0 <= i < models(self.pages@)[self.levels@[d - 1][j] as int].children().len() - 1,
            self.merges(after, d, j, i),
        ensures
            after.shaped(),
            after@ == self@,
            d > 1 ==> after.rooted() == self.rooted(),
            ({
                let q = offset(models(self.pages@), self.levels@, d - 1, j) + i;
                let p = models(self.pages@)[self.levels@[d - 1][j] as int];
                &&& 0 <= q < after.levels@[d].len()
                &&& after.levels@[d][q] == p.children()[i + 1]
            }),
    {
        let pages = models(self.pages@);
        let levels = self.levels@;
        let q = offset(pages, levels, d - 1, j) + i;
        let next = after.levels@;
        let left = pages[levels[d - 1][j] as int].children()[i];
        lemma_siblings(pages, levels, N as int, d, j, i);
        assert forall|e: int, k: int|
            #![trigger levels[e][k]]
            0 <= e < levels.len() && 0 <= k < levels[e].len() implies levels[e][k]
            < self.pages@.len() by {
            self.lemma_at(e, k);
        }
        lemma_merge_children(pages, models(after.pages@), levels, N as int, d, j, i);
        lemma_left(levels, self.free@, self.pages@.len(), d, q);
        assert(next[0][0] == levels[0][0]);
        assert(next[d][q] == levels[d][q + 1]);
        self.lemma_at(d, q);
        if d > 1 {
            assert(levels[0][0] != levels[d - 1][j]);
            assert(levels[0][0] != levels[d][q] && levels[0][0] != levels[d][q + 1]);
            if q > 0 {
                assert(levels[0][0] != levels[d][q - 1]);
            }
            self.lemma_at(0, 0);
        }
    }

    /// Whether `after` comes from this tree by moving one record or child
    /// between two neighbouring children of the page at place `j` of the level
    /// above `d`, to the right or to the left.
    spec fn lends(&self, after: &Self, d: int, j: int, i: int, to_right: bool) -> bool {
        let pages = models(self.pages@);
        let next = models(after.pages@);
        let levels = self.levels@;
        let above = levels[d - 1][j];
        let p = pages[above as int];
        let left = p.children()[i];
        let right = p.children()[i + 1];
        let l = pages[left as int];
        let r = pages[right as int];
        &&& if to_right {
            &&& l.occupancy() > l.minimum(N as int) && r.occupancy() <= r.minimum(N as int)
            &&& next[above as int] == p.with_key(i, l.last_boundary())
            &&& next[left as int] == l.without_last()
            &&& next[right as int] == r.with_last_of(l, p.keys()[i])
        } else {
            &&& l.occupancy() <= l.minimum(N as int) && r.occupancy() > r.minimum(N as int)
            &&& next[above as int] == p.with_key(i, r.first_boundary())
            &&& next[left as int] == l.with_first_of(r, p.keys()[i])
            &&& next[right as int] == r.without_first()
        }
        &&& after.pages@.len() == self.pages@.len()
        &&& forall|k: int| 0 <= k < after.pages@.len() ==> (#[trigger] after.pages@[k]).wf()
        &&& forall|k: int|
            0 <= k < self.pages@.len() && k != above && k != left && k != right
                ==> #[trigger] after.pages@[k] == self.pages@[k]
        &&& after.levels@ == levels
        &&& after.free@ == self.free@
        &&& after.root == self.root
    }

    /// Lending to a sibling keeps a tree good.
    proof fn lemma_lent(&self, after: &Self, d: int, j: int, i: int, to_right: bool)
        requires
            lawful::<K>(),
            self.shaped(),
            1 <= d < self.levels@.len(),
            0 <= j < self.levels@[d - 1].len(),
            0 <= i < models(self.pages@)[self.levels@[d - 1][j] as int].children().len() - 1,
            self.lends(after, d, j, i, to_right),
        ensures
            after.shaped(),
            after@ == self@,
            d > 1 ==> after.rooted() == self.rooted(),
            ({
                let pages = models(self.pages@);
                let next = models(after.pages@);
                let p = pages[self.levels@[d - 1][j] as int];
                let left = p.children()[i];
                let right = p.children()[i + 1];
                if to_right {
                    &&& lt(pages[left as int].last_boundary(), p.keys()[i])
                    &&& next[right as int].occupancy() == pages[right as int].occupancy() + 1
                } else {
                    &&& lt(p.keys()[i], pages[right as int].first_boundary())
                    &&& next[left as int].occupancy() == pages[left as int].occupancy() + 1
                }
            }),
    {
        let pages = models(self.pages@);
        let next = models(after.pages@);
        let levels = self.levels@;
        assert forall|e: int, k: int|
            #![trigger levels[e][k]]
            0 <= e < levels.len() && 0 <= k < levels[e].len() implies levels[e][k]
            < self.pages@.len() by {
            self.lemma_at(e, k);
        }
        lemma_siblings(pages, levels, N as int, d, j, i);
        if d > 1 {
            let q = offset(pages, levels, d - 1, j) + i;
            assert(levels[0][0] != levels[d - 1][j]);
            assert(levels[0][0] != levels[d][q] && levels[0][0] != levels[d][q + 1]);
            self.lemma_at(0, 0);
        }
        if to_right {
            lemma_lend_from_left(pages, next, levels, N as int, d, j, i);
        } else {
            lemma_lend_from_right(pages, next, levels, N as int, d, j, i);
        }
    }

    /// Makes one of two neighbouring children of the page at `node` safe for a
    /// removal: it borrows from the other or is merged with it when it is at
    /// its minimum. Returns the page to go on at.
    #[verifier::rlimit(60)]
    fn make_safe(
        &mut self,
        node: usize,
        at: usize,
        left_ref: usize,
        right_ref: usize,
        right_child: bool,
        Ghost(d): Ghost<int>,
        Ghost(j): Ghost<int>,
        Ghost(c): Ghost<spec_fn(K) -> Side>,
    ) -> (target: (usize, Ghost<int>))
        requires
            lawful::<K>(),
            consistent(c),
            old(self).shaped(),
            1 <= d < old(self).levels@.len(),
            0 <= j < old(self).levels@[d - 1].len(),
            old(self).levels@[d - 1][j] == node,
            ({
                let p = models(old(self).pages@)[node as int];
                &&& at + 1 < p.children().len()
                &&& left_ref == p.children()[at as int]
                &&& right_ref == p.children()[at + 1]
                &&& models(old(self).pages@)[(if right_child {
                    right_ref
                } else {
                    left_ref
                }) as int].owns(c)
                &&& d == 1 || p.occupancy() > (N - 1) / 2
            }),
        ensures
            final(self).shaped(),
            final(self)@ == old(self)@,
            final(self).len == old(self).len,
            final(self).levels@.len() == old(self).levels@.len(),
            d > 1 ==> final(self).rooted() == old(self).rooted(),
            d == 1 ==> final(self).rooted() == !old(self).slim(),
            0 <= target.1@ < final(self).levels@[d].len(),
            final(self).levels@[d][target.1@] == target.0,
            ({
                let t = models(final(self).pages@)[target.0 as int];
                &&& t.owns(c)
                &&& t.occupancy() > t.minimum(N as int)
            }),
    {
        let ghost pages = models(self.pages@);
        let ghost levels = self.levels@;
        let ghost p = pages[node as int];
        let ghost q = offset(pages, levels, d - 1, j) + at;
        proof {
            self.lemma_at(d - 1, j);
            lemma_siblings(pages, levels, N as int, d, j, at as int);
            self.lemma_at(d, q);
            self.lemma_at(d, q + 1);
            if q > 0 {
                self.lemma_at(d, q - 1);
            }
        }
        let ghost l = pages[left_ref as int];
        let ghost r = pages[right_ref as int];
        let mut parent = take_page(&mut self.pages, node);
        let mut left = take_page(&mut self.pages, left_ref);
        let mut right = take_page(&mut self.pages, right_ref);
        let balance = parent.balance(
            at,
            &left_ref,
            &mut left,
            &right_ref,
            &mut right,
            right_child,
        );
        self.pages[node] = parent;
        self.pages[left_ref] = left;
        self.pages[right_ref] = right;
        let target = if balance.continues_right(right_child) {
            right_ref
        } else {
            left_ref
        };
        match balance {
            Balance::Merged(repair) => {
                proof {
                    lemma_merge(l, p.keys()[at as int], r, N as int);
                    if q > 0 {
                        assert(levels[d][q - 1] != levels[d][q + 1]);
                        assert(levels[d][q - 1] != levels[d][q]);
                        assert(levels[d][q - 1] != levels[d - 1][j]);
                    }
                }
                let ghost mid = models(self.pages@);
                proof {
                    if let Some(s) = repair.predecessor {
                        assert(mid[s as int] == pages[s as int]);
                        law_repair_follows_chain(mid, repair, seq![s]);
                    }
                }
                repair_merged_link(&mut self.pages, repair);
                self.free.push(left_ref);
                self.levels = Ghost(levels.update(d, levels[d].remove(q)));
                proof {
                    assert(models(self.pages@).len() == mid.len());
                    assert(mid[right_ref as int] == r.merged_with(l, p.keys()[at as int]));
                    old(self).lemma_merged(self, d, j, at as int);
                }
                (target, Ghost(q))
            },
            Balance::Borrowed => {
                proof {
                    old(self).lemma_lent(self, d, j, at as int, right_child);
                }
                (
                    target,
                    Ghost(
                        if right_child {
                            q + 1
                        } else {
                            q
                        },
                    ),
                )
            },
            Balance::Kept => {
                proof {
                    assert(models(self.pages@) =~= pages);
                }
                (
                    target,
                    Ghost(
                        if right_child {
                            q + 1
                        } else {
                            q
                        },
                    ),
                )
            },
        }
    }

    /// Runs one top-down deletion pass, borrowing or merging before descent.
    /// A root that parts two minimal children only is left with the one into
    /// which they are merged.
    #[verifier::rlimit(40)]
    fn remove_attempt<P: Probe<K> + ?Sized>(&mut self, probe: &P) -> (attempt: RemoveAttempt<V>)
        requires
            lawful::<K>(),
            P::probes(),
            old(self).wf(),
        ensures
            final(self).shaped(),
            final(self).len == final(self)@.len(),
            final(self)@ == removed(old(self)@, cut(probe)),
            attempt == RemoveAttempt::<V>::Done(lookup(old(self)@, cut(probe))),
            final(self).depth() == old(self).depth(),
            final(self).wf() == !old(self).slim(),
    {
        let ghost c = cut(probe);
        let mut node = self.root;
        let ghost mut d: int = 0;
        let ghost mut j: int = 0;
        proof {
            probe.lemma_probe_consistent();
            self.lemma_at(0, 0);
        }
        loop
            invariant
                lawful::<K>(),
                P::probes(),
                c == cut(probe),
                consistent(c),
                self.shaped(),
                self@ == old(self)@,
                self.len == old(self).len,
                old(self).len == old(self)@.len(),
                0 <= d < self.levels@.len(),
                0 <= j < self.levels@[d].len(),
                node == self.levels@[d][j],
                models(self.pages@)[node as int].owns(c),
                self.levels@.len() == old(self).levels@.len(),
                d == 0 ==> self.rooted() && self.slim() == old(self).slim(),
                d > 0 ==> self.rooted() == !old(self).slim(),
                d > 0 ==> models(self.pages@)[node as int].occupancy() > models(
                    self.pages@,
                )[node as int].minimum(N as int),
            decreases self.levels@.len() - d,
        {
            let ghost before = *self;
            let ghost pages = models(self.pages@);
            let ghost levels = self.levels@;
            let ghost p = pages[node as int];
            proof {
                self.lemma_at(d, j);
            }
            match self.pages[node].remove_step(probe) {
                RemoveStep::Done(value) => {
                    proof {
                        before.lemma_leaf_removed(self, j, c);
                    }
                    if value.is_some() {
                        self.decrement_len();
                    }
                    return RemoveAttempt::Done(value);
                },
                RemoveStep::Pair(at, left, right, right_child) => {
                    proof {
                        let i = child_slot(p.keys(), c);
                        before.lemma_same_models(self, node);
                        lemma_child(pages, levels, N as int, d, j, i);
                        lemma_child_slot(p.keys(), c);
                        lemma_child_owns(p, i, c);
                    }
                    let (target, Ghost(q)) = self.make_safe(
                        node,
                        at,
                        left,
                        right,
                        right_child,
                        Ghost(d + 1),
                        Ghost(j),
                        Ghost(c),
                    );
                    proof {
                        j = q;
                        d = d + 1;
                    }
                    node = target;
                },
                RemoveStep::Right(_) | RemoveStep::Retry => {
                    return unreached();
                },
            }
        }
    }

    /// Whether `after` is this tree without a root that parts no children: its
    /// root is a leaf or parts children, covers the complete key space and has
    /// no peers; a tree with such a root is left as it is, and another loses
    /// one level.
    pub closed spec fn shrinks_to(&self, after: &Self) -> bool {
        let root = models(after.pages@)[after.root as int];
        &&& after.rooted()
        &&& after@ == self@
        &&& after.len == self.len
        &&& if self.rooted() {
            *after == *self
        } else {
            after.depth() == self.depth() - 1
        }
        &&& root.is_root
        &&& root.low is None && root.high is None
        &&& root.previous is None && root.right is None
        &&& root.body is Leaf || root.keys().len() >= 1
    }

    /// Shrinking a tree keeps its records and its counter. Shrinking it once
    /// more changes nothing.
    pub proof fn law_shrink_twice(&self, once: &Self, twice: &Self)
        requires
            self.shrinks_to(once),
            once.shrinks_to(twice),
        ensures
            *twice == *once,
            once@ == self@,
            once.count() == self.count(),
    {
    }

    /// Removes empty internal root levels after a child merge. A root that is a
    /// leaf or parts children is left as it is.
    #[verifier::rlimit(40)]
    fn shrink_root(&mut self)
        requires
            old(self).shaped(),
        ensures
            old(self).shrinks_to(final(self)),
            final(self).shaped(),
    {
        loop
            invariant
                self.shaped(),
                self@ == old(self)@,
                self.len == old(self).len,
                if old(self).rooted() || !self.rooted() {
                    *self == *old(self)
                } else {
                    self.depth() == old(self).depth() - 1
                },
            decreases self.levels@.len(),
        {
            let ghost before = *self;
            let ghost pages = models(self.pages@);
            let ghost levels = self.levels@;
            let root_ref = self.root;
            proof {
                self.lemma_at(0, 0);
            }
            let child = match self.pages[root_ref].heir() {
                Some(child) => child,
                None => return,
            };
            proof {
                lemma_child(pages, levels, N as int, 0, 0, 0);
                self.lemma_at(1, offset(pages, levels, 0, 0));
                assert(levels[0][0] != levels[1][offset(pages, levels, 0, 0)]);
            }
            self.pages[child].crown();
            self.pages[root_ref].abdicate(child);
            self.free.push(root_ref);
            self.root = child;
            self.levels = Ghost(levels.skip(1));
            proof {
                let after = models(self.pages@);
                let next = self.levels@;
                assert forall|e: int, k: int|
                    #![trigger levels[e][k]]
                    0 <= e < levels.len() && 0 <= k < levels[e].len() && levels[e][k] != root_ref
                        && levels[e][k] != child implies after[levels[e][k] as int]
                    == pages[levels[e][k] as int] by {
                    before.lemma_at(e, k);
                }
                lemma_shrink_root(pages, after, levels, N as int);
                lemma_root_left(levels, before.free@, self.pages@.len());
            }
        }
    }

    /// Removes one record and repairs every minimum-occupancy violation before
    /// descending into it.
    pub fn remove<P: Probe<K> + ?Sized>(&mut self, probe: &P) -> (value: Option<V>)
        requires
            lawful::<K>(),
            P::probes(),
            old(self).wf(),
        ensures
            final(self).wf(),
            final(self)@ == removed(old(self)@, cut(probe)),
            value == lookup(old(self)@, cut(probe)),
            final(self).depth() == old(self).depth() - (if holds(old(self)@, cut(probe)) && old(
                self,
            ).sparse(cut(probe)) && old(self).slim() {
                1int
            } else {
                0
            }),
    {
        match self.try_remove_without_rebalance(probe) {
            FastRemove::Done(value) => value,
            FastRemove::Reshape => {
                self.shrink_root();
                match self.remove_attempt(probe) {
                    RemoveAttempt::Done(value) => {
                        self.shrink_root();
                        value
                    },
                    RemoveAttempt::Retry => unreached(),
                }
            },
        }
    }

    /// The pages that are there, whether or not the tree leads to them.
    pub closed spec fn graph(&self) -> Pages<K, V> {
        models(self.pages@)
    }

    /// The place of the published root among the pages.
    pub closed spec fn top(&self) -> usize {
        self.root
    }

    /// The exhaustive check finds nothing exactly when the root stands alone,
    /// all pages below it have grown as they should, the counter counts the
    /// records, and every level is one sibling chain. The records then ascend.
    pub proof fn law_check(&self)
        requires
            lawful::<K>(),
        ensures
            self.fault() is None <==> {
                let pages = self.graph();
                let root = self.top();
                let p = pages[root as int];
                &&& root < pages.len()
                &&& p.low is None && p.high is None
                &&& p.previous is None && p.right is None
                &&& gather(pages, root, pages.len()).len() == self.count()
                &&& exists|height: nat, rows: Seq<Seq<usize>>|
                    {
                        &&& #[trigger] grown(pages, N as int, root, true, height)
                        &&& height < pages.len()
                        &&& rows.len() == height + 1
                        &&& #[trigger] level_chains(
                            pages,
                            rows,
                            root,
                            chain_limit(self.count() as nat, rows.len()),
                        )
                    }
            },
            self.fault() is None ==> {
                let s = gather(self.graph(), self.top(), self.graph().len());
                forall|i: int, j: int|
                    0 <= i < j < s.len() ==> lt(
                        (#[trigger] s[i]).0,
                        (#[trigger] s[j]).0,
                    )
            },
    {
        law_tree_acceptance(self.graph(), N as int, self.top(), self.count());
        if self.fault() is None {
            law_passing_tree(self.graph(), N as int, self.top(), self.count() as nat);
        }
    }

    /// What an exhaustive check of the tree finds.
    pub closed spec fn fault(&self) -> Option<Violation> {
        tree_fault(models(self.pages@), N as int, self.root, self.len as nat)
    }

    /// Performs an exhaustive invariant check.
    pub fn validate(&self) -> (result: Result<(), Violation>)
        requires
            lawful::<K>(),
            N > 0,
        ensures
            result == (match self.fault() {
                Some(v) => Err::<(), Violation>(v),
                None => Ok::<(), Violation>(()),
            }),
    {
        check::validate(&self.pages, self.root, self.len)
    }

    /// Every tree that satisfies the invariant passes the check.
    pub proof fn lemma_valid(&self)
        requires
            lawful::<K>(),
            self.wf(),
        ensures
            self.fault() is None,
    {
        self.lemma_depth();
        lemma_good_tree_passes(models(self.pages@), self.levels@, N as int);
    }

    /// The depth of a tree bounds the number of its records from both sides,
    /// and a tree without records is a single page.
    pub proof fn lemma_capacity(&self)
        requires
            self.wf(),
        ensures
            self.depth() >= 1,
            self@.len() <= N * pow(N + 1, (self.depth() - 1) as nat),
            self.depth() > 1 ==> self@.len() >= (N as int / 2) * (2 * pow(
                (N - 1) / 2 + 1,
                (self.depth() - 2) as nat,
            )),
            self@.len() == 0 ==> self.depth() == 1,
    {
        law_capacity(models(self.pages@), self.levels@, N as int);
        if self.depth() > 1 {
            let w = pow((N - 1) / 2 + 1, (self.depth() - 2) as nat);
            vstd::arithmetic::power::lemma_pow_positive(
                (N - 1) / 2 + 1,
                (self.depth() - 2) as nat,
            );
            assert((N as int / 2) * (2 * w) >= 1) by (nonlinear_arith)
                requires
                    N as int / 2 >= 1,
                    w >= 1,
            ;
        }
    }
}

} // verus!
