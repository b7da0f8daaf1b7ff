//! Exhaustive checks of the invariants of a tree of pages.

use vstd::pervasive::unreached;
use vstd::prelude::*;

use crate::node::{models, Node};
use crate::order::{cut_of, lawful, lemma_cut_sides, lemma_order, lt, Probe, Side};
use crate::page::{between, within, Body, Page};
use crate::records::{ascending, sorted};
use crate::shape::{
    contents, flat, items_in, lemma_child, lemma_flat_at, lemma_flat_concat, lemma_flat_one, lemma_page,
    linked, offset, slots_in, tree_ok, Pages,
};

verus! {

/// What can be wrong with a tree.
#[derive(Clone, Copy, Debug, PartialEq, Eq, Structural)]
pub enum Violation {
    /// A page holds more than its capacity.
    Oversized,
    /// A page is marked as root without being it, or the other way round.
    RootRole,
    /// A page other than the root is below its minimum.
    Underfull,
    /// A parent leads to a retired page.
    Retired,
    /// Two leaves lie at different depths.
    LeafDepth,
    /// The records of a leaf do not ascend.
    LeafOrder,
    /// A record lies outside the fences of its leaf.
    LeafFence,
    /// An internal page does not have one more child than separators.
    Cardinality,
    /// An internal root parts nothing.
    EmptyRoot,
    /// The separators of a page do not ascend.
    SeparatorOrder,
    /// A separator lies outside the fences of its page.
    SeparatorFence,
    /// The fences of a child are not the bounds that its parent gives it.
    ChildFence,
    /// The root has a fence or a sibling.
    RootFence,
    /// The published root is not marked as root.
    RootUnmarked,
    /// The root is a retired page.
    RootRetired,
    /// The record counter is not the number of records.
    Miscounted {
        /// The number of records in the leaves.
        counted: usize,
        /// The record counter.
        len: usize,
    },
    /// There are more records than a counter can hold.
    Uncountable,
    /// A sibling chain is longer than the tree allows.
    ChainCycle,
    /// A sibling chain leads to a retired page.
    ChainRetired,
    /// The first page of a level has a lower fence or a predecessor.
    LeftmostFence,
    /// The fences of two neighbours differ.
    SiblingFence,
    /// A page behind another has no predecessor.
    LostPredecessor,
    /// The predecessor of a page is not the page before it.
    WrongPredecessor,
    /// The last page of a level has an upper fence.
    RightmostFence,
    /// A leaf lies above the leaf level.
    HeightExceeded,
    /// A link leads to no page.
    Dangling,
    /// A path from the root is longer than there are pages.
    Endless,
}

impl Violation {
    /// The description of a violation.
    pub open spec fn text(self) -> Seq<char> {
        match self {
            Violation::Oversized => "page exceeds stable capacity"@,
            Violation::RootRole => "page root-role marker is inconsistent"@,
            Violation::Underfull => "non-root page is below minimum occupancy"@,
            Violation::Retired => "parent tree reaches a retired page"@,
            Violation::LeafDepth => "leaves do not share one depth"@,
            Violation::LeafOrder => "leaf records are not strictly ordered"@,
            Violation::LeafFence => "leaf record lies outside page fences"@,
            Violation::Cardinality => "internal child/key cardinality mismatch"@,
            Violation::EmptyRoot => "empty internal root was not collapsed"@,
            Violation::SeparatorOrder => "internal separators are not ordered"@,
            Violation::SeparatorFence => "separator lies outside page fences"@,
            Violation::ChildFence => "child fences disagree with parent bounds"@,
            Violation::RootFence => "root must cover the complete key space"@,
            Violation::RootUnmarked => "published root is not marked as root"@,
            Violation::RootRetired => "root must not be a redirect"@,
            Violation::Miscounted { counted, len } => {
                "entry counter mismatch: leaves contain "@ + decimal(counted) + ", len is "@
                    + decimal(len)
            },
            Violation::Uncountable => "records exceed the entry counter"@,
            Violation::ChainCycle => "sibling chain contains a cycle"@,
            Violation::ChainRetired => "sibling chain retains a redirect"@,
            Violation::LeftmostFence => "leftmost page has a predecessor fence"@,
            Violation::SiblingFence => "adjacent sibling fences disagree"@,
            Violation::LostPredecessor => "sibling lost its predecessor"@,
            Violation::WrongPredecessor => "sibling predecessor points elsewhere"@,
            Violation::RightmostFence => "rightmost page has a finite high fence"@,
            Violation::HeightExceeded => "tree height exceeds leaf depth"@,
            Violation::Dangling => "link leads to no page"@,
            Violation::Endless => "path is longer than there are pages"@,
        }
    }

    /// Describes a violation.
    pub fn message(&self) -> (text: String)
        ensures
            text@ == self.text(),
            text@ == (match *self {
                Violation::Oversized => "page exceeds stable capacity"@,
                Violation::RootRole => "page root-role marker is inconsistent"@,
                Violation::Underfull => "non-root page is below minimum occupancy"@,
                Violation::Retired => "parent tree reaches a retired page"@,
                Violation::LeafDepth => "leaves do not share one depth"@,
                Violation::LeafOrder => "leaf records are not strictly ordered"@,
                Violation::LeafFence => "leaf record lies outside page fences"@,
                Violation::Cardinality => "internal child/key cardinality mismatch"@,
                Violation::EmptyRoot => "empty internal root was not collapsed"@,
                Violation::SeparatorOrder => "internal separators are not ordered"@,
                Violation::SeparatorFence => "separator lies outside page fences"@,
                Violation::ChildFence => "child fences disagree with parent bounds"@,
                Violation::RootFence => "root must cover the complete key space"@,
                Violation::RootUnmarked => "published root is not marked as root"@,
                Violation::RootRetired => "root must not be a redirect"@,
                Violation::Miscounted { counted, len } => {
                    "entry counter mismatch: leaves contain "@ + decimal(counted) + ", len is "@
                        + decimal(len)
                },
                Violation::Uncountable => "records exceed the entry counter"@,
                Violation::ChainCycle => "sibling chain contains a cycle"@,
                Violation::ChainRetired => "sibling chain retains a redirect"@,
                Violation::LeftmostFence => "leftmost page has a predecessor fence"@,
                Violation::SiblingFence => "adjacent sibling fences disagree"@,
                Violation::LostPredecessor => "sibling lost its predecessor"@,
                Violation::WrongPredecessor => "sibling predecessor points elsewhere"@,
                Violation::RightmostFence => "rightmost page has a finite high fence"@,
                Violation::HeightExceeded => "tree height exceeds leaf depth"@,
                Violation::Dangling => "link leads to no page"@,
                Violation::Endless => "path is longer than there are pages"@,
            }),
    {
        let text = match self {
            Violation::Miscounted { counted, len } => {
                let mut text = "entry counter mismatch: leaves contain ".to_owned();
                text.append(write_decimal(*counted).as_str());
                text.append(", len is ");
                text.append(write_decimal(*len).as_str());
                return text;
            },
            Violation::Uncountable => "records exceed the entry counter",
            Violation::Oversized => "page exceeds stable capacity",
            Violation::RootRole => "page root-role marker is inconsistent",
            Violation::Underfull => "non-root page is below minimum occupancy",
            Violation::Retired => "parent tree reaches a retired page",
            Violation::LeafDepth => "leaves do not share one depth",
            Violation::LeafOrder => "leaf records are not strictly ordered",
            Violation::LeafFence => "leaf record lies outside page fences",
            Violation::Cardinality => "internal child/key cardinality mismatch",
            Violation::EmptyRoot => "empty internal root was not collapsed",
            Violation::SeparatorOrder => "internal separators are not ordered",
            Violation::SeparatorFence => "separator lies outside page fences",
            Violation::ChildFence => "child fences disagree with parent bounds",
            Violation::RootFence => "root must cover the complete key space",
            Violation::RootUnmarked => "published root is not marked as root",
            Violation::RootRetired => "root must not be a redirect",
            Violation::ChainCycle => "sibling chain contains a cycle",
            Violation::ChainRetired => "sibling chain retains a redirect",
            Violation::LeftmostFence => "leftmost page has a predecessor fence",
            Violation::SiblingFence => "adjacent sibling fences disagree",
            Violation::LostPredecessor => "sibling lost its predecessor",
            Violation::WrongPredecessor => "sibling predecessor points elsewhere",
            Violation::RightmostFence => "rightmost page has a finite high fence",
            Violation::HeightExceeded => "tree height exceeds leaf depth",
            Violation::Dangling => "link leads to no page",
            Violation::Endless => "path is longer than there are pages",
        };
        text.to_owned()
    }
}

/// A decimal digit.
pub open spec fn digit(d: usize) -> Seq<char> {
    match d {
        0 => "0"@,
        1 => "1"@,
        2 => "2"@,
        3 => "3"@,
        4 => "4"@,
        5 => "5"@,
        6 => "6"@,
        7 => "7"@,
        8 => "8"@,
        _ => "9"@,
    }
}

/// A number in decimal digits.
pub open spec fn decimal(n: usize) -> Seq<char>
    decreases n,
{
    if n < 10 {
        digit(n)
    } else {
        decimal(n / 10) + digit(n % 10)
    }
}

/// Writes a number in decimal digits.
fn write_decimal(n: usize) -> (text: String)
    ensures
        text@ == decimal(n),
    decreases n,
{
    let last = match n % 10 {
        0 => "0",
        1 => "1",
        2 => "2",
        3 => "3",
        4 => "4",
        5 => "5",
        6 => "6",
        7 => "7",
        8 => "8",
        _ => "9",
    };
    if n < 10 {
        return last.to_owned();
    }
    let mut text = write_decimal(n / 10);
    text.append(last);
    text
}

/// What is wrong with the size or the role of a page.
pub open spec fn frame_fault<K, V, R>(p: Page<K, V, R>, n: int, is_root: bool) -> Option<
    Violation,
> {
    if p.occupancy() > n {
        Some(Violation::Oversized)
    } else if p.is_root != is_root {
        Some(Violation::RootRole)
    } else if !is_root && p.occupancy() < p.minimum(n) {
        Some(Violation::Underfull)
    } else if p.body is Redirect {
        Some(Violation::Retired)
    } else {
        None
    }
}

/// Whether every record of a leaf lies between its fences.
pub open spec fn records_fenced<K: Ord, V, R>(p: Page<K, V, R>) -> bool {
    forall|i: int| 0 <= i < p.items().len() ==> within((#[trigger] p.items()[i]).0, p.low, p.high)
}

/// Whether every separator of a page lies between its fences.
pub open spec fn separators_fenced<K: Ord, V, R>(p: Page<K, V, R>) -> bool {
    forall|i: int| 0 <= i < p.keys().len() ==> within(#[trigger] p.keys()[i], p.low, p.high)
}

/// What is wrong with the payload of a page.
pub open spec fn body_fault<K: Ord, V, R>(p: Page<K, V, R>, is_root: bool) -> Option<Violation> {
    match p.body {
        Body::Leaf(s) => {
            if !sorted(s) {
                Some(Violation::LeafOrder)
            } else if !records_fenced(p) {
                Some(Violation::LeafFence)
            } else {
                None
            }
        },
        Body::Internal(k, c) => {
            if c.len() != k.len() + 1 {
                Some(Violation::Cardinality)
            } else if is_root && k.len() == 0 {
                Some(Violation::EmptyRoot)
            } else if !ascending(k) {
                Some(Violation::SeparatorOrder)
            } else if !separators_fenced(p) {
                Some(Violation::SeparatorFence)
            } else {
                None
            }
        },
        Body::Redirect(_) => None,
    }
}

/// Whether two optional keys are equal in key order.
pub open spec fn same_fence<K: Ord>(a: Option<K>, b: Option<K>) -> bool {
    match (a, b) {
        (Some(a), Some(b)) => !lt(a, b) && !lt(b, a),
        (None, None) => true,
        _ => false,
    }
}

/// Tests whether a key belongs to a half-open optional-fence interval.
pub fn within_fences<K: Ord>(key: &K, low: Option<&K>, high: Option<&K>) -> (b: bool)
    requires
        lawful::<K>(),
    ensures
        b == within(
            *key,
            match low {
                Some(l) => Some(*l),
                None => None,
            },
            match high {
                Some(h) => Some(*h),
                None => None,
            },
        ),
        b <==> (low is None || !lt(*key, *low->0)) && (high is None || lt(*key, *high->0)),
{
    proof {
        lemma_cut_sides(*key);
    }
    let above = match low {
        Some(bound) => {
            assert(key.side_spec(*bound) == cut_of(*key)(*bound));
            match key.side(bound) {
                Side::Before => false,
                _ => true,
            }
        },
        None => true,
    };
    let below = match high {
        Some(bound) => {
            assert(key.side_spec(*bound) == cut_of(*key)(*bound));
            match key.side(bound) {
                Side::Before => true,
                _ => false,
            }
        },
        None => true,
    };
    above && below
}

/// Compares optional keys by key order.
pub fn optional_keys_equal<K: Ord>(left: Option<&K>, right: Option<&K>) -> (b: bool)
    requires
        lawful::<K>(),
    ensures
        b == same_fence(
            match left {
                Some(l) => Some(*l),
                None => None,
            },
            match right {
                Some(r) => Some(*r),
                None => None,
            },
        ),
        b <==> (left is None && right is None) || (left is Some && right is Some && !lt(
            *left->0,
            *right->0,
        ) && !lt(*right->0, *left->0)),
{
    match (left, right) {
        (Some(left), Some(right)) => {
            proof {
                lemma_cut_sides(*left);
                assert(left.side_spec(*right) == cut_of(*left)(*right));
            }
            match left.side(right) {
                Side::At => true,
                _ => false,
            }
        },
        (None, None) => true,
        _ => false,
    }
}

impl<K: Ord, V, const N: usize> Node<K, V, usize, N> {
    /// Checks the size and the role of a page.
    pub fn check_frame(&self, is_root: bool) -> (result: Result<(), Violation>)
        requires
            N > 0,
        ensures
            result == (match frame_fault(self@, N as int, is_root) {
                Some(v) => Err::<(), Violation>(v),
                None => Ok::<(), Violation>(()),
            }),
    {
        if self.occupancy() > N {
            return Err(Violation::Oversized);
        }
        if self.is_root() != is_root {
            return Err(Violation::RootRole);
        }
        if !is_root && self.occupancy() < self.minimum() {
            return Err(Violation::Underfull);
        }
        if self.redirect_target().is_some() {
            return Err(Violation::Retired);
        }
        Ok(())
    }

    /// Checks the order and the fences of the records of a leaf.
    fn check_leaf(&self) -> (result: Result<(), Violation>)
        requires
            lawful::<K>(),
            self@.body is Leaf,
        ensures
            result == (match body_fault(self@, false) {
                Some(v) => Err::<(), Violation>(v),
                None => Ok::<(), Violation>(()),
            }),
    {
        let len = self.occupancy();
        let ghost s = self@.items();
        let mut i: usize = 1;
        while i < len
            invariant
                lawful::<K>(),
                s == self@.items(),
                len == s.len(),
                1 <= i,
                len > 0 ==> i <= len,
                forall|a: int, b: int|
                    0 <= a < b < i && b < len ==> lt((#[trigger] s[a]).0, (#[trigger] s[b]).0),
            decreases len - i,
        {
            let before = self.record_at(i - 1).0;
            let key = self.record_at(i).0;
            proof {
                lemma_cut_sides(*before);
                assert(before.side_spec(*key) == cut_of(*before)(*key));
            }
            match before.side(key) {
                Side::Before => {},
                _ => {
                    assert(!lt(s[i - 1].0, s[i as int].0));
                    return Err(Violation::LeafOrder);
                },
            }
            proof {
                lemma_order::<K>();
                assert forall|a: int, b: int| 0 <= a < b < i + 1 && b < len implies lt(
                    (#[trigger] s[a]).0,
                    (#[trigger] s[b]).0,
                ) by {
                    if b == i && a < i - 1 {
                        assert(lt(s[a].0, s[i - 1].0));
                    }
                }
            }
            i = i + 1;
        }
        let mut i: usize = 0;
        while i < len
            invariant
                lawful::<K>(),
                s == self@.items(),
                len == s.len(),
                sorted(s),
                self@.body == Body::<K, V, usize>::Leaf(s),
                i <= len,
                forall|a: int|
                    0 <= a < i ==> within((#[trigger] s[a]).0, self@.low, self@.high),
            decreases len - i,
        {
            if !within_fences(self.record_at(i).0, self.low_fence(), self.high_fence()) {
                assert(!within(self@.items()[i as int].0, self@.low, self@.high));
                return Err(Violation::LeafFence);
            }
            i = i + 1;
        }
        Ok(())
    }

    /// Checks the number, the order and the fences of the separators of an
    /// internal page.
    fn check_internal(&self, is_root: bool) -> (result: Result<(), Violation>)
        requires
            lawful::<K>(),
            self@.body is Internal,
        ensures
            result == (match body_fault(self@, is_root) {
                Some(v) => Err::<(), Violation>(v),
                None => Ok::<(), Violation>(()),
            }),
    {
        let len = self.occupancy();
        let children = self.child_count();
        let ghost s = self@.keys();
        if children == 0 || children - 1 != len {
            return Err(Violation::Cardinality);
        }
        if is_root && len == 0 {
            return Err(Violation::EmptyRoot);
        }
        let mut i: usize = 1;
        while i < len
            invariant
                lawful::<K>(),
                s == self@.keys(),
                len == s.len(),
                self@.body is Internal,
                self@.children().len() == s.len() + 1,
                !(is_root && s.len() == 0),
                1 <= i,
                len > 0 ==> i <= len,
                forall|a: int, b: int|
                    0 <= a < b < i && b < len ==> lt(#[trigger] s[a], #[trigger] s[b]),
            decreases len - i,
        {
            let before = self.separator_at(i - 1);
            let key = self.separator_at(i);
            proof {
                lemma_cut_sides(*before);
                assert(before.side_spec(*key) == cut_of(*before)(*key));
            }
            match before.side(key) {
                Side::Before => {},
                _ => {
                    assert(!lt(s[i - 1], s[i as int]));
                    return Err(Violation::SeparatorOrder);
                },
            }
            proof {
                lemma_order::<K>();
                assert forall|a: int, b: int| 0 <= a < b < i + 1 && b < len implies lt(
                    #[trigger] s[a],
                    #[trigger] s[b],
                ) by {
                    if b == i && a < i - 1 {
                        assert(lt(s[a], s[i - 1]));
                    }
                }
            }
            i = i + 1;
        }
        let mut i: usize = 0;
        while i < len
            invariant
                lawful::<K>(),
                s == self@.keys(),
                len == s.len(),
                ascending(s),
                self@.body is Internal,
                self@.children().len() == s.len() + 1,
                !(is_root && s.len() == 0),
                i <= len,
                forall|a: int| 0 <= a < i ==> within(#[trigger] s[a], self@.low, self@.high),
            decreases len - i,
        {
            if !within_fences(self.separator_at(i), self.low_fence(), self.high_fence()) {
                assert(!within(self@.keys()[i as int], self@.low, self@.high));
                return Err(Violation::SeparatorFence);
            }
            i = i + 1;
        }
        Ok(())
    }
}

/// What a walk over the tree has seen so far: the depth of the leaves, once
/// one was reached, and the number of records.
pub ghost struct Tally {
    pub leaf_depth: Option<nat>,
    pub count: nat,
}

/// What a depth-first check of the page `id` and all below it finds: the
/// first violation in its way, or what it has seen.
///
/// A path of more than `fuel` pages is a violation.
pub open spec fn audit<K: Ord, V>(
    pages: Pages<K, V>,
    n: int,
    id: usize,
    is_root: bool,
    depth: nat,
    seen: Tally,
    fuel: nat,
) -> Result<Tally, Violation>
    decreases fuel, 1int, 0int,
{
    if fuel == 0 {
        Err(Violation::Endless)
    } else if id >= pages.len() {
        Err(Violation::Dangling)
    } else {
        let p = pages[id as int];
        match frame_fault(p, n, is_root) {
            Some(v) => Err(v),
            None => match p.body {
                Body::Leaf(s) => {
                    if seen.leaf_depth matches Some(d) && d != depth {
                        Err(Violation::LeafDepth)
                    } else if body_fault(p, is_root) is Some {
                        Err(body_fault(p, is_root)->0)
                    } else if seen.count + s.len() > usize::MAX {
                        Err(Violation::Uncountable)
                    } else {
                        Ok(Tally { leaf_depth: Some(depth), count: seen.count + s.len() })
                    }
                },
                Body::Internal(_, _) => {
                    if body_fault(p, is_root) is Some {
                        Err(body_fault(p, is_root)->0)
                    } else {
                        audit_children(pages, n, p, 0, depth, seen, fuel)
                    }
                },
                Body::Redirect(_) => Err(Violation::Retired),
            },
        }
    }
}

/// What a depth-first check of the children of `p` from the child `i` on
/// finds.
pub open spec fn audit_children<K: Ord, V>(
    pages: Pages<K, V>,
    n: int,
    p: Page<K, V, usize>,
    i: int,
    depth: nat,
    seen: Tally,
    fuel: nat,
) -> Result<Tally, Violation>
    decreases fuel, 0int, p.children().len() - i,
{
    if i < 0 || i >= p.children().len() || fuel == 0 {
        Ok(seen)
    } else {
        let id = p.children()[i];
        if id >= pages.len() {
            Err(Violation::Dangling)
        } else if !same_fence(pages[id as int].low, p.child_low(i)) || !same_fence(
            pages[id as int].high,
            p.child_high(i),
        ) {
            Err(Violation::ChildFence)
        } else {
            match audit(pages, n, id, false, depth + 1, seen, (fuel - 1) as nat) {
                Err(v) => Err(v),
                Ok(next) => audit_children(pages, n, p, i + 1, depth, next, fuel),
            }
        }
    }
}

/// Recursively validates parent ownership, ordering, fences, occupancy, depth,
/// and the aggregate record count.
pub fn validate_node<K: Ord, V, const N: usize>(
    pages: &Vec<Node<K, V, usize, N>>,
    node: usize,
    is_root: bool,
    depth: usize,
    leaf_depth: &mut Option<usize>,
    record_count: &mut usize,
    fuel: usize,
) -> (result: Result<(), Violation>)
    requires
        lawful::<K>(),
        N > 0,
        depth + fuel <= usize::MAX,
    ensures
        match audit(
            models(pages@),
            N as int,
            node,
            is_root,
            depth as nat,
            tally(*old(leaf_depth), *old(record_count)),
            fuel as nat,
        ) {
            Ok(seen) => result is Ok && tally(*final(leaf_depth), *final(record_count)) == seen,
            Err(v) => result == Err::<(), Violation>(v),
        },
    decreases fuel,
{
    if fuel == 0 {
        return Err(Violation::Endless);
    }
    if node >= pages.len() {
        return Err(Violation::Dangling);
    }
    let page = &pages[node];
    page.check_frame(is_root)?;
    if page.is_leaf() {
        match *leaf_depth {
            Some(expected) => {
                if expected != depth {
                    return Err(Violation::LeafDepth);
                }
            },
            None => {
                *leaf_depth = Some(depth);
            },
        }
        page.check_leaf()?;
        match record_count.checked_add(page.occupancy()) {
            Some(count) => {
                *record_count = count;
            },
            None => {
                return Err(Violation::Uncountable);
            },
        }
    } else {
        page.check_internal(is_root)?;
        let len = page.child_count();
        let ghost p = page@;
        let ghost seen = tally(*leaf_depth, *record_count);
        let mut i: usize = 0;
        while i < len
            invariant
                lawful::<K>(),
                N > 0,
                0 < fuel,
                depth + fuel <= usize::MAX,
                p == page@,
                p.body is Internal,
                p.children().len() == p.keys().len() + 1,
                len == p.children().len(),
                i <= len,
                audit(
                    models(pages@),
                    N as int,
                    node,
                    is_root,
                    depth as nat,
                    tally(*old(leaf_depth), *old(record_count)),
                    fuel as nat,
                ) == audit_children(
                    models(pages@),
                    N as int,
                    p,
                    i as int,
                    depth as nat,
                    tally(*leaf_depth, *record_count),
                    fuel as nat,
                ),
            decreases len - i,
        {
            let child = match page.child(i) {
                Some(child) => child,
                None => unreached(),
            };
            if child >= pages.len() {
                return Err(Violation::Dangling);
            }
            let low = if i == 0 {
                page.low_fence()
            } else {
                Some(page.separator_at(i - 1))
            };
            let high = if i == len - 1 {
                page.high_fence()
            } else {
                Some(page.separator_at(i))
            };
            if !optional_keys_equal(pages[child].low_fence(), low) || !optional_keys_equal(
                pages[child].high_fence(),
                high,
            ) {
                return Err(Violation::ChildFence);
            }
            validate_node(pages, child, false, depth + 1, leaf_depth, record_count, fuel - 1)?;
            i = i + 1;
        }
    }
    Ok(())
}

/// The tally of a walk.
pub open spec fn tally(leaf_depth: Option<usize>, count: usize) -> Tally {
    Tally {
        leaf_depth: match leaf_depth {
            Some(d) => Some(d as nat),
            None => None,
        },
        count: count as nat,
    }
}

/// What is wrong with a page that is reached behind `previous` in a sibling
/// chain, or as its first page.
pub open spec fn link_fault<K: Ord, V>(
    pages: Pages<K, V>,
    id: usize,
    previous: Option<usize>,
) -> Option<Violation> {
    let p = pages[id as int];
    if id >= pages.len() {
        Some(Violation::Dangling)
    } else if p.body is Redirect {
        Some(Violation::ChainRetired)
    } else {
        match previous {
            None => if p.low is Some || p.previous is Some {
                Some(Violation::LeftmostFence)
            } else {
                None
            },
            Some(before) => if !same_fence(pages[before as int].high, p.low) {
                Some(Violation::SiblingFence)
            } else {
                match p.previous {
                    None => Some(Violation::LostPredecessor),
                    Some(back) => if back != before {
                        Some(Violation::WrongPredecessor)
                    } else {
                        None
                    },
                }
            },
        }
    }
}

/// What is wrong with a sibling chain from `id` on, which may have no more
/// than `limit` pages.
pub open spec fn chain_fault<K: Ord, V>(
    pages: Pages<K, V>,
    id: usize,
    previous: Option<usize>,
    limit: nat,
) -> Option<Violation>
    decreases limit,
{
    if limit == 0 {
        Some(Violation::ChainCycle)
    } else {
        match link_fault(pages, id, previous) {
            Some(v) => Some(v),
            None => match pages[id as int].right {
                Some(next) => chain_fault(pages, next, Some(id), (limit - 1) as nat),
                None => if pages[id as int].high is Some {
                    Some(Violation::RightmostFence)
                } else {
                    None
                },
            },
        }
    }
}

/// What is wrong with the sibling chains of `height` levels, the first of
/// which starts at `start`.
pub open spec fn levels_fault<K: Ord, V>(
    pages: Pages<K, V>,
    start: usize,
    limit: nat,
    height: nat,
) -> Option<Violation>
    decreases height,
{
    if height == 0 {
        None
    } else {
        match chain_fault(pages, start, None, limit) {
            Some(v) => Some(v),
            None => if height == 1 {
                None
            } else {
                match pages[start as int].body {
                    Body::Internal(_, c) => if c.len() == 0 {
                        Some(Violation::Cardinality)
                    } else {
                        levels_fault(pages, c[0], limit, (height - 1) as nat)
                    },
                    _ => Some(Violation::HeightExceeded),
                }
            },
        }
    }
}

/// Checks every same-level forward/back link of a chain.
fn validate_chain<K: Ord, V, const N: usize>(
    pages: &Vec<Node<K, V, usize, N>>,
    start: usize,
    limit: usize,
) -> (result: Result<(), Violation>)
    requires
        lawful::<K>(),
    ensures
        result == (match chain_fault(models(pages@), start, None, limit as nat) {
            Some(v) => Err::<(), Violation>(v),
            None => Ok::<(), Violation>(()),
        }),
{
    let mut current = start;
    let mut previous: Option<usize> = None;
    let mut left = limit;
    while left > 0
        invariant
            lawful::<K>(),
            previous matches Some(before) ==> before < pages@.len(),
            chain_fault(models(pages@), start, None, limit as nat) == chain_fault(
                models(pages@),
                current,
                previous,
                left as nat,
            ),
        decreases left,
    {
        if current >= pages.len() {
            return Err(Violation::Dangling);
        }
        let page = &pages[current];
        if page.redirect_target().is_some() {
            return Err(Violation::ChainRetired);
        }
        match previous {
            None => {
                if page.low_fence().is_some() || page.predecessor().is_some() {
                    return Err(Violation::LeftmostFence);
                }
            },
            Some(before) => {
                if !optional_keys_equal(pages[before].high_fence(), page.low_fence()) {
                    return Err(Violation::SiblingFence);
                }
                match page.predecessor() {
                    None => {
                        return Err(Violation::LostPredecessor);
                    },
                    Some(back) => {
                        if back != before {
                            return Err(Violation::WrongPredecessor);
                        }
                    },
                }
            },
        }
        match page.successor() {
            Some(next) => {
                previous = Some(current);
                current = next;
            },
            None => {
                if page.high_fence().is_some() {
                    return Err(Violation::RightmostFence);
                }
                return Ok(());
            },
        }
        left = left - 1;
    }
    Err(Violation::ChainCycle)
}

/// The number of pages that a sibling chain may have in a tree of `len`
/// records and `height` levels.
pub open spec fn chain_limit(len: nat, height: nat) -> nat {
    if len + height + 2 > usize::MAX {
        usize::MAX as nat
    } else {
        len + height + 2
    }
}

/// Checks every same-level forward/back link of all levels.
pub fn validate_sibling_levels<K: Ord, V, const N: usize>(
    pages: &Vec<Node<K, V, usize, N>>,
    root: usize,
    len: usize,
    height: usize,
) -> (result: Result<(), Violation>)
    requires
        lawful::<K>(),
    ensures
        result == (match levels_fault(
            models(pages@),
            root,
            chain_limit(len as nat, height as nat),
            height as nat,
        ) {
            Some(v) => Err::<(), Violation>(v),
            None => Ok::<(), Violation>(()),
        }),
{
    let limit = len.saturating_add(height).saturating_add(2);
    let mut start = root;
    let mut left = height;
    while left > 0
        invariant
            lawful::<K>(),
            limit == chain_limit(len as nat, height as nat),
            levels_fault(models(pages@), root, limit as nat, height as nat) == levels_fault(
                models(pages@),
                start,
                limit as nat,
                left as nat,
            ),
        decreases left,
    {
        validate_chain(pages, start, limit)?;
        if left > 1 {
            proof {
                assert(limit > 0);
                assert(start < pages@.len());
            }
            if pages[start].is_leaf() || pages[start].redirect_target().is_some() {
                return Err(Violation::HeightExceeded);
            }
            match pages[start].child(0) {
                Some(child) => {
                    start = child;
                },
                None => {
                    return Err(Violation::Cardinality);
                },
            }
        }
        left = left - 1;
    }
    Ok(())
}

/// What a check of the tree with the published root `root` and the record
/// counter `len` finds.
pub open spec fn tree_fault<K: Ord, V>(
    pages: Pages<K, V>,
    n: int,
    root: usize,
    len: nat,
) -> Option<Violation> {
    let p = pages[root as int];
    if root >= pages.len() {
        Some(Violation::Dangling)
    } else if p.low is Some || p.high is Some || p.previous is Some || p.right is Some {
        Some(Violation::RootFence)
    } else if !p.is_root {
        Some(Violation::RootUnmarked)
    } else if p.body is Redirect {
        Some(Violation::RootRetired)
    } else {
        match audit(pages, n, root, true, 0, tally(None, 0), pages.len()) {
            Err(v) => Some(v),
            Ok(seen) => if seen.count != len {
                Some(Violation::Miscounted { counted: seen.count as usize, len: len as usize })
            } else {
                match seen.leaf_depth {
                    Some(d) => levels_fault(pages, root, chain_limit(len, d + 1), d + 1),
                    None => Some(Violation::HeightExceeded),
                }
            },
        }
    }
}

/// Performs an exhaustive invariant check.
pub fn validate<K: Ord, V, const N: usize>(
    pages: &Vec<Node<K, V, usize, N>>,
    root: usize,
    len: usize,
) -> (result: Result<(), Violation>)
    requires
        lawful::<K>(),
        N > 0,
    ensures
        result == (match tree_fault(models(pages@), N as int, root, len as nat) {
            Some(v) => Err::<(), Violation>(v),
            None => Ok::<(), Violation>(()),
        }),
{
    if root >= pages.len() {
        return Err(Violation::Dangling);
    }
    let page = &pages[root];
    if page.low_fence().is_some() || page.high_fence().is_some() || page.predecessor().is_some()
        || page.successor().is_some() {
        return Err(Violation::RootFence);
    }
    if !page.is_root() {
        return Err(Violation::RootUnmarked);
    }
    if page.redirect_target().is_some() {
        return Err(Violation::RootRetired);
    }
    let mut leaf_depth: Option<usize> = None;
    let mut counted: usize = 0;
    validate_node(pages, root, true, 0, &mut leaf_depth, &mut counted, pages.len())?;
    if counted != len {
        return Err(Violation::Miscounted { counted, len });
    }
    match leaf_depth {
        Some(depth) => {
            proof {
                lemma_audit_depth(
                    models(pages@),
                    N as int,
                    root,
                    true,
                    0,
                    tally(None, 0),
                    pages@.len(),
                );
            }
            validate_sibling_levels(pages, root, len, depth + 1)
        },
        None => Err(Violation::HeightExceeded),
    }
}

/// A check sees no leaf deeper than its fuel allows.
proof fn lemma_audit_depth<K: Ord, V>(
    pages: Pages<K, V>,
    n: int,
    id: usize,
    is_root: bool,
    depth: nat,
    seen: Tally,
    fuel: nat,
)
    requires
        seen.leaf_depth matches Some(d) ==> d < depth + fuel,
    ensures
        audit(pages, n, id, is_root, depth, seen, fuel) matches Ok(next) ==> (
        next.leaf_depth matches Some(d) ==> d < depth + fuel),
    decreases fuel, 1int, 0int,
{
    if fuel > 0 && id < pages.len() && pages[id as int].body is Internal {
        lemma_audit_children_depth(pages, n, pages[id as int], 0, depth, seen, fuel);
    }
}

/// A check of children sees no leaf deeper than its fuel allows.
proof fn lemma_audit_children_depth<K: Ord, V>(
    pages: Pages<K, V>,
    n: int,
    p: Page<K, V, usize>,
    i: int,
    depth: nat,
    seen: Tally,
    fuel: nat,
)
    requires
        seen.leaf_depth matches Some(d) ==> d < depth + fuel,
    ensures
        audit_children(pages, n, p, i, depth, seen, fuel) matches Ok(next) ==> (
        next.leaf_depth matches Some(d) ==> d < depth + fuel),
    decreases fuel, 0int, p.children().len() - i,
{
    if 0 <= i < p.children().len() && fuel > 0 {
        let id = p.children()[i];
        lemma_audit_depth(pages, n, id, false, depth + 1, seen, (fuel - 1) as nat);
        if let Ok(next) = audit(pages, n, id, false, depth + 1, seen, (fuel - 1) as nat) {
            lemma_audit_children_depth(pages, n, p, i + 1, depth, next, fuel);
        }
    }
}

/// The number of records under the places from `a` up to `b` of a level.
spec fn span<K, V>(pages: Pages<K, V>, levels: Seq<Seq<usize>>, d: int, a: int, b: int) -> int
    decreases levels.len() - d,
{
    if d + 1 >= levels.len() {
        flat(items_in(pages), levels[d].subrange(a, b)).len() as int
    } else {
        span(pages, levels, d + 1, offset(pages, levels, d, a), offset(pages, levels, d, b))
    }
}

/// The children of the pages of a level stand side by side.
proof fn lemma_offset<K: Ord, V>(
    pages: Pages<K, V>,
    levels: Seq<Seq<usize>>,
    n: int,
    d: int,
    a: int,
    b: int,
)
    requires
        tree_ok(pages, levels, n),
        0 <= d < levels.len() - 1,
        0 <= a <= b <= levels[d].len(),
    ensures
        0 <= offset(pages, levels, d, a) <= offset(pages, levels, d, b) <= levels[d + 1].len(),
        offset(pages, levels, d, 0) == 0,
        offset(pages, levels, d, levels[d].len() as int) == levels[d + 1].len(),
        b == a + 1 ==> offset(pages, levels, d, b) == offset(pages, levels, d, a)
            + pages[levels[d][a] as int].children().len(),
{
    let f = slots_in(pages);
    let ids = levels[d];
    assert(linked(pages, levels, d));
    assert(ids.take(0) =~= Seq::empty());
    assert(ids.take(ids.len() as int) =~= ids);
    lemma_flat_concat(f, ids.take(a), ids.subrange(a, b));
    assert(ids.take(a) + ids.subrange(a, b) =~= ids.take(b));
    lemma_flat_concat(f, ids.take(b), ids.skip(b));
    assert(ids.take(b) + ids.skip(b) =~= ids);
    assert(flat(f, ids.take(b)).len() <= flat(f, ids).len());
    assert(flat(f, ids).len() == levels[d + 1].len());
    if b == a + 1 {
        lemma_flat_at(f, ids, a);
    }
}

/// Records under neighbouring places add up.
proof fn lemma_span<K: Ord, V>(
    pages: Pages<K, V>,
    levels: Seq<Seq<usize>>,
    n: int,
    d: int,
    a: int,
    b: int,
    c: int,
)
    requires
        tree_ok(pages, levels, n),
        0 <= d < levels.len(),
        0 <= a <= b <= c <= levels[d].len(),
    ensures
        span(pages, levels, d, a, b) + span(pages, levels, d, b, c) == span(
            pages,
            levels,
            d,
            a,
            c,
        ),
        0 <= span(pages, levels, d, a, b),
        a == b ==> span(pages, levels, d, a, b) == 0,
        a == 0 && c == levels[d].len() ==> span(pages, levels, d, a, c) == contents(
            pages,
            levels,
        ).len(),
    decreases levels.len() - d,
{
    if d + 1 == levels.len() {
        let ids = levels[d];
        lemma_flat_concat(items_in(pages), ids.subrange(a, b), ids.subrange(b, c));
        assert(ids.subrange(a, b) + ids.subrange(b, c) =~= ids.subrange(a, c));
        assert(a == b ==> ids.subrange(a, b) =~= Seq::empty());
        assert(ids.subrange(0, ids.len() as int) =~= ids);
    } else {
        lemma_offset(pages, levels, n, d, a, b);
        lemma_offset(pages, levels, n, d, b, c);
        lemma_span(
            pages,
            levels,
            n,
            d + 1,
            offset(pages, levels, d, a),
            offset(pages, levels, d, b),
            offset(pages, levels, d, c),
        );
    }
}

/// The check of a page of a good tree finds no violation.
proof fn lemma_audit_page<K: Ord, V>(
    pages: Pages<K, V>,
    levels: Seq<Seq<usize>>,
    n: int,
    d: int,
    j: int,
    seen: Tally,
    fuel: nat,
)
    requires
        lawful::<K>(),
        tree_ok(pages, levels, n),
        levels.len() > 1 ==> pages[levels[0][0] as int].keys().len() >= 1,
        0 <= d < levels.len(),
        0 <= j < levels[d].len(),
        fuel + d >= levels.len(),
        seen.leaf_depth matches Some(e) ==> e == levels.len() - 1,
        seen.count + span(pages, levels, d, j, j + 1) <= usize::MAX,
    ensures
        audit(pages, n, levels[d][j], d == 0, d as nat, seen, fuel) == Ok::<Tally, Violation>(
            Tally {
                leaf_depth: Some((levels.len() - 1) as nat),
                count: (seen.count + span(pages, levels, d, j, j + 1)) as nat,
            },
        ),
    decreases levels.len() - d, 1int, 0int,
{
    let p = pages[levels[d][j] as int];
    lemma_page(pages, levels, n, d, j);
    if d + 1 == levels.len() {
        lemma_flat_one(items_in(pages), levels[d][j]);
        assert(levels[d].subrange(j, j + 1) =~= seq![levels[d][j]]);
    } else {
        lemma_order::<K>();
        assert(separators_fenced(p)) by {
            assert forall|i: int| 0 <= i < p.keys().len() implies within(
                #[trigger] p.keys()[i],
                p.low,
                p.high,
            ) by {
                assert(between(p.keys()[i], p.low, p.high));
            }
        }
        lemma_offset(pages, levels, n, d, j, j + 1);
        lemma_span(
            pages,
            levels,
            n,
            d + 1,
            offset(pages, levels, d, j),
            offset(pages, levels, d, j + 1),
            levels[d + 1].len() as int,
        );
        lemma_audit_kids(pages, levels, n, d, j, 0, seen, fuel);
    }
}

/// The check of the children of a page of a good tree finds no violation.
proof fn lemma_audit_kids<K: Ord, V>(
    pages: Pages<K, V>,
    levels: Seq<Seq<usize>>,
    n: int,
    d: int,
    j: int,
    i: int,
    seen: Tally,
    fuel: nat,
)
    requires
        lawful::<K>(),
        tree_ok(pages, levels, n),
        levels.len() > 1 ==> pages[levels[0][0] as int].keys().len() >= 1,
        0 <= d < levels.len() - 1,
        0 <= j < levels[d].len(),
        0 <= i <= pages[levels[d][j] as int].children().len(),
        fuel + d >= levels.len(),
        seen.leaf_depth matches Some(e) ==> e == levels.len() - 1,
        seen.count + span(
            pages,
            levels,
            d + 1,
            offset(pages, levels, d, j) + i,
            offset(pages, levels, d, j + 1),
        ) <= usize::MAX,
    ensures
        ({
            let p = pages[levels[d][j] as int];
            audit_children(pages, n, p, i, d as nat, seen, fuel) == Ok::<Tally, Violation>(
                Tally {
                    leaf_depth: if i < p.children().len() {
                        Some((levels.len() - 1) as nat)
                    } else {
                        seen.leaf_depth
                    },
                    count: (seen.count + span(
                        pages,
                        levels,
                        d + 1,
                        offset(pages, levels, d, j) + i,
                        offset(pages, levels, d, j + 1),
                    )) as nat,
                },
            )
        }),
    decreases levels.len() - d, 0int, pages[levels[d][j] as int].children().len() - i,
{
    let p = pages[levels[d][j] as int];
    let q = offset(pages, levels, d, j);
    let end = offset(pages, levels, d, j + 1);
    lemma_offset(pages, levels, n, d, j, j + 1);
    if i < p.children().len() {
        lemma_child(pages, levels, n, d, j, i);
        lemma_order::<K>();
        lemma_span(pages, levels, n, d + 1, q + i, q + i + 1, end);
        lemma_span(pages, levels, n, d + 1, q + i + 1, end, end);
        lemma_audit_page(pages, levels, n, d + 1, q + i, seen, (fuel - 1) as nat);
        let next = Tally {
            leaf_depth: Some((levels.len() - 1) as nat),
            count: (seen.count + span(pages, levels, d + 1, q + i, q + i + 1)) as nat,
        };
        lemma_audit_kids(pages, levels, n, d, j, i + 1, next, fuel);
    } else {
        lemma_span(pages, levels, n, d + 1, end, end, end);
    }
}

/// The check of a sibling chain of a good tree finds no violation.
proof fn lemma_chain<K: Ord, V>(
    pages: Pages<K, V>,
    levels: Seq<Seq<usize>>,
    n: int,
    d: int,
    j: int,
    limit: nat,
)
    requires
        lawful::<K>(),
        tree_ok(pages, levels, n),
        0 <= d < levels.len(),
        0 <= j < levels[d].len(),
        levels[d].len() - j <= limit,
    ensures
        chain_fault(
            pages,
            levels[d][j],
            if j == 0 {
                None
            } else {
                Some(levels[d][j - 1])
            },
            limit,
        ) is None,
    decreases levels[d].len() - j,
{
    lemma_page(pages, levels, n, d, j);
    lemma_order::<K>();
    if j > 0 {
        lemma_page(pages, levels, n, d, j - 1);
    }
    if j + 1 < levels[d].len() {
        lemma_chain(pages, levels, n, d, j + 1, (limit - 1) as nat);
    }
}

/// The first pages of neighbouring levels lead from one to the other.
proof fn lemma_first<K: Ord, V>(pages: Pages<K, V>, levels: Seq<Seq<usize>>, n: int, d: int)
    requires
        tree_ok(pages, levels, n),
        0 <= d < levels.len(),
    ensures
        levels[d].len() > 0,
        d + 1 < levels.len() ==> levels[d + 1].len() > 0 && pages[levels[d][0] as int].body
            is Internal && pages[levels[d][0] as int].children().len() > 0
            && pages[levels[d][0] as int].children()[0] == levels[d + 1][0],
    decreases d,
{
    if d > 0 {
        lemma_first(pages, levels, n, d - 1);
    }
    lemma_page(pages, levels, n, d, 0);
    if d + 1 < levels.len() {
        lemma_child(pages, levels, n, d, 0, 0);
        lemma_offset(pages, levels, n, d, 0, 0);
    }
}

/// A sequence that takes at least one element for each page is no shorter
/// than there are pages.
proof fn lemma_flat_long<T>(f: spec_fn(usize) -> Seq<T>, ids: Seq<usize>)
    requires
        forall|k: int| 0 <= k < ids.len() ==> f(#[trigger] ids[k]).len() >= 1,
    ensures
        flat(f, ids).len() >= ids.len(),
    decreases ids.len(),
{
    if ids.len() > 0 {
        let j = ids.len() - 1;
        lemma_flat_at(f, ids, j);
        assert forall|k: int| 0 <= k < ids.take(j).len() implies f(
            #[trigger] ids.take(j)[k],
        ).len() >= 1 by {
            assert(ids.take(j)[k] == ids[k]);
        }
        lemma_flat_long(f, ids.take(j));
        assert(f(ids[j]).len() >= 1);
    }
}

/// No level has more pages than there are records, but for a single page.
proof fn lemma_width<K: Ord, V>(pages: Pages<K, V>, levels: Seq<Seq<usize>>, n: int, d: int)
    requires
        tree_ok(pages, levels, n),
        3 <= n,
        0 <= d < levels.len(),
    ensures
        levels[d].len() <= 1 || levels[d].len() <= contents(pages, levels).len(),
    decreases levels.len() - d,
{
    let ids = levels[d];
    if d + 1 < levels.len() {
        assert forall|k: int| 0 <= k < ids.len() implies slots_in(pages)(
            #[trigger] ids[k],
        ).len() >= 1 by {
            lemma_page(pages, levels, n, d, k);
        }
        lemma_flat_long(slots_in(pages), ids);
        assert(linked(pages, levels, d));
        lemma_width(pages, levels, n, d + 1);
    } else if ids.len() > 1 {
        assert(levels[0].len() == 1);
        assert forall|k: int| 0 <= k < ids.len() implies items_in(pages)(
            #[trigger] ids[k],
        ).len() >= 1 by {
            lemma_page(pages, levels, n, d, k);
        }
        lemma_flat_long(items_in(pages), ids);
    }
}

/// The check of the sibling chains of a good tree finds no violation.
proof fn lemma_levels<K: Ord, V>(
    pages: Pages<K, V>,
    levels: Seq<Seq<usize>>,
    n: int,
    d: int,
    limit: nat,
)
    requires
        lawful::<K>(),
        3 <= n,
        tree_ok(pages, levels, n),
        0 <= d < levels.len(),
        1 <= limit,
        contents(pages, levels).len() <= limit,
    ensures
        levels_fault(pages, levels[d][0], limit, (levels.len() - d) as nat) is None,
    decreases levels.len() - d,
{
    lemma_first(pages, levels, n, d);
    lemma_width(pages, levels, n, d);
    lemma_chain(pages, levels, n, d, 0, limit);
    if d + 1 < levels.len() {
        lemma_levels(pages, levels, n, d + 1, limit);
    }
}

/// A good tree whose counter is right passes the check.
pub proof fn lemma_good_tree_passes<K: Ord, V>(
    pages: Pages<K, V>,
    levels: Seq<Seq<usize>>,
    n: int,
)
    requires
        lawful::<K>(),
        3 <= n,
        tree_ok(pages, levels, n),
        levels.len() > 1 ==> pages[levels[0][0] as int].keys().len() >= 1,
        levels.len() <= pages.len(),
        contents(pages, levels).len() <= usize::MAX,
    ensures
        tree_fault(pages, n, levels[0][0], contents(pages, levels).len()) is None,
{
    lemma_page(pages, levels, n, 0, 0);
    lemma_span(pages, levels, n, 0, 0, 1, 1);
    lemma_audit_page(pages, levels, n, 0, 0, tally(None, 0), pages.len());
    let len = contents(pages, levels).len();
    lemma_levels(pages, levels, n, 0, chain_limit(len, levels.len()));
}

/// The records that a depth-first walk from the page `id` meets.
pub open spec fn gather<K, V>(pages: Pages<K, V>, id: usize, fuel: nat) -> Seq<(K, V)>
    decreases fuel, 1int, 0int,
{
    if fuel == 0 || id >= pages.len() {
        Seq::empty()
    } else {
        match pages[id as int].body {
            Body::Leaf(s) => s,
            Body::Internal(_, c) => gather_children(pages, c, 0, fuel),
            Body::Redirect(_) => Seq::empty(),
        }
    }
}

/// The records that a depth-first walk from the children `c` meets, from the
/// child `i` on.
pub open spec fn gather_children<K, V>(
    pages: Pages<K, V>,
    c: Seq<usize>,
    i: int,
    fuel: nat,
) -> Seq<(K, V)>
    decreases fuel, 0int, c.len() - i,
{
    if i < 0 || i >= c.len() || fuel == 0 {
        Seq::empty()
    } else {
        gather(pages, c[i], (fuel - 1) as nat) + gather_children(pages, c, i + 1, fuel)
    }
}

/// Whether every record lies between two fences.
spec fn all_within<K: Ord, V>(s: Seq<(K, V)>, low: Option<K>, high: Option<K>) -> bool {
    forall|i: int| 0 <= i < s.len() ==> within((#[trigger] s[i]).0, low, high)
}

/// Fences that are equal in key order bound the same keys.
proof fn lemma_same_fences<K: Ord, V>(
    s: Seq<(K, V)>,
    low: Option<K>,
    high: Option<K>,
    low2: Option<K>,
    high2: Option<K>,
)
    requires
        lawful::<K>(),
        same_fence(low, low2),
        same_fence(high, high2),
        all_within(s, low, high),
    ensures
        all_within(s, low2, high2),
{
    lemma_order::<K>();
    assert forall|i: int| 0 <= i < s.len() implies within((#[trigger] s[i]).0, low2, high2) by {
        let k = s[i].0;
        assert(within(k, low, high));
        if let (Some(a), Some(b)) = (low, low2) {
            assert(!lt(k, a) && !lt(a, b));
            assert(!lt(k, b));
        }
        if let (Some(a), Some(b)) = (high, high2) {
            if !lt(k, b) {
                assert(!lt(k, b) && !lt(b, a));
                assert(!lt(k, a));
            }
        }
    }
}

/// What passes the check from a page on is sorted, counted, and between the
/// fences of the page.
proof fn lemma_audit_sorted<K: Ord, V>(
    pages: Pages<K, V>,
    n: int,
    id: usize,
    is_root: bool,
    depth: nat,
    seen: Tally,
    fuel: nat,
)
    requires
        lawful::<K>(),
        audit(pages, n, id, is_root, depth, seen, fuel) is Ok,
    ensures
        id < pages.len(),
        ({
            let s = gather(pages, id, fuel);
            &&& sorted(s)
            &&& all_within(s, pages[id as int].low, pages[id as int].high)
            &&& audit(pages, n, id, is_root, depth, seen, fuel)->Ok_0.count == seen.count
                + s.len()
        }),
    decreases fuel, 1int, 0int,
{
    let p = pages[id as int];
    if p.body is Internal {
        lemma_audit_children_sorted(pages, n, p, 0, depth, seen, fuel);
        let s = gather(pages, id, fuel);
        assert(p.child_low(0) == p.low);
    } else {
        assert(records_fenced(p));
        assert(gather(pages, id, fuel) == p.items());
    }
}

/// What passes the check from a child on is sorted, counted, and between the
/// lower bound of the child and the upper fence of its parent.
proof fn lemma_audit_children_sorted<K: Ord, V>(
    pages: Pages<K, V>,
    n: int,
    p: Page<K, V, usize>,
    i: int,
    depth: nat,
    seen: Tally,
    fuel: nat,
)
    requires
        lawful::<K>(),
        fuel > 0,
        p.body is Internal,
        body_fault(p, false) is None,
        0 <= i <= p.children().len(),
        audit_children(pages, n, p, i, depth, seen, fuel) is Ok,
    ensures
        ({
            let s = gather_children(pages, p.children(), i, fuel);
            &&& sorted(s)
            &&& i < p.children().len() ==> all_within(s, p.child_low(i), p.high)
            &&& audit_children(pages, n, p, i, depth, seen, fuel)->Ok_0.count == seen.count
                + s.len()
        }),
    decreases fuel, 0int, p.children().len() - i,
{
    let c = p.children();
    if i < c.len() {
        let id = c[i];
        let child = pages[id as int];
        let next = audit(pages, n, id, false, depth + 1, seen, (fuel - 1) as nat)->Ok_0;
        lemma_audit_sorted(pages, n, id, false, depth + 1, seen, (fuel - 1) as nat);
        lemma_audit_children_sorted(pages, n, p, i + 1, depth, next, fuel);
        let a = gather(pages, id, (fuel - 1) as nat);
        let b = gather_children(pages, c, i + 1, fuel);
        let s = gather_children(pages, c, i, fuel);
        lemma_same_fences(a, child.low, child.high, p.child_low(i), p.child_high(i));
        lemma_order::<K>();
        if i + 1 < c.len() {
            let k = p.keys()[i];
            assert(within(k, p.low, p.high));
            if i > 0 {
                assert(lt(p.keys()[i - 1], k));
            }
            assert forall|x: int| 0 <= x < a.len() implies lt((#[trigger] a[x]).0, k) by {
                assert(within(a[x].0, p.child_low(i), p.child_high(i)));
            }
            assert forall|y: int| 0 <= y < b.len() implies !lt((#[trigger] b[y]).0, k) by {
                assert(within(b[y].0, p.child_low(i + 1), p.high));
            }
            assert forall|x: int, y: int| 0 <= x < y < s.len() implies lt(
                (#[trigger] s[x]).0,
                (#[trigger] s[y]).0,
            ) by {
                if y < a.len() {
                    assert(lt(a[x].0, a[y].0));
                } else if x >= a.len() {
                    assert(lt(b[x - a.len()].0, b[y - a.len()].0));
                } else {
                    assert(lt(a[x].0, k) && !lt(b[y - a.len()].0, k));
                    if !lt(a[x].0, b[y - a.len()].0) {
                        assert(!lt(a[x].0, k));
                    }
                }
            }
            assert forall|x: int| 0 <= x < s.len() implies within(
                (#[trigger] s[x]).0,
                p.child_low(i),
                p.high,
            ) by {
                if x < a.len() {
                    assert(within(a[x].0, p.child_low(i), p.child_high(i)));
                    assert(lt(a[x].0, k));
                } else {
                    let key = b[x - a.len()].0;
                    assert(within(key, p.child_low(i + 1), p.high));
                    assert(!lt(key, k));
                    if let Some(l) = p.child_low(i) {
                        assert(!lt(k, l));
                    }
                }
            }
        } else {
            assert(b =~= Seq::empty());
            assert(s =~= a);
        }
    } else {
        assert(gather_children(pages, c, i, fuel) =~= Seq::empty());
    }
}

/// A tree that passes the check has its records in strictly ascending key
/// order, in the number that its counter says.
pub proof fn law_passing_tree<K: Ord, V>(pages: Pages<K, V>, n: int, root: usize, len: nat)
    requires
        lawful::<K>(),
        tree_fault(pages, n, root, len) is None,
    ensures
        sorted(gather(pages, root, pages.len())),
        gather(pages, root, pages.len()).len() == len,
{
    lemma_audit_sorted(pages, n, root, true, 0, tally(None, 0), pages.len());
}

/// Whether a page is joined to its parent: its fences are the bounds that the
/// parent gives its child at `i`.
pub open spec fn joined<K: Ord, V>(pages: Pages<K, V>, p: Page<K, V, usize>, i: int) -> bool {
    let child = pages[p.children()[i] as int];
    &&& p.children()[i] < pages.len()
    &&& same_fence(child.low, p.child_low(i))
    &&& same_fence(child.high, p.child_high(i))
}

/// Whether the page `id` is active, marked as root if it is the root alone,
/// filled to its minimum and not beyond its capacity, with its content in
/// order and inside its fences; and, down to the leaves, which all lie
/// `height` levels below it, its children are so too and joined to it.
pub open spec fn grown<K: Ord, V>(
    pages: Pages<K, V>,
    n: int,
    id: usize,
    is_root: bool,
    height: nat,
) -> bool
    decreases height,
{
    let p = pages[id as int];
    &&& id < pages.len()
    &&& p.body !is Redirect
    &&& p.is_root == is_root
    &&& p.occupancy() <= n
    &&& !is_root ==> p.occupancy() >= p.minimum(n)
    &&& if height == 0 {
        &&& p.body is Leaf
        &&& sorted(p.items())
        &&& records_fenced(p)
    } else {
        &&& p.body is Internal
        &&& p.children().len() == p.keys().len() + 1
        &&& is_root ==> p.keys().len() > 0
        &&& ascending(p.keys())
        &&& separators_fenced(p)
        &&& forall|i: int|
            0 <= i < p.children().len() ==> joined(pages, p, i) && grown(
                pages,
                n,
                #[trigger] p.children()[i],
                false,
                (height - 1) as nat,
            )
    }
}

/// Pages that have grown as they should pass the check.
proof fn lemma_grown_passes<K: Ord, V>(
    pages: Pages<K, V>,
    n: int,
    id: usize,
    is_root: bool,
    depth: nat,
    seen: Tally,
    fuel: nat,
    height: nat,
)
    requires
        grown(pages, n, id, is_root, height),
        height < fuel,
        seen.leaf_depth matches Some(d) ==> d == depth + height,
        seen.count + gather(pages, id, fuel).len() <= usize::MAX,
    ensures
        audit(pages, n, id, is_root, depth, seen, fuel) == Ok::<Tally, Violation>(
            Tally {
                leaf_depth: Some(depth + height),
                count: seen.count + gather(pages, id, fuel).len(),
            },
        ),
    decreases fuel, 1int, 0int,
{
    let p = pages[id as int];
    if height > 0 {
        lemma_grown_children_pass(pages, n, p, 0, depth, seen, fuel, (height - 1) as nat);
    }
}

proof fn lemma_grown_children_pass<K: Ord, V>(
    pages: Pages<K, V>,
    n: int,
    p: Page<K, V, usize>,
    i: int,
    depth: nat,
    seen: Tally,
    fuel: nat,
    height: nat,
)
    requires
        0 <= i <= p.children().len(),
        forall|k: int|
            i <= k < p.children().len() ==> joined(pages, p, k) && grown(
                pages,
                n,
                #[trigger] p.children()[k],
                false,
                height,
            ),
        height + 1 < fuel,
        seen.leaf_depth matches Some(d) ==> d == depth + 1 + height,
        seen.count + gather_children(pages, p.children(), i, fuel).len() <= usize::MAX,
    ensures
        audit_children(pages, n, p, i, depth, seen, fuel) == Ok::<Tally, Violation>(
            Tally {
                leaf_depth: if i < p.children().len() {
                    Some(depth + 1 + height)
                } else {
                    seen.leaf_depth
                },
                count: seen.count + gather_children(pages, p.children(), i, fuel).len(),
            },
        ),
    decreases fuel, 0int, p.children().len() - i,
{
    if i < p.children().len() {
        let id = p.children()[i];
        let less = (fuel - 1) as nat;
        assert(joined(pages, p, i) && grown(pages, n, p.children()[i], false, height));
        lemma_grown_passes(pages, n, id, false, depth + 1, seen, less, height);
        let next = Tally {
            leaf_depth: Some(depth + 1 + height),
            count: seen.count + gather(pages, id, less).len(),
        };
        lemma_grown_children_pass(pages, n, p, i + 1, depth, next, fuel, height);
    }
}

/// Pages that pass the check have grown as they should.
proof fn lemma_passing_grown<K: Ord, V>(
    pages: Pages<K, V>,
    n: int,
    id: usize,
    is_root: bool,
    depth: nat,
    seen: Tally,
    fuel: nat,
) -> (height: nat)
    requires
        audit(pages, n, id, is_root, depth, seen, fuel) is Ok,
    ensures
        grown(pages, n, id, is_root, height),
        height < fuel,
        seen.leaf_depth matches Some(d) ==> d == depth + height,
        seen.count <= usize::MAX ==> seen.count + gather(pages, id, fuel).len() <= usize::MAX,
        audit(pages, n, id, is_root, depth, seen, fuel)->Ok_0.leaf_depth == Some(depth + height),
        audit(pages, n, id, is_root, depth, seen, fuel)->Ok_0.count == seen.count + gather(
            pages,
            id,
            fuel,
        ).len(),
    decreases fuel, 1int, 0int,
{
    let p = pages[id as int];
    if p.body is Internal {
        let h = lemma_passing_children_grown(pages, n, p, 0, depth, seen, fuel);
        assert(p.children().len() > 0);
        assert(gather(pages, id, fuel) == gather_children(pages, p.children(), 0, fuel));
        h + 1
    } else {
        0
    }
}

proof fn lemma_passing_children_grown<K: Ord, V>(
    pages: Pages<K, V>,
    n: int,
    p: Page<K, V, usize>,
    i: int,
    depth: nat,
    seen: Tally,
    fuel: nat,
) -> (height: nat)
    requires
        fuel > 0,
        0 <= i <= p.children().len(),
        audit_children(pages, n, p, i, depth, seen, fuel) is Ok,
    ensures
        forall|k: int|
            i <= k < p.children().len() ==> joined(pages, p, k) && grown(
                pages,
                n,
                #[trigger] p.children()[k],
                false,
                height,
            ),
        i < p.children().len() ==> height + 1 < fuel,
        i < p.children().len() ==> (seen.leaf_depth matches Some(d) ==> d == depth + 1 + height),
        seen.count <= usize::MAX ==> seen.count + gather_children(
            pages,
            p.children(),
            i,
            fuel,
        ).len() <= usize::MAX,
        audit_children(pages, n, p, i, depth, seen, fuel)->Ok_0.leaf_depth == (if i
            < p.children().len() {
            Some(depth + 1 + height)
        } else {
            seen.leaf_depth
        }),
        audit_children(pages, n, p, i, depth, seen, fuel)->Ok_0.count == seen.count
            + gather_children(pages, p.children(), i, fuel).len(),
    decreases fuel, 0int, p.children().len() - i,
{
    if i < p.children().len() {
        let id = p.children()[i];
        let less = (fuel - 1) as nat;
        let next = audit(pages, n, id, false, depth + 1, seen, less)->Ok_0;
        let h = lemma_passing_grown(pages, n, id, false, depth + 1, seen, less);
        let rest = lemma_passing_children_grown(pages, n, p, i + 1, depth, next, fuel);
        assert(joined(pages, p, i));
        assert forall|k: int| i <= k < p.children().len() implies joined(pages, p, k) && grown(
            pages,
            n,
            #[trigger] p.children()[k],
            false,
            h,
        ) by {
            if k > i {
                assert(rest == h);
            }
        }
        h
    } else {
        0
    }
}

/// The check of a page and all below it accepts exactly what has grown as it
/// should: it finds no violation if and only if that holds for some height,
/// at which the leaves lie, and the records can be counted. It then has seen
/// that depth and that many records.
pub proof fn law_acceptance<K: Ord, V>(
    pages: Pages<K, V>,
    n: int,
    id: usize,
    is_root: bool,
    depth: nat,
    seen: Tally,
    fuel: nat,
)
    requires
        seen.count <= usize::MAX,
    ensures
        audit(pages, n, id, is_root, depth, seen, fuel) is Ok <==> exists|height: nat|
            {
                &&& #[trigger] grown(pages, n, id, is_root, height)
                &&& height < fuel
                &&& seen.leaf_depth matches Some(d) ==> d == depth + height
                &&& seen.count + gather(pages, id, fuel).len() <= usize::MAX
            },
        forall|height: nat|
            audit(pages, n, id, is_root, depth, seen, fuel) is Ok && #[trigger] grown(
                pages,
                n,
                id,
                is_root,
                height,
            ) ==> audit(pages, n, id, is_root, depth, seen, fuel)->Ok_0 == (Tally {
                leaf_depth: Some(depth + height),
                count: seen.count + gather(pages, id, fuel).len(),
            }),
{
    let result = audit(pages, n, id, is_root, depth, seen, fuel);
    if result is Ok {
        let height = lemma_passing_grown(pages, n, id, is_root, depth, seen, fuel);
        assert(grown(pages, n, id, is_root, height));
        assert forall|other: nat| #[trigger] grown(pages, n, id, is_root, other) implies other
            == height by {
            lemma_one_height(pages, n, id, is_root, height, other);
        }
    }
    assert forall|height: nat|
        {
            &&& #[trigger] grown(pages, n, id, is_root, height)
            &&& height < fuel
            &&& seen.leaf_depth matches Some(d) ==> d == depth + height
            &&& seen.count + gather(pages, id, fuel).len() <= usize::MAX
        } implies result is Ok by {
        lemma_grown_passes(pages, n, id, is_root, depth, seen, fuel, height);
    }
}

/// The leaves below a page lie at one height.
proof fn lemma_one_height<K: Ord, V>(
    pages: Pages<K, V>,
    n: int,
    id: usize,
    is_root: bool,
    a: nat,
    b: nat,
)
    requires
        grown(pages, n, id, is_root, a),
        grown(pages, n, id, is_root, b),
    ensures
        a == b,
    decreases a,
{
    if a > 0 && b > 0 {
        let child = pages[id as int].children()[0];
        lemma_one_height(pages, n, child, false, (a - 1) as nat, (b - 1) as nat);
    }
}

/// Whether `row` is a sibling chain: active pages, each leading to the next,
/// which names it as its predecessor and opens where it closes. The first has
/// no predecessor and the last no successor, and the chain is open at both
/// ends.
pub open spec fn sibling_chain<K: Ord, V>(
    pages: Pages<K, V>,
    row: Seq<usize>,
    previous: Option<usize>,
) -> bool {
    &&& row.len() > 0
    &&& forall|j: int|
        0 <= j < row.len() ==> {
            let p = pages[#[trigger] row[j] as int];
            let before = if j == 0 {
                previous
            } else {
                Some(row[j - 1])
            };
            &&& row[j] < pages.len()
            &&& p.body !is Redirect
            &&& p.previous == before
            &&& match before {
                None => p.low is None,
                Some(b) => same_fence(pages[b as int].high, p.low),
            }
            &&& if j + 1 < row.len() {
                p.right == Some(row[j + 1])
            } else {
                p.right is None && p.high is None
            }
        }
}

proof fn lemma_chain_passes<K: Ord, V>(
    pages: Pages<K, V>,
    row: Seq<usize>,
    previous: Option<usize>,
    limit: nat,
)
    requires
        sibling_chain(pages, row, previous),
        row.len() <= limit,
    ensures
        chain_fault(pages, row[0], previous, limit) is None,
    decreases limit,
{
    assert(row[0] < pages.len());
    if row.len() > 1 {
        let rest = row.drop_first();
        assert forall|j: int| 0 <= j < rest.len() implies {
            let p = pages[#[trigger] rest[j] as int];
            let before = if j == 0 {
                Some(row[0])
            } else {
                Some(rest[j - 1])
            };
            &&& rest[j] < pages.len()
            &&& p.body !is Redirect
            &&& p.previous == before
            &&& same_fence(pages[before->0 as int].high, p.low)
            &&& if j + 1 < rest.len() {
                p.right == Some(rest[j + 1])
            } else {
                p.right is None && p.high is None
            }
        } by {
            assert(rest[j] == row[j + 1]);
        }
        lemma_chain_passes(pages, rest, Some(row[0]), (limit - 1) as nat);
    }
}

proof fn lemma_passing_chain<K: Ord, V>(
    pages: Pages<K, V>,
    id: usize,
    previous: Option<usize>,
    limit: nat,
) -> (row: Seq<usize>)
    requires
        chain_fault(pages, id, previous, limit) is None,
    ensures
        sibling_chain(pages, row, previous),
        row.len() <= limit,
        row[0] == id,
    decreases limit,
{
    match pages[id as int].right {
        None => seq![id],
        Some(next) => {
            let rest = lemma_passing_chain(pages, next, Some(id), (limit - 1) as nat);
            let row = seq![id] + rest;
            assert forall|j: int| 0 <= j < row.len() implies {
                let p = pages[#[trigger] row[j] as int];
                let before = if j == 0 {
                    previous
                } else {
                    Some(row[j - 1])
                };
                &&& row[j] < pages.len()
                &&& p.body !is Redirect
                &&& p.previous == before
                &&& match before {
                    None => p.low is None,
                    Some(b) => same_fence(pages[b as int].high, p.low),
                }
                &&& if j + 1 < row.len() {
                    p.right == Some(row[j + 1])
                } else {
                    p.right is None && p.high is None
                }
            } by {
                if j > 0 {
                    assert(row[j] == rest[j - 1]);
                }
            }
            row
        },
    }
}

/// The check of the sibling chain of a level accepts exactly the sibling
/// chains that start at the given page and are not too long.
pub proof fn law_chain_acceptance<K: Ord, V>(pages: Pages<K, V>, start: usize, limit: nat)
    ensures
        chain_fault(pages, start, None, limit) is None <==> exists|row: Seq<usize>|
            #[trigger] sibling_chain(pages, row, None) && row[0] == start && row.len() <= limit,
{
    if chain_fault(pages, start, None, limit) is None {
        let row = lemma_passing_chain(pages, start, None, limit);
        assert(sibling_chain(pages, row, None));
    }
    assert forall|row: Seq<usize>|
        #[trigger] sibling_chain(pages, row, None) && row[0] == start && row.len()
            <= limit implies chain_fault(pages, start, None, limit) is None by {
        lemma_chain_passes(pages, row, None, limit);
    }
}

/// Whether `rows` are the sibling chains of neighbouring levels, each of which
/// starts at the first child of the first page of the one above.
pub open spec fn level_chains<K: Ord, V>(
    pages: Pages<K, V>,
    rows: Seq<Seq<usize>>,
    start: usize,
    limit: nat,
) -> bool {
    &&& rows.len() > 0 ==> rows[0][0] == start
    &&& forall|d: int|
        #![trigger rows[d]]
        0 <= d < rows.len() ==> {
            &&& sibling_chain(pages, rows[d], None)
            &&& rows[d].len() <= limit
            &&& d + 1 < rows.len() ==> {
                let first = pages[rows[d][0] as int];
                &&& first.body is Internal
                &&& first.children().len() > 0
                &&& rows[d + 1][0] == first.children()[0]
            }
        }
}

proof fn lemma_levels_pass<K: Ord, V>(
    pages: Pages<K, V>,
    rows: Seq<Seq<usize>>,
    start: usize,
    limit: nat,
)
    requires
        level_chains(pages, rows, start, limit),
    ensures
        levels_fault(pages, start, limit, rows.len()) is None,
    decreases rows.len(),
{
    if rows.len() > 0 {
        assert(sibling_chain(pages, rows[0], None));
        lemma_chain_passes(pages, rows[0], None, limit);
        if rows.len() > 1 {
            let rest = rows.drop_first();
            let first = pages[start as int];
            assert forall|d: int| #![trigger rest[d]] 0 <= d < rest.len() implies {
                &&& sibling_chain(pages, rest[d], None)
                &&& rest[d].len() <= limit
                &&& d + 1 < rest.len() ==> {
                    let first = pages[rest[d][0] as int];
                    &&& first.body is Internal
                    &&& first.children().len() > 0
                    &&& rest[d + 1][0] == first.children()[0]
                }
            } by {
                assert(rest[d] == rows[d + 1]);
            }
            assert(rest[0] == rows[1]);
            lemma_levels_pass(pages, rest, first.children()[0], limit);
        }
    }
}

proof fn lemma_passing_levels<K: Ord, V>(
    pages: Pages<K, V>,
    start: usize,
    limit: nat,
    height: nat,
) -> (rows: Seq<Seq<usize>>)
    requires
        levels_fault(pages, start, limit, height) is None,
    ensures
        level_chains(pages, rows, start, limit),
        rows.len() == height,
    decreases height,
{
    if height == 0 {
        Seq::empty()
    } else {
        let row = lemma_passing_chain(pages, start, None, limit);
        if height == 1 {
            seq![row]
        } else {
            let next = pages[start as int].children()[0];
            let rest = lemma_passing_levels(pages, next, limit, (height - 1) as nat);
            let rows = seq![row] + rest;
            assert forall|d: int| #![trigger rows[d]] 0 <= d < rows.len() implies {
                &&& sibling_chain(pages, rows[d], None)
                &&& rows[d].len() <= limit
                &&& d + 1 < rows.len() ==> {
                    let first = pages[rows[d][0] as int];
                    &&& first.body is Internal
                    &&& first.children().len() > 0
                    &&& rows[d + 1][0] == first.children()[0]
                }
            } by {
                if d > 0 {
                    assert(rows[d] == rest[d - 1]);
                }
                if d + 1 < rows.len() {
                    assert(rows[d + 1] == rest[d]);
                }
            }
            rows
        }
    }
}

/// The check of a tree accepts it if and only if its root has neither fences
/// nor siblings, all below the root has grown as it should, the counter counts
/// the records, and every level is one sibling chain.
pub proof fn law_tree_acceptance<K: Ord, V>(pages: Pages<K, V>, n: int, root: usize, len: usize)
    ensures
        tree_fault(pages, n, root, len as nat) is None <==> {
            let p = pages[root as int];
            &&& root < pages.len()
            &&& p.low is None && p.high is None
            &&& p.previous is None && p.right is None
            &&& gather(pages, root, pages.len()).len() == len
            &&& exists|height: nat, rows: Seq<Seq<usize>>|
                {
                    &&& #[trigger] grown(pages, n, root, true, height)
                    &&& height < pages.len()
                    &&& rows.len() == height + 1
                    &&& #[trigger] level_chains(
                        pages,
                        rows,
                        root,
                        chain_limit(len as nat, rows.len()),
                    )
                }
        },
{
    let fuel = pages.len();
    let seen = tally(None, 0);
    let found = audit(pages, n, root, true, 0, seen, fuel);
    law_acceptance(pages, n, root, true, 0, seen, fuel);
    if tree_fault(pages, n, root, len as nat) is None {
        let height = lemma_passing_grown(pages, n, root, true, 0, seen, fuel);
        let rows = lemma_passing_levels(
            pages,
            root,
            chain_limit(len as nat, height + 1),
            height + 1,
        );
        assert(grown(pages, n, root, true, height));
        assert(level_chains(pages, rows, root, chain_limit(len as nat, rows.len())));
    }
    assert forall|height: nat, rows: Seq<Seq<usize>>|
        {
            let p = pages[root as int];
            &&& root < pages.len()
            &&& p.low is None && p.high is None
            &&& p.previous is None && p.right is None
            &&& gather(pages, root, pages.len()).len() == len
            &&& #[trigger] grown(pages, n, root, true, height)
            &&& height < pages.len()
            &&& rows.len() == height + 1
            &&& #[trigger] level_chains(pages, rows, root, chain_limit(len as nat, rows.len()))
        } implies tree_fault(pages, n, root, len as nat) is None by {
        lemma_grown_passes(pages, n, root, true, 0, seen, fuel, height);
        lemma_levels_pass(pages, rows, root, chain_limit(len as nat, rows.len()));
    }
}

} // verus!
