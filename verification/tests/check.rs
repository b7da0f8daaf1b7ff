use std::cell::Cell;
use std::cmp::Ordering;
use std::rc::Rc;

use b_link::check::{
    optional_keys_equal, validate, validate_node, validate_sibling_levels, within_fences, Violation,
};
use b_link::node::{Balance, Node};

type Page<K> = Node<K, u64, usize, 3>;

/// A key whose order can be disturbed from outside.
#[derive(Clone)]
struct Shifty(Rc<Cell<u64>>);

impl Shifty {
    fn of(value: u64) -> Self {
        Shifty(Rc::new(Cell::new(value)))
    }
}

impl PartialEq for Shifty {
    fn eq(&self, other: &Self) -> bool {
        self.cmp(other) == Ordering::Equal
    }
}

impl Eq for Shifty {}

impl PartialOrd for Shifty {
    fn partial_cmp(&self, other: &Self) -> Option<Ordering> {
        Some(self.cmp(other))
    }
}

impl Ord for Shifty {
    fn cmp(&self, other: &Self) -> Ordering {
        self.0.get().cmp(&other.0.get())
    }
}

/// A leaf that is a root and holds the given keys.
fn leaf<K: Ord>(keys: Vec<K>) -> Page<K> {
    let mut page = Page::leaf_root();
    for key in keys {
        page.fast_insert(key, 0);
    }
    page
}

/// A root over the two halves of a leaf with the keys 1, 2 and 3, which are
/// parted at 2. The pages are the root, the left and the right half.
fn two_leaves() -> Vec<Page<u64>> {
    let mut left = leaf(vec![1, 2, 3]);
    let split = left.split_full(&1, &2);
    left.demote();
    vec![Page::root_from_split(1, split.separator, 2), left, split.right]
}

#[test]
fn a_good_tree_passes() {
    assert_eq!(validate(&two_leaves(), 0, 3), Ok(()));
    assert_eq!(validate(&vec![leaf(vec![5u64, 6])], 0, 2), Ok(()));
    assert_eq!(validate(&vec![leaf(Vec::<u64>::new())], 0, 0), Ok(()));
}

#[test]
fn the_root_is_checked() {
    assert_eq!(validate(&Vec::<Page<u64>>::new(), 0, 0), Err(Violation::Dangling));

    let mut page = leaf(vec![1u64]);
    page.set_successor(0);
    assert_eq!(validate(&vec![page], 0, 1), Err(Violation::RootFence));

    let mut page = leaf(vec![1u64]);
    page.demote();
    assert_eq!(validate(&vec![page], 0, 1), Err(Violation::RootUnmarked));

    let mut page = Page::<u64>::forwarding(0);
    page.crown();
    assert_eq!(validate(&vec![page], 0, 0), Err(Violation::RootRetired));

    assert_eq!(validate(&vec![leaf(vec![1u64])], 0, 5), Err(Violation::Miscounted { counted: 1, len: 5 }));
}

#[test]
fn sizes_and_roles_are_checked() {
    // The left half keeps the role of the root.
    let mut left = leaf(vec![1u64, 2, 3]);
    let split = left.split_full(&1, &2);
    let pages = vec![Page::root_from_split(1, split.separator, 2), left, split.right];
    assert_eq!(validate(&pages, 0, 3), Err(Violation::RootRole));

    // The left half loses its only record.
    let mut left = leaf(vec![1u64, 2, 3]);
    let split = left.split_full(&1, &2);
    left.fast_remove(&1);
    left.demote();
    let pages = vec![Page::root_from_split(1, split.separator, 2), left, split.right];
    assert_eq!(validate(&pages, 0, 2), Err(Violation::Underfull));
}

#[test]
fn retired_children_and_empty_roots_are_found() {
    let mut pages = two_leaves();
    let mut right = pages.pop().unwrap();
    let mut left = pages.pop().unwrap();
    let mut top = pages.pop().unwrap();
    // The right leaf is taken down to its minimum, so that both can merge.
    right.fast_remove(&3);
    assert_eq!((left.occupancy(), right.occupancy()), (1, 1));
    assert!(matches!(
        top.balance(0, &1, &mut left, &2, &mut right, false),
        Balance::Merged(_)
    ));

    let stale_top = two_leaves().swap_remove(0);
    let mut pages = vec![stale_top, left, right];
    assert_eq!(validate(&pages, 0, 2), Err(Violation::Retired));
    pages[0] = top;
    assert_eq!(validate(&pages, 0, 2), Err(Violation::EmptyRoot));
}

/// A full internal root with the separators 1, 2 and 3 over the pages 8, 9, 3
/// and 4.
fn wide_internal() -> Page<u64> {
    let mut first = leaf(vec![0, 1, 2]);
    let split = first.split_full(&8, &9);
    let mut page = Page::root_from_split(8, split.separator, 9);
    let mut child = split.right;
    child.fast_insert(3, 0);
    let mut child = page.split_child(1, &mut child, &9, &3).right;
    child.fast_insert(4, 0);
    page.split_child(2, &mut child, &3, &4);
    page
}

#[test]
fn leaves_share_one_depth() {
    // A leaf below 2, and an internal page over two leaves from 2 on.
    let mut low = leaf(vec![1, 2, 3]);
    let split = low.split_full(&1, &2);
    low.demote();
    let mut middle = split.right;
    middle.fast_insert(4, 0);
    let high = middle.split_full(&3, &4).right;
    let inner = wide_internal().split_full(&1, &2).right;

    let pages = vec![Page::root_from_split(1, split.separator, 2), low, inner, middle, high];
    assert_eq!(validate(&pages, 0, 4), Err(Violation::LeafDepth));
}

#[test]
fn order_and_fences_are_checked() {
    let keys: Vec<Shifty> = (1..4).map(Shifty::of).collect();

    // Records out of order.
    let page = leaf(keys.clone());
    keys[0].0.set(9);
    assert_eq!(validate(&vec![page], 0, 3), Err(Violation::LeafOrder));
    keys[0].0.set(1);

    let build = || {
        let mut left = leaf(keys.clone());
        let split = left.split_full(&1, &2);
        left.demote();
        vec![Page::root_from_split(1, split.separator, 2), left, split.right]
    };
    assert_eq!(validate(&build(), 0, 3), Ok(()));

    // A record that left the range of its leaf.
    let pages = build();
    keys[0].0.set(8);
    assert_eq!(validate(&pages, 0, 3), Err(Violation::LeafFence));
    keys[0].0.set(1);

    // A child whose fences are not what its parent gives it.
    let mut pages = build();
    pages[1] = leaf(vec![Shifty::of(1)]);
    assert_eq!(validate(&pages, 0, 3), Err(Violation::ChildFence));

    // A child that does not exist.
    let mut pages = build();
    pages.pop();
    assert_eq!(validate(&pages, 0, 3), Err(Violation::Dangling));
}

#[test]
fn separators_are_checked() {
    let keys: Vec<Shifty> = [1, 2, 3].into_iter().map(Shifty::of).collect();
    let mut left = leaf(keys.clone());
    let mut split = left.split_full(&1, &2);
    left.demote();
    let mut top = Page::root_from_split(1, split.separator, 2);
    split.right.fast_insert(Shifty::of(4), 0);
    let second = top.split_child(1, &mut split.right, &2, &3);
    let pages = vec![top, left, split.right, second.right];
    assert_eq!(validate(&pages, 0, 4), Ok(()));

    // The first separator moves behind the second one.
    keys[1].0.set(7);
    assert_eq!(validate(&pages, 0, 4), Err(Violation::SeparatorOrder));
}

#[test]
fn sibling_chains_are_checked() {
    let mut pages = two_leaves();
    pages.push(Page::forwarding(0));
    pages[2].set_successor(3);
    assert_eq!(validate(&pages, 0, 3), Err(Violation::ChainRetired));

    let mut pages = two_leaves();
    pages[1].adopt_predecessor(&2);
    assert_eq!(validate(&pages, 0, 3), Err(Violation::LeftmostFence));

    let mut pages = two_leaves();
    pages.push(leaf(vec![4]));
    pages[1].set_successor(3);
    assert_eq!(validate(&pages, 0, 3), Err(Violation::SiblingFence));

    let mut pages = two_leaves();
    pages[2].clear_predecessor();
    assert_eq!(validate(&pages, 0, 3), Err(Violation::LostPredecessor));

    let mut pages = two_leaves();
    pages[2].adopt_predecessor(&0);
    assert_eq!(validate(&pages, 0, 3), Err(Violation::WrongPredecessor));

    // Pages behind the last one, one more than the tree allows.
    let mut pages = two_leaves();
    for id in 3..9 {
        let mut page = leaf(Vec::new());
        page.adopt_predecessor(&(id - 1));
        pages[id - 1].set_successor(id);
        pages.push(page);
    }
    assert_eq!(validate(&pages, 0, 3), Err(Violation::ChainCycle));

    let pages = vec![leaf(vec![1u64])];
    assert_eq!(validate_sibling_levels(&pages, 0, 1, 2), Err(Violation::HeightExceeded));
    assert_eq!(validate_sibling_levels(&pages, 0, 1, 1), Ok(()));
}

#[test]
fn a_walk_stops_when_its_fuel_is_spent() {
    let pages = two_leaves();
    let mut depth = None;
    let mut count = 0;
    assert_eq!(
        validate_node(&pages, 0, true, 0, &mut depth, &mut count, 1),
        Err(Violation::Endless)
    );
    assert_eq!(validate_node(&pages, 0, true, 0, &mut depth, &mut count, 2), Ok(()));
    assert_eq!((depth, count), (Some(1), 3));
}

#[test]
fn fences_bound_half_open_intervals() {
    assert!(within_fences(&5, None, None));
    assert!(within_fences(&5, Some(&5), Some(&6)));
    assert!(!within_fences(&5, Some(&6), None));
    assert!(!within_fences(&5, None, Some(&5)));

    assert!(optional_keys_equal::<u64>(None, None));
    assert!(optional_keys_equal(Some(&5), Some(&5)));
    assert!(!optional_keys_equal(Some(&5), Some(&6)));
    assert!(!optional_keys_equal(Some(&5), None));
    assert!(!optional_keys_equal(None, Some(&5)));
}

#[test]
fn violations_describe_themselves() {
    assert_eq!(Violation::Oversized.message(), "page exceeds stable capacity");
    assert_eq!(Violation::Cardinality.message(), "internal child/key cardinality mismatch");
    assert_eq!(Violation::SeparatorFence.message(), "separator lies outside page fences");
    assert_eq!(Violation::RightmostFence.message(), "rightmost page has a finite high fence");
    assert_eq!(
        Violation::Miscounted { counted: 1_204, len: 0 }.message(),
        "entry counter mismatch: leaves contain 1204, len is 0"
    );
    assert_eq!(Violation::Uncountable.message(), "records exceed the entry counter");
}
