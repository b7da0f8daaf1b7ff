use b_link::node::{Balance, MergeRepair, Node};
use b_link::repair::{repair_merged_link, repair_split_backlink};

type Page = Node<u64, u64, usize, 3>;

/// An active leaf that leads to `next`.
fn leading(next: Option<usize>) -> Page {
    let mut page = Page::leaf_root();
    page.fast_insert(1, 10);
    if let Some(next) = next {
        page.set_successor(next);
    }
    page
}

/// A leaf that was merged from `me` into `target`, behind `previous`.
fn retired(me: usize, previous: Option<usize>, target: usize) -> Page {
    let mut left = Page::leaf_root();
    for key in 1..4 {
        left.fast_insert(key, key);
    }
    let mut split = left.split_full(&me, &target);
    left.demote();
    split.right.fast_remove(&3);
    if let Some(previous) = previous {
        left.adopt_predecessor(&previous);
    }
    let mut top = Page::root_from_split(me, split.separator, target);
    assert!(matches!(
        top.balance(0, &me, &mut left, &target, &mut split.right, true),
        Balance::Merged(_)
    ));
    assert_eq!(left.redirect_target(), Some(target));
    assert_eq!(left.predecessor(), previous);
    left
}

fn merged(predecessor: Option<usize>, retired: usize, survivor: usize) -> MergeRepair<usize> {
    MergeRepair {
        predecessor,
        retired,
        survivor,
    }
}

#[test]
fn a_merge_at_the_left_end_clears_the_predecessor() {
    let mut pages = vec![leading(None)];
    pages[0].adopt_predecessor(&7);
    repair_merged_link(&mut pages, merged(None, 1, 0));
    assert_eq!(pages[0].predecessor(), None);
}

#[test]
fn a_merge_repair_joins_the_direct_predecessor() {
    let mut pages = vec![leading(Some(1)), retired(1, Some(0), 2), leading(None)];
    repair_merged_link(&mut pages, merged(Some(0), 1, 2));
    assert_eq!(pages[0].successor(), Some(2));
    assert_eq!(pages[2].predecessor(), Some(0));
}

#[test]
fn a_merge_repair_follows_a_predecessor_that_was_split() {
    // Pages 0, 1 and 2 are what the predecessor was split into.
    let mut pages = vec![
        leading(Some(1)),
        leading(Some(2)),
        leading(Some(3)),
        retired(3, Some(0), 4),
        leading(None),
    ];
    repair_merged_link(&mut pages, merged(Some(0), 3, 4));
    assert_eq!(pages[0].successor(), Some(1));
    assert_eq!(pages[1].successor(), Some(2));
    assert_eq!(pages[2].successor(), Some(4));
    assert_eq!(pages[4].predecessor(), Some(2));
}

#[test]
fn a_merge_repair_goes_back_past_retired_predecessors_and_compacts_them() {
    let mut pages = vec![
        leading(Some(1)),
        retired(1, Some(0), 2),
        retired(2, Some(1), 3),
        retired(3, Some(2), 4),
        retired(4, Some(3), 5),
        leading(None),
    ];
    repair_merged_link(&mut pages, merged(Some(3), 4, 5));
    assert_eq!(pages[0].successor(), Some(5));
    assert_eq!(pages[5].predecessor(), Some(0));
}

#[test]
fn a_merge_repair_goes_on_past_a_survivor_that_was_retired() {
    // The survivor 2 was merged into 3 in turn. The later repair joins that
    // page, and this one leaves its predecessor alone.
    let mut pages = vec![
        leading(Some(1)),
        retired(1, Some(0), 2),
        retired(2, Some(0), 3),
        leading(None),
    ];
    repair_merged_link(&mut pages, merged(Some(0), 1, 2));
    assert_eq!(pages[0].successor(), Some(3));
    assert_eq!(pages[2].predecessor(), None);
    assert_eq!(pages[3].predecessor(), None);
    repair_merged_link(&mut pages, merged(Some(0), 2, 3));
    assert_eq!(pages[3].predecessor(), Some(0));
}

#[test]
fn a_split_repair_names_the_new_page_as_predecessor() {
    let mut pages = vec![leading(Some(1)), leading(None)];
    repair_split_backlink(&mut pages, 0, Some(1));
    assert_eq!(pages[0].successor(), Some(1));
    assert_eq!(pages[1].predecessor(), Some(0));
    // Nothing is behind the last page.
    repair_split_backlink(&mut pages, 1, None);
    assert_eq!(pages[1].successor(), None);
}

#[test]
fn a_split_repair_goes_past_retired_successors() {
    let mut pages = vec![
        leading(Some(1)),
        retired(1, None, 2),
        retired(2, None, 3),
        leading(None),
    ];
    repair_split_backlink(&mut pages, 0, Some(1));
    assert_eq!(pages[0].successor(), Some(3));
    assert_eq!(pages[3].predecessor(), Some(0));
}

#[test]
fn a_stale_split_repair_changes_nothing() {
    // The new page leads elsewhere by now, or was retired itself.
    let mut pages = vec![leading(Some(2)), leading(None), leading(None)];
    repair_split_backlink(&mut pages, 0, Some(1));
    assert_eq!(pages[0].successor(), Some(2));
    assert_eq!(pages[1].predecessor(), None);
    assert_eq!(pages[2].predecessor(), None);

    let mut pages = vec![retired(0, None, 1), leading(None)];
    repair_split_backlink(&mut pages, 0, Some(1));
    assert_eq!(pages[1].predecessor(), None);
}
