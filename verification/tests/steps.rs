use b_link::handle::KeyHandle;
use b_link::node::{
    borrow_from_left, borrow_from_right, merge_left_into_right, Balance, FastInsert, FastRemove,
    InsertStep, InternalNode, Link, LinkPass, LinkRepair, Node, Pursuit, RemoveStep, Scan, Seek,
};

type Page = Node<u64, u64, usize, 3>;

fn leaf(keys: &[u64]) -> Page {
    let mut page = Page::leaf_root();
    for key in keys {
        page.fast_insert(*key, key * 10);
    }
    page
}

/// The two halves of a leaf with the keys 1, 2 and 3, parted at 2, as the pages
/// 1 and 2 of a root.
fn halves() -> (Page, Page, Page) {
    let mut left = leaf(&[1, 2, 3]);
    let split = left.split_full(&1, &2);
    assert_eq!(*split.separator.get(), 2);
    assert!(split.old_successor.is_none());
    left.demote();
    (Page::root_from_split(1, split.separator, 2), left, split.right)
}

#[test]
fn a_stale_traversal_moves_right_or_starts_again() {
    let (top, left, right) = halves();
    // Above its upper fence a page sends a traversal to its successor.
    assert!(matches!(left.seek(&1), Seek::Arrived));
    assert!(matches!(left.seek(&2), Seek::Visit(2)));
    assert!(matches!(left.seek(&9), Seek::Visit(2)));
    // Below its lower fence the traversal starts again.
    assert!(matches!(right.seek(&1), Seek::Restart));
    assert!(matches!(right.seek(&2), Seek::Arrived));
    // An internal page sends it to a child.
    assert!(matches!(top.seek(&1), Seek::Visit(1)));
    assert!(matches!(top.seek(&2), Seek::Visit(2)));
    // A retired page forwards it.
    assert!(matches!(Page::forwarding(7).seek(&1), Seek::Visit(7)));
}

#[test]
fn fast_paths_decline_what_needs_another_page() {
    let mut page = leaf(&[1, 2, 3]);
    assert!(matches!(page.fast_insert(4, 40), FastInsert::Reshape(4, 40)));
    assert!(matches!(page.fast_insert(2, 21), FastInsert::Done(Some(20), false)));
    // A root may become empty.
    for key in 1..4 {
        assert!(matches!(page.fast_remove(&key), FastRemove::Done(Some(_))));
    }
    assert!(matches!(page.fast_remove(&1), FastRemove::Done(None)));
    assert!(matches!(page.fast_insert(4, 40), FastInsert::Done(None, true)));

    let (_, mut left, mut right) = halves();
    assert!(matches!(left.fast_remove(&1), FastRemove::Reshape));
    assert!(matches!(left.fast_remove(&0), FastRemove::Done(None)));
    assert!(matches!(right.fast_remove(&2), FastRemove::Done(Some(20))));
    assert!(matches!(right.fast_remove(&3), FastRemove::Reshape));
}

#[test]
fn an_insertion_pass_descends_splits_and_retries() {
    let (mut top, mut left, mut right) = halves();
    assert!(matches!(top.insert_step(5, 50), InsertStep::Child(1, 2, 5, 50)));
    assert!(matches!(left.insert_step(5, 50), InsertStep::Right(2, 5, 50)));
    assert!(matches!(right.insert_step(1, 10), InsertStep::Retry(1, 10)));
    assert!(matches!(right.insert_step(5, 50), InsertStep::Done(None, true)));
    assert!(matches!(right.insert_step(6, 60), InsertStep::Retry(6, 60)));
    assert!(matches!(left.insert_step(1, 11), InsertStep::Done(Some(10), false)));

    // The full right page is split below its parent.
    let split = top.split_child(1, &mut right, &2, &3);
    assert_eq!(*split.separator.get(), 3);
    assert!(split.takes(&3));
    assert!(!split.takes(&2));
    assert_eq!((right.occupancy(), split.right.occupancy()), (1, 2));
    assert_eq!(right.successor(), Some(3));
    assert_eq!(split.right.predecessor(), Some(2));
    assert_eq!(top.child_count(), 3);
    assert_eq!(top.child(2), Some(3));
    assert_eq!(top.child(3), None);
}

#[test]
fn a_deletion_pass_borrows_and_merges() {
    let (mut top, mut left, mut right) = halves();
    assert!(matches!(top.remove_step(&1), RemoveStep::Pair(0, 1, 2, false)));
    assert!(matches!(top.remove_step(&2), RemoveStep::Pair(0, 1, 2, true)));
    assert!(matches!(left.remove_step(&1), RemoveStep::Retry));
    assert!(matches!(left.remove_step(&5), RemoveStep::Right(2)));
    assert!(matches!(right.remove_step(&1), RemoveStep::Retry));

    // The left page is minimal and borrows the first record of the right one.
    let balance = top.balance(0, &1, &mut left, &2, &mut right, false);
    assert!(!balance.continues_right(false));
    assert!(balance.continues_right(true));
    assert!(matches!(balance, Balance::Borrowed));
    assert_eq!(*top.separator_at(0), 3);
    assert_eq!((left.occupancy(), right.occupancy()), (2, 1));
    assert!(matches!(left.remove_step(&9), RemoveStep::Right(2)));
    assert!(matches!(left.remove_step(&1), RemoveStep::Done(Some(10))));

    // Nothing is left to borrow: the left page is merged into the right one.
    let balance = top.balance(0, &1, &mut left, &2, &mut right, true);
    assert!(balance.continues_right(false));
    let Balance::Merged(repair) = balance else {
        panic!("two minimal pages merge");
    };
    assert!(repair.predecessor.is_none());
    assert_eq!((repair.retired, repair.survivor), (1, 2));
    assert_eq!(left.redirect_target(), Some(2));
    assert_eq!(right.occupancy(), 2);
    assert_eq!(right.low_fence(), None);
    assert_eq!(top.occupancy(), 0);

    // The root gives way to its only child.
    assert_eq!(top.heir(), Some(2));
    assert!(matches!(top.remove_step(&2), RemoveStep::Retry));
    right.crown();
    top.abdicate(2);
    assert!(right.is_root());
    assert!(!top.is_root());
    assert_eq!(top.heir(), Some(2));
    assert_eq!(right.heir(), None);
    assert!(matches!(right.remove_step(&7), RemoveStep::Done(None)));
}

#[test]
fn a_right_child_borrows_from_its_left_sibling() {
    let (mut top, mut left, mut right) = halves();
    right.fast_remove(&3);
    left.fast_insert(0, 0);
    assert!(matches!(
        top.balance(0, &1, &mut left, &2, &mut right, true),
        Balance::Borrowed
    ));
    assert_eq!(*top.separator_at(0), 1);
    assert_eq!(left.high_fence(), Some(&1));
    assert_eq!(right.low_fence(), Some(&1));
    assert_eq!(right.record_at(0), (&1, &10));
    // A child above its minimum is left alone.
    assert!(matches!(
        top.balance(0, &1, &mut left, &2, &mut right, true),
        Balance::Kept
    ));
}

#[test]
fn a_split_page_becomes_the_predecessor_of_the_next_one() {
    let (_, mut left, mut right) = halves();
    assert!(left.leads_to(&2));
    assert!(!left.leads_to(&3));
    assert!(!Page::forwarding(2).leads_to(&2));
    assert_eq!(right.adopt_predecessor(&5), None);
    assert_eq!(right.predecessor(), Some(5));
    assert_eq!(Page::forwarding(8).adopt_predecessor(&5), Some(8));
    left.set_successor(6);
    assert_eq!(left.successor(), Some(6));
    right.clear_predecessor();
    assert_eq!(right.predecessor(), None);
}

#[test]
fn a_retired_page_is_spliced_out_of_the_chain() {
    let (_, mut left, mut right) = halves();
    // The page leads to the retired one.
    assert!(matches!(left.splice_step(&2, &7), LinkRepair::Replaced));
    assert_eq!(left.successor(), Some(7));
    // It leads to the survivor already.
    assert!(matches!(left.splice_step(&2, &7), LinkRepair::Attached));
    // It leads elsewhere.
    assert!(matches!(left.splice_step(&2, &3), LinkRepair::Next(7)));
    // The chain ends.
    assert!(matches!(right.splice_step(&2, &3), LinkRepair::Leftmost));
    // The page was retired itself.
    let mut retired = Page::forwarding(4);
    assert!(matches!(retired.splice_step(&2, &3), LinkRepair::Restart(None, 4)));

    assert_eq!(left.attach(&1, &mut right), None);
    assert_eq!(right.predecessor(), Some(1));
    assert_eq!(left.attach(&1, &mut Page::forwarding(9)), Some(9));
    assert_eq!(left.successor(), Some(9));

    assert!(matches!(left.splice_past(&right, &3), LinkPass::Advance));
    assert_eq!(left.successor(), Some(9));
    assert!(matches!(left.splice_past(&Page::forwarding(5), &3), LinkPass::Compacted));
    assert_eq!(left.successor(), Some(5));
    assert!(matches!(left.splice_past(&Page::forwarding(3), &3), LinkPass::Joined));
    assert_eq!(left.successor(), Some(3));
}

#[test]
fn descents_and_scans_go_along_the_chain() {
    let (top, left, right) = halves();
    assert!(matches!(top.descend_first(), Seek::Visit(1)));
    assert!(matches!(top.descend_last(), Seek::Visit(2)));
    assert!(matches!(left.descend_first(), Seek::Arrived));
    assert!(matches!(left.descend_last(), Seek::Visit(2)));
    assert!(matches!(right.descend_last(), Seek::Arrived));
    assert!(matches!(Page::forwarding(4).descend_first(), Seek::Visit(4)));
    assert!(matches!(Page::forwarding(4).descend_last(), Seek::Visit(4)));

    assert!(matches!(left.scan_first(), Scan::Found(0)));
    assert!(matches!(right.scan_last(), Scan::Found(1)));
    assert!(matches!(leaf(&[]).scan_first(), Scan::End));
    assert!(matches!(leaf(&[]).scan_last(), Scan::End));
    assert!(matches!(Page::forwarding(4).scan_first(), Scan::Next(4)));
    assert!(matches!(Page::forwarding(4).scan_last(), Scan::Next(4)));

    // Only a leaf without a lower fence can be the first.
    assert!(matches!(right.scan_first(), Scan::Restart));
    // A leaf with a successor is not the last.
    assert!(matches!(left.scan_last(), Scan::Next(2)));

    assert!(matches!(left.scan_from(&1, true, None), Pursuit::Found(0)));
    let Pursuit::Next(2, Some(fence)) = left.scan_from(&1, false, None) else {
        panic!("the search goes on behind the fence");
    };
    assert_eq!(*fence.get(), 2);
    assert!(matches!(right.scan_from(&1, false, Some(fence)), Pursuit::Found(0)));
    assert!(matches!(right.scan_from(&2, false, None), Pursuit::Found(1)));
    assert!(matches!(right.scan_from(&3, false, None), Pursuit::End));
    assert!(matches!(
        Page::forwarding(4).scan_from(&3, false, None),
        Pursuit::Next(4, None)
    ));
    let fence = KeyHandle::new(2);
    assert!(matches!(
        Page::forwarding(4).scan_from(&3, false, Some(fence.clone())),
        Pursuit::Next(4, Some(_))
    ));
    // The left leaf does not own the fence; the search moves right.
    assert!(matches!(
        left.scan_from(&1, false, Some(fence)),
        Pursuit::Next(2, Some(_))
    ));
}

#[test]
fn page_numbers_are_links() {
    let page: usize = 5;
    assert_eq!(page.share(), 5);
    assert_eq!(page.weaken(), 5);
    assert!(page.same(&5));
    assert!(!page.same(&6));
}

/// The records of a leaf.
fn records(page: &Page) -> Vec<(u64, u64)> {
    (0..page.occupancy())
        .map(|index| {
            let (key, value) = page.record_at(index);
            (*key, *value)
        })
        .collect()
}

#[test]
fn merging_the_halves_gives_back_the_page() {
    let whole = leaf(&[1, 2, 3]);
    let mut left = leaf(&[1, 2, 3]);
    let split = left.split_full(&1, &2);
    let mut right = split.right;
    let mut parent = InternalNode::<u64, usize, 3>::over(1, split.separator, 2);
    let repair = merge_left_into_right(&mut parent, 0, &1, &mut left, &2, &mut right);
    assert_eq!(repair.survivor, 2);
    assert_eq!(records(&right), records(&whole));
    assert_eq!((right.low_fence(), right.high_fence()), (None, None));
    assert_eq!((right.successor(), right.predecessor()), (None, None));
}

#[test]
fn what_was_lent_can_be_borrowed_back() {
    let mut left = leaf(&[1, 2, 3]);
    let split = left.split_full(&1, &2);
    let mut right = split.right;
    let mut parent = InternalNode::<u64, usize, 3>::over(1, split.separator, 2);
    let before = (records(&left), records(&right));

    borrow_from_right(&mut parent, 0, &mut left, &mut right);
    assert_eq!(records(&left), vec![(1, 10), (2, 20)]);
    assert_eq!(records(&right), vec![(3, 30)]);
    borrow_from_left(&mut parent, 0, &mut left, &mut right);
    assert_eq!((records(&left), records(&right)), before);
}

#[test]
fn a_traversal_is_forwarded_past_outstanding_repairs() {
    // Three leaves below a root: 1 holds 1, 2 holds 2, 3 holds 3 and 4.
    let (mut top, left, mut right) = halves();
    right.fast_insert(4, 40);
    let split = top.split_child(1, &mut right, &2, &3);
    let mut pages = vec![top, left, right, split.right];
    // Leaf 3 comes down to its minimum, and leaf 2 is merged into it. The link
    // of leaf 1 is not repaired.
    assert!(matches!(pages[3].fast_remove(&4), FastRemove::Done(Some(40))));
    let mut third = pages.pop().unwrap();
    let mut second = pages.pop().unwrap();
    let balance = pages[0].balance(1, &2, &mut second, &3, &mut third, true);
    assert!(matches!(balance, Balance::Merged(_)));
    pages.push(second);
    pages.push(third);
    assert_eq!(pages[1].successor(), Some(2));

    // Wherever a traversal for a key stands, it arrives at the leaf that holds
    // the key, or starts again.
    for key in 1..5 {
        for start in 0..4 {
            let mut page = start;
            let mut steps = 0;
            loop {
                steps += 1;
                assert!(steps < 10);
                match pages[page].seek(&key) {
                    Seek::Visit(next) => page = next,
                    Seek::Restart => page = 0,
                    Seek::Arrived => break,
                }
            }
            let expected = if key == 1 { 1 } else { 3 };
            assert_eq!(page, expected);
            assert_eq!(pages[page].search(&key).is_ok(), key < 4);
        }
    }
}

#[test]
fn two_minimal_pages_and_a_separator_fit_in_one() {
    for capacity in 3..100_usize {
        assert!(capacity / 2 + capacity / 2 <= capacity);
        assert!((capacity - 1) / 2 + 1 + (capacity - 1) / 2 <= capacity);
    }
    assert_eq!(leaf(&[1]).minimum(), 1);
    let (top, _, _) = halves();
    assert_eq!(top.minimum(), 1);
}

#[test]
fn a_search_does_not_pass_a_record_that_moves_behind_it() {
    let mut top = Page::root_from_split(1, KeyHandle::new(20), 2);
    let mut left = leaf(&[10, 20, 30]);
    let mut right = left.split_full(&1, &2).right;
    left.demote();
    // The search behind 10 leaves the left leaf at the fence 20.
    let Pursuit::Next(2, passed) = left.scan_from(&10, false, None) else {
        panic!("the left leaf is exhausted");
    };
    // The record 20 moves to the left leaf before the right one is looked at.
    assert!(matches!(
        top.balance(0, &1, &mut left, &2, &mut right, false),
        Balance::Borrowed
    ));
    assert_eq!(records(&left), vec![(10, 100), (20, 200)]);
    assert_eq!(records(&right), vec![(30, 300)]);
    // The search starts again, and finds it.
    assert!(matches!(right.scan_from(&10, false, passed), Pursuit::Restart));
    assert!(matches!(left.scan_from(&10, false, None), Pursuit::Found(1)));
}

#[test]
fn a_search_for_the_last_record_follows_a_split() {
    let mut left = leaf(&[10, 20, 30]);
    assert!(matches!(left.descend_last(), Seek::Arrived));
    let split = left.split_full(&1, &2);
    assert!(matches!(left.scan_last(), Scan::Next(2)));
    assert!(matches!(split.right.scan_last(), Scan::Found(1)));
    assert_eq!(split.right.record_at(1), (&30, &300));
}

#[test]
fn a_page_lends_its_only_record_and_borrows_it_back() {
    let mut top = InternalNode::over(1, KeyHandle::new(20), 2);
    let mut left = leaf(&[10, 20, 30]);
    let mut right = left.split_full(&1, &2).right;
    left.demote();
    right.fast_remove(&30);
    borrow_from_left(&mut top, 0, &mut left, &mut right);
    assert_eq!(records(&left), vec![]);
    borrow_from_right(&mut top, 0, &mut left, &mut right);
    assert_eq!(records(&left), vec![(10, 100)]);
    assert_eq!(records(&right), vec![(20, 200)]);
}
