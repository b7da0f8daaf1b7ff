use std::collections::BTreeMap;

use b_link::handle::KeyHandle;
use b_link::node::InternalNode;
use b_link::tree::Tree;

type TestTree = Tree<u64, u64, 3>;

#[test]
fn separator_equality_selects_the_right_child() {
    let mut internal = InternalNode::<u64, usize, 3>::over(0, KeyHandle::new(10), 1);
    internal.insert_split(1, KeyHandle::new(20), 2);

    assert_eq!(internal.child_index(&5), 0);
    assert_eq!(internal.child_index(&10), 1);
    assert_eq!(internal.child_index(&15), 1);
    assert_eq!(internal.child_index(&20), 2);
}

#[test]
fn ascending_insert_remove_reinsert_preserves_all_invariants() {
    let mut tree = TestTree::new();

    for key in 0..2_000 {
        assert_eq!(tree.insert(key, key * 2), None);
    }
    tree.validate().unwrap();

    for key in 0..2_000 {
        assert_eq!(tree.remove(&key), Some(key * 2));
        if key % 127 == 0 {
            tree.validate().unwrap();
        }
    }
    assert_eq!(tree.len(), 0);
    assert_eq!(tree.height(), 1);
    tree.validate().unwrap();

    for key in (0..2_000).rev() {
        tree.insert(key, key + 1);
    }
    tree.validate().unwrap();
}

#[test]
fn differential_trace_matches_btree_map() {
    let mut tree = Tree::<u64, u64, 5>::new();
    let mut model = BTreeMap::new();
    let mut state = 0x9e37_79b9_7f4a_7c15_u64;

    for step in 0..20_000_u64 {
        state ^= state << 7;
        state ^= state >> 9;
        state ^= state << 8;
        let key = state % 500;

        match state % 4 {
            0 | 1 => {
                let value = state ^ step;
                assert_eq!(tree.insert(key, value), model.insert(key, value));
            }
            2 => assert_eq!(tree.remove(&key), model.remove(&key)),
            _ => {
                let actual = tree.get(&key).map(|spot| *tree.record(spot).1);
                assert_eq!(actual, model.get(&key).copied());
            }
        }

        if step % 251 == 0 {
            tree.validate().unwrap();
            assert_eq!(tree.len(), model.len());
        }
    }

    tree.validate().unwrap();
}

#[test]
fn boundary_lookups_find_the_neighbours() {
    let mut tree = TestTree::new();
    assert!(tree.first_entry().is_none());
    assert!(tree.last_entry().is_none());
    assert!(tree.entry_at_or_after(&5, true).is_none());

    for key in 0..100 {
        tree.insert(key * 10, key);
    }
    let at = |key: u64, inclusive: bool| {
        tree.entry_at_or_after(&key, inclusive)
            .map(|spot| *tree.record(spot).0)
    };
    assert_eq!(at(0, true), Some(0));
    assert_eq!(at(0, false), Some(10));
    assert_eq!(at(995, true), None);
    assert_eq!(at(990, true), Some(990));
    assert_eq!(at(990, false), None);
    for key in 1..99 {
        assert_eq!(at(key * 10, true), Some(key * 10));
        assert_eq!(at(key * 10, false), Some(key * 10 + 10));
        assert_eq!(at(key * 10 + 1, true), Some(key * 10 + 10));
        assert_eq!(at(key * 10 + 1, false), Some(key * 10 + 10));
    }
    assert_eq!(*tree.record(tree.first_entry().unwrap()).0, 0);
    assert_eq!(*tree.record(tree.last_entry().unwrap()).0, 990);
    assert_eq!(*tree.key_at(tree.last_entry().unwrap()).get(), 990);
}

#[test]
fn values_change_in_place() {
    let mut tree = TestTree::new();
    for key in 0..20 {
        tree.insert(key, 0);
    }
    let spot = tree.get(&13).unwrap();
    let (key, value) = tree.record_mut(spot);
    assert_eq!(*key, 13);
    *value = 130;
    assert_eq!(*tree.record(tree.get(&13).unwrap()).1, 130);
    assert_eq!(*tree.record(tree.get(&12).unwrap()).1, 0);
    tree.validate().unwrap();
}

#[test]
fn a_cursor_advances_while_the_tree_changes() {
    let mut tree = TestTree::new();
    for key in 0..300 {
        tree.insert(key * 4, key);
    }
    // The cursor keeps its last key only, and looks behind it after every
    // change. Keys divisible by 8 stay, the others come and go around it.
    let mut last = None;
    let mut stayed = 0;
    let mut step = 0;
    loop {
        let spot = match last {
            None => tree.first_entry(),
            Some(key) => tree.entry_at_or_after(&key, false),
        };
        let Some(spot) = spot else {
            break;
        };
        let key = *tree.record(spot).0;
        if let Some(last) = last {
            assert!(last < key);
        }
        if key % 8 == 0 {
            assert_eq!(key, stayed * 8);
            stayed += 1;
        }
        last = Some(key);
        step += 1;
        tree.insert(key | 1, 0);
        tree.insert((key + 20) | 2, 0);
        tree.remove(&(key | 4));
        tree.remove(&((key + 40) | 4));
        if step % 50 == 0 {
            tree.validate().unwrap();
        }
        assert!(step < 5_000);
        if key > 1_300 {
            break;
        }
    }
    assert_eq!(stayed, 150);
    tree.validate().unwrap();
}
