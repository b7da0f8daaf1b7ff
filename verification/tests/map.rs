use std::collections::BTreeMap;

use b_link::order::{Probe, Side};
use b_link::BLinkMap;

type TestMap = BLinkMap<u64, u64, 3>;

/// A borrowed form of an owned text key.
struct Text<'a>(&'a str);

impl<'a> Probe<String> for Text<'a> {
    fn side(&self, key: &String) -> Side {
        match self.0.cmp(key.as_str()) {
            std::cmp::Ordering::Less => Side::Before,
            std::cmp::Ordering::Equal => Side::At,
            std::cmp::Ordering::Greater => Side::After,
        }
    }

    fn probes() -> bool {
        true
    }

    fn side_spec(&self, key: String) -> Side {
        self.side(&key)
    }

    fn lemma_probe_consistent(&self) {}
}

#[test]
fn basic_map_operations_and_entry_guards() {
    let mut map = TestMap::new();

    assert!(map.is_empty());
    assert_eq!(map.insert(10, 100), None);
    assert_eq!(map.insert(20, 200), None);
    assert_eq!(map.insert(10, 500), Some(100));
    assert_eq!(map.len(), 2);
    assert!(map.contains_key(&20));

    let entry = map.get(&10).unwrap();
    assert_eq!(entry.key(), &10);
    assert_eq!(entry.value(), &500);

    {
        let mut entry = map.get_mut(&10).unwrap();
        assert_eq!(entry.key(), &10);
        *entry.value_mut() += 1;
    }

    assert_eq!(map.remove(&10), Some(501));
    assert_eq!(map.remove(&10), None);
    assert_eq!(map.len(), 1);
    assert_eq!(map.validate(), Ok(()));
}

#[test]
fn grows_through_leaf_internal_and_root_splits() {
    let mut map = TestMap::new();

    for key in 0..2_000 {
        assert_eq!(map.insert(key, key * 10), None);
    }

    assert!(map.height() >= 4);
    assert_eq!(map.validate(), Ok(()));

    for key in 0..2_000 {
        assert_eq!(map.get(&key).map(|entry| *entry.value()), Some(key * 10));
    }
}

#[test]
fn reverse_insertion_complete_deletion_and_reinsertion() {
    let mut map = TestMap::new();

    for key in (0..1_000).rev() {
        map.insert(key, key);
    }
    for key in 0..1_000 {
        assert_eq!(map.remove(&key), Some(key));
    }

    assert!(map.is_empty());
    assert_eq!(map.validate(), Ok(()));

    for key in (0..1_000).rev() {
        assert_eq!(map.insert(key, key + 1), None);
    }

    assert_eq!(map.validate(), Ok(()));
}

fn differential_trace<const CAPACITY: usize>() {
    let mut map = BLinkMap::<u64, u64, CAPACITY>::new();
    let mut reference = BTreeMap::new();
    let mut state = 0x9e37_79b9_7f4a_7c15_u64;

    for step in 0..20_000 {
        state = state
            .wrapping_mul(6_364_136_223_846_793_005)
            .wrapping_add(1_442_695_040_888_963_407);

        let key = (state >> 17) % 400;
        let value = state.rotate_left(23);

        match state % 4 {
            0 | 1 => {
                assert_eq!(map.insert(key, value), reference.insert(key, value));
            }
            2 => {
                assert_eq!(map.remove(&key), reference.remove(&key));
            }
            _ => {
                assert_eq!(
                    map.get(&key).map(|entry| *entry.value()),
                    reference.get(&key).copied()
                );
            }
        }

        if step % 257 == 0 {
            assert_eq!(map.validate(), Ok(()));
        }
    }

    assert_eq!(map.len(), reference.len());
    for key in 0..400 {
        assert_eq!(
            map.get(&key).map(|entry| *entry.value()),
            reference.get(&key).copied()
        );
    }
    assert_eq!(map.validate(), Ok(()));
}

#[test]
fn matches_btree_map_at_multiple_page_capacities() {
    differential_trace::<3>();
    differential_trace::<4>();
    differential_trace::<5>();
    differential_trace::<8>();
}

#[test]
fn borrowed_lookup_does_not_require_cloning_keys() {
    #[derive(Eq, Ord, PartialEq, PartialOrd)]
    struct NonClone(u64);

    let mut map = BLinkMap::<NonClone, u64, 3>::new();
    map.insert(NonClone(7), 70);

    assert_eq!(map.get(&NonClone(7)).map(|entry| *entry.value()), Some(70));

    let mut strings = BLinkMap::<String, u64, 3>::new();
    strings.insert(String::from("alpha"), 1);
    assert!(strings.contains_key(&Text("alpha")));
    assert_eq!(strings.get(&Text("alpha")).map(|entry| *entry.value()), Some(1));
    *strings.get_mut(&Text("alpha")).unwrap().value_mut() = 2;
    assert_eq!(strings.remove(&Text("alpha")), Some(2));
    assert!(!strings.contains_key(&Text("alpha")));
}

#[test]
fn first_and_last_are_the_least_and_the_greatest() {
    let mut map = TestMap::new();
    assert!(map.first_key_value().is_none());
    assert!(map.last_key_value().is_none());

    for key in [50, 20, 80, 10, 90, 40] {
        map.insert(key, key + 1);
    }
    let first = map.first_key_value().unwrap();
    assert_eq!((*first.key(), *first.value()), (10, 11));
    let last = map.last_key_value().unwrap();
    assert_eq!((*last.key(), *last.value()), (90, 91));
    let both = map.get_key_value(&40).unwrap();
    assert_eq!((*both.key(), *both.value()), (40, 41));
    assert!(map.get_key_value(&41).is_none());
    assert!(map.get_mut(&41).is_none());
}

#[test]
fn the_last_insertion_under_a_key_counts() {
    let mut map = TestMap::from_entries(vec![(1, 10), (2, 20), (1, 11), (3, 30), (2, 21)]);
    assert_eq!(map.len(), 3);
    assert_eq!(map.get(&1).map(|entry| *entry.value()), Some(11));
    assert_eq!(map.get(&2).map(|entry| *entry.value()), Some(21));

    map.extend(vec![(3, 31), (4, 40)]);
    assert_eq!(map.len(), 4);
    assert_eq!(map.get(&3).map(|entry| *entry.value()), Some(31));
    assert_eq!(map.get(&4).map(|entry| *entry.value()), Some(40));
}

#[test]
fn a_map_keeps_the_key_that_was_inserted_first() {
    #[derive(Debug)]
    struct Tagged(u64, &'static str);

    impl PartialEq for Tagged {
        fn eq(&self, other: &Self) -> bool {
            self.0 == other.0
        }
    }
    impl Eq for Tagged {}
    impl PartialOrd for Tagged {
        fn partial_cmp(&self, other: &Self) -> Option<std::cmp::Ordering> {
            Some(self.cmp(other))
        }
    }
    impl Ord for Tagged {
        fn cmp(&self, other: &Self) -> std::cmp::Ordering {
            self.0.cmp(&other.0)
        }
    }

    let mut map = BLinkMap::<Tagged, u64, 3>::new();
    assert_eq!(map.insert(Tagged(1, "first"), 10), None);
    assert_eq!(map.insert(Tagged(1, "second"), 11), Some(10));
    let entry = map.get(&Tagged(1, "third")).unwrap();
    assert_eq!(entry.key().1, "first");
    assert_eq!(entry.value(), &11);
}

#[test]
fn removing_undoes_inserting_and_the_other_way_round() {
    let snapshot = |map: &TestMap| {
        let mut records = Vec::new();
        let mut iter = map.iter();
        while let Some(entry) = iter.next() {
            records.push((*entry.key(), *entry.value()));
        }
        records
    };
    let mut map = TestMap::new();
    for key in 0..100 {
        map.insert(key * 2, key);
    }
    let before = snapshot(&map);

    assert_eq!(map.insert(101, 7), None);
    assert_eq!(map.len(), 101);
    assert_eq!(map.remove(&101), Some(7));
    assert_eq!(map.remove(&101), None);
    assert_eq!(snapshot(&map), before);

    assert_eq!(map.remove(&100), Some(50));
    assert_eq!(map.insert(100, 50), None);
    assert_eq!(snapshot(&map), before);
}

#[test]
fn the_order_of_insertions_does_not_matter() {
    let mut ascending = TestMap::new();
    let mut shuffled = TestMap::new();
    for key in 0..200 {
        ascending.insert(key, key * 3);
    }
    for step in 0..200 {
        let key = step * 71 % 200;
        shuffled.insert(key, key * 3);
    }
    let mut left = ascending.iter();
    let mut right = shuffled.iter();
    loop {
        match (left.next(), right.next()) {
            (Some(a), Some(b)) => {
                assert_eq!((a.key(), a.value()), (b.key(), b.value()));
            }
            (None, None) => return,
            _ => panic!("the maps differ in length"),
        }
    }
}

#[test]
fn clear_leaves_one_empty_page() {
    let mut map = TestMap::new();
    for key in 0..100 {
        map.insert(key, key);
    }
    assert!(map.height() > 1);
    map.clear();
    assert!(map.is_empty());
    assert_eq!(map.height(), 1);
    assert!(map.get(&5).is_none());
    assert_eq!(map.validate(), Ok(()));
    map.insert(5, 6);
    assert_eq!(map.len(), 1);
}

#[test]
fn the_height_is_bounded_by_the_number_of_records() {
    // Three levels of capacity 3 hold at most 3 * 4 * 4 records.
    let mut map = TestMap::new();
    for key in 0..49 {
        map.insert(key, key);
    }
    assert!(map.height() >= 4);
    // Six levels hold at least 2 * 2^4 records.
    assert!(map.height() <= 6);
    for key in 0..49 {
        map.remove(&key);
    }
    assert_eq!(map.height(), 1);
}
