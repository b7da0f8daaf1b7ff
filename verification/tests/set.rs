use b_link::{BLinkSet, Bound, Bounds};

#[test]
fn set_operations_ranges_and_relations() {
    let mut set = BLinkSet::<u64, 3>::new();
    for value in 0..100 {
        assert!(set.insert(value));
        assert!(!set.insert(value));
    }

    assert_eq!(set.first().map(|value| *value.get()), Some(0));
    assert_eq!(set.last().map(|value| *value.get()), Some(99));

    let mut expected = 20;
    let mut range = set.range(Bounds {
        start: Bound::Included(20),
        end: Bound::Excluded(30),
    });
    while let Some(value) = range.next() {
        assert_eq!(*value.get(), expected);
        expected += 1;
    }
    assert_eq!(expected, 30);

    let mut evens = BLinkSet::<u64, 3>::new();
    for value in (0..100).step_by(2) {
        evens.insert(value);
    }
    assert!(evens.is_subset(&set));
    assert!(set.is_superset(&evens));
    assert!(!set.is_disjoint(&evens));

    let mut distant = BLinkSet::<u64, 3>::new();
    distant.insert(1_000);
    assert!(set.is_disjoint(&distant));

    for value in 0..100 {
        assert!(set.remove(&value));
    }
    assert!(set.is_empty());
    assert_eq!(set.validate(), Ok(()));
}

#[test]
fn set_collect_extend_and_clear() {
    let mut set: BLinkSet<u64, 4> = BLinkSet::from_values((0..50).collect());
    set.extend((25..75).collect());
    assert_eq!(set.len(), 75);
    let mut shown = Vec::new();
    let mut iter = set.iter();
    while let Some(value) = iter.next() {
        shown.push(*value.get());
    }
    assert!(format!("{shown:?}").starts_with("[0, 1, 2"));
    set.clear();
    assert!(set.is_empty());
}

#[test]
fn relations_between_small_sets() {
    let of = |values: &[u64]| BLinkSet::<u64, 3>::from_values(values.to_vec());
    let empty = of(&[]);
    let a = of(&[1, 2, 3]);
    let b = of(&[3, 1, 2, 2]);
    let c = of(&[1, 2, 3, 4]);
    let d = of(&[5, 6]);

    assert!(empty.is_subset(&a));
    assert!(empty.is_disjoint(&a));
    assert!(a.is_disjoint(&empty));
    assert!(!a.is_disjoint(&a));
    assert!(empty.is_disjoint(&empty));
    assert!(a.is_subset(&a));
    assert!(a.equals(&b));
    assert!(b.equals(&a));
    assert!(a.is_subset(&c));
    assert!(!c.is_subset(&a));
    assert!(c.is_superset(&a));
    assert!(!a.is_superset(&c));
    assert!(!a.equals(&c));
    assert!(a.is_disjoint(&d));
    assert!(d.is_disjoint(&a));
    assert!(!of(&[1, 2, 7]).is_subset(&c));
    assert!(!of(&[1, 2, 7]).equals(&a));
}

#[test]
fn membership_follows_insertions_and_removals() {
    let mut set = BLinkSet::<u64, 3>::new();
    assert!(set.first().is_none());
    assert!(set.last().is_none());
    assert!(!set.contains(&4));
    assert!(set.get(&4).is_none());

    assert!(set.insert(4));
    assert!(set.insert(9));
    assert!(set.contains(&4));
    assert_eq!(*set.get(&9).unwrap().get(), 9);
    assert_eq!(set.len(), 2);

    assert!(set.remove(&4));
    assert!(!set.remove(&4));
    assert!(!set.contains(&4));
    assert!(set.contains(&9));
    assert_eq!(set.iter().size_hint(), (0, None));
    let range = set.range(Bounds {
        start: Bound::Unbounded,
        end: Bound::Included(9),
    });
    assert_eq!(range.size_hint(), (0, None));
}
