use b_link::order::{Probe, Side};
use b_link::{BLinkMap, Bound, Bounds, BoundsError};

/// A borrowed form of an owned text key.
#[derive(PartialEq, Eq, PartialOrd, Ord)]
struct Text<'a>(&'a str);

impl<'a> Probe<String> for Text<'a> {
    fn side(&self, key: &String) -> Side {
        match self.0.cmp(key.as_str()) {
            std::cmp::Ordering::Less => Side::Before,
            std::cmp::Ordering::Equal => Side::At,
            std::cmp::Ordering::Greater => Side::After,
        }
    }

    fn probes() -> bool {
        true
    }

    fn side_spec(&self, key: String) -> Side {
        self.side(&key)
    }

    fn lemma_probe_consistent(&self) {}
}

#[test]
fn iteration_remains_sorted_after_splits_and_merges() {
    let mut map = BLinkMap::<u64, u64, 3>::new();
    for key in 0..1_000 {
        map.insert(key, key * 10);
    }
    for key in (0..1_000).step_by(3) {
        map.remove(&key);
    }

    let mut previous = None;
    let mut count = 0;
    let mut iter = map.iter();
    while let Some(entry) = iter.next() {
        if let Some(previous) = previous {
            assert!(previous < *entry.key());
        }
        assert_eq!(*entry.value(), *entry.key() * 10);
        assert_ne!(*entry.key() % 3, 0);
        previous = Some(*entry.key());
        count += 1;
    }
    assert_eq!(count, map.len());
}

#[test]
fn ranges_honor_owned_borrowed_and_unbounded_endpoints() {
    let mut map = BLinkMap::<String, usize, 4>::new();
    for (key, value) in [
        ("alpha", 1),
        ("bravo", 2),
        ("charlie", 3),
        ("delta", 4),
        ("echo", 5),
    ] {
        map.insert(String::from(key), value);
    }

    let mut range = map.range(Bounds {
        start: Bound::Included(Text("bravo")),
        end: Bound::Included(Text("delta")),
    });
    assert_eq!(range.next().unwrap().key(), "bravo");
    assert_eq!(range.next().unwrap().key(), "charlie");
    assert_eq!(range.next().unwrap().key(), "delta");
    assert!(range.next().is_none());

    let mut range = map.range(Bounds {
        start: Bound::Excluded(Text("bravo")),
        end: Bound::Unbounded,
    });
    assert_eq!(range.next().unwrap().key(), "charlie");
}

#[test]
fn bounds_are_checked_before_a_range_is_made() {
    let check = |start: Bound<u64>, end: Bound<u64>| Bounds { start, end }.validate();

    assert_eq!(check(Bound::Included(9), Bound::Excluded(3)), Err(BoundsError::Inverted));
    assert_eq!(check(Bound::Excluded(9), Bound::Included(3)), Err(BoundsError::Inverted));
    assert_eq!(check(Bound::Excluded(3), Bound::Excluded(3)), Err(BoundsError::EqualExcluded));
    assert_eq!(check(Bound::Included(3), Bound::Excluded(3)), Ok(()));
    assert_eq!(check(Bound::Excluded(3), Bound::Included(3)), Ok(()));
    assert_eq!(check(Bound::Included(3), Bound::Included(3)), Ok(()));
    assert_eq!(check(Bound::Unbounded, Bound::Excluded(0)), Ok(()));
    assert_eq!(check(Bound::Included(9), Bound::Unbounded), Ok(()));

    assert_eq!(BoundsError::Inverted.message(), "range start is greater than range end");
    assert_eq!(
        BoundsError::EqualExcluded.message(),
        "range start and end are equal and excluded"
    );
}

#[test]
fn ranges_select_exactly_the_keys_inside() {
    let mut map = BLinkMap::<u64, u64, 3>::new();
    for key in 0..50 {
        map.insert(key * 2, key);
    }
    let keys = |start: Bound<u64>, end: Bound<u64>| {
        let mut found = Vec::new();
        let mut range = map.range(Bounds { start, end });
        while let Some(entry) = range.next() {
            found.push(*entry.key());
        }
        // An exhausted range stays exhausted.
        assert!(range.next().is_none());
        assert_eq!(range.size_hint(), (0, None));
        found
    };

    assert_eq!(keys(Bound::Included(10), Bound::Included(16)), vec![10, 12, 14, 16]);
    assert_eq!(keys(Bound::Excluded(10), Bound::Excluded(16)), vec![12, 14]);
    assert_eq!(keys(Bound::Included(11), Bound::Excluded(15)), vec![12, 14]);
    assert_eq!(keys(Bound::Unbounded, Bound::Excluded(4)), vec![0, 2]);
    assert_eq!(keys(Bound::Excluded(94), Bound::Unbounded), vec![96, 98]);
    assert_eq!(keys(Bound::Included(11), Bound::Included(11)), Vec::<u64>::new());
    assert_eq!(keys(Bound::Included(98), Bound::Unbounded), vec![98]);
    assert_eq!(keys(Bound::Excluded(98), Bound::Unbounded), Vec::<u64>::new());
    assert_eq!(keys(Bound::Unbounded, Bound::Unbounded).len(), 50);
}

#[test]
fn keys_and_values_follow_key_order() {
    let mut map = BLinkMap::<u64, &str, 3>::new();
    map.insert(3, "three");
    map.insert(1, "one");
    map.insert(2, "two");

    let mut keys = map.keys();
    assert_eq!(keys.size_hint(), (0, None));
    assert_eq!(keys.next().unwrap().get(), &1);
    assert_eq!(keys.next().unwrap().get(), &2);
    assert_eq!(keys.next().unwrap().get(), &3);
    assert!(keys.next().is_none());
    assert!(keys.next().is_none());

    let mut values = map.values();
    assert_eq!(values.size_hint(), (0, None));
    let first = values.next().unwrap();
    assert_eq!((first.key(), first.get()), (&1, &"one"));
    assert_eq!(values.next().unwrap().get(), &"two");
    assert_eq!(values.next().unwrap().get(), &"three");
    assert!(values.next().is_none());

    let mut iter = map.iter();
    assert_eq!(iter.size_hint(), (0, None));
    assert_eq!(iter.next().unwrap().key(), &1);
}
