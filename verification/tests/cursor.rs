use b_link::cursor::{Aim, Cursor};
use b_link::handle::KeyHandle;
use b_link::tree::Tree;
use b_link::{BLinkMap, Bound, Bounds};

fn range(start: Bound<u64>, end: Bound<u64>) -> Bounds<u64> {
    Bounds { start, end }
}

#[test]
fn a_cursor_starts_at_the_bound_and_goes_on_behind_its_key() {
    let open = range(Bound::Unbounded, Bound::Unbounded);
    let included = range(Bound::Included(3), Bound::Excluded(9));
    let excluded = range(Bound::Excluded(3), Bound::Included(9));

    let mut cursor = Cursor::new();
    assert!(matches!(cursor.aim(&open), Aim::First));
    assert!(matches!(cursor.aim(&included), Aim::Bound(3, true)));
    assert!(matches!(cursor.aim(&excluded), Aim::Bound(3, false)));

    assert!(cursor.accept(Some(KeyHandle::new(5)), &included));
    assert!(matches!(cursor.aim(&included), Aim::Behind(5)));
}

#[test]
fn a_cursor_stops_at_the_end_of_its_range_for_good() {
    let excluded = range(Bound::Unbounded, Bound::Excluded(9));
    let mut cursor = Cursor::new();
    assert!(cursor.accept(Some(KeyHandle::new(8)), &excluded));
    assert!(!cursor.accept(Some(KeyHandle::new(9)), &excluded));
    assert!(matches!(cursor.aim(&excluded), Aim::Nowhere));
    assert!(!cursor.accept(Some(KeyHandle::new(1)), &excluded));

    let included = range(Bound::Unbounded, Bound::Included(9));
    let mut cursor = Cursor::new();
    assert!(cursor.accept(Some(KeyHandle::new(9)), &included));
    assert!(!cursor.accept(None, &included));
    assert!(matches!(cursor.aim(&included), Aim::Nowhere));
}

#[test]
fn a_traversal_of_changing_records_ascends_and_meets_what_stays() {
    let mut tree = Tree::<u64, u64, 3>::new();
    for key in 0..60 {
        tree.insert(key * 2, key);
    }
    let bounds = range(Bound::Excluded(10), Bound::Included(80));
    let mut cursor = Cursor::new();
    let mut met = Vec::new();
    loop {
        let spot = match cursor.aim(&bounds) {
            Aim::Nowhere => break,
            Aim::First => tree.first_entry(),
            Aim::Bound(start, inclusive) => tree.entry_at_or_after(start, inclusive),
            Aim::Behind(last) => tree.entry_at_or_after(last, false),
        };
        let found = spot.map(|spot| tree.key_at(spot));
        let key = found.as_ref().map(|key| *key.get());
        if !cursor.accept(found, &bounds) {
            break;
        }
        let key = key.unwrap();
        met.push(key);
        // Multiples of 4 stay; the other records come and go.
        tree.insert(key + 1, 0);
        tree.remove(&(key + 6 - key % 4));
        if key > 20 {
            tree.insert(key - 15, 0);
        }
    }
    assert!(met.windows(2).all(|pair| pair[0] < pair[1]));
    assert!(met.iter().all(|key| 10 < *key && *key <= 80));
    for key in (12..=80).step_by(4) {
        assert!(met.contains(&key));
    }
    // Later records do not revive the traversal.
    tree.insert(79, 0);
    assert!(matches!(cursor.aim(&bounds), Aim::Nowhere));
}

#[test]
fn of_inserts_under_one_key_each_returns_the_one_before() {
    let mut map = BLinkMap::<u64, u64, 3>::new();
    map.insert(0, 100);
    assert_eq!(map.insert(1, 0), None);
    for value in 1..8 {
        assert_eq!(map.insert(1, value), Some(value - 1));
    }
    assert_eq!(*map.get(&1).unwrap().value(), 7);
    assert_eq!(map.len(), 2);
}

#[test]
fn the_height_grows_with_a_full_root_alone() {
    let mut tree = Tree::<u64, u64, 3>::new();
    for key in 1..4 {
        tree.insert(key, key);
    }
    assert_eq!(tree.height(), 1);
    // A full leaf still takes a replacement.
    assert_eq!(tree.insert(2, 20), Some(2));
    assert_eq!(tree.height(), 1);
    for key in 4..7 {
        tree.insert(key, key);
        assert_eq!(tree.height(), 2);
    }
    tree.insert(7, 7);
    assert_eq!(tree.height(), 3);
    tree.validate().unwrap();
}

#[test]
fn a_removal_from_a_wide_root_keeps_the_height() {
    let mut tree = Tree::<u64, u64, 3>::new();
    for key in [10, 20, 30, 40, 50, 5] {
        tree.insert(key, key * 10);
    }
    assert_eq!(tree.height(), 2);
    assert_eq!(tree.remove(&20), Some(200));
    assert_eq!(tree.height(), 2);
    assert_eq!(tree.len(), 5);
    tree.validate().unwrap();
    assert_eq!(tree.record(tree.get(&10).unwrap()), (&10, &100));
}
