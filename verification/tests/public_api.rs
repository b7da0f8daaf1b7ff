use b_link::{
    BLinkMap, BLinkSet, Bound, Bounds, EntryMut, EntryRef, Iter, Range, SetIter, SetRange, SetRef,
    DEFAULT_PAGE_CAPACITY,
};

fn accepts_read_guard(_entry: &EntryRef<'_, u64, String, 4>) {}

fn accepts_write_guard(_entry: &EntryMut<'_, u64, String, 4>) {}

fn accepts_default_read_guard(_entry: &EntryRef<'_, u64, String, DEFAULT_PAGE_CAPACITY>) {}

fn accepts_default_write_guard(_entry: &EntryMut<'_, u64, String, DEFAULT_PAGE_CAPACITY>) {}

#[test]
fn public_b_link_map_api_is_nameable() {
    let mut map = BLinkMap::<u64, String, 4>::new();

    assert_eq!(map.insert(7, String::from("seven")), None);

    let entry = map.get(&7).unwrap();
    accepts_read_guard(&entry);
    assert_eq!(entry.key(), &7);
    assert_eq!(entry.value(), "seven");

    let mut entry = map.get_mut(&7).unwrap();
    accepts_write_guard(&entry);
    entry.value_mut().push('!');
    assert_eq!(entry.value(), "seven!");

    assert_eq!(map.remove(&7), Some(String::from("seven!")));
    assert!(map.is_empty());
}

fn accepts_map_iterator(_iterator: Iter<'_, u64, String, DEFAULT_PAGE_CAPACITY>) {}

fn accepts_map_range(_range: Range<'_, u64, String, u64, DEFAULT_PAGE_CAPACITY>) {}

fn accepts_set_ref(_value: &SetRef<'_, u64, DEFAULT_PAGE_CAPACITY>) {}

fn accepts_set_iterator(_iterator: SetIter<'_, u64, DEFAULT_PAGE_CAPACITY>) {}

fn accepts_set_range(_range: SetRange<'_, u64, u64, DEFAULT_PAGE_CAPACITY>) {}

#[test]
fn iterators_ranges_and_set_are_public() {
    let mut map = BLinkMap::<u64, String, DEFAULT_PAGE_CAPACITY>::new();
    for key in 0..20 {
        map.insert(key, key.to_string());
    }

    accepts_map_iterator(map.iter());
    accepts_map_range(map.range(Bounds {
        start: Bound::Included(3),
        end: Bound::Included(8),
    }));

    let mut expected = 0;
    let mut iter = map.iter();
    while let Some(entry) = iter.next() {
        assert_eq!(entry.key(), &expected);
        assert_eq!(entry.value(), &expected.to_string());
        expected += 1;
    }
    assert_eq!(expected, 20);

    let mut expected = 5;
    let mut range = map.range(Bounds {
        start: Bound::Included(5),
        end: Bound::Excluded(10),
    });
    while let Some(entry) = range.next() {
        assert_eq!(entry.key(), &expected);
        expected += 1;
    }
    assert_eq!(expected, 10);

    let mut set = BLinkSet::<u64, DEFAULT_PAGE_CAPACITY>::new();
    assert!(set.insert(7));
    assert!(!set.insert(7));
    assert!(set.insert(11));
    assert!(set.contains(&7));

    let value = set.get(&7).unwrap();
    accepts_set_ref(&value);
    assert_eq!(*value.get(), 7);

    accepts_set_iterator(set.iter());
    accepts_set_range(set.range(Bounds {
        start: Bound::Included(7),
        end: Bound::Included(11),
    }));
    assert!(set.remove(&7));
    assert!(!set.remove(&7));
}

#[test]
fn default_capacity_and_unordered_empty_construction_are_public() {
    assert_eq!(DEFAULT_PAGE_CAPACITY, 32);

    let mut map = BLinkMap::<u64, String, DEFAULT_PAGE_CAPACITY>::new();
    map.insert(1, String::from("one"));

    let entry = map.get(&1).unwrap();
    accepts_default_read_guard(&entry);

    let entry = map.get_mut(&1).unwrap();
    accepts_default_write_guard(&entry);

    struct NonOrd;

    let empty = BLinkMap::<NonOrd, (), DEFAULT_PAGE_CAPACITY>::new();
    assert_eq!(empty.len(), 0);
    assert!(empty.is_empty());
}
