use std::cell::Cell;
use std::rc::Rc;

use b_link::array::Array;

#[test]
fn push_and_get() {
    let mut array = Array::with_capacity(4);

    array.push(10);
    array.push(20);
    array.push(30);

    assert_eq!(array.len(), 3);
    assert_eq!(array.capacity(), 4);

    assert_eq!(array.get(0), Some(&10));
    assert_eq!(array.get(1), Some(&20));
    assert_eq!(array.get(2), Some(&30));
    assert_eq!(array.get(3), None);
}

#[test]
fn insert_middle() {
    let mut array = Array::with_capacity(8);

    array.push(10);
    array.push(20);
    array.push(40);

    array.insert(2, 30);

    assert_eq!(array.as_slice(), &[10, 20, 30, 40]);
}

#[test]
fn remove_middle() {
    let mut array = Array::with_capacity(8);

    array.push(10);
    array.push(20);
    array.push(30);
    array.push(40);

    let removed = array.remove(1);

    assert_eq!(removed, 20);

    assert_eq!(array.as_slice(), &[10, 30, 40]);
}

#[test]
fn pop() {
    let mut array = Array::with_capacity(4);

    array.push(10);
    array.push(20);

    assert_eq!(array.pop(), Some(20));
    assert_eq!(array.pop(), Some(10));
    assert_eq!(array.pop(), None);
}

#[test]
fn drop_values() {
    struct Droppable {
        counter: Rc<Cell<usize>>,
    }

    impl Drop for Droppable {
        fn drop(&mut self) {
            self.counter.set(self.counter.get() + 1);
        }
    }

    let counter = Rc::new(Cell::new(0));

    {
        let mut array = Array::with_capacity(8);

        array.push(Droppable {
            counter: Rc::clone(&counter),
        });

        array.push(Droppable {
            counter: Rc::clone(&counter),
        });

        let _ = array.remove(0);

        assert_eq!(counter.get(), 1);
    }

    assert_eq!(counter.get(), 2);
}

#[test]
fn split_off_transfers_ownership() {
    let mut left = Array::with_capacity(8);

    for value in 0..6 {
        left.push(value);
    }

    let mut right = left.split_off(2);

    assert_eq!(left.as_slice(), &[0, 1]);
    assert_eq!(right.as_slice(), &[2, 3, 4, 5]);

    left.append_from(&mut right);

    assert_eq!(left.as_slice(), &[0, 1, 2, 3, 4, 5]);
    assert!(right.is_empty());
}

#[test]
fn supports_zero_sized_values() {
    let mut array = Array::with_capacity(3);

    array.push(());
    array.insert(0, ());
    array.push(());

    assert_eq!(array.len(), 3);
    assert!(array.is_full());
    assert_eq!(array.remove(1), ());
    assert_eq!(array.len(), 2);
}

#[test]
fn prepend_moves_all_values_to_the_front() {
    let mut left = Array::with_capacity(6);
    let mut right = Array::with_capacity(6);
    for value in 0..2 {
        left.push(value);
    }
    for value in 2..5 {
        right.push(value);
    }

    right.prepend_from(&mut left);

    assert_eq!(right.as_slice(), &[0, 1, 2, 3, 4]);
    assert!(left.is_empty());
    assert_eq!(left.capacity(), 6);
}

#[test]
fn ends_and_indexing() {
    let mut array = Array::with_capacity(3);
    assert!(array.first().is_none());
    assert!(array.last().is_none());

    array.push(1);
    array.push(2);
    array.push(3);
    assert_eq!(array.first(), Some(&1));
    assert_eq!(array.last(), Some(&3));

    *array.index_mut(1) = 20;
    *array.get_mut(2).unwrap() = 30;
    array.as_mut_slice()[0] = 10;
    *array.get_unchecked_mut(1) += 1;
    assert_eq!(*array.index(1), 21);
    assert_eq!(*array.get_unchecked(2), 30);
    assert!(array.get_mut(3).is_none());
    assert_eq!(array.as_slice(), &[10, 21, 30]);

    array.clear();
    assert!(array.is_empty());
    assert_eq!(array.capacity(), 3);
}

#[test]
fn clear_drops_one_value_after_the_other_from_the_end() {
    struct Logged {
        id: usize,
        log: Rc<Cell<usize>>,
    }

    impl Drop for Logged {
        fn drop(&mut self) {
            self.log.set(self.log.get() * 10 + self.id);
        }
    }

    let log = Rc::new(Cell::new(0));
    let mut array = Array::with_capacity(3);
    for id in 1..4 {
        array.push(Logged {
            id,
            log: Rc::clone(&log),
        });
    }
    array.clear();
    assert_eq!(log.get(), 321);
    assert!(array.is_empty());
}
