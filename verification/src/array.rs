//! Fixed-capacity, contiguous page storage.

use vstd::prelude::*;

verus! {

/// A fixed-capacity, contiguous, owning array.
///
/// Its capacity is chosen once and never grows. Tree pages split or merge
/// before a transformation could exceed it. Unlike in a growable collection,
/// exceeding the declared capacity is always a logic error.
pub struct Array<T> {
    /// The initialized elements.
    data: Vec<T>,
    /// Maximum number of elements.
    cap: usize,
}

impl<T> View for Array<T> {
    type V = Seq<T>;

    closed spec fn view(&self) -> Seq<T> {
        self.data@
    }
}

impl<T> Array<T> {
    /// The fixed maximum number of elements.
    pub closed spec fn cap(&self) -> nat {
        self.cap as nat
    }

    /// An array never holds more than its capacity, which is not zero.
    pub open spec fn wf(&self) -> bool {
        0 < self.cap() && self@.len() <= self.cap() && self.cap() <= usize::MAX
    }

    /// Makes an empty array and allocates the space for `cap` values, whose
    /// layout has to be representable.
    pub fn with_capacity(cap: usize) -> (array: Self)
        requires
            cap > 0,
            cap * vstd::layout::size_of::<T>() <= isize::MAX,
        ensures
            array.wf(),
            array.cap() == cap,
            array@ == Seq::<T>::empty(),
    {
        Self { data: Vec::with_capacity(cap), cap }
    }

    /// Makes an empty array for at most `cap` values, which allocates the space
    /// for them as they come.
    pub(crate) fn bounded(cap: usize) -> (array: Self)
        requires
            cap > 0,
        ensures
            array.wf(),
            array.cap() == cap,
            array@ == Seq::<T>::empty(),
    {
        Self { data: Vec::new(), cap }
    }

    /// Returns the number of initialized elements.
    pub fn len(&self) -> (n: usize)
        ensures
            n == self@.len(),
    {
        self.data.len()
    }

    /// Returns the fixed maximum number of elements.
    pub fn capacity(&self) -> (n: usize)
        ensures
            n == self.cap(),
    {
        self.cap
    }

    /// Returns true when no elements are initialized.
    pub fn is_empty(&self) -> (b: bool)
        ensures
            b == (self@.len() == 0),
    {
        self.data.len() == 0
    }

    /// Returns true when another insertion would exceed the fixed capacity.
    pub fn is_full(&self) -> (b: bool)
        ensures
            b == (self@.len() == self.cap()),
    {
        self.data.len() == self.cap
    }

    /// Views all elements as an immutable slice.
    pub fn as_slice(&self) -> (slice: &[T])
        ensures
            slice@ == self@,
    {
        self.data.as_slice()
    }

    /// Views all elements as a mutable slice.
    pub fn as_mut_slice(&mut self) -> (slice: &mut [T])
        ensures
            slice@ == old(self)@,
            final(self)@ == final(slice)@,
            final(self).cap() == old(self).cap(),
    {
        self.data.as_mut_slice()
    }

    /// Returns the first element, if one exists.
    pub fn first(&self) -> (value: Option<&T>)
        ensures
            value == (if self@.len() == 0 {
                None
            } else {
                Some(&self@[0])
            }),
    {
        if self.data.len() == 0 {
            None
        } else {
            Some(&self.data[0])
        }
    }

    /// Returns the last element, if one exists.
    pub fn last(&self) -> (value: Option<&T>)
        ensures
            value == (if self@.len() == 0 {
                None
            } else {
                Some(&self@.last())
            }),
    {
        let len: usize = self.data.len();
        if len == 0 {
            None
        } else {
            Some(&self.data[len - 1])
        }
    }

    /// Moves the range `at..len` into a new array with the same capacity,
    /// while `self` retains `0..at`.
    pub fn split_off(&mut self, at: usize) -> (tail: Self)
        requires
            old(self).wf(),
            at <= old(self)@.len(),
        ensures
            final(self).wf(),
            final(self).cap() == old(self).cap(),
            final(self)@ == old(self)@.take(at as int),
            tail.wf(),
            tail.cap() == old(self).cap(),
            tail@ == old(self)@.skip(at as int),
    {
        let data = self.data.split_off(at);
        Self { data, cap: self.cap }
    }

    /// Moves every element from `other` onto the end of `self`.
    pub fn append_from(&mut self, other: &mut Self)
        requires
            old(self).wf(),
            old(other).wf(),
            old(self)@.len() + old(other)@.len() <= old(self).cap(),
        ensures
            final(self).wf(),
            final(self).cap() == old(self).cap(),
            final(self)@ == old(self)@ + old(other)@,
            final(other).wf(),
            final(other).cap() == old(other).cap(),
            final(other)@ == Seq::<T>::empty(),
    {
        self.data.append(&mut other.data);
    }

    /// Moves every element from `other` onto the beginning of `self`.
    ///
    /// This operation is used when deletion merges a left page into its
    /// surviving right sibling.
    pub fn prepend_from(&mut self, other: &mut Self)
        requires
            old(self).wf(),
            old(other).wf(),
            old(self)@.len() + old(other)@.len() <= old(self).cap(),
        ensures
            final(self).wf(),
            final(self).cap() == old(self).cap(),
            final(self)@ == old(other)@ + old(self)@,
            final(other).wf(),
            final(other).cap() == old(other).cap(),
            final(other)@ == Seq::<T>::empty(),
    {
        other.data.append(&mut self.data);
        std::mem::swap(&mut self.data, &mut other.data);
    }

    /// Drops every element and leaves the array reusable.
    pub fn clear(&mut self)
        ensures
            final(self)@ == Seq::<T>::empty(),
            final(self).cap() == old(self).cap(),
    {
        while self.data.len() > 0
            invariant
                self.cap == old(self).cap,
            decreases self.data@.len(),
        {
            let _ = self.data.pop();
        }
        assert(self.data@ =~= Seq::<T>::empty());
    }

    /// Appends `value`.
    pub fn push(&mut self, value: T)
        requires
            old(self).wf(),
            old(self)@.len() < old(self).cap(),
        ensures
            final(self).wf(),
            final(self).cap() == old(self).cap(),
            final(self)@ == old(self)@.push(value),
    {
        self.data.push(value);
    }

    /// Inserts `value` at `index`, shifting the suffix right.
    pub fn insert(&mut self, index: usize, value: T)
        requires
            old(self).wf(),
            index <= old(self)@.len(),
            old(self)@.len() < old(self).cap(),
        ensures
            final(self).wf(),
            final(self).cap() == old(self).cap(),
            final(self)@ == old(self)@.insert(index as int, value),
    {
        self.data.insert(index, value);
    }

    /// Removes and returns the element at `index`, shifting its suffix left.
    pub fn remove(&mut self, index: usize) -> (value: T)
        requires
            old(self).wf(),
            index < old(self)@.len(),
        ensures
            final(self).wf(),
            final(self).cap() == old(self).cap(),
            final(self)@ == old(self)@.remove(index as int),
            value == old(self)@[index as int],
    {
        self.data.remove(index)
    }

    /// Removes and returns the last element, or `None` when empty.
    pub fn pop(&mut self) -> (value: Option<T>)
        requires
            old(self).wf(),
        ensures
            final(self).wf(),
            final(self).cap() == old(self).cap(),
            old(self)@.len() == 0 ==> value is None && final(self)@ == old(self)@,
            old(self)@.len() > 0 ==> value == Some(old(self)@.last()) && final(self)@
                == old(self)@.drop_last(),
    {
        self.data.pop()
    }

    /// Returns the element at `index`, or `None` when out of bounds.
    pub fn get(&self, index: usize) -> (value: Option<&T>)
        ensures
            value == (if index < self@.len() {
                Some(&self@[index as int])
            } else {
                None
            }),
    {
        if index < self.data.len() {
            Some(&self.data[index])
        } else {
            None
        }
    }

    /// Returns the element at `index` mutably, or `None` when out of bounds.
    pub fn get_mut(&mut self, index: usize) -> (value: Option<&mut T>)
        ensures
            final(self).cap() == old(self).cap(),
            index >= old(self)@.len() ==> value is None && final(self)@ == old(self)@,
            index < old(self)@.len() ==> (value matches Some(slot) && *slot == old(
                self,
            )@[index as int] && final(self)@ == old(self)@.update(index as int, *final(slot))),
    {
        if index < self.data.len() {
            Some(&mut self.data[index])
        } else {
            None
        }
    }

    /// Returns an element whose index the caller has already checked.
    pub fn get_unchecked(&self, index: usize) -> (value: &T)
        requires
            index < self@.len(),
        ensures
            *value == self@[index as int],
    {
        &self.data[index]
    }

    /// Returns an element mutably whose index the caller has already checked.
    pub fn get_unchecked_mut(&mut self, index: usize) -> (value: &mut T)
        requires
            index < old(self)@.len(),
        ensures
            *value == old(self)@[index as int],
            final(self)@ == old(self)@.update(index as int, *final(value)),
            final(self).cap() == old(self).cap(),
    {
        &mut self.data[index]
    }

    /// Returns the element at an index within bounds.
    pub fn index(&self, index: usize) -> (value: &T)
        requires
            index < self@.len(),
        ensures
            *value == self@[index as int],
    {
        &self.data[index]
    }

    /// Returns the element at an index within bounds mutably.
    pub fn index_mut(&mut self, index: usize) -> (value: &mut T)
        requires
            index < old(self)@.len(),
        ensures
            *value == old(self)@[index as int],
            final(self)@ == old(self)@.update(index as int, *final(value)),
            final(self).cap() == old(self).cap(),
    {
        &mut self.data[index]
    }

    /// Appending a tail that was split off, or prepending what was kept to it,
    /// gives back the elements.
    pub proof fn law_split_and_join(elements: Seq<T>, at: int)
        requires
            0 <= at <= elements.len(),
        ensures
            elements.take(at) + elements.skip(at) == elements,
    {
        assert(elements.take(at) + elements.skip(at) =~= elements);
    }

    /// Removing an element that was inserted, or popping one that was pushed,
    /// gives back the elements.
    pub proof fn law_insert_and_remove(elements: Seq<T>, index: int, value: T)
        requires
            0 <= index <= elements.len(),
        ensures
            elements.insert(index, value).remove(index) == elements,
            elements.insert(index, value)[index] == value,
            elements.push(value).drop_last() == elements,
            elements.push(value).last() == value,
    {
        assert(elements.insert(index, value).remove(index) =~= elements);
        assert(elements.push(value).drop_last() =~= elements);
    }
}

} // verus!
