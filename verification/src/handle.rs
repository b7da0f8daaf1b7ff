//! Shared ownership of stored keys, and access to single entries.

use std::sync::Arc;

use vstd::prelude::*;

verus! {

/// Reference-counted ownership of a stored key.
///
/// Leaf entries, internal separators, and fences can share the same key
/// allocation. This avoids imposing `K: Clone` on the map.
pub struct KeyHandle<K> {
    /// The one owned key allocation shared by tree metadata.
    inner: Arc<K>,
}

impl<K> View for KeyHandle<K> {
    type V = K;

    closed spec fn view(&self) -> K {
        *self.inner
    }
}

impl<K> KeyHandle<K> {
    /// Allocates a new shared handle around a key.
    pub fn new(key: K) -> (handle: Self)
        ensures
            handle@ == key,
    {
        Self { inner: Arc::new(key) }
    }

    /// Borrows the underlying key.
    pub fn get(&self) -> (key: &K)
        ensures
            *key == self@,
    {
        &self.inner
    }
}

impl<K> Clone for KeyHandle<K> {
    /// Shares the key allocation.
    fn clone(&self) -> (handle: Self)
        ensures
            handle == *self,
    {
        Self { inner: Arc::clone(&self.inner) }
    }
}

/// Read access to an entry of a map.
///
/// The map cannot change while the entry is held, so its key and value are
/// stable.
#[must_use]
pub struct EntryRef<'map, K, V, const N: usize> {
    key: &'map K,
    value: &'map V,
}

impl<'map, K, V, const N: usize> View for EntryRef<'map, K, V, N> {
    type V = (K, V);

    closed spec fn view(&self) -> (K, V) {
        (*self.key, *self.value)
    }
}

impl<'map, K, V, const N: usize> EntryRef<'map, K, V, N> {
    /// Gives access to a record.
    pub fn new(key: &'map K, value: &'map V) -> (entry: Self)
        ensures
            entry@ == (*key, *value),
    {
        Self { key, value }
    }

    /// Returns the entry's immutable key.
    pub fn key(&self) -> (key: &'map K)
        ensures
            *key == self@.0,
    {
        self.key
    }

    /// Returns the entry's immutable value.
    pub fn value(&self) -> (value: &'map V)
        ensures
            *value == self@.1,
    {
        self.value
    }
}

/// Write access to an entry of a map.
///
/// Mutations of the value are visible to later map operations.
#[must_use]
pub struct EntryMut<'map, K, V, const N: usize> {
    /// The key.
    pub key: &'map K,
    /// The value, open to change.
    pub value: &'map mut V,
}

impl<'map, K, V, const N: usize> EntryMut<'map, K, V, N> {
    /// Gives access to a record.
    pub fn new(key: &'map K, value: &'map mut V) -> (entry: Self)
        ensures
            *entry.key == *key,
            *entry.value == *old(value),
            *final(entry.value) == *final(value),
    {
        Self { key, value }
    }

    /// Returns the entry's immutable key.
    pub fn key(&self) -> (key: &K)
        ensures
            *key == *self.key,
    {
        self.key
    }

    /// Returns the entry's value.
    pub fn value(&self) -> (value: &V)
        ensures
            *value == *old(self.value),
    {
        &*self.value
    }

    /// Returns the entry's value mutably.
    pub fn value_mut(&mut self) -> (value: &mut V)
        ensures
            *value == *old(self).value,
            *final(self).key == *old(self).key,
            *final(self).value == *final(value),
            *final(final(self).value) == *final(old(self).value),
    {
        &mut *self.value
    }
}

} // verus!
