//! Key-value pairs, the leaves of the map collections.
use std::borrow::{Borrow, BorrowMut};

use vstd::prelude::*;

verus! {

/// A key-value pair.
#[derive(Debug, Clone, Copy, PartialEq, Eq)]
pub struct KV<K, V> {
    /// the key of the pair
    pub key: K,
    /// the value of the pair
    pub val: V,
}

impl<K, V> KV<K, V> {
    /// Creates a new key-value pair.
    pub fn new(key: K, val: V) -> (r: Self)
        ensures
            r.key == key,
            r.val == val,
    {
        KV { key, val }
    }
}

impl<K, V> Into<(K, V)> for KV<K, V> {
    fn into(self) -> (K, V)
        returns
            (self.key, self.val),
    {
        (self.key, self.val)
    }
}

impl<K, V> vstd::std_specs::convert::IntoSpecImpl<(K, V)> for KV<K, V> {
    open spec fn obeys_into_spec() -> bool {
        true
    }

    open spec fn into_spec(self) -> (K, V) {
        (self.key, self.val)
    }
}

impl<K, V> Borrow<V> for KV<K, V> {
    fn borrow(&self) -> &V
        returns
            &self.val,
    {
        &self.val
    }
}

impl<K, V> AsRef<K> for KV<K, V> {
    fn as_ref(&self) -> (r: &K)
        ensures
            *r == self.key,
    {
        &self.key
    }
}

impl<K, V> BorrowMut<V> for KV<K, V> {
    fn borrow_mut(&mut self) -> &mut V {
        &mut self.val
    }
}

} // verus!
