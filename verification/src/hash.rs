//! Tables that are keyed by a 64-bit hash that is computed beforehand.

use vstd::prelude::*;
use std::collections::{HashMap, HashSet};

verus! {

/// A hasher that gives back the 64-bit number that was written to it last.
#[derive(Clone, Copy, Debug, Default, PartialEq, Eq)]
pub struct U64Hasher(u64);

impl U64Hasher {
    /// The number that was written last, or 0 where none was written.
    pub closed spec fn value(self) -> u64 {
        self.0
    }

    /// The hasher to which nothing was written.
    pub fn new() -> (res: U64Hasher)
        ensures
            res.value() == 0,
    {
        U64Hasher(0)
    }

    /// Writes the number `x`.
    pub fn write_u64(&mut self, x: u64)
        ensures
            final(self).value() == x,
    {
        self.0 = x;
    }

    /// The number that was written last.
    pub fn finish(&self) -> (res: u64)
        ensures
            res == self.value(),
    {
        self.0
    }
}

/// An empty set of 64-bit hashes, with room for `capacity` of them.
pub fn u64_hashset_with_capacity(capacity: usize) -> (res: HashSet<u64>)
    ensures
        res@ == Set::<u64>::empty(),
{
    HashSet::with_capacity(capacity)
}

/// An empty map from 64-bit hashes, with room for `capacity` of them.
pub fn u64_hashmap_with_capacity<V>(capacity: usize) -> (res: HashMap<u64, V>)
    ensures
        res@ == Map::<u64, V>::empty(),
{
    HashMap::with_capacity(capacity)
}

} // verus!
