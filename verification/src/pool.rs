//! Reusable memory pools: buffers returned to a pool are reset before they
//! are handed out again, so reuse never exposes stale contents.

use vstd::prelude::*;
use std::collections::HashMap;

verus! {

/// A pool of reusable vectors. Every pooled vector is empty.
pub struct VecPool<T> {
    pool: Vec<Vec<T>>,
    default_capacity: usize,
}

impl<T> VecPool<T> {
    /// Every vector waiting in the pool has been cleared.
    pub closed spec fn wf(self) -> bool {
        forall|i: int| 0 <= i < self.pool@.len() ==> (#[trigger] self.pool@[i])@.len() == 0
    }

    /// How many buffers wait in the pool.
    pub closed spec fn size(self) -> nat {
        self.pool@.len()
    }

    /// Create a new vector pool.
    pub fn new(default_capacity: usize) -> (r: Self)
        ensures
            r.wf(),
            r.size() == 0,
    {
        VecPool { pool: Vec::new(), default_capacity }
    }

    /// Get an empty vector from the pool, or create a new one.
    pub fn get(&mut self) -> (r: Vec<T>)
        requires
            old(self).wf(),
        ensures
            final (self).wf(),
            r@.len() == 0,
            old(self).size() > 0 ==> final (self).size() == old(self).size() - 1,
            old(self).size() == 0 ==> final (self).size() == 0,
    {
        match self.pool.pop() {
            Some(v) => v,
            None => Vec::with_capacity(self.default_capacity),
        }
    }

    /// Return a vector to the pool for reuse; it is cleared first.
    pub fn put(&mut self, vec: Vec<T>)
        requires
            old(self).wf(),
        ensures
            final (self).wf(),
            final (self).size() == old(self).size() + 1,
    {
        let mut v = vec;
        v.clear();
        self.pool.push(v);
    }
}

impl<T> Default for VecPool<T> {
    /// The default pool: empty, with a small default capacity.
    fn default() -> (r: Self)
        ensures
            r.wf(),
            r.size() == 0,
    {
        Self::new(32)
    }
}

/// A pool of reusable hash maps. Every pooled map is empty.
pub struct MapPool<K, V> {
    pool: Vec<HashMap<K, V>>,
    default_capacity: usize,
}

impl<K, V> MapPool<K, V> {
    /// Every map waiting in the pool has been cleared.
    pub closed spec fn wf(self) -> bool {
        forall|i: int| 0 <= i < self.pool@.len() ==> (#[trigger] self.pool@[i])@ == Map::<
            K,
            V,
        >::empty()
    }

    /// How many maps wait in the pool.
    pub closed spec fn size(self) -> nat {
        self.pool@.len()
    }

    /// Create a new map pool.
    pub fn new(default_capacity: usize) -> (r: Self)
        ensures
            r.wf(),
            r.size() == 0,
    {
        MapPool { pool: Vec::new(), default_capacity }
    }

    /// Get an empty map from the pool, or create a new one.
    pub fn get(&mut self) -> (r: HashMap<K, V>)
        requires
            old(self).wf(),
        ensures
            final (self).wf(),
            r@ == Map::<K, V>::empty(),
            old(self).size() > 0 ==> final (self).size() == old(self).size() - 1,
            old(self).size() == 0 ==> final (self).size() == 0,
    {
        match self.pool.pop() {
            Some(m) => m,
            None => HashMap::with_capacity(self.default_capacity),
        }
    }

    /// Return a map to the pool for reuse; it is cleared first.
    pub fn put(&mut self, map: HashMap<K, V>)
        requires
            old(self).wf(),
        ensures
            final (self).wf(),
            final (self).size() == old(self).size() + 1,
    {
        let mut m = map;
        m.clear();
        self.pool.push(m);
    }
}

impl<K, V> Default for MapPool<K, V> {
    /// The default pool: empty, with a small default capacity.
    fn default() -> (r: Self)
        ensures
            r.wf(),
            r.size() == 0,
    {
        Self::new(32)
    }
}

} // verus!
