//! A cache that many threads share, guarded by a single lock.
use crate::cache::{
    get_step, is_lru_value, is_mru_value, key_type_valid, pop_lru_step, pop_mru_step, put_step,
    ConfigError, LruCache,
};
use std::hash::Hash;
use vstd::prelude::*;
use vstd::rwlock::{RwLock, RwLockPredicate};

verus! {

/// What the lock keeps true of the cache it guards: it is well formed and
/// has the given capacity.
pub struct CacheBound {
    pub capacity: usize,
}

impl<K: Clone + Eq + Hash, V: Clone> RwLockPredicate<LruCache<K, V>> for CacheBound {
    open spec fn inv(self, c: LruCache<K, V>) -> bool {
        c.wf() && c.cap() == self.capacity
    }
}

/// An `LruCache` behind one lock, so that each operation reads and changes
/// the store and the recency order as a single step.
///
/// Every operation, `get` and the peeks included, runs under the lock and
/// returns owned values, never references into the guarded state. The
/// cache's own code under the lock cannot panic; should a key's or value's
/// `clone`, `hash` or `eq` panic there, the lock is never released, so later
/// callers block instead of seeing a half-finished step.
pub struct SharedLruCache<K: Clone + Eq + Hash, V: Clone> {
    lock: RwLock<LruCache<K, V>, CacheBound>,
}

impl<K: Clone + Eq + Hash, V: Clone> SharedLruCache<K, V> {
    /// The capacity that the guarded cache was built with.
    pub closed spec fn cap(&self) -> nat {
        self.lock.pred().capacity as nat
    }

    /// Builds an empty shared cache that holds at most `capacity` entries;
    /// a zero capacity is refused.
    pub fn new(capacity: usize) -> (r: Result<Self, ConfigError>)
        requires
            key_type_valid::<K>(),
        ensures
            r is Err <==> capacity == 0,
            r is Err ==> r == Err::<Self, ConfigError>(ConfigError::ZeroCapacity),
            r matches Ok(c) ==> c.cap() == capacity,
    {
        match LruCache::new(capacity) {
            Ok(cache) => {
                let lock = RwLock::new(cache, Ghost(CacheBound { capacity }));
                Ok(SharedLruCache { lock })
            },
            Err(e) => Err(e),
        }
    }

    /// `LruCache::get`, as one step on the guarded cache.
    pub fn get(&self, key: &K) -> (r: Option<V>)
        ensures
            exists|pre: LruCache<K, V>, post: LruCache<K, V>|
                #[trigger] get_step(pre, post, *key, r) && pre.wf() && post.wf() && pre.cap()
                    == self.cap(),
    {
        let (mut cache, handle) = self.lock.acquire_write();
        let ghost pre = cache;
        let r = cache.get(key);
        assert(get_step(pre, cache, *key, r));
        handle.release_write(cache);
        r
    }

    /// `LruCache::put`, as one step on the guarded cache.
    pub fn put(&self, key: K, value: V) -> (r: Option<V>)
        ensures
            exists|pre: LruCache<K, V>, post: LruCache<K, V>|
                #[trigger] put_step(pre, post, key, value, r) && pre.wf() && post.wf() && pre.cap()
                    == self.cap(),
    {
        let (mut cache, handle) = self.lock.acquire_write();
        let ghost pre = cache;
        let r = cache.put(key, value);
        assert(put_step(pre, cache, key, value, r));
        handle.release_write(cache);
        r
    }

    /// `LruCache::pop_mru`, as one step on the guarded cache.
    pub fn pop_mru(&self) -> (r: Option<V>)
        ensures
            exists|pre: LruCache<K, V>, post: LruCache<K, V>|
                #[trigger] pop_mru_step(pre, post, r) && pre.wf() && post.wf() && pre.cap()
                    == self.cap(),
    {
        let (mut cache, handle) = self.lock.acquire_write();
        let ghost pre = cache;
        let r = cache.pop_mru();
        assert(pop_mru_step(pre, cache, r));
        handle.release_write(cache);
        r
    }

    /// `LruCache::pop_lru`, as one step on the guarded cache.
    pub fn pop_lru(&self) -> (r: Option<V>)
        ensures
            exists|pre: LruCache<K, V>, post: LruCache<K, V>|
                #[trigger] pop_lru_step(pre, post, r) && pre.wf() && post.wf() && pre.cap()
                    == self.cap(),
    {
        let (mut cache, handle) = self.lock.acquire_write();
        let ghost pre = cache;
        let r = cache.pop_lru();
        assert(pop_lru_step(pre, cache, r));
        handle.release_write(cache);
        r
    }

    /// `LruCache::get_mru` on the guarded cache.
    pub fn get_mru(&self) -> (r: Option<V>)
        ensures
            exists|c: LruCache<K, V>| #[trigger] is_mru_value(c, r) && c.wf() && c.cap() == self.cap(),
    {
        let handle = self.lock.acquire_read();
        let r = handle.borrow().get_mru();
        assert(is_mru_value(handle.view(), r));
        handle.release_read();
        r
    }

    /// `LruCache::get_lru` on the guarded cache.
    pub fn get_lru(&self) -> (r: Option<V>)
        ensures
            exists|c: LruCache<K, V>| #[trigger] is_lru_value(c, r) && c.wf() && c.cap() == self.cap(),
    {
        let handle = self.lock.acquire_read();
        let r = handle.borrow().get_lru();
        assert(is_lru_value(handle.view(), r));
        handle.release_read();
        r
    }

    /// The number of entries the guarded cache held at one moment; it never
    /// exceeds the capacity.
    pub fn len(&self) -> (r: usize)
        ensures
            r <= self.cap(),
            exists|c: LruCache<K, V>| c.wf() && c.cap() == self.cap() && #[trigger] c.recency().len() == r,
    {
        let handle = self.lock.acquire_read();
        let r = handle.borrow().len();
        proof {
            handle.view().lemma_consistent();
        }
        handle.release_read();
        r
    }
}

} // verus!
