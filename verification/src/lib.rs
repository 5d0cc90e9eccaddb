//! A bounded-capacity, time-expiring key-value cache.
//!
//! The core is a cache engine that maps string keys to integer values, each
//! entry carrying an absolute expiry timestamp in milliseconds. A put without
//! an explicit time-to-live assigns a far-future expiry (one year). When an
//! insertion would exceed the configured capacity, the whole bucket of keys
//! sharing the earliest expiry timestamp is evicted first. Reads treat an
//! entry whose expiry has passed as absent; a sweeper pass reclaims all due
//! entries at once.
//!
//! The engine itself is single-owner and takes the current time as an
//! argument, which makes every operation deterministic and fully specified.
//! Callers that want a shared, clock-driven cache wrap the engine in a lock
//! and feed it wall-clock time; the snapshot and wire-protocol codecs turn
//! engine states and operations into bytes and back.

use vstd::prelude::*;

pub mod clock;
pub mod codec;
pub mod engine;
pub mod network;

use crate::engine::{spec_expiry, spec_get, ThreadSafeCacheImpl, DEFAULT_TTL_MS};

verus! {

/// The capacity stored by the builder: a non-negative requested size is taken
/// as it is; a negative one disables the capacity check, since the occupancy
/// can never reach it.
pub open spec fn spec_capacity(max_size: i32) -> usize {
    if max_size < 0 {
        usize::MAX
    } else {
        max_size as usize
    }
}

/// The common operation set of every cache variant: the in-process engine and
/// any proxy that forwards the same operations elsewhere.
pub trait ThreadSafeCacheTrait<K, V> {
    /// The implementation's well-formedness: every operation preserves it.
    spec fn wf(&self) -> bool;

    /// Insert under the default, effectively non-expiring time-to-live.
    fn put(&mut self, key: K, val: V)
        requires
            old(self).wf(),
        ensures
            final(self).wf(),
    ;

    /// Insert with an explicit time-to-live in milliseconds.
    fn put_exp(&mut self, key: K, val: V, expiration: i32)
        requires
            old(self).wf(),
            expiration >= 0,
        ensures
            final(self).wf(),
    ;

    /// Look up a key; an entry whose expiry has passed reads as absent.
    fn get(&mut self, key: K) -> (r: Option<V>)
        requires
            old(self).wf(),
        ensures
            final(self).wf(),
    ;

    /// Membership test without expiry-awareness: an expired but unswept entry
    /// still counts as existing.
    fn exists_key(&mut self, key: K) -> (r: bool)
        requires
            old(self).wf(),
        ensures
            final(self).wf(),
    ;

    /// Remove a key; removing an absent key is a no-op.
    fn rm(&mut self, key: K)
        requires
            old(self).wf(),
        ensures
            final(self).wf(),
    ;
}

/// Caches that can additionally snapshot their contents to a file and load
/// them back. File access itself stands outside the verified engine, so these
/// methods carry no contracts; the byte format they use is the verified
/// snapshot codec.
pub trait ThreadSafeCachePersistTrait<K, V>: ThreadSafeCacheTrait<K, V> {
    /// Serialize every entry into one blob and write it to the named file.
    fn save(&mut self, file_name: &str);

    /// Read a blob from the named file and replace the contents with it.
    fn load(&mut self, file_name: &str);
}

/// Builder for an in-process cache engine.
pub struct BuilderEmbedded {
    pub max_size: i32,
}

impl BuilderEmbedded {
    /// A builder with the default capacity.
    pub fn init() -> (b: BuilderEmbedded)
        ensures
            b.max_size == 1000,
    {
        BuilderEmbedded { max_size: 1000 }
    }

    /// Set the capacity the engine will be built with.
    pub fn max_size(&mut self, max_size: i32)
        ensures
            final(self).max_size == max_size,
    {
        self.max_size = max_size;
    }

    /// Build an empty engine with the configured capacity.
    pub fn build(self) -> (c: ThreadSafeCacheImpl)
        ensures
            c.inv(),
            c.store() == Map::<Seq<char>, (i32, u64)>::empty(),
            c.current_size == 0,
            c.expiration_set@.len() == 0,
            c.max_size == spec_capacity(self.max_size),
    {
        let capacity: usize = if self.max_size < 0 {
            usize::MAX
        } else {
            self.max_size as usize
        };
        ThreadSafeCacheImpl {
            cache: Vec::new(),
            expiration_set: Vec::new(),
            max_size: capacity,
            current_size: 0,
        }
    }
}

impl ThreadSafeCacheTrait<String, i32> for ThreadSafeCacheImpl {
    open spec fn wf(&self) -> bool {
        self.inv()
    }

    fn put(&mut self, key: String, val: i32)
        ensures
            final(self).max_size == old(self).max_size,
            exists|n: u64|
                #![trigger spec_expiry(n, DEFAULT_TTL_MS)]
                final(self).store() == old(self).pre_insert_store().insert(
                    key@,
                    (val, spec_expiry(n, DEFAULT_TTL_MS)),
                ),
            final(self).current_size <= old(self).current_size + 1,
            old(self).current_size <= old(self).max_size && old(self).max_size >= 1
                ==> final(self).current_size <= old(self).max_size,
    {
        let ghost kv = key@;
        let now = crate::clock::now_millis();
        self.put_at(key, val, now);
        proof {
            assert(self.store() == old(self).pre_insert_store().insert(
                kv,
                (val, spec_expiry(now, DEFAULT_TTL_MS)),
            ));
        }
    }

    fn put_exp(&mut self, key: String, val: i32, expiration: i32)
        ensures
            final(self).max_size == old(self).max_size,
            exists|n: u64|
                #![trigger spec_expiry(n, expiration as u64)]
                final(self).store() == old(self).pre_insert_store().insert(
                    key@,
                    (val, spec_expiry(n, expiration as u64)),
                ),
            final(self).current_size <= old(self).current_size + 1,
            old(self).current_size <= old(self).max_size && old(self).max_size >= 1
                ==> final(self).current_size <= old(self).max_size,
    {
        let ghost kv = key@;
        let now = crate::clock::now_millis();
        self.put_exp_at(key, val, expiration, now);
        proof {
            assert(self.store() == old(self).pre_insert_store().insert(
                kv,
                (val, spec_expiry(now, expiration as u64)),
            ));
        }
    }

    fn get(&mut self, key: String) -> (r: Option<i32>)
        ensures
            *final(self) == *old(self),
            exists|n: u64|
                #![trigger spec_get(old(self).store(), key@, n)]
                r == spec_get(old(self).store(), key@, n),
            r matches Some(v) ==> old(self).store().dom().contains(key@)
                && old(self).store()[key@].0 == v,
            !old(self).store().dom().contains(key@) ==> r is None,
    {
        let now = crate::clock::now_millis();
        let r = self.get_at(&key, now);
        proof {
            assert(r == spec_get(self.store(), key@, now));
        }
        r
    }

    fn exists_key(&mut self, key: String) -> (r: bool)
        ensures
            *final(self) == *old(self),
            r == old(self).store().dom().contains(key@),
    {
        self.has_key(&key)
    }

    fn rm(&mut self, key: String)
        ensures
            final(self).store() == old(self).store().remove(key@),
            !old(self).store().dom().contains(key@) ==> *final(self) == *old(self),
    {
        self.remove_key(&key);
    }
}

} // verus!
