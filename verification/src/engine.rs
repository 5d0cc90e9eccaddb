//! The cache engine: entry storage, the expiration index, capacity-based
//! eviction and expiry sweeping.
//!
//! All operations take the current time as an explicit argument, so the whole
//! engine is deterministic and carries exact contracts over its mathematical
//! model: a map from keys to `(value, expiry)` pairs.

use vstd::prelude::*;

verus! {

/// One stored entry: a key, its value, and the absolute expiry timestamp in
/// milliseconds since the epoch. An expiry of exactly `NEVER_EXPIRES` is the
/// non-expiring sentinel: it is never compared against the clock.
pub struct CacheEntry {
    pub key: String,
    pub val: i32,
    pub expires_at: u64,
}

/// One bucket of the expiration index: all keys that expire at the same
/// timestamp, evicted or swept as a group.
pub struct ExpiryBucket {
    pub expires_at: u64,
    pub keys: Vec<String>,
}

/// The cache engine state: the entry store, the expiration index ordered by
/// timestamp, the capacity, and the current occupancy count.
pub struct ThreadSafeCacheImpl {
    pub cache: Vec<CacheEntry>,
    pub expiration_set: Vec<ExpiryBucket>,
    pub max_size: usize,
    pub current_size: usize,
}

/// The default time-to-live assigned by a put without an explicit one:
/// one year in milliseconds, effectively non-expiring within any realistic
/// runtime.
pub const DEFAULT_TTL_MS: u64 = 1000 * 60 * 60 * 24 * 365;

/// The expiry value that is treated as "never expires": it is never compared
/// against the clock, neither on reads nor by the sweeper.
pub const NEVER_EXPIRES: u64 = 0;

/// The mathematical content of a sequence of entries: the map from each key
/// to its value and expiry. A later entry with the same key shadows an
/// earlier one; under `distinct_entry_keys` no shadowing occurs.
pub open spec fn entries_map(s: Seq<CacheEntry>) -> Map<Seq<char>, (i32, u64)>
    decreases s.len(),
{
    if s.len() == 0 {
        Map::empty()
    } else {
        entries_map(s.drop_last()).insert(s.last().key@, (s.last().val, s.last().expires_at))
    }
}

/// No two entries of the sequence share a key.
pub open spec fn distinct_entry_keys(s: Seq<CacheEntry>) -> bool {
    forall|i: int, j: int| 0 <= i < j < s.len() ==> s[i].key@ != s[j].key@
}

/// Membership of `k` in `entries_map` is the existence of an entry with that key.
pub proof fn lemma_entries_map_contains(s: Seq<CacheEntry>, k: Seq<char>)
    ensures
        entries_map(s).dom().contains(k) <==> (exists|i: int| 0 <= i < s.len() && s[i].key@ == k),
    decreases s.len(),
{
    if s.len() > 0 {
        lemma_entries_map_contains(s.drop_last(), k);
        if s.last().key@ == k {
            assert(s[s.len() - 1].key@ == k);
        } else {
            if exists|i: int| 0 <= i < s.len() && s[i].key@ == k {
                let i = choose|i: int| 0 <= i < s.len() && s[i].key@ == k;
                assert(s.drop_last()[i] == s[i]);
            }
            if exists|i: int| 0 <= i < s.len() - 1 && s.drop_last()[i].key@ == k {
                let i = choose|i: int| 0 <= i < s.len() - 1 && s.drop_last()[i].key@ == k;
                assert(s[i].key@ == k);
            }
        }
    }
}

/// The value `entries_map` assigns to the key of the last occurrence of `k`.
pub proof fn lemma_entries_map_at(s: Seq<CacheEntry>, i: int)
    requires
        0 <= i < s.len(),
        forall|j: int| i < j < s.len() ==> s[j].key@ != s[i].key@,
    ensures
        entries_map(s).dom().contains(s[i].key@),
        entries_map(s)[s[i].key@] == (s[i].val, s[i].expires_at),
    decreases s.len(),
{
    if i == s.len() - 1 {
    } else {
        assert(forall|j: int| i < j < s.len() - 1 ==> s.drop_last()[j].key@ != s.drop_last()[i].key@);
        lemma_entries_map_at(s.drop_last(), i);
        assert(s.drop_last()[i] == s[i]);
    }
}

impl ThreadSafeCacheImpl {
    /// The abstract content of the entry store.
    pub open spec fn store(self) -> Map<Seq<char>, (i32, u64)> {
        entries_map(self.cache@)
    }

    /// Key `k` has a membership in the expiration index under timestamp `ts`.
    pub open spec fn has_membership(self, k: Seq<char>, ts: u64) -> bool {
        exists|i: int, j: int|
            0 <= i < self.expiration_set@.len()
            && 0 <= j < self.expiration_set@[i].keys@.len()
            && self.expiration_set@[i].expires_at == ts
            && self.expiration_set@[i].keys@[j]@ == k
    }

    /// `post` has exactly the memberships of `pre` plus one for `(kv, ts)`.
    pub open spec fn adds_membership(pre: ThreadSafeCacheImpl, post: ThreadSafeCacheImpl, kv: Seq<char>, ts: u64) -> bool {
        forall|k: Seq<char>, t: u64|
            #![trigger post.has_membership(k, t)]
            post.has_membership(k, t) <==> (pre.has_membership(k, t) || (k == kv && t == ts))
    }

    pub open spec fn distinct_keys(self) -> bool {
        distinct_entry_keys(self.cache@)
    }

    /// Index buckets are strictly ordered by expiry timestamp.
    pub open spec fn buckets_sorted(self) -> bool {
        forall|i: int, j: int|
            0 <= i < j < self.expiration_set@.len()
                ==> self.expiration_set@[i].expires_at < self.expiration_set@[j].expires_at
    }

    /// No bucket of the index is empty.
    pub open spec fn buckets_nonempty(self) -> bool {
        forall|i: int|
            0 <= i < self.expiration_set@.len() ==> self.expiration_set@[i].keys@.len() > 0
    }

    /// Within one bucket, no key occurs twice.
    pub open spec fn bucket_keys_distinct(self) -> bool {
        forall|i: int, j1: int, j2: int|
            0 <= i < self.expiration_set@.len()
            && 0 <= j1 < j2 < self.expiration_set@[i].keys@.len()
                ==> self.expiration_set@[i].keys@[j1]@ != self.expiration_set@[i].keys@[j2]@
    }

    /// Every index membership points at a stored entry with that expiry.
    pub open spec fn index_to_store(self) -> bool {
        forall|k: Seq<char>, ts: u64|
            #[trigger] self.has_membership(k, ts)
                ==> self.store().dom().contains(k) && self.store()[k].1 == ts
    }

    /// Every stored entry has a membership in the index under its expiry.
    pub open spec fn store_to_index(self) -> bool {
        forall|k: Seq<char>|
            #[trigger] self.store().dom().contains(k)
                ==> self.has_membership(k, self.store()[k].1)
    }

    /// The engine invariant: the occupancy count matches the store, keys are
    /// unique, and store and expiration index are consistent in both
    /// directions.
    pub open spec fn inv(self) -> bool {
        &&& self.current_size == self.cache@.len()
        &&& self.distinct_keys()
        &&& self.buckets_sorted()
        &&& self.buckets_nonempty()
        &&& self.bucket_keys_distinct()
        &&& self.index_to_store()
        &&& self.store_to_index()
    }

    /// Eviction-policy law: the timestamp of the first index bucket is the
    /// minimum expiry over all stored entries, so evicting that bucket
    /// removes exactly the earliest-expiring keys.
    pub proof fn lemma_earliest_is_min(self)
        requires
            self.inv(),
            self.expiration_set@.len() > 0,
        ensures
            forall|k: Seq<char>|
                #[trigger] self.store().dom().contains(k)
                    ==> self.store()[k].1 >= self.earliest_expiry(),
            exists|k: Seq<char>|
                self.store().dom().contains(k) && self.store()[k].1 == self.earliest_expiry(),
    {
        assert forall|k: Seq<char>| #[trigger] self.store().dom().contains(k)
            implies self.store()[k].1 >= self.earliest_expiry() by {
            assert(self.has_membership(k, self.store()[k].1));
            let (i, j) = choose|i: int, j: int|
                0 <= i < self.expiration_set@.len()
                && 0 <= j < self.expiration_set@[i].keys@.len()
                && self.expiration_set@[i].expires_at == self.store()[k].1
                && self.expiration_set@[i].keys@[j]@ == k;
            if i > 0 {
                assert(self.expiration_set@[0].expires_at < self.expiration_set@[i].expires_at);
            }
        }
        let k0 = self.expiration_set@[0].keys@[0]@;
        assert(self.has_membership(k0, self.earliest_expiry()));
        assert(self.store().dom().contains(k0) && self.store()[k0].1 == self.earliest_expiry());
    }

    /// Capacity-eviction law: a put into a cache that is exactly at capacity
    /// first evicts precisely the keys sharing the earliest expiry, which is
    /// the minimum over all stored entries, and the freshly inserted key
    /// reads back with its value at any time before its own expiry.
    pub proof fn lemma_capacity_eviction(self, k: Seq<char>, v: i32, now: u64, now_get: u64)
        requires
            self.inv(),
            self.current_size == self.max_size,
            self.current_size >= 1,
            now_get < spec_expiry(now, DEFAULT_TTL_MS),
        ensures
            self.expiration_set@.len() > 0,
            forall|k2: Seq<char>|
                #[trigger] self.store().dom().contains(k2)
                    ==> self.store()[k2].1 >= self.earliest_expiry(),
            forall|k2: Seq<char>|
                #[trigger] self.pre_insert_store().dom().contains(k2)
                    <==> (self.store().dom().contains(k2)
                        && self.store()[k2].1 != self.earliest_expiry()),
            spec_get(
                self.pre_insert_store().insert(k, (v, spec_expiry(now, DEFAULT_TTL_MS))),
                k,
                now_get,
            ) == Some(v),
    {
        assert(self.cache@.len() >= 1);
        lemma_entries_map_contains(self.cache@, self.cache@[0].key@);
        assert(self.store().dom().contains(self.cache@[0].key@));
        assert(self.has_membership(self.cache@[0].key@, self.store()[self.cache@[0].key@].1));
        let (i, j) = choose|i: int, j: int|
            0 <= i < self.expiration_set@.len()
            && 0 <= j < self.expiration_set@[i].keys@.len()
            && self.expiration_set@[i].expires_at == self.store()[self.cache@[0].key@].1
            && self.expiration_set@[i].keys@[j]@ == self.cache@[0].key@;
        self.lemma_earliest_is_min();
        lemma_default_ttl(self.pre_insert_store(), k, v, now, now_get);
    }

    /// The occupancy count equals the cardinality of the abstract store.
    pub proof fn lemma_size_matches_store(self)
        requires
            self.inv(),
        ensures
            self.current_size == self.store().dom().len(),
    {
        lemma_entries_map_card(self.cache@);
    }

    /// Position of `key` in the entry store, if present.
    fn find_entry(&self, key: &String) -> (r: Option<usize>)
        ensures
            match r {
                Some(i) => i < self.cache@.len() && self.cache@[i as int].key@ == key@,
                None => forall|i: int| 0 <= i < self.cache@.len() ==> self.cache@[i].key@ != key@,
            },
    {
        let mut i: usize = 0;
        while i < self.cache.len()
            invariant
                i <= self.cache@.len(),
                forall|j: int| 0 <= j < i ==> self.cache@[j].key@ != key@,
            decreases self.cache@.len() - i,
        {
            if self.cache[i].key == *key {
                return Some(i);
            }
            i = i + 1;
        }
        None
    }

    /// Position of the index bucket with timestamp `ts`, if there is one.
    fn find_bucket(&self, ts: u64) -> (r: Option<usize>)
        ensures
            match r {
                Some(i) => i < self.expiration_set@.len()
                    && self.expiration_set@[i as int].expires_at == ts,
                None => forall|i: int|
                    0 <= i < self.expiration_set@.len()
                        ==> self.expiration_set@[i].expires_at != ts,
            },
    {
        let mut i: usize = 0;
        while i < self.expiration_set.len()
            invariant
                i <= self.expiration_set@.len(),
                forall|j: int| 0 <= j < i ==> self.expiration_set@[j].expires_at != ts,
            decreases self.expiration_set@.len() - i,
        {
            if self.expiration_set[i].expires_at == ts {
                return Some(i);
            }
            i = i + 1;
        }
        None
    }

    /// Remove the membership of `key` under timestamp `ts` from the
    /// expiration index, dropping the bucket if it becomes empty. Touches
    /// only the index.
    fn remove_membership(&mut self, key: &String, ts: u64)
        requires
            old(self).buckets_sorted(),
            old(self).buckets_nonempty(),
            old(self).bucket_keys_distinct(),
            old(self).has_membership(key@, ts),
        ensures
            final(self).cache == old(self).cache,
            final(self).max_size == old(self).max_size,
            final(self).current_size == old(self).current_size,
            final(self).buckets_sorted(),
            final(self).buckets_nonempty(),
            final(self).bucket_keys_distinct(),
            forall|k: Seq<char>, t: u64|
                final(self).has_membership(k, t)
                    <==> (old(self).has_membership(k, t) && !(k == key@ && t == ts)),
    {
        let ghost pre = *old(self);
        let bi = match self.find_bucket(ts) {
            Some(bi) => bi,
            None => {
                proof {
                    let (i, j) = choose|i: int, j: int|
                        0 <= i < pre.expiration_set@.len()
                        && 0 <= j < pre.expiration_set@[i].keys@.len()
                        && pre.expiration_set@[i].expires_at == ts
                        && pre.expiration_set@[i].keys@[j]@ == key@;
                    assert(false);
                }
                return;
            },
        };
        let mut bucket = self.expiration_set.remove(bi);
        let kj = match find_key(&bucket.keys, key) {
            Some(kj) => kj,
            None => {
                proof {
                    let (i, j) = choose|i: int, j: int|
                        0 <= i < pre.expiration_set@.len()
                        && 0 <= j < pre.expiration_set@[i].keys@.len()
                        && pre.expiration_set@[i].expires_at == ts
                        && pre.expiration_set@[i].keys@[j]@ == key@;
                    // the timestamps of buckets are distinct, so i is bi
                    assert(i == bi);
                    assert(false);
                }
                return;
            },
        };
        bucket.keys.swap_remove(kj);
        let ghost newkeys = bucket.keys@;
        if bucket.keys.len() > 0 {
            self.expiration_set.insert(bi, bucket);
        }
        proof {
            let oldset = pre.expiration_set@;
            let oldkeys = oldset[bi as int].keys@;
            assert(newkeys =~= oldkeys.update(kj as int, oldkeys.last()).drop_last());
            // every key view in the shrunken bucket is an old one other than key@
            assert forall|b: int| #![trigger newkeys[b]] 0 <= b < newkeys.len()
                implies exists|a: int| 0 <= a < oldkeys.len() && (#[trigger] oldkeys[a])@ == newkeys[b]@ && oldkeys[a]@ != key@ by {
                let a = if b == kj { oldkeys.len() - 1 } else { b as int };
                assert(oldkeys[a]@ == newkeys[b]@);
                assert(oldkeys[kj as int]@ == key@);
            }
            if newkeys.len() > 0 {
                assert(self.expiration_set@ =~= oldset.update(bi as int, self.expiration_set@[bi as int]));
            } else {
                assert(self.expiration_set@ =~= oldset.remove(bi as int));
            }
            assert forall|k: Seq<char>, t: u64|
                self.has_membership(k, t)
                    <==> (pre.has_membership(k, t) && !(k == key@ && t == ts)) by {
                if self.has_membership(k, t) {
                    let (i, j) = choose|i: int, j: int|
                        0 <= i < self.expiration_set@.len()
                        && 0 <= j < self.expiration_set@[i].keys@.len()
                        && self.expiration_set@[i].expires_at == t
                        && self.expiration_set@[i].keys@[j]@ == k;
                    if newkeys.len() > 0 {
                        if i == bi {
                            let a = choose|a: int| 0 <= a < oldkeys.len() && oldkeys[a]@ == newkeys[j]@ && oldkeys[a]@ != key@;
                            assert(pre.has_membership(k, t));
                            assert(k != key@);
                        } else {
                            assert(pre.has_membership(k, t));
                            if k == key@ && t == ts {
                                // two distinct buckets with the same timestamp contradict sortedness
                                assert(oldset[i].expires_at == oldset[bi as int].expires_at);
                                assert(false);
                            }
                        }
                    } else {
                        let oi = if i < bi { i } else { i + 1 };
                        assert(oldset[oi] == self.expiration_set@[i]);
                        assert(pre.has_membership(k, t));
                        if k == key@ && t == ts {
                            assert(oldset[oi].expires_at == oldset[bi as int].expires_at);
                            assert(oi == bi);
                            assert(false);
                        }
                    }
                }
                if pre.has_membership(k, t) && !(k == key@ && t == ts) {
                    let (i, j) = choose|i: int, j: int|
                        0 <= i < oldset.len()
                        && 0 <= j < oldset[i].keys@.len()
                        && oldset[i].expires_at == t
                        && oldset[i].keys@[j]@ == k;
                    if i == bi {
                        assert(t == ts);
                        assert(k != key@);
                        assert(j != kj);
                        // k survives the swap_remove inside the bucket
                        let b = if j == oldkeys.len() - 1 { kj as int } else { j };
                        if j == oldkeys.len() - 1 && kj == oldkeys.len() - 1 {
                            assert(oldkeys[j]@ == key@);
                            assert(false);
                        }
                        assert(newkeys[b]@ == k);
                        assert(self.expiration_set@[bi as int].keys@[b]@ == k);
                        assert(self.has_membership(k, t));
                    } else {
                        if newkeys.len() > 0 {
                            assert(self.expiration_set@[i].keys@[j]@ == k);
                            assert(self.has_membership(k, t));
                        } else {
                            let ni = if i < bi { i } else { i - 1 };
                            assert(self.expiration_set@[ni] == oldset[i]);
                            assert(self.has_membership(k, t));
                        }
                    }
                }
            }
        }
    }

    /// Remove `key` from the cache: delete it from the entry store and drop
    /// its expiration-index membership. Removing an absent key leaves the
    /// state exactly unchanged.
    pub fn remove_key(&mut self, key: &String)
        requires
            old(self).inv(),
        ensures
            final(self).inv(),
            final(self).max_size == old(self).max_size,
            final(self).store() == old(self).store().remove(key@),
            old(self).store().dom().contains(key@)
                ==> final(self).current_size == old(self).current_size - 1,
            !old(self).store().dom().contains(key@) ==> *final(self) == *old(self),
    {
        let ghost pre = *old(self);
        match self.find_entry(key) {
            None => {
                proof {
                    lemma_entries_map_contains(pre.cache@, key@);
                    assert(pre.store().remove(key@) =~= pre.store());
                }
            },
            Some(i) => {
                let ts = self.cache[i].expires_at;
                proof {
                    lemma_entries_map_contains(pre.cache@, key@);
                    lemma_entries_map_at(pre.cache@, i as int);
                    assert(pre.store()[key@].1 == ts);
                    assert(pre.has_membership(key@, ts));
                }
                self.remove_membership(key, ts);
                self.cache.swap_remove(i);
                self.current_size = self.cache.len();
                proof {
                    lemma_swap_remove_map(pre.cache@, i as int);
                    assert(self.store() == pre.store().remove(key@));
                    // index-to-store: surviving memberships are old ones for other keys
                    assert forall|k: Seq<char>, t: u64| #[trigger] self.has_membership(k, t)
                        implies self.store().dom().contains(k) && self.store()[k].1 == t by {
                        assert(pre.has_membership(k, t));
                        assert(pre.store().dom().contains(k) && pre.store()[k].1 == t);
                        if k == key@ {
                            assert(t == ts);
                            assert(false);
                        }
                    }
                    assert forall|k: Seq<char>| #[trigger] self.store().dom().contains(k)
                        implies self.has_membership(k, self.store()[k].1) by {
                        assert(pre.store().dom().contains(k));
                        assert(k != key@);
                        assert(pre.has_membership(k, pre.store()[k].1));
                    }
                }
            },
        }
    }

    /// Add a membership for `key` under timestamp `ts` to the expiration
    /// index, creating the bucket if the timestamp is new. Touches only the
    /// index; the key must not be registered anywhere yet.
    #[verifier::rlimit(100)]
    fn insert_membership(&mut self, key: &String, ts: u64)
        requires
            old(self).buckets_sorted(),
            old(self).buckets_nonempty(),
            old(self).bucket_keys_distinct(),
            forall|t: u64| !old(self).has_membership(key@, t),
        ensures
            final(self).cache == old(self).cache,
            final(self).max_size == old(self).max_size,
            final(self).current_size == old(self).current_size,
            final(self).buckets_sorted(),
            final(self).buckets_nonempty(),
            final(self).bucket_keys_distinct(),
            Self::adds_membership(*old(self), *final(self), key@, ts),
    {
        let ghost pre = *old(self);
        let ghost kv = key@;
        let mut p: usize = 0;
        while p < self.expiration_set.len() && self.expiration_set[p].expires_at < ts
            invariant
                *self == pre,
                p <= self.expiration_set@.len(),
                forall|q: int| 0 <= q < p ==> self.expiration_set@[q].expires_at < ts,
            decreases self.expiration_set@.len() - p,
        {
            p = p + 1;
        }
        let ghost oldset = pre.expiration_set@;
        if p < self.expiration_set.len() && self.expiration_set[p].expires_at == ts {
            let mut bucket = self.expiration_set.remove(p);
            let ghost oldkeys = bucket.keys@;
            bucket.keys.push(key.clone());
            self.expiration_set.insert(p, bucket);
            proof {
                assert(self.expiration_set@ =~= oldset.update(p as int, self.expiration_set@[p as int]));
                let newkeys = self.expiration_set@[p as int].keys@;
                assert(newkeys =~= oldkeys.push(*key));
                assert(newkeys[oldkeys.len() as int]@ == kv);
                assert forall|j: int| 0 <= j < oldkeys.len() implies oldkeys[j]@ != kv by {
                    if oldkeys[j]@ == kv {
                        assert(pre.has_membership(kv, ts));
                    }
                }
                assert forall|k: Seq<char>, t: u64|
                    #![trigger self.has_membership(k, t)]
                    self.has_membership(k, t)
                        <==> (pre.has_membership(k, t) || (k == kv && t == ts)) by {
                    if self.has_membership(k, t) {
                        let (i, j) = choose|i: int, j: int|
                            0 <= i < self.expiration_set@.len()
                            && 0 <= j < self.expiration_set@[i].keys@.len()
                            && self.expiration_set@[i].expires_at == t
                            && self.expiration_set@[i].keys@[j]@ == k;
                        if i == p && j == oldkeys.len() {
                            assert(k == kv && t == ts);
                        } else {
                            assert(oldset[i].keys@[j]@ == k);
                            assert(pre.has_membership(k, t));
                        }
                    }
                    if pre.has_membership(k, t) {
                        let (i, j) = choose|i: int, j: int|
                            0 <= i < oldset.len()
                            && 0 <= j < oldset[i].keys@.len()
                            && oldset[i].expires_at == t
                            && oldset[i].keys@[j]@ == k;
                        assert(self.expiration_set@[i].keys@[j]@ == k);
                        assert(self.has_membership(k, t));
                    }
                    if k == kv && t == ts {
                        assert(self.expiration_set@[p as int].keys@[oldkeys.len() as int]@ == k);
                        assert(self.has_membership(k, t));
                    }
                }
                assert(Self::adds_membership(pre, *self, kv, ts));
            }
        } else {
            let mut ks: Vec<String> = Vec::new();
            ks.push(key.clone());
            self.expiration_set.insert(p, ExpiryBucket { expires_at: ts, keys: ks });
            proof {
                let newset = self.expiration_set@;
                assert(newset =~= oldset.insert(p as int, newset[p as int]));
                assert forall|a: int, b: int| 0 <= a < b < newset.len()
                    implies newset[a].expires_at < newset[b].expires_at by {
                    let a0 = if a < p { a } else { a - 1 };
                    let b0 = if b < p { b } else { b - 1 };
                    if a != p && b != p {
                        assert(newset[a] == oldset[a0] && newset[b] == oldset[b0]);
                    } else if a == p {
                        assert(newset[b] == oldset[b0] && b0 >= p);
                    } else {
                        assert(newset[a] == oldset[a0] && a0 < p);
                    }
                }
                assert forall|k: Seq<char>, t: u64|
                    #![trigger self.has_membership(k, t)]
                    self.has_membership(k, t)
                        <==> (pre.has_membership(k, t) || (k == kv && t == ts)) by {
                    if self.has_membership(k, t) {
                        let (i, j) = choose|i: int, j: int|
                            0 <= i < newset.len()
                            && 0 <= j < newset[i].keys@.len()
                            && newset[i].expires_at == t
                            && newset[i].keys@[j]@ == k;
                        if i == p {
                            assert(k == kv && t == ts);
                        } else {
                            let i0 = if i < p { i } else { i - 1 };
                            assert(newset[i] == oldset[i0]);
                            assert(oldset[i0].keys@[j]@ == k);
                            assert(pre.has_membership(k, t));
                        }
                    }
                    if pre.has_membership(k, t) {
                        let (i, j) = choose|i: int, j: int|
                            0 <= i < oldset.len()
                            && 0 <= j < oldset[i].keys@.len()
                            && oldset[i].expires_at == t
                            && oldset[i].keys@[j]@ == k;
                        let ni = if i < p { i } else { i + 1 };
                        assert(newset[ni] == oldset[i]);
                        assert(newset[ni].keys@[j]@ == k);
                        assert(self.has_membership(k, t));
                    }
                    if k == kv && t == ts {
                        assert(newset[p as int].keys@[0]@ == k);
                        assert(self.has_membership(k, t));
                    }
                }
                assert(Self::adds_membership(pre, *self, kv, ts));
            }
        }
    }

    /// Insert a key that is not yet present, with the given value and
    /// absolute expiry.
    pub(crate) fn insert_fresh(&mut self, key: String, val: i32, expires_at: u64)
        requires
            old(self).inv(),
            !old(self).store().dom().contains(key@),
        ensures
            final(self).inv(),
            final(self).max_size == old(self).max_size,
            final(self).store() == old(self).store().insert(key@, (val, expires_at)),
            final(self).current_size == old(self).current_size + 1,
    {
        let ghost pre = *old(self);
        let ghost kv = key@;
        let key2 = key.clone();
        self.cache.push(CacheEntry { key, val, expires_at });
        self.current_size = self.cache.len();
        proof {
            assert(self.cache@.drop_last() =~= pre.cache@);
            assert(self.store() == pre.store().insert(kv, (val, expires_at)));
            lemma_entries_map_contains(pre.cache@, kv);
            assert forall|i: int, j: int| 0 <= i < j < self.cache@.len()
                implies self.cache@[i].key@ != self.cache@[j].key@ by {
                if j == self.cache@.len() - 1 {
                    assert(self.cache@[i] == pre.cache@[i]);
                }
            }
            assert forall|t: u64| !self.has_membership(kv, t) by {
                if self.has_membership(kv, t) {
                    assert(pre.has_membership(kv, t));
                    assert(pre.store().dom().contains(kv));
                }
            }
        }
        let ghost mid = *self;
        self.insert_membership(&key2, expires_at);
        proof {
            assert(mid.expiration_set@ == pre.expiration_set@);
            assert forall|k: Seq<char>, t: u64| #[trigger] self.has_membership(k, t)
                implies self.store().dom().contains(k) && self.store()[k].1 == t by {
                if mid.has_membership(k, t) {
                    let (i, j) = choose|i: int, j: int|
                        0 <= i < mid.expiration_set@.len()
                        && 0 <= j < mid.expiration_set@[i].keys@.len()
                        && mid.expiration_set@[i].expires_at == t
                        && mid.expiration_set@[i].keys@[j]@ == k;
                    assert(pre.expiration_set@[i].keys@[j]@ == k);
                    assert(pre.has_membership(k, t));
                    assert(pre.store().dom().contains(k) && pre.store()[k].1 == t);
                    assert(k != kv);
                } else {
                    assert(k == kv && t == expires_at);
                }
            }
            assert forall|k: Seq<char>| #[trigger] self.store().dom().contains(k)
                implies self.has_membership(k, self.store()[k].1) by {
                if k == kv {
                    assert(self.has_membership(kv, expires_at));
                } else {
                    assert(pre.store().dom().contains(k));
                    let t = pre.store()[k].1;
                    assert(pre.has_membership(k, t));
                    let (i, j) = choose|i: int, j: int|
                        0 <= i < pre.expiration_set@.len()
                        && 0 <= j < pre.expiration_set@[i].keys@.len()
                        && pre.expiration_set@[i].expires_at == t
                        && pre.expiration_set@[i].keys@[j]@ == k;
                    assert(mid.expiration_set@[i].keys@[j]@ == k);
                    assert(mid.has_membership(k, t));
                    assert(self.has_membership(k, t));
                    assert(self.store()[k].1 == t);
                }
            }
        }
    }

    /// The set of stored keys whose expiry is exactly `ts`.
    pub open spec fn keys_at(self, ts: u64) -> Set<Seq<char>> {
        Set::new(|k: Seq<char>| self.store().dom().contains(k) && self.store()[k].1 == ts)
    }

    /// The earliest expiry timestamp registered in the expiration index.
    pub open spec fn earliest_expiry(self) -> u64
        recommends
            self.expiration_set@.len() > 0,
    {
        self.expiration_set@[0].expires_at
    }

    /// The store after evicting the whole bucket of keys that share the
    /// earliest expiry; an empty index evicts nothing.
    pub open spec fn post_evict_store(self) -> Map<Seq<char>, (i32, u64)> {
        if self.expiration_set@.len() == 0 {
            self.store()
        } else {
            self.store().remove_keys(self.keys_at(self.earliest_expiry()))
        }
    }

    /// The store against which an insertion happens: when the cache is
    /// exactly at capacity the earliest-expiring bucket is evicted first,
    /// otherwise the store is left as it is.
    pub open spec fn pre_insert_store(self) -> Map<Seq<char>, (i32, u64)> {
        if self.current_size == self.max_size {
            self.post_evict_store()
        } else {
            self.store()
        }
    }

    /// Remove every stored key whose expiry is exactly `ts`, with its
    /// expiration-index bucket.
    fn remove_all_at(&mut self, ts: u64)
        requires
            old(self).inv(),
        ensures
            final(self).inv(),
            final(self).max_size == old(self).max_size,
            final(self).store() == old(self).store().remove_keys(old(self).keys_at(ts)),
            final(self).current_size <= old(self).current_size,
            old(self).keys_at(ts) != Set::<Seq<char>>::empty()
                ==> final(self).current_size < old(self).current_size,
    {
        let ghost pre = *old(self);
        let bi_opt = self.find_bucket(ts);
        match bi_opt {
            None => {
                proof {
                    assert forall|k: Seq<char>| !(#[trigger] pre.keys_at(ts).contains(k)) by {
                        if pre.store().dom().contains(k) && pre.store()[k].1 == ts {
                            assert(pre.has_membership(k, ts));
                            let (i, j) = choose|i: int, j: int|
                                0 <= i < pre.expiration_set@.len()
                                && 0 <= j < pre.expiration_set@[i].keys@.len()
                                && pre.expiration_set@[i].expires_at == ts
                                && pre.expiration_set@[i].keys@[j]@ == k;
                            assert(false);
                        }
                    }
                    assert(pre.store().remove_keys(pre.keys_at(ts)) =~= pre.store());
                    assert(pre.keys_at(ts) =~= Set::<Seq<char>>::empty());
                }
            },
            Some(bi) => {
                let keys = clone_keys(&self.expiration_set[bi].keys);
                let ghost bkeys = keys@;
                proof {
                    assert forall|r: int| 0 <= r < bkeys.len()
                        implies pre.has_membership((#[trigger] bkeys[r])@, ts) by {
                        assert(pre.expiration_set@[bi as int].keys@[r]@ == bkeys[r]@);
                    }
                    assert(prefix_keys(bkeys, 0) =~= Set::<Seq<char>>::empty());
                    assert(pre.store().remove_keys(prefix_keys(bkeys, 0)) =~= pre.store());
                }
                let mut q: usize = 0;
                while q < keys.len()
                    invariant
                        self.inv(),
                        self.max_size == pre.max_size,
                        q <= bkeys.len(),
                        keys@ == bkeys,
                        forall|a: int, b: int| 0 <= a < b < bkeys.len() ==> bkeys[a]@ != bkeys[b]@,
                        forall|r: int| 0 <= r < bkeys.len()
                            ==> pre.store().dom().contains((#[trigger] bkeys[r])@)
                                && pre.store()[bkeys[r]@].1 == ts,
                        self.store() == pre.store().remove_keys(prefix_keys(bkeys, q as int)),
                        self.current_size <= pre.current_size,
                        q > 0 ==> self.current_size < pre.current_size,
                    decreases bkeys.len() - q,
                {
                    let ghost smid = *self;
                    proof {
                        assert(!prefix_keys(bkeys, q as int).contains(bkeys[q as int]@));
                        assert(smid.store().dom().contains(bkeys[q as int]@));
                    }
                    self.remove_key(&keys[q]);
                    proof {
                        assert forall|k: Seq<char>|
                            #![trigger prefix_keys(bkeys, q as int + 1).contains(k)]
                            prefix_keys(bkeys, q as int + 1).contains(k)
                                <==> (prefix_keys(bkeys, q as int).contains(k) || k == bkeys[q as int]@) by {
                            if k == bkeys[q as int]@ {
                                let w: int = q as int;
                                assert(0 <= w < w + 1 && bkeys[w]@ == k);
                            }
                        }
                        assert(self.store() =~= pre.store().remove_keys(prefix_keys(bkeys, q as int + 1)));
                    }
                    q = q + 1;
                }
                proof {
                    assert forall|k: Seq<char>|
                        #[trigger] prefix_keys(bkeys, bkeys.len() as int).contains(k)
                            <==> pre.keys_at(ts).contains(k) by {
                        if prefix_keys(bkeys, bkeys.len() as int).contains(k) {
                            let j = choose|j: int| 0 <= j < bkeys.len() && bkeys[j]@ == k;
                            assert(pre.has_membership(k, ts));
                        }
                        if pre.keys_at(ts).contains(k) {
                            assert(pre.store().dom().contains(k));
                            assert(pre.has_membership(k, pre.store()[k].1));
                            let (i, j) = choose|i: int, j: int|
                                0 <= i < pre.expiration_set@.len()
                                && 0 <= j < pre.expiration_set@[i].keys@.len()
                                && pre.expiration_set@[i].expires_at == ts
                                && pre.expiration_set@[i].keys@[j]@ == k;
                            if i != bi {
                                assert(pre.expiration_set@[i].expires_at
                                    == pre.expiration_set@[bi as int].expires_at);
                                assert(false);
                            }
                            assert(bkeys[j]@ == k);
                        }
                    }
                    assert(prefix_keys(bkeys, bkeys.len() as int) =~= pre.keys_at(ts));
                    assert(bkeys.len() > 0);
                    assert(pre.keys_at(ts).contains(bkeys[0]@));
                }
            },
        }
    }

    /// Evict the single earliest-expiry bucket: every key sharing the
    /// earliest timestamp is removed together. An empty index evicts nothing.
    fn evict_earliest(&mut self)
        requires
            old(self).inv(),
        ensures
            final(self).inv(),
            final(self).max_size == old(self).max_size,
            final(self).store() == old(self).post_evict_store(),
            final(self).current_size <= old(self).current_size,
            old(self).expiration_set@.len() > 0
                ==> final(self).current_size < old(self).current_size,
    {
        let ghost pre = *old(self);
        if self.expiration_set.len() == 0 {
            return;
        }
        let ts = self.expiration_set[0].expires_at;
        proof {
            assert(pre.expiration_set@[0].keys@.len() > 0);
            assert(pre.has_membership(pre.expiration_set@[0].keys@[0]@, ts));
            assert(pre.store().dom().contains(pre.expiration_set@[0].keys@[0]@));
            assert(pre.keys_at(ts).contains(pre.expiration_set@[0].keys@[0]@));
            assert(pre.keys_at(ts) != Set::<Seq<char>>::empty());
        }
        self.remove_all_at(ts);
    }

    /// Insert `key` with `val` under the absolute expiry `expires_at`,
    /// evicting the earliest-expiring bucket first when the cache is at
    /// capacity. Inserting never leaves the occupancy above a capacity it
    /// already respected.
    fn put_entry(&mut self, key: String, val: i32, expires_at: u64)
        requires
            old(self).inv(),
        ensures
            final(self).inv(),
            final(self).max_size == old(self).max_size,
            final(self).store()
                == old(self).pre_insert_store().insert(key@, (val, expires_at)),
            final(self).current_size <= old(self).current_size + 1,
            old(self).current_size <= old(self).max_size && old(self).max_size >= 1
                ==> final(self).current_size <= old(self).max_size,
    {
        let ghost pre = *old(self);
        if self.current_size == self.max_size {
            proof {
                if pre.current_size >= 1 {
                    lemma_entries_map_contains(pre.cache@, pre.cache@[0].key@);
                    assert(pre.store().dom().contains(pre.cache@[0].key@));
                    assert(pre.has_membership(pre.cache@[0].key@, pre.store()[pre.cache@[0].key@].1));
                    let (i, j) = choose|i: int, j: int|
                        0 <= i < pre.expiration_set@.len()
                        && 0 <= j < pre.expiration_set@[i].keys@.len()
                        && pre.expiration_set@[i].expires_at == pre.store()[pre.cache@[0].key@].1
                        && pre.expiration_set@[i].keys@[j]@ == pre.cache@[0].key@;
                    assert(pre.expiration_set@.len() > 0);
                }
            }
            self.evict_earliest();
        }
        self.remove_key(&key);
        self.insert_fresh(key, val, expires_at);
        proof {
            assert(self.store() =~= pre.pre_insert_store().insert(key@, (val, expires_at)));
        }
    }

    /// Insert `key` with `val` at time `now` under the default, effectively
    /// non-expiring time-to-live. If the cache is exactly at capacity, the
    /// earliest-expiring bucket is evicted as a group first; occupancy that
    /// respected the capacity still respects it afterwards.
    pub fn put_at(&mut self, key: String, val: i32, now: u64)
        requires
            old(self).inv(),
        ensures
            final(self).inv(),
            final(self).max_size == old(self).max_size,
            final(self).store()
                == old(self).pre_insert_store().insert(key@, (val, spec_expiry(now, DEFAULT_TTL_MS))),
            final(self).current_size <= old(self).current_size + 1,
            old(self).current_size <= old(self).max_size && old(self).max_size >= 1
                ==> final(self).current_size <= old(self).max_size,
    {
        let expires_at = now.saturating_add(DEFAULT_TTL_MS);
        self.put_entry(key, val, expires_at);
    }

    /// Insert `key` with `val` at time `now`, expiring `expiration`
    /// milliseconds later. Eviction behaves exactly as in `put_at`.
    pub fn put_exp_at(&mut self, key: String, val: i32, expiration: i32, now: u64)
        requires
            old(self).inv(),
            expiration >= 0,
        ensures
            final(self).inv(),
            final(self).max_size == old(self).max_size,
            final(self).store()
                == old(self).pre_insert_store().insert(key@, (val, spec_expiry(now, expiration as u64))),
            final(self).current_size <= old(self).current_size + 1,
            old(self).current_size <= old(self).max_size && old(self).max_size >= 1
                ==> final(self).current_size <= old(self).max_size,
    {
        let expires_at = now.saturating_add(expiration as u64);
        self.put_entry(key, val, expires_at);
    }

    /// Look up `key` at time `now`. An entry whose expiry has passed is
    /// treated as a miss; the entry itself is left for eviction or the
    /// sweeper to reclaim.
    pub fn get_at(&self, key: &String, now: u64) -> (r: Option<i32>)
        requires
            self.inv(),
        ensures
            r == spec_get(self.store(), key@, now),
    {
        match self.find_entry(key) {
            None => {
                proof {
                    lemma_entries_map_contains(self.cache@, key@);
                }
                None
            },
            Some(i) => {
                proof {
                    lemma_entries_map_at(self.cache@, i as int);
                }
                let expires_at = self.cache[i].expires_at;
                if expires_at != NEVER_EXPIRES && expires_at <= now {
                    None
                } else {
                    Some(self.cache[i].val)
                }
            },
        }
    }

    /// The set of stored keys whose expiry has passed at time `now`. Entries
    /// carrying the non-expiring sentinel never count as expired.
    pub open spec fn expired_keys(self, now: u64) -> Set<Seq<char>> {
        Set::new(|k: Seq<char>|
            self.store().dom().contains(k)
            && self.store()[k].1 != NEVER_EXPIRES
            && self.store()[k].1 <= now)
    }

    /// One sweeper pass at time `now`: every bucket whose timestamp is due is
    /// dropped from the index and all of its keys are removed from the store.
    pub fn clean_at(&mut self, now: u64)
        requires
            old(self).inv(),
        ensures
            final(self).inv(),
            final(self).max_size == old(self).max_size,
            final(self).store() == old(self).store().remove_keys(old(self).expired_keys(now)),
            final(self).current_size <= old(self).current_size,
    {
        let ghost pre = *old(self);
        let mut targets: Vec<u64> = Vec::new();
        let mut i: usize = 0;
        while i < self.expiration_set.len()
            invariant
                *self == pre,
                i <= pre.expiration_set@.len(),
                forall|j: int| 0 <= j < targets@.len()
                    ==> (#[trigger] targets@[j]) != NEVER_EXPIRES && targets@[j] <= now,
                forall|bi: int|
                    0 <= bi < i
                    && (#[trigger] pre.expiration_set@[bi]).expires_at != NEVER_EXPIRES
                    && pre.expiration_set@[bi].expires_at <= now
                        ==> exists|j: int|
                            0 <= j < targets@.len()
                            && targets@[j] == pre.expiration_set@[bi].expires_at,
            decreases pre.expiration_set@.len() - i,
        {
            let ts = self.expiration_set[i].expires_at;
            if ts != NEVER_EXPIRES && ts <= now {
                let ghost tpre = targets@;
                targets.push(ts);
                proof {
                    assert forall|bi: int|
                        0 <= bi < i + 1
                        && (#[trigger] pre.expiration_set@[bi]).expires_at != NEVER_EXPIRES
                        && pre.expiration_set@[bi].expires_at <= now
                            implies exists|j: int|
                                0 <= j < targets@.len()
                                && targets@[j] == pre.expiration_set@[bi].expires_at by {
                        if bi == i {
                            assert(targets@[tpre.len() as int] == ts);
                        } else {
                            let j = choose|j: int|
                                0 <= j < tpre.len() && tpre[j] == pre.expiration_set@[bi].expires_at;
                            assert(targets@[j] == pre.expiration_set@[bi].expires_at);
                        }
                    }
                }
            }
            i = i + 1;
        }
        let ghost tseq = targets@;
        proof {
            assert(pre.store().remove_keys(keys_with_ts_in(pre.store(), tseq, 0)) =~= pre.store());
        }
        let mut q: usize = 0;
        while q < targets.len()
            invariant
                self.inv(),
                self.max_size == pre.max_size,
                q <= tseq.len(),
                targets@ == tseq,
                self.current_size <= pre.current_size,
                self.store() == pre.store().remove_keys(keys_with_ts_in(pre.store(), tseq, q as int)),
                forall|j: int| 0 <= j < tseq.len()
                    ==> (#[trigger] tseq[j]) != NEVER_EXPIRES && tseq[j] <= now,
                forall|bi: int|
                    0 <= bi < pre.expiration_set@.len()
                    && (#[trigger] pre.expiration_set@[bi]).expires_at != NEVER_EXPIRES
                    && pre.expiration_set@[bi].expires_at <= now
                        ==> exists|j: int|
                            0 <= j < tseq.len()
                            && tseq[j] == pre.expiration_set@[bi].expires_at,
            decreases tseq.len() - q,
        {
            let t = targets[q];
            let ghost smid = *self;
            self.remove_all_at(t);
            proof {
                assert forall|k: Seq<char>|
                    #![trigger pre.store().dom().contains(k)]
                    self.store().dom().contains(k)
                        <==> (pre.store().dom().contains(k)
                            && !keys_with_ts_in(pre.store(), tseq, q as int + 1).contains(k)) by {
                    if pre.store().dom().contains(k) {
                        if keys_with_ts_in(pre.store(), tseq, q as int + 1).contains(k) {
                            let j = choose|j: int| 0 <= j < q as int + 1 && tseq[j] == pre.store()[k].1;
                            if j < q as int {
                                assert(keys_with_ts_in(pre.store(), tseq, q as int).contains(k));
                            } else {
                                assert(pre.store()[k].1 == t);
                                if smid.store().dom().contains(k) {
                                    assert(smid.keys_at(t).contains(k));
                                }
                            }
                            assert(!self.store().dom().contains(k));
                        } else {
                            assert(!keys_with_ts_in(pre.store(), tseq, q as int).contains(k));
                            assert(smid.store().dom().contains(k));
                            assert(smid.store()[k] == pre.store()[k]);
                            assert(pre.store()[k].1 != t);
                            assert(!smid.keys_at(t).contains(k));
                            assert(self.store().dom().contains(k));
                        }
                    }
                }
                assert(self.store()
                    =~= pre.store().remove_keys(keys_with_ts_in(pre.store(), tseq, q as int + 1)));
            }
            q = q + 1;
        }
        proof {
            assert forall|k: Seq<char>|
                #![trigger pre.store().dom().contains(k)]
                keys_with_ts_in(pre.store(), tseq, tseq.len() as int).contains(k)
                    <==> pre.expired_keys(now).contains(k) by {
                if keys_with_ts_in(pre.store(), tseq, tseq.len() as int).contains(k) {
                    let j = choose|j: int| 0 <= j < tseq.len() && tseq[j] == pre.store()[k].1;
                    assert(pre.expired_keys(now).contains(k));
                }
                if pre.expired_keys(now).contains(k) {
                    assert(pre.has_membership(k, pre.store()[k].1));
                    let (bi, bj) = choose|bi: int, bj: int|
                        0 <= bi < pre.expiration_set@.len()
                        && 0 <= bj < pre.expiration_set@[bi].keys@.len()
                        && pre.expiration_set@[bi].expires_at == pre.store()[k].1
                        && pre.expiration_set@[bi].keys@[bj]@ == k;
                    assert(pre.expiration_set@[bi].expires_at != NEVER_EXPIRES);
                    let j = choose|j: int|
                        0 <= j < tseq.len() && tseq[j] == pre.expiration_set@[bi].expires_at;
                    assert(keys_with_ts_in(pre.store(), tseq, tseq.len() as int).contains(k));
                }
            }
            assert(keys_with_ts_in(pre.store(), tseq, tseq.len() as int) =~= pre.expired_keys(now));
        }
    }

    /// Whether `key` is currently present in the entry store, with no
    /// expiry-awareness: an expired but unswept entry still counts.
    pub fn has_key(&self, key: &String) -> (r: bool)
        ensures
            r == self.store().dom().contains(key@),
    {
        proof {
            lemma_entries_map_contains(self.cache@, key@);
        }
        match self.find_entry(key) {
            Some(_) => true,
            None => false,
        }
    }
}

/// The keys of `m` whose expiry equals one of the first `n` timestamps of `ts`.
pub open spec fn keys_with_ts_in(m: Map<Seq<char>, (i32, u64)>, ts: Seq<u64>, n: int) -> Set<Seq<char>> {
    Set::new(|k: Seq<char>| m.dom().contains(k) && exists|j: int| 0 <= j < n && ts[j] == m[k].1)
}

/// The views of the first `n` keys of a sequence, as a set.
pub open spec fn prefix_keys(s: Seq<String>, n: int) -> Set<Seq<char>> {
    Set::new(|k: Seq<char>| exists|j: int| 0 <= j < n && s[j]@ == k)
}

/// What a read of `k` from store `m` at time `now` returns: the stored value,
/// unless the entry's expiry has passed. An expiry of exactly `NEVER_EXPIRES`
/// is never compared against the clock.
pub open spec fn spec_get(m: Map<Seq<char>, (i32, u64)>, k: Seq<char>, now: u64) -> Option<i32> {
    if m.dom().contains(k) {
        if m[k].1 != NEVER_EXPIRES && m[k].1 <= now {
            None
        } else {
            Some(m[k].0)
        }
    } else {
        None
    }
}

/// The absolute expiry assigned at time `now` for a time-to-live of `ttl`
/// milliseconds, saturating at the largest representable timestamp.
pub open spec fn spec_expiry(now: u64, ttl: u64) -> u64 {
    if now + ttl > u64::MAX {
        u64::MAX
    } else {
        (now + ttl) as u64
    }
}

/// A duplicate of a bucket's key list.
fn clone_keys(v: &Vec<String>) -> (r: Vec<String>)
    ensures
        r@ == v@,
{
    let mut r: Vec<String> = Vec::new();
    let mut i: usize = 0;
    while i < v.len()
        invariant
            i <= v@.len(),
            r@ == v@.subrange(0, i as int),
        decreases v@.len() - i,
    {
        r.push(v[i].clone());
        proof {
            assert(r@ =~= v@.subrange(0, i as int + 1));
        }
        i = i + 1;
    }
    proof {
        assert(v@.subrange(0, v@.len() as int) =~= v@);
    }
    r
}

/// Position of `key` among a bucket's keys, if present.
fn find_key(keys: &Vec<String>, key: &String) -> (r: Option<usize>)
    ensures
        match r {
            Some(j) => j < keys@.len() && keys@[j as int]@ == key@,
            None => forall|j: int| 0 <= j < keys@.len() ==> keys@[j]@ != key@,
        },
{
    let mut j: usize = 0;
    while j < keys.len()
        invariant
            j <= keys@.len(),
            forall|b: int| 0 <= b < j ==> keys@[b]@ != key@,
        decreases keys@.len() - j,
    {
        if keys[j] == *key {
            return Some(j);
        }
        j = j + 1;
    }
    None
}

/// Removing the entry at `i` by a swap with the last entry removes exactly
/// that key from the abstract map.
pub proof fn lemma_swap_remove_map(s: Seq<CacheEntry>, i: int)
    requires
        distinct_entry_keys(s),
        0 <= i < s.len(),
    ensures
        distinct_entry_keys(s.update(i, s.last()).drop_last()),
        entries_map(s.update(i, s.last()).drop_last()) == entries_map(s).remove(s[i].key@),
{
    let s2 = s.update(i, s.last()).drop_last();
    assert forall|a: int, b: int| 0 <= a < b < s2.len() implies s2[a].key@ != s2[b].key@ by {
        let a0 = if a == i { s.len() - 1 } else { a };
        let b0 = if b == i { s.len() - 1 } else { b };
        assert(s2[a] == s[a0] && s2[b] == s[b0]);
    }
    assert(entries_map(s2) =~= entries_map(s).remove(s[i].key@)) by {
        assert forall|k: Seq<char>| #![trigger entries_map(s2).dom().contains(k)]
            entries_map(s2).dom().contains(k)
            implies entries_map(s).remove(s[i].key@).dom().contains(k)
                && entries_map(s2)[k] == entries_map(s).remove(s[i].key@)[k] by {
            lemma_entries_map_contains(s2, k);
            let b = choose|b: int| 0 <= b < s2.len() && s2[b].key@ == k;
            let b0 = if b == i { s.len() - 1 } else { b };
            assert(s2[b] == s[b0]);
            lemma_entries_map_contains(s, k);
            assert(k != s[i].key@);
            lemma_entries_map_at(s, b0);
            lemma_entries_map_at(s2, b);
        }
        assert forall|k: Seq<char>| #![trigger entries_map(s).remove(s[i].key@).dom().contains(k)]
            entries_map(s).remove(s[i].key@).dom().contains(k)
            implies entries_map(s2).dom().contains(k) by {
            lemma_entries_map_contains(s, k);
            let b0 = choose|b0: int| 0 <= b0 < s.len() && s[b0].key@ == k;
            assert(b0 != i);
            let b = if b0 == s.len() - 1 { i } else { b0 };
            if b0 == s.len() - 1 && i == s.len() - 1 {
                assert(false);
            }
            assert(s2[b] == s[b0]);
            lemma_entries_map_contains(s2, k);
        }
    }
}

/// Whether the sweeper keeps running: it stops once its own internal handle
/// is the only one left, so it continues exactly while some other handle to
/// the shared cache state still exists.
pub fn sweeper_should_continue(handle_count: usize) -> (r: bool)
    ensures
        r <==> handle_count > 1,
{
    handle_count > 1
}

/// Time-to-live law: after an insertion of `(v, e)` for key `k`, a read of
/// `k` returns `Some(v)` strictly before the expiry `e` and `None` from `e`
/// on, whatever else the store holds.
pub proof fn lemma_ttl_correctness(
    m: Map<Seq<char>, (i32, u64)>,
    k: Seq<char>,
    v: i32,
    ttl: u64,
    now_put: u64,
    now_get: u64,
)
    requires
        ttl >= 1,
    ensures
        now_get < spec_expiry(now_put, ttl)
            ==> spec_get(m.insert(k, (v, spec_expiry(now_put, ttl))), k, now_get) == Some(v),
        now_get >= spec_expiry(now_put, ttl)
            ==> spec_get(m.insert(k, (v, spec_expiry(now_put, ttl))), k, now_get) == None::<i32>,
{
    assert(spec_expiry(now_put, ttl) != NEVER_EXPIRES);
}

/// Default time-to-live law: after a put without an explicit time-to-live,
/// a read of the same key returns the value at any time before the far-future
/// default expiry, one year after the insertion.
pub proof fn lemma_default_ttl(
    m: Map<Seq<char>, (i32, u64)>,
    k: Seq<char>,
    v: i32,
    now_put: u64,
    now_get: u64,
)
    requires
        now_get < spec_expiry(now_put, DEFAULT_TTL_MS),
    ensures
        spec_get(m.insert(k, (v, spec_expiry(now_put, DEFAULT_TTL_MS))), k, now_get) == Some(v),
{
    lemma_ttl_correctness(m, k, v, DEFAULT_TTL_MS, now_put, now_get);
}

/// The cardinality of `entries_map` of a duplicate-free sequence is its length.
pub proof fn lemma_entries_map_card(s: Seq<CacheEntry>)
    requires
        distinct_entry_keys(s),
    ensures
        entries_map(s).dom().finite(),
        entries_map(s).dom().len() == s.len(),
    decreases s.len(),
{
    if s.len() > 0 {
        lemma_entries_map_card(s.drop_last());
        lemma_entries_map_contains(s.drop_last(), s.last().key@);
        assert(!entries_map(s.drop_last()).dom().contains(s.last().key@));
        assert(entries_map(s).dom() =~= entries_map(s.drop_last()).dom().insert(s.last().key@));
    } else {
        assert(entries_map(s).dom() =~= Set::<Seq<char>>::empty());
    }
}

} // verus!
