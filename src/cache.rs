use vstd::prelude::*;

use crate::geometry::{RegionKey, WorldRegion};

verus! {

/// A least-recently-used cache from world regions to integer identities.
///
/// Relies on `lru::LruCache`: `get` moves a present key to the front of the
/// recency order; `put` updates a present key and moves it to the front, and
/// otherwise, when full, evicts the entry at the back before inserting at the
/// front.
#[verifier::external_body]
pub struct RegionCache {
    inner: lru::LruCache<(String, i64, i64, i64), i32>,
}

/// The entries of a cache, most recently used first.
pub uninterp spec fn cache_entries(c: RegionCache) -> Seq<(RegionKey, i32)>;

/// The number of entries a cache holds at most.
pub uninterp spec fn cache_capacity(c: RegionCache) -> nat;

/// The index of key `k` in `es`, or -1 where it is absent.
pub open spec fn key_index(es: Seq<(RegionKey, i32)>, k: RegionKey) -> int
    decreases es.len(),
{
    if es.len() == 0 {
        -1
    } else if es[0].0 == k {
        0
    } else {
        let r = key_index(es.subrange(1, es.len() as int), k);
        if r < 0 {
            -1
        } else {
            r + 1
        }
    }
}

/// The value that `es` holds for `k`.
pub open spec fn lookup(es: Seq<(RegionKey, i32)>, k: RegionKey) -> Option<i32> {
    let i = key_index(es, k);
    if i < 0 {
        None
    } else {
        Some(es[i].1)
    }
}

/// No key appears twice in `es`.
pub open spec fn keys_unique(es: Seq<(RegionKey, i32)>) -> bool {
    forall|i: int, j: int| 0 <= i < es.len() && 0 <= j < es.len() && i != j ==> es[i].0 != es[j].0
}

/// What every cache satisfies: a positive capacity, not exceeded, and unique keys.
pub open spec fn cache_ok(es: Seq<(RegionKey, i32)>, cap: nat) -> bool {
    &&& cap > 0
    &&& es.len() <= cap
    &&& keys_unique(es)
}

/// The entries after reading `k`: a present key moves to the front.
pub open spec fn after_get(es: Seq<(RegionKey, i32)>, k: RegionKey) -> Seq<(RegionKey, i32)> {
    let i = key_index(es, k);
    if i < 0 {
        es
    } else {
        seq![es[i]] + es.remove(i)
    }
}

/// The entries after storing `v` under `k` with capacity `cap`: the pair goes
/// to the front, replacing an entry of the same key, or else evicting the
/// least recently used entry when the cache is full.
pub open spec fn after_put(es: Seq<(RegionKey, i32)>, cap: nat, k: RegionKey, v: i32) -> Seq<
    (RegionKey, i32),
> {
    let i = key_index(es, k);
    if i >= 0 {
        seq![(k, v)] + es.remove(i)
    } else if es.len() >= cap {
        seq![(k, v)] + es.drop_last()
    } else {
        seq![(k, v)] + es
    }
}

pub proof fn lemma_key_index(es: Seq<(RegionKey, i32)>, k: RegionKey)
    ensures
        -1 <= key_index(es, k) < es.len(),
        key_index(es, k) >= 0 ==> es[key_index(es, k)].0 == k,
        key_index(es, k) < 0 ==> forall|i: int| 0 <= i < es.len() ==> es[i].0 != k,
    decreases es.len(),
{
    if es.len() > 0 && es[0].0 != k {
        let rest = es.subrange(1, es.len() as int);
        lemma_key_index(rest, k);
        if key_index(es, k) < 0 {
            assert forall|i: int| 0 <= i < es.len() implies es[i].0 != k by {
                if i > 0 {
                    assert(es[i] == rest[i - 1]);
                }
            }
        }
    }
}

proof fn lemma_put_front(es: Seq<(RegionKey, i32)>, cap: nat, k: RegionKey, v: i32)
    requires
        cap >= 2,
        es.len() <= cap,
    ensures
        after_put(es, cap, k, v).len() >= 1,
        after_put(es, cap, k, v).len() <= cap,
        after_put(es, cap, k, v)[0] == (k, v),
        es.len() >= 1 && es[0].0 != k ==> after_put(es, cap, k, v).len() >= 2 && after_put(es, cap, k, v)[1]
            == es[0],
{
    lemma_key_index(es, k);
    let i = key_index(es, k);
    let r = after_put(es, cap, k, v);
    if es.len() >= 1 && es[0].0 != k {
        if i >= 0 {
            assert(i != 0);
            assert(r[1] == es.remove(i)[0]);
        } else if es.len() >= cap {
            assert(r[1] == es.drop_last()[0]);
        } else {
            assert(r[1] == es[0]);
        }
    }
}

/// In a cache of capacity 2, storing three distinct keys one after another
/// evicts the first of them, whatever the cache held before: a later read of
/// it misses.
pub proof fn lemma_lru_evicts_oldest(
    es: Seq<(RegionKey, i32)>,
    k1: RegionKey,
    v1: i32,
    k2: RegionKey,
    v2: i32,
    k3: RegionKey,
    v3: i32,
)
    requires
        cache_ok(es, 2),
        k1 != k2,
        k1 != k3,
        k2 != k3,
    ensures
        lookup(after_put(after_put(after_put(es, 2, k1, v1), 2, k2, v2), 2, k3, v3), k1) is None,
        lookup(after_put(after_put(after_put(es, 2, k1, v1), 2, k2, v2), 2, k3, v3), k2) == Some(v2),
        lookup(after_put(after_put(after_put(es, 2, k1, v1), 2, k2, v2), 2, k3, v3), k3) == Some(v3),
{
    let s1 = after_put(es, 2, k1, v1);
    lemma_put_front(es, 2, k1, v1);
    let s2 = after_put(s1, 2, k2, v2);
    lemma_put_front(s1, 2, k2, v2);
    let s3 = after_put(s2, 2, k3, v3);
    lemma_put_front(s2, 2, k3, v3);
    assert(s3 =~= seq![(k3, v3), (k2, v2)]);
    lemma_key_index(s3, k1);
    lemma_key_index(s3, k2);
    lemma_key_index(s3, k3);
    assert(key_index(s3, k3) == 0);
}

/// Creates a cache that holds at most `cap` entries.
///
/// Relies on `lru::LruCache::new`: an empty cache of capacity `cap`.
#[verifier::external_body]
fn new_bounded(cap: usize) -> (r: RegionCache)
    requires
        cap > 0,
    ensures
        cache_entries(r) == Seq::<(RegionKey, i32)>::empty(),
        cache_capacity(r) == cap as nat,
{
    RegionCache { inner: lru::LruCache::new(std::num::NonZeroUsize::new(cap).unwrap()) }
}

/// Creates a cache that never evicts.
///
/// Relies on `lru::LruCache::unbounded`: an empty cache whose capacity is
/// `usize::MAX`.
#[verifier::external_body]
fn new_unbounded() -> (r: RegionCache)
    ensures
        cache_entries(r) == Seq::<(RegionKey, i32)>::empty(),
        cache_capacity(r) == usize::MAX as nat,
{
    RegionCache { inner: lru::LruCache::unbounded() }
}

impl RegionCache {
    /// A cache of `cache_size` entries, or an unbounded one where `cache_size`
    /// is 0.
    pub fn with_size(cache_size: usize) -> (r: RegionCache)
        ensures
            cache_entries(r) == Seq::<(RegionKey, i32)>::empty(),
            cache_capacity(r) == if cache_size == 0 {
                usize::MAX as nat
            } else {
                cache_size as nat
            },
    {
        if cache_size == 0 {
            new_unbounded()
        } else {
            new_bounded(cache_size)
        }
    }

    /// Reads the value under `key`, marking it most recently used.
    ///
    /// Relies on `lru::LruCache::get`: the value of a present key, which moves
    /// to the front of the recency order; `None` and no change otherwise.
    #[verifier::external_body]
    pub(crate) fn get(&mut self, key: &WorldRegion) -> (r: Option<i32>)
        requires
            cache_ok(cache_entries(*old(self)), cache_capacity(*old(self))),
        ensures
            r == lookup(cache_entries(*old(self)), key.key()),
            cache_entries(*final(self)) == after_get(cache_entries(*old(self)), key.key()),
            cache_capacity(*final(self)) == cache_capacity(*old(self)),
            cache_ok(cache_entries(*final(self)), cache_capacity(*final(self))),
    {
        let k = (key.world_name.clone(), key.region_x, key.region_y, key.region_z);
        self.inner.get(&k).copied()
    }

    /// Stores `value` under `key` as the most recently used entry.
    ///
    /// Relies on `lru::LruCache::put`: a present key gets the new value and
    /// moves to the front; otherwise a full cache first drops its least
    /// recently used entry, and the new pair goes to the front.
    #[verifier::external_body]
    pub(crate) fn put(&mut self, key: &WorldRegion, value: i32)
        requires
            cache_ok(cache_entries(*old(self)), cache_capacity(*old(self))),
        ensures
            cache_entries(*final(self)) == after_put(
                cache_entries(*old(self)),
                cache_capacity(*old(self)),
                key.key(),
                value,
            ),
            cache_capacity(*final(self)) == cache_capacity(*old(self)),
            cache_ok(cache_entries(*final(self)), cache_capacity(*final(self))),
    {
        let k = (key.world_name.clone(), key.region_x, key.region_y, key.region_z);
        self.inner.put(k, value);
    }
}

} // verus!
