use vstd::prelude::*;

use crate::cache::{
    after_get, after_put, cache_capacity, cache_entries, cache_ok, key_index, lemma_key_index, lookup,
    RegionCache,
};
use crate::geometry::{floor_div, floor_div_i64, region_of, world_region, Position, RegionKey, WorldRegion};

verus! {

/// The storage identity of a region: the shard table that holds it and its
/// durable region identity.
#[derive(Clone, Copy, Debug, PartialEq, Eq, Structural)]
pub struct ShardIds {
    pub table_suffix: i32,
    pub region_id: i32,
}

/// The identities that follow from region identity `id` with `table_size`
/// regions per table.
pub open spec fn ids_for(id: int, table_size: int) -> (int, int) {
    (floor_div(id, table_size), id)
}

impl ShardIds {
    pub open spec fn pair(&self) -> (int, int) {
        (self.table_suffix as int, self.region_id as int)
    }
}

/// What a cache probe found.
#[derive(Debug)]
pub enum Lookup {
    /// Both caches held the region.
    Cached(ShardIds),
    /// The region must be looked up in the registry, then handed to
    /// [`RegionResolver::record_region_id`].
    Needed(WorldRegion),
}

/// Maps world positions to shard identities, in front of a persistent
/// registry of region identities, with two recency caches.
pub struct RegionResolver {
    table_cache: RegionCache,
    region_cache: RegionCache,
    region_x_size: u16,
    region_y_size: u16,
    region_z_size: u16,
    table_size: u32,
    /// The identity the registry last gave for each region.
    known: Ghost<Map<RegionKey, int>>,
}

impl RegionResolver {
    pub closed spec fn known(&self) -> Map<RegionKey, int> {
        self.known@
    }

    pub closed spec fn table_entries(&self) -> Seq<(RegionKey, i32)> {
        cache_entries(self.table_cache)
    }

    pub closed spec fn region_entries(&self) -> Seq<(RegionKey, i32)> {
        cache_entries(self.region_cache)
    }

    pub closed spec fn capacity(&self) -> nat {
        cache_capacity(self.region_cache)
    }

    /// The region extents along x, y and z.
    pub closed spec fn extents(&self) -> (int, int, int) {
        (self.region_x_size as int, self.region_y_size as int, self.region_z_size as int)
    }

    pub closed spec fn table_size_spec(&self) -> int {
        self.table_size as int
    }

    /// The region of world `w` that holds `p`, under this resolver's extents.
    pub closed spec fn region_key(&self, w: Seq<char>, p: Position) -> RegionKey {
        region_of(
            w,
            p,
            self.region_x_size as int,
            self.region_y_size as int,
            self.region_z_size as int,
        )
    }

    /// Both caches are well formed, with one capacity, and every cached value
    /// is what the registry's identity for that region gives.
    pub closed spec fn wf(&self) -> bool {
        &&& self.region_x_size > 0
        &&& self.region_y_size > 0
        &&& self.region_z_size > 0
        &&& self.table_size > 0
        &&& cache_ok(cache_entries(self.table_cache), cache_capacity(self.table_cache))
        &&& cache_ok(cache_entries(self.region_cache), cache_capacity(self.region_cache))
        &&& cache_capacity(self.table_cache) == cache_capacity(self.region_cache)
        &&& forall|i: int|
            0 <= i < cache_entries(self.table_cache).len() ==> {
                let e = #[trigger] cache_entries(self.table_cache)[i];
                self.known@.contains_key(e.0) && e.1 as int == floor_div(
                    self.known@[e.0],
                    self.table_size as int,
                )
            }
        &&& forall|i: int|
            0 <= i < cache_entries(self.region_cache).len() ==> {
                let e = #[trigger] cache_entries(self.region_cache)[i];
                self.known@.contains_key(e.0) && e.1 as int == self.known@[e.0]
            }
    }

    /// A resolver with the given region extents, `table_size` regions per
    /// table, and caches of `cache_size` entries each (0: unbounded).
    pub fn new(
        region_x_size: u16,
        region_y_size: u16,
        region_z_size: u16,
        table_size: u32,
        cache_size: usize,
    ) -> (r: RegionResolver)
        requires
            region_x_size > 0,
            region_y_size > 0,
            region_z_size > 0,
            table_size > 0,
        ensures
            r.wf(),
            r.known() == Map::<RegionKey, int>::empty(),
            r.table_entries().len() == 0,
            r.region_entries().len() == 0,
            r.capacity() == if cache_size == 0 {
                usize::MAX as nat
            } else {
                cache_size as nat
            },
            r.table_size_spec() == table_size as int,
            r.extents() == (region_x_size as int, region_y_size as int, region_z_size as int),
            forall|w: Seq<char>, p: Position|
                #[trigger] r.region_key(w, p) == region_of(
                    w,
                    p,
                    region_x_size as int,
                    region_y_size as int,
                    region_z_size as int,
                ),
    {
        RegionResolver {
            table_cache: RegionCache::with_size(cache_size),
            region_cache: RegionCache::with_size(cache_size),
            region_x_size,
            region_y_size,
            region_z_size,
            table_size,
            known: Ghost(Map::empty()),
        }
    }

    pub fn region_x_size(&self) -> (r: u16)
        ensures
            r as int == self.extents().0,
    {
        self.region_x_size
    }

    pub fn region_y_size(&self) -> (r: u16)
        ensures
            r as int == self.extents().1,
    {
        self.region_y_size
    }

    pub fn region_z_size(&self) -> (r: u16)
        ensures
            r as int == self.extents().2,
    {
        self.region_z_size
    }

    pub fn table_size(&self) -> (r: u32)
        ensures
            r as int == self.table_size_spec(),
    {
        self.table_size
    }

    /// Probes both caches for the region of `world_name` that holds
    /// `position`. Each probe counts as a use of that cache. Where both hold
    /// the region, its identities come back with no registry lookup.
    pub fn lookup_cached(&mut self, world_name: &str, position: Position) -> (r: Lookup)
        requires
            old(self).wf(),
        ensures
            final(self).wf(),
            final(self).known() == old(self).known(),
            final(self).capacity() == old(self).capacity(),
            final(self).table_size_spec() == old(self).table_size_spec(),
            final(self).extents() == old(self).extents(),
            forall|w: Seq<char>, p: Position| #[trigger] final(self).region_key(w, p) == old(self).region_key(w, p),
            ({
                let k = old(self).region_key(world_name@, position);
                &&& final(self).table_entries() == after_get(old(self).table_entries(), k)
                &&& final(self).region_entries() == after_get(old(self).region_entries(), k)
                &&& match r {
                    Lookup::Cached(ids) => {
                        &&& lookup(old(self).table_entries(), k) == Some(ids.table_suffix)
                        &&& lookup(old(self).region_entries(), k) == Some(ids.region_id)
                        &&& old(self).known().contains_key(k)
                        &&& ids.pair() == ids_for(old(self).known()[k], old(self).table_size_spec())
                    },
                    Lookup::Needed(region) => {
                        &&& region.key() == k
                        &&& (lookup(old(self).table_entries(), k) is None || lookup(
                            old(self).region_entries(),
                            k,
                        ) is None)
                    },
                }
            }),
    {
        let region = world_region(
            world_name,
            position,
            self.region_x_size,
            self.region_y_size,
            self.region_z_size,
        );
        let ghost k = region.key();
        let ghost t0 = cache_entries(self.table_cache);
        let ghost g0 = cache_entries(self.region_cache);
        let table = self.table_cache.get(&region);
        let id = self.region_cache.get(&region);
        proof {
            lemma_key_index(t0, k);
            lemma_key_index(g0, k);
            self.lemma_after_get_keeps(t0, cache_entries(self.table_cache), k);
            self.lemma_after_get_keeps(g0, cache_entries(self.region_cache), k);
        }
        match (table, id) {
            (Some(table_suffix), Some(region_id)) => Lookup::Cached(ShardIds { table_suffix, region_id }),
            _ => Lookup::Needed(region),
        }
    }

    /// Every entry after a read was an entry before it.
    proof fn lemma_after_get_keeps(
        &self,
        es: Seq<(RegionKey, i32)>,
        after: Seq<(RegionKey, i32)>,
        k: RegionKey,
    )
        requires
            after == after_get(es, k),
        ensures
            forall|i: int| 0 <= i < after.len() ==> exists|j: int| 0 <= j < es.len() && es[j] == #[trigger] after[i],
    {
        lemma_key_index(es, k);
        let x = key_index(es, k);
        assert forall|i: int| 0 <= i < after.len() implies exists|j: int| 0 <= j < es.len() && es[j] == #[trigger] after[i] by {
            if x >= 0 {
                if i == 0 {
                    assert(es[x] == after[i]);
                } else if i - 1 < x {
                    assert(es[i - 1] == after[i]);
                } else {
                    assert(es[i] == after[i]);
                }
            } else {
                assert(es[i] == after[i]);
            }
        }
    }

    /// Every entry after a write is the written pair, at the front, or an
    /// earlier entry.
    proof fn lemma_after_put_keeps(
        &self,
        es: Seq<(RegionKey, i32)>,
        cap: nat,
        k: RegionKey,
        v: i32,
    )
        requires
            cap > 0,
        ensures
            after_put(es, cap, k, v)[0] == (k, v),
            forall|i: int|
                0 < i < after_put(es, cap, k, v).len() ==> exists|j: int|
                    0 <= j < es.len() && es[j] == #[trigger] after_put(es, cap, k, v)[i],
    {
        lemma_key_index(es, k);
        let x = key_index(es, k);
        let after = after_put(es, cap, k, v);
        assert forall|i: int| 0 < i < after.len() implies exists|j: int| 0 <= j < es.len() && es[j] == #[trigger] after[i] by {
            if x >= 0 {
                assert(after == seq![(k, v)] + es.remove(x));
                assert(after[i] == es.remove(x)[i - 1]);
                if i - 1 >= x {
                    assert(es[i] == after[i]);
                } else {
                    assert(es[i - 1] == after[i]);
                }
            } else if es.len() >= cap {
                assert(after == seq![(k, v)] + es.drop_last());
                assert(after[i] == es.drop_last()[i - 1]);
                assert(es[i - 1] == after[i]);
            } else {
                assert(after == seq![(k, v)] + es);
                assert(es[i - 1] == after[i]);
            }
        }
    }

    /// Records the identity `region_id` that the registry gave for `region`,
    /// and returns the shard identities that follow from it. Both caches
    /// store the result as their most recently used entry.
    pub fn record_region_id(&mut self, region: &WorldRegion, region_id: i32) -> (r: ShardIds)
        requires
            old(self).wf(),
        ensures
            final(self).wf(),
            r.pair() == ids_for(region_id as int, old(self).table_size_spec()),
            final(self).known() == old(self).known().insert(region.key(), region_id as int),
            final(self).table_entries() == after_put(
                old(self).table_entries(),
                old(self).capacity(),
                region.key(),
                r.table_suffix,
            ),
            final(self).region_entries() == after_put(
                old(self).region_entries(),
                old(self).capacity(),
                region.key(),
                region_id,
            ),
            final(self).capacity() == old(self).capacity(),
            final(self).table_size_spec() == old(self).table_size_spec(),
            final(self).extents() == old(self).extents(),
            forall|w: Seq<char>, p: Position| #[trigger] final(self).region_key(w, p) == old(self).region_key(w, p),
    {
        let q = floor_div_i64(region_id as i64, self.table_size);
        let table_suffix = q as i32;
        let ghost k = region.key();
        let ghost t0 = cache_entries(self.table_cache);
        let ghost g0 = cache_entries(self.region_cache);
        let ghost cap = cache_capacity(self.region_cache);
        self.table_cache.put(region, table_suffix);
        self.region_cache.put(region, region_id);
        self.known = Ghost(self.known@.insert(k, region_id as int));
        proof {
            self.lemma_after_put_keeps(t0, cap, k, table_suffix);
            self.lemma_after_put_keeps(g0, cap, k, region_id);
            let t1 = cache_entries(self.table_cache);
            let g1 = cache_entries(self.region_cache);
            assert forall|i: int| 0 < i < t1.len() implies t1[i].0 != k by {
                assert(t1[0].0 == k);
            }
            assert forall|i: int| 0 < i < g1.len() implies g1[i].0 != k by {
                assert(g1[0].0 == k);
            }
        }
        ShardIds { table_suffix, region_id }
    }

    /// Two positions whose floor-divided region coordinates agree address the
    /// same region, so every cache and the registry answer for them alike.
    pub proof fn lemma_same_region_same_ids(&self, w: Seq<char>, pa: Position, pb: Position)
        requires
            self.wf(),
            floor_div(pa.x as int, self.extents().0) == floor_div(pb.x as int, self.extents().0),
            floor_div(pa.y as int, self.extents().1) == floor_div(pb.y as int, self.extents().1),
            floor_div(pa.z as int, self.extents().2) == floor_div(pb.z as int, self.extents().2),
        ensures
            self.region_key(w, pa) == self.region_key(w, pb),
            lookup(self.table_entries(), self.region_key(w, pa)) == lookup(
                self.table_entries(),
                self.region_key(w, pb),
            ),
            lookup(self.region_entries(), self.region_key(w, pa)) == lookup(
                self.region_entries(),
                self.region_key(w, pb),
            ),
    {
    }

    /// A region found in both caches yields exactly the identities that the
    /// registry's answer for it gives: resolving warm returns what resolving
    /// cold returned.
    pub proof fn lemma_warm_equals_cold(&self, k: RegionKey)
        requires
            self.wf(),
            lookup(self.table_entries(), k) is Some,
            lookup(self.region_entries(), k) is Some,
        ensures
            self.known().contains_key(k),
            (lookup(self.table_entries(), k).unwrap() as int, lookup(self.region_entries(), k).unwrap() as int)
                == ids_for(self.known()[k], self.table_size_spec()),
    {
        let t = cache_entries(self.table_cache);
        let g = cache_entries(self.region_cache);
        lemma_key_index(t, k);
        lemma_key_index(g, k);
        let i = key_index(t, k);
        let j = key_index(g, k);
        assert(t[i].0 == k);
        assert(g[j].0 == k);
    }
}

} // verus!
