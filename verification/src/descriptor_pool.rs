//! The bookkeeping of a descriptor set allocator. Descriptor pools are made with room for
//! `MAX_SETS` sets; sets are cached by the buffers they bind and reused. A set the device is
//! done with that has not been used for `MAX_AGE_MS` milliseconds is freed, and a pool is
//! released by the collection that frees the last set it still held. The Vulkan calls themselves are
//! made by the caller, who reports their results here.
use vstd::prelude::*;

verus! {

/// The number of sets each descriptor pool has room for.
pub const MAX_SETS: u32 = 32;

/// How long, in milliseconds, an unused set stays cached.
pub const MAX_AGE_MS: u64 = 1000;

/// A cached descriptor set: its handle, the pool it came from, the graphics queue time of
/// its last use and the wall-clock time (in milliseconds) of its last access.
#[derive(Debug, Clone, Copy, PartialEq, Eq, Structural)]
pub struct CachedSet {
    pub handle: u64,
    pub pool: u64,
    pub graphics_queue_time: u64,
    pub last_access_ms: u64,
}

/// Descriptor pools and the sets cached from them.
pub struct DescriptorSetAllocator {
    pools: Vec<(u64, u32)>,
    sizes: Vec<(i32, u32)>,
    keys: Vec<Vec<u64>>,
    sets: Vec<CachedSet>,
}

/// The number of cached sets that came from `pool`.
pub open spec fn sets_in_pool(sets: Seq<CachedSet>, pool: u64) -> nat
    decreases sets.len(),
{
    if sets.len() == 0 {
        0
    } else {
        sets_in_pool(sets.drop_last(), pool) + if sets.last().pool == pool {
            1nat
        } else {
            0nat
        }
    }
}

/// The total count per descriptor type over the bindings, in `(type, count)` pairs.
pub open spec fn count_of_type(bindings: Seq<(i32, u32)>, ty: i32) -> nat
    decreases bindings.len(),
{
    if bindings.len() == 0 {
        0
    } else {
        count_of_type(bindings.drop_last(), ty) + if bindings.last().0 == ty {
            bindings.last().1 as nat
        } else {
            0nat
        }
    }
}

/// Some `(type, count)` pair is for type `ty`.
pub open spec fn has_type(pairs: Seq<(i32, u32)>, ty: i32) -> bool {
    exists|a: int| 0 <= a < pairs.len() && (#[trigger] pairs[a]).0 == ty
}

/// A set the device is done with (the graphics queue reached the time of its last use) that
/// has not been accessed for `MAX_AGE_MS`.
pub open spec fn expired(set: CachedSet, graphics_queue_time: u64, now_ms: u64) -> bool {
    graphics_queue_time >= set.graphics_queue_time && now_ms - set.last_access_ms >= MAX_AGE_MS
}

pub open spec fn keys_unique(keys: Seq<Seq<u64>>) -> bool {
    forall|a: int, b: int| 0 <= a < b < keys.len() ==> keys[a] != keys[b]
}

pub open spec fn pools_unique(pools: Seq<(u64, u32)>) -> bool {
    forall|a: int, b: int| 0 <= a < b < pools.len() ==> pools[a].0 != pools[b].0
}

/// The cached sets that survive a collection, in order.
pub open spec fn surviving(sets: Seq<CachedSet>, graphics_queue_time: u64, now_ms: u64) -> Seq<CachedSet>
    decreases sets.len(),
{
    if sets.len() == 0 {
        Seq::empty()
    } else if expired(sets.last(), graphics_queue_time, now_ms) {
        surviving(sets.drop_last(), graphics_queue_time, now_ms)
    } else {
        surviving(sets.drop_last(), graphics_queue_time, now_ms).push(sets.last())
    }
}

/// The cached sets a collection frees, in order.
pub open spec fn freed(sets: Seq<CachedSet>, graphics_queue_time: u64, now_ms: u64) -> Seq<CachedSet>
    decreases sets.len(),
{
    if sets.len() == 0 {
        Seq::empty()
    } else if expired(sets.last(), graphics_queue_time, now_ms) {
        freed(sets.drop_last(), graphics_queue_time, now_ms).push(sets.last())
    } else {
        freed(sets.drop_last(), graphics_queue_time, now_ms)
    }
}

/// The keys of the cached sets that survive a collection, in order.
pub open spec fn surviving_keys(
    keys: Seq<Seq<u64>>,
    sets: Seq<CachedSet>,
    graphics_queue_time: u64,
    now_ms: u64,
) -> Seq<Seq<u64>>
    decreases sets.len(),
{
    if sets.len() == 0 || keys.len() == 0 {
        Seq::empty()
    } else if expired(sets.last(), graphics_queue_time, now_ms) {
        surviving_keys(keys.drop_last(), sets.drop_last(), graphics_queue_time, now_ms)
    } else {
        surviving_keys(keys.drop_last(), sets.drop_last(), graphics_queue_time, now_ms).push(
            keys.last(),
        )
    }
}

/// Whether a collection that frees `freed_sets` releases `pool`: its last sets are among
/// them, so with their slots returned it is back to `MAX_SETS` free slots.
pub open spec fn released_by(pool: (u64, u32), freed_sets: Seq<CachedSet>) -> bool {
    sets_in_pool(freed_sets, pool.0) > 0 && pool.1 + sets_in_pool(freed_sets, pool.0) == MAX_SETS
}

/// What a collection leaves for each pool: the count of free slots with the freed sets
/// returned, or nothing when the collection releases the pool.
pub open spec fn pools_after(pools: Seq<(u64, u32)>, freed_sets: Seq<CachedSet>) -> Seq<(u64, u32)>
    decreases pools.len(),
{
    if pools.len() == 0 {
        Seq::empty()
    } else {
        let rest = pools_after(pools.drop_last(), freed_sets);
        let p = pools.last();
        let remaining = p.1 + sets_in_pool(freed_sets, p.0);
        if released_by(p, freed_sets) {
            rest
        } else {
            rest.push((p.0, remaining as u32))
        }
    }
}

impl DescriptorSetAllocator {
    pub closed spec fn spec_pools(&self) -> Seq<(u64, u32)> {
        self.pools@
    }

    pub closed spec fn spec_sizes(&self) -> Seq<(i32, u32)> {
        self.sizes@
    }

    /// The buffer lists the cached sets bind, in the order of `spec_sets`.
    pub closed spec fn spec_keys(&self) -> Seq<Seq<u64>> {
        self.keys@.map_values(|k: Vec<u64>| k@)
    }

    pub closed spec fn spec_sets(&self) -> Seq<CachedSet> {
        self.sets@
    }

    /// Pools and cached buffer lists are distinct, every cached set comes from a known pool,
    /// and each pool's free slots and cached sets add up to `MAX_SETS`.
    pub open spec fn wf(&self) -> bool {
        &&& pools_unique(self.spec_pools())
        &&& keys_unique(self.spec_keys())
        &&& self.spec_keys().len() == self.spec_sets().len()
        &&& forall|i: int|
            0 <= i < self.spec_sets().len() ==> exists|j: int|
                0 <= j < self.spec_pools().len() && self.spec_pools()[j].0 == (
                #[trigger] self.spec_sets()[i]).pool
        &&& forall|j: int|
            0 <= j < self.spec_pools().len() ==> (#[trigger] self.spec_pools()[j]).1 + sets_in_pool(
                self.spec_sets(),
                self.spec_pools()[j].0,
            ) == MAX_SETS
    }

    /// An allocator for sets with the given `(descriptor type, count)` bindings: its pools
    /// will hold, per descriptor type, the sum of the counts of that type.
    pub fn make(bindings: &[(i32, u32)]) -> (r: Self)
        requires
            forall|ty: i32| count_of_type(bindings@, ty) <= u32::MAX,
        ensures
            r.wf(),
            r.spec_pools() == Seq::<(u64, u32)>::empty(),
            r.spec_sets() == Seq::<CachedSet>::empty(),
            forall|a: int, b: int| 0 <= a < b < r.spec_sizes().len() ==> r.spec_sizes()[a].0 != r.spec_sizes()[b].0,
            forall|ty: i32| #[trigger] has_type(r.spec_sizes(), ty) <==> has_type(bindings@, ty),
            forall|a: int| 0 <= a < r.spec_sizes().len() ==> #[trigger] r.spec_sizes()[a].1 == count_of_type(
                bindings@,
                r.spec_sizes()[a].0,
            ),
    {
        let mut sizes: Vec<(i32, u32)> = Vec::new();
        let mut k: usize = 0;
        while k < bindings.len()
            invariant
                k <= bindings@.len(),
                forall|ty: i32| count_of_type(bindings@, ty) <= u32::MAX,
                forall|a: int, b: int| 0 <= a < b < sizes@.len() ==> sizes@[a].0 != sizes@[b].0,
                forall|ty: i32| #[trigger] has_type(sizes@, ty) <==> has_type(bindings@.take(k as int), ty),
                forall|a: int| 0 <= a < sizes@.len() ==> #[trigger] sizes@[a].1 == count_of_type(
                    bindings@.take(k as int),
                    sizes@[a].0,
                ),
            decreases bindings@.len() - k,
        {
            let (ty, count) = bindings[k];
            proof {
                lemma_count_step(bindings@, k as int);
                lemma_count_prefix(bindings@, k + 1, ty);
            }
            let mut a: usize = 0;
            while a < sizes.len() && sizes[a].0 != ty
                invariant
                    a <= sizes@.len(),
                    forall|b: int| 0 <= b < a ==> sizes@[b].0 != ty,
                decreases sizes@.len() - a,
            {
                a = a + 1;
            }
            let ghost before = sizes@;
            if a < sizes.len() {
                let old_count = sizes[a].1;
                sizes.set(a, (ty, old_count + count));
            } else {
                proof {
                    assert forall|j: int| 0 <= j < k implies (#[trigger] bindings@[j]).0 != ty by {
                        if bindings@[j].0 == ty {
                            assert(bindings@.take(k as int)[j] == bindings@[j]);
                            assert(has_type(bindings@.take(k as int), ty));
                            assert(has_type(sizes@, ty));
                            let c = choose|c: int| 0 <= c < sizes@.len() && (#[trigger] sizes@[c]).0 == ty;
                            assert(sizes@[c].0 != ty);
                        }
                    }
                    lemma_count_absent(bindings@, k as int, ty);
                }
                sizes.push((ty, count));
            }
            proof {
                assert forall|c: int| 0 <= c < sizes@.len() implies #[trigger] sizes@[c].1 == count_of_type(
                    bindings@.take(k + 1),
                    sizes@[c].0,
                ) by {
                    if c < before.len() && c != a {
                        assert(sizes@[c] == before[c]);
                        assert(before[c].0 != ty);
                    }
                }
                assert forall|t: i32| #[trigger] has_type(sizes@, t) <==> has_type(bindings@.take(k + 1), t) by {
                    let pre = bindings@.take(k as int);
                    let post = bindings@.take(k + 1);
                    assert(has_type(before, t) <==> has_type(pre, t));
                    if has_type(sizes@, t) {
                        let c = choose|c: int| 0 <= c < sizes@.len() && (#[trigger] sizes@[c]).0 == t;
                        if c < before.len() && c != a {
                            assert(before[c].0 == t);
                            let j = choose|j: int| 0 <= j < pre.len() && (#[trigger] pre[j]).0 == t;
                            assert(post[j] == pre[j]);
                        } else {
                            assert(post[k as int] == bindings@[k as int]);
                        }
                    }
                    if has_type(post, t) {
                        let j = choose|j: int| 0 <= j < post.len() && (#[trigger] post[j]).0 == t;
                        if j < k {
                            assert(pre[j] == post[j]);
                            assert(has_type(pre, t));
                            let c = choose|c: int| 0 <= c < before.len() && (#[trigger] before[c]).0 == t;
                            assert(sizes@[c].0 == t);
                        } else {
                            assert(post[j] == bindings@[k as int]);
                            assert(sizes@[a as int].0 == t);
                        }
                    }
                }
            }
            k = k + 1;
        }
        proof {
            assert(bindings@.take(k as int) =~= bindings@);
        }
        let r = DescriptorSetAllocator { pools: Vec::new(), sizes, keys: Vec::new(), sets: Vec::new() };
        proof {
            assert(r.spec_keys() =~= Seq::<Seq<u64>>::empty());
        }
        r
    }

    /// The `(descriptor type, count)` sizes a new pool is created with.
    pub fn pool_sizes(&self) -> (r: Vec<(i32, u32)>)
        ensures
            r@ == self.spec_sizes(),
    {
        let mut r: Vec<(i32, u32)> = Vec::new();
        let mut k: usize = 0;
        while k < self.sizes.len()
            invariant
                k <= self.sizes@.len(),
                r@ == self.sizes@.take(k as int),
            decreases self.sizes@.len() - k,
        {
            r.push(self.sizes[k]);
            k = k + 1;
            proof {
                assert(r@ =~= self.sizes@.take(k as int));
            }
        }
        proof {
            assert(self.sizes@.take(k as int) =~= self.sizes@);
        }
        r
    }

    /// The pools, in the order they were created; each is tried in turn for a new set.
    pub fn pools(&self) -> (r: Vec<u64>)
        ensures
            r@ == self.spec_pools().map_values(|p: (u64, u32)| p.0),
    {
        let mut r: Vec<u64> = Vec::new();
        let mut k: usize = 0;
        while k < self.pools.len()
            invariant
                k <= self.pools@.len(),
                r@ == self.pools@.take(k as int).map_values(|p: (u64, u32)| p.0),
            decreases self.pools@.len() - k,
        {
            r.push(self.pools[k].0);
            k = k + 1;
            proof {
                assert(r@ =~= self.pools@.take(k as int).map_values(|p: (u64, u32)| p.0));
            }
        }
        proof {
            assert(self.pools@.take(k as int) =~= self.pools@);
        }
        r
    }

    /// The number of free slots of `pool`, if it is one of the pools.
    pub fn sets_remaining(&self, pool: u64) -> (r: Option<u32>)
        ensures
            match r {
                Some(n) => exists|j: int| 0 <= j < self.spec_pools().len() && #[trigger] self.spec_pools()[j] == (pool, n),
                None => forall|j: int| 0 <= j < self.spec_pools().len() ==> #[trigger] self.spec_pools()[j].0 != pool,
            },
    {
        let mut j: usize = 0;
        while j < self.pools.len()
            invariant
                j <= self.pools@.len(),
                forall|b: int| 0 <= b < j ==> #[trigger] self.pools@[b].0 != pool,
            decreases self.pools@.len() - j,
        {
            if self.pools[j].0 == pool {
                proof {
                    assert(self.spec_pools()[j as int] == (pool, self.pools@[j as int].1));
                }
                return Some(self.pools[j].1);
            }
            j = j + 1;
        }
        None
    }

    /// Whether every cached set was last accessed no later than `now_ms`.
    pub fn accessed_by(&self, now_ms: u64) -> (r: bool)
        ensures
            r == forall|i: int| 0 <= i < self.spec_sets().len() ==> #[trigger] self.spec_sets()[i].last_access_ms <= now_ms,
    {
        let mut i: usize = 0;
        while i < self.sets.len()
            invariant
                i <= self.sets@.len(),
                forall|j: int| 0 <= j < i ==> #[trigger] self.sets@[j].last_access_ms <= now_ms,
            decreases self.sets@.len() - i,
        {
            if self.sets[i].last_access_ms > now_ms {
                assert(self.spec_sets()[i as int].last_access_ms > now_ms);
                return false;
            }
            i = i + 1;
        }
        true
    }

    /// Whether no pool exists yet.
    pub fn has_no_pools(&self) -> (r: bool)
        ensures
            r == (self.spec_pools().len() == 0),
    {
        self.pools.len() == 0
    }

    /// Records a newly created pool, with all its slots free.
    pub fn add_pool(&mut self, pool: u64)
        requires
            old(self).wf(),
            forall|j: int| 0 <= j < old(self).spec_pools().len() ==> #[trigger] old(self).spec_pools()[j].0 != pool,
        ensures
            final(self).wf(),
            final(self).spec_pools() == old(self).spec_pools().push((pool, MAX_SETS)),
            final(self).spec_sizes() == old(self).spec_sizes(),
            final(self).spec_keys() == old(self).spec_keys(),
            final(self).spec_sets() == old(self).spec_sets(),
    {
        let ghost before = self.pools@;
        proof {
            lemma_sets_in_pool_absent(self.sets@, pool);
        }
        self.pools.push((pool, MAX_SETS));
        proof {
            assert forall|i: int| 0 <= i < self.spec_sets().len() implies exists|j: int|
                0 <= j < self.spec_pools().len() && self.spec_pools()[j].0 == (
                #[trigger] self.spec_sets()[i]).pool by {
                assert(old(self).spec_sets()[i] == self.spec_sets()[i]);
                let j = choose|j: int| 0 <= j < old(self).spec_pools().len() && old(self).spec_pools()[j].0 == (
                    #[trigger] old(self).spec_sets()[i]).pool;
                assert(self.spec_pools()[j] == old(self).spec_pools()[j]);
            }
            assert forall|j: int| 0 <= j < self.spec_pools().len() implies (
            #[trigger] self.spec_pools()[j]).1 + sets_in_pool(self.spec_sets(), self.spec_pools()[j].0)
                == MAX_SETS by {
                if j < before.len() {
                    assert(self.pools@[j] == before[j]);
                }
            }
        }
    }

    fn find_key(&self, buffers: &[u64]) -> (r: Option<usize>)
        ensures
            match r {
                Some(i) => i < self.keys@.len() && self.spec_keys()[i as int] == buffers@,
                None => forall|i: int| 0 <= i < self.spec_keys().len() ==> #[trigger] self.spec_keys()[i] != buffers@,
            },
    {
        let mut i: usize = 0;
        while i < self.keys.len()
            invariant
                i <= self.keys@.len(),
                forall|b: int| 0 <= b < i ==> #[trigger] self.spec_keys()[b] != buffers@,
            decreases self.keys@.len() - i,
        {
            if same_buffers(&self.keys[i], buffers) {
                return Some(i);
            }
            i = i + 1;
        }
        None
    }

    /// The cached set for `buffers`, if there is one; its last use becomes now.
    pub fn lookup(&mut self, buffers: &[u64], graphics_queue_time: u64, now_ms: u64) -> (r: Option<u64>)
        requires
            old(self).wf(),
        ensures
            final(self).wf(),
            final(self).spec_pools() == old(self).spec_pools(),
            final(self).spec_sizes() == old(self).spec_sizes(),
            final(self).spec_keys() == old(self).spec_keys(),
            match r {
                Some(handle) => exists|i: int|
                    0 <= i < old(self).spec_keys().len() && old(self).spec_keys()[i] == buffers@
                        && old(self).spec_sets()[i].handle == handle && final(self).spec_sets()
                        == old(self).spec_sets().update(
                        i,
                        CachedSet {
                            handle,
                            pool: old(self).spec_sets()[i].pool,
                            graphics_queue_time,
                            last_access_ms: now_ms,
                        },
                    ),
                None => (forall|i: int| 0 <= i < old(self).spec_keys().len() ==> #[trigger] old(self).spec_keys()[i] != buffers@)
                    && final(self).spec_sets() == old(self).spec_sets(),
            },
    {
        match self.find_key(buffers) {
            None => None,
            Some(i) => {
                let s = self.sets[i];
                let ghost before = self.sets@;
                self.sets.set(i, CachedSet { handle: s.handle, pool: s.pool, graphics_queue_time, last_access_ms: now_ms });
                proof {
                    assert forall|p: u64| sets_in_pool(self.sets@, p) == sets_in_pool(before, p) by {
                        lemma_sets_in_pool_update(before, i as int, self.sets@[i as int], p);
                    }
                    assert forall|k: int| 0 <= k < self.spec_sets().len() implies exists|j: int|
                        0 <= j < self.spec_pools().len() && self.spec_pools()[j].0 == (
                        #[trigger] self.spec_sets()[k]).pool by {
                        assert(self.sets@[k].pool == before[k].pool);
                        assert(old(self).spec_sets()[k] == before[k]);
                        let j = choose|j: int| 0 <= j < old(self).spec_pools().len() && old(self).spec_pools()[j].0 == (
                            #[trigger] old(self).spec_sets()[k]).pool;
                        assert(self.spec_pools()[j].0 == self.spec_sets()[k].pool);
                    }
                    assert forall|j: int| 0 <= j < self.spec_pools().len() implies (
                    #[trigger] self.spec_pools()[j]).1 + sets_in_pool(self.spec_sets(), self.spec_pools()[j].0)
                        == MAX_SETS by {
                        assert(sets_in_pool(self.sets@, self.pools@[j].0) == sets_in_pool(before, self.pools@[j].0));
                    }
                }
                Some(s.handle)
            },
        }
    }

    /// Records the set `handle` just allocated from `pool` for `buffers`, which were not
    /// cached: the pool has one slot fewer.
    pub fn record_allocation(
        &mut self,
        buffers: &[u64],
        handle: u64,
        pool: u64,
        graphics_queue_time: u64,
        now_ms: u64,
    )
        requires
            old(self).wf(),
            forall|i: int| 0 <= i < old(self).spec_keys().len() ==> #[trigger] old(self).spec_keys()[i] != buffers@,
            exists|j: int| 0 <= j < old(self).spec_pools().len() && #[trigger] old(self).spec_pools()[j].0 == pool && old(self).spec_pools()[j].1 > 0,
        ensures
            final(self).wf(),
            final(self).spec_sizes() == old(self).spec_sizes(),
            final(self).spec_keys() == old(self).spec_keys().push(buffers@),
            final(self).spec_sets() == old(self).spec_sets().push(
                CachedSet { handle, pool, graphics_queue_time, last_access_ms: now_ms },
            ),
            final(self).spec_pools().len() == old(self).spec_pools().len(),
            forall|j: int|
                0 <= j < old(self).spec_pools().len() ==> #[trigger] final(self).spec_pools()[j] == if old(self).spec_pools()[j].0 == pool {
                    (pool, (old(self).spec_pools()[j].1 - 1) as u32)
                } else {
                    old(self).spec_pools()[j]
                },
    {
        let mut j: usize = 0;
        while j < self.pools.len() && self.pools[j].0 != pool
            invariant
                j <= self.pools@.len(),
                forall|b: int| 0 <= b < j ==> #[trigger] self.pools@[b].0 != pool,
            decreases self.pools@.len() - j,
        {
            j = j + 1;
        }
        proof {
            if j >= self.pools@.len() {
                let b = choose|b: int| 0 <= b < self.pools@.len() && #[trigger] self.pools@[b].0 == pool && self.pools@[b].1 > 0;
                assert(self.pools@[b].0 != pool);
            }
            assert forall|b: int| 0 <= b < self.pools@.len() && #[trigger] self.pools@[b].0 == pool implies b == j by {
                if b != j {
                    if b < j {
                    } else {
                        assert(self.pools@[j as int].0 != self.pools@[b].0);
                    }
                }
            }
        }
        let remaining = self.pools[j].1;
        let ghost pools0 = self.pools@;
        let ghost sets0 = self.sets@;
        let ghost keys0 = self.spec_keys();
        self.pools.set(j, (pool, remaining - 1));
        self.keys.push(copy_buffers(buffers));
        let entry = CachedSet { handle, pool, graphics_queue_time, last_access_ms: now_ms };
        self.sets.push(entry);
        proof {
            assert(self.spec_keys() =~= keys0.push(buffers@));
            assert(self.sets@.drop_last() =~= sets0);
            assert forall|a: int, b: int| 0 <= a < b < self.spec_keys().len() implies self.spec_keys()[a] != self.spec_keys()[b] by {
                if b < keys0.len() {
                    assert(keys0[a] != keys0[b]);
                }
            }
            assert forall|a: int, b: int| 0 <= a < b < self.pools@.len() implies self.pools@[a].0 != self.pools@[b].0 by {
                assert(pools0[a].0 != pools0[b].0);
            }
            assert forall|i: int| 0 <= i < self.spec_sets().len() implies exists|k: int|
                0 <= k < self.spec_pools().len() && self.spec_pools()[k].0 == (
                #[trigger] self.spec_sets()[i]).pool by {
                if i < sets0.len() {
                    assert(self.sets@[i] == sets0[i]);
                    assert(old(self).spec_sets()[i] == sets0[i]);
                    let k = choose|k: int| 0 <= k < old(self).spec_pools().len() && old(self).spec_pools()[k].0 == (
                        #[trigger] old(self).spec_sets()[i]).pool;
                    assert(self.spec_pools()[k].0 == pools0[k].0);
                    assert(self.spec_pools()[k].0 == self.spec_sets()[i].pool);
                } else {
                    assert(self.spec_sets()[i] == entry);
                    assert(self.spec_pools()[j as int].0 == self.spec_sets()[i].pool);
                }
            }
            assert forall|k: int| 0 <= k < self.spec_pools().len() implies (
            #[trigger] self.spec_pools()[k]).1 + sets_in_pool(self.spec_sets(), self.spec_pools()[k].0)
                == MAX_SETS by {
                assert(pools0[k].1 + sets_in_pool(sets0, pools0[k].0) == MAX_SETS);
            }
        }
    }

    /// Frees the sets the device is done with that have not been used for `MAX_AGE_MS`, and
    /// releases the pools left with no set. Returns the freed sets, in cache order, and the
    /// released pools.
    pub fn garbage_collection(&mut self, graphics_queue_time: u64, now_ms: u64) -> (r: (Vec<CachedSet>, Vec<u64>))
        requires
            old(self).wf(),
            forall|i: int| 0 <= i < old(self).spec_sets().len() ==> #[trigger] old(self).spec_sets()[i].last_access_ms <= now_ms,
        ensures
            final(self).wf(),
            final(self).spec_sizes() == old(self).spec_sizes(),
            r.0@ == freed(old(self).spec_sets(), graphics_queue_time, now_ms),
            final(self).spec_sets() == surviving(old(self).spec_sets(), graphics_queue_time, now_ms),
            final(self).spec_keys() == surviving_keys(old(self).spec_keys(), old(self).spec_sets(), graphics_queue_time, now_ms),
            final(self).spec_pools() == pools_after(old(self).spec_pools(), r.0@),
            forall|p: u64| #[trigger] r.1@.contains(p) <==> (exists|j: int| 0 <= j < old(self).spec_pools().len()
                && old(self).spec_pools()[j].0 == p) && sets_in_pool(r.0@, p) > 0 && sets_in_pool(
                final(self).spec_sets(),
                p,
            ) == 0,
    {
        let ghost sets0 = self.sets@;
        let ghost keys0 = self.spec_keys();
        let ghost pools0 = self.pools@;
        let mut kept_keys: Vec<Vec<u64>> = Vec::new();
        let mut kept: Vec<CachedSet> = Vec::new();
        let mut gone: Vec<CachedSet> = Vec::new();
        let mut i: usize = 0;
        while i < self.sets.len()
            invariant
                i <= sets0.len(),
                self.sets@ == sets0,
                self.spec_keys() == keys0,
                keys0.len() == sets0.len(),
                kept@ == surviving(sets0.take(i as int), graphics_queue_time, now_ms),
                gone@ == freed(sets0.take(i as int), graphics_queue_time, now_ms),
                kept_keys@.map_values(|k: Vec<u64>| k@) == surviving_keys(keys0.take(i as int), sets0.take(i as int), graphics_queue_time, now_ms),
                forall|k: int| 0 <= k < sets0.len() ==> #[trigger] sets0[k].last_access_ms <= now_ms,
                forall|a: int| 0 <= a < kept@.len() ==> sets0.contains(#[trigger] kept@[a]),
            decreases sets0.len() - i,
        {
            let s = self.sets[i];
            proof {
                assert(sets0.take(i + 1).drop_last() =~= sets0.take(i as int));
                assert(sets0.take(i + 1).last() == s);
                assert(keys0.take(i + 1).drop_last() =~= keys0.take(i as int));
                assert(keys0.take(i + 1).last() == keys0[i as int]);
            }
            if graphics_queue_time >= s.graphics_queue_time && now_ms - s.last_access_ms >= MAX_AGE_MS {
                gone.push(s);
            } else {
                let ghost kk = kept_keys@;
                kept_keys.push(copy_buffers(self.keys[i].as_slice()));
                let ghost kb = kept@;
                kept.push(s);
                proof {
                    assert forall|a: int| 0 <= a < kept@.len() implies sets0.contains(#[trigger] kept@[a]) by {
                        if a < kb.len() {
                            assert(kept@[a] == kb[a]);
                        } else {
                            assert(sets0[i as int] == s);
                        }
                    }
                    assert(kept_keys@.map_values(|k: Vec<u64>| k@) =~= kk.map_values(|k: Vec<u64>| k@).push(keys0[i as int]));
                }
            }
            i = i + 1;
        }
        proof {
            assert(sets0.take(i as int) =~= sets0);
            assert(keys0.take(i as int) =~= keys0);
            lemma_split(sets0, graphics_queue_time, now_ms);
        }
        // Return the freed sets' slots to their pools; release the pools left with none.
        let mut new_pools: Vec<(u64, u32)> = Vec::new();
        let mut released: Vec<u64> = Vec::new();
        let mut j: usize = 0;
        while j < self.pools.len()
            invariant
                j <= pools0.len(),
                self.pools@ == pools0,
                self.sets@ == sets0,
                pools_unique(pools0),
                forall|k: int| 0 <= k < pools0.len() ==> (#[trigger] pools0[k]).1 + sets_in_pool(sets0, pools0[k].0) == MAX_SETS,
                forall|p: u64| sets_in_pool(sets0, p) == sets_in_pool(kept@, p) + sets_in_pool(gone@, p),
                new_pools@ == pools_after(pools0.take(j as int), gone@),
                forall|a: int| 0 <= a < kept@.len() ==> sets0.contains(#[trigger] kept@[a]),
                forall|i: int| 0 <= i < sets0.len() ==> exists|k: int| 0 <= k < pools0.len() && pools0[k].0 == (#[trigger] sets0[i]).pool,
                forall|p: u64| #[trigger] released@.contains(p) <==> (exists|k: int| 0 <= k < j && pools0[k].0 == p) && sets_in_pool(gone@, p) > 0 && sets_in_pool(kept@, p) == 0,
            decreases pools0.len() - j,
        {
            let (pool, remaining) = self.pools[j];
            proof {
                assert(remaining + sets_in_pool(sets0, pool) == MAX_SETS);
                assert(sets_in_pool(sets0, pool) == sets_in_pool(kept@, pool) + sets_in_pool(gone@, pool));
            }
            let returned = count_in_pool(&gone, pool);
            proof {
                assert(pools0.take(j + 1).drop_last() =~= pools0.take(j as int));
                assert(pools0.take(j + 1).last() == pools0[j as int]);
                assert(remaining + sets_in_pool(sets0, pool) == MAX_SETS);
            }
            let total = remaining + returned;
            let ghost rel = released@;
            if returned > 0 && total == MAX_SETS {
                released.push(pool);
            } else {
                new_pools.push((pool, total));
            }
            proof {
                assert forall|p: u64| #[trigger] released@.contains(p) <==> (exists|k: int| 0 <= k < j + 1 && pools0[k].0 == p) && sets_in_pool(gone@, p) > 0 && sets_in_pool(kept@, p) == 0 by {
                    lemma_push_contains_u64(rel, pool, p);
                    assert(pools0[j as int].0 == pool);
                    if p == pool {
                        assert forall|k: int| 0 <= k < j implies pools0[k].0 != p by {
                            assert(pools0[k].0 != pools0[j as int].0);
                        }
                    }
                    if exists|k: int| 0 <= k < j + 1 && pools0[k].0 == p {
                        let k = choose|k: int| 0 <= k < j + 1 && pools0[k].0 == p;
                        if k < j {
                            assert(exists|k2: int| 0 <= k2 < j && pools0[k2].0 == p);
                        }
                    }
                    if exists|k: int| 0 <= k < j && pools0[k].0 == p {
                        assert(exists|k2: int| 0 <= k2 < j + 1 && pools0[k2].0 == p);
                    }
                }
            }
            j = j + 1;
        }
        proof {
            assert(pools0.take(j as int) =~= pools0);
        }
        self.pools = new_pools;
        self.keys = kept_keys;
        self.sets = kept;
        proof {
            lemma_after_collection(pools0, sets0, kept@, gone@);
            assert forall|a: int, b: int| 0 <= a < b < self.spec_keys().len() implies self.spec_keys()[a] != self.spec_keys()[b] by {
                lemma_surviving_keys_unique(keys0, sets0, graphics_queue_time, now_ms);
            }
            lemma_surviving_keys_len(keys0, sets0, graphics_queue_time, now_ms);
        }
        (gone, released)
    }

    /// The pools, for destroying them all.
    pub fn destroy(&self) -> (r: Vec<u64>)
        ensures
            r@ == self.spec_pools().map_values(|p: (u64, u32)| p.0),
    {
        self.pools()
    }
}

/// Whether two buffer lists are equal.
fn same_buffers(a: &Vec<u64>, b: &[u64]) -> (r: bool)
    ensures
        r == (a@ == b@),
{
    if a.len() != b.len() {
        return false;
    }
    let mut i: usize = 0;
    while i < a.len()
        invariant
            i <= a@.len(),
            a@.len() == b@.len(),
            forall|k: int| 0 <= k < i ==> a@[k] == b@[k],
        decreases a@.len() - i,
    {
        if a[i] != b[i] {
            return false;
        }
        i = i + 1;
    }
    proof {
        assert(a@ =~= b@);
    }
    true
}

fn copy_buffers(b: &[u64]) -> (r: Vec<u64>)
    ensures
        r@ == b@,
{
    let mut r: Vec<u64> = Vec::new();
    let mut i: usize = 0;
    while i < b.len()
        invariant
            i <= b@.len(),
            r@ == b@.take(i as int),
        decreases b@.len() - i,
    {
        r.push(b[i]);
        i = i + 1;
        proof {
            assert(r@ =~= b@.take(i as int));
        }
    }
    proof {
        assert(b@.take(i as int) =~= b@);
    }
    r
}

fn count_in_pool(sets: &Vec<CachedSet>, pool: u64) -> (r: u32)
    requires
        sets_in_pool(sets@, pool) <= u32::MAX,
    ensures
        r == sets_in_pool(sets@, pool),
{
    let mut n: u32 = 0;
    let mut i: usize = 0;
    while i < sets.len()
        invariant
            i <= sets@.len(),
            sets_in_pool(sets@, pool) <= u32::MAX,
            n == sets_in_pool(sets@.take(i as int), pool),
        decreases sets@.len() - i,
    {
        proof {
            assert(sets@.take(i + 1).drop_last() =~= sets@.take(i as int));
            assert(sets@.take(i + 1).last() == sets@[i as int]);
            lemma_sets_in_pool_prefix(sets@, i + 1, pool);
        }
        if sets[i].pool == pool {
            n = n + 1;
        }
        i = i + 1;
    }
    proof {
        assert(sets@.take(i as int) =~= sets@);
    }
    n
}

proof fn lemma_sets_in_pool_prefix(sets: Seq<CachedSet>, k: int, pool: u64)
    requires
        0 <= k <= sets.len(),
    ensures
        sets_in_pool(sets.take(k), pool) <= sets_in_pool(sets, pool),
    decreases sets.len() - k,
{
    if k < sets.len() {
        assert(sets.take(k + 1).drop_last() =~= sets.take(k));
        lemma_sets_in_pool_prefix(sets, k + 1, pool);
    } else {
        assert(sets.take(k) =~= sets);
    }
}

proof fn lemma_sets_in_pool_absent(sets: Seq<CachedSet>, pool: u64)
    requires
        forall|i: int| 0 <= i < sets.len() ==> (#[trigger] sets[i]).pool != pool,
    ensures
        sets_in_pool(sets, pool) == 0,
    decreases sets.len(),
{
    if sets.len() > 0 {
        assert forall|i: int| 0 <= i < sets.drop_last().len() implies (#[trigger] sets.drop_last()[i]).pool != pool by {
            assert(sets.drop_last()[i] == sets[i]);
        }
        lemma_sets_in_pool_absent(sets.drop_last(), pool);
        assert(sets.last() == sets[sets.len() - 1]);
    }
}

proof fn lemma_sets_in_pool_update(sets: Seq<CachedSet>, i: int, s: CachedSet, pool: u64)
    requires
        0 <= i < sets.len(),
        s.pool == sets[i].pool,
    ensures
        sets_in_pool(sets.update(i, s), pool) == sets_in_pool(sets, pool),
    decreases sets.len(),
{
    if i < sets.len() - 1 {
        assert(sets.update(i, s).drop_last() =~= sets.drop_last().update(i, s));
        lemma_sets_in_pool_update(sets.drop_last(), i, s, pool);
    } else {
        assert(sets.update(i, s).drop_last() =~= sets.drop_last());
    }
}

proof fn lemma_count_step(bindings: Seq<(i32, u32)>, k: int)
    requires
        0 <= k < bindings.len(),
    ensures
        forall|ty: i32| #[trigger] count_of_type(bindings.take(k + 1), ty) == count_of_type(bindings.take(k), ty) + if bindings[k].0 == ty {
            bindings[k].1 as nat
        } else {
            0nat
        },
{
    assert(bindings.take(k + 1).drop_last() =~= bindings.take(k));
    assert(bindings.take(k + 1).last() == bindings[k]);
}

proof fn lemma_count_prefix(bindings: Seq<(i32, u32)>, k: int, ty: i32)
    requires
        0 <= k <= bindings.len(),
    ensures
        count_of_type(bindings.take(k), ty) <= count_of_type(bindings, ty),
    decreases bindings.len() - k,
{
    if k < bindings.len() {
        lemma_count_step(bindings, k);
        lemma_count_prefix(bindings, k + 1, ty);
    } else {
        assert(bindings.take(k) =~= bindings);
    }
}

proof fn lemma_count_absent(bindings: Seq<(i32, u32)>, k: int, ty: i32)
    requires
        0 <= k <= bindings.len(),
        forall|j: int| 0 <= j < k ==> (#[trigger] bindings[j]).0 != ty,
    ensures
        count_of_type(bindings.take(k), ty) == 0,
    decreases k,
{
    if k > 0 {
        lemma_count_absent(bindings, k - 1, ty);
        assert(bindings.take(k).drop_last() =~= bindings.take(k - 1));
        assert(bindings.take(k).last() == bindings[k - 1]);
    } else {
        assert(bindings.take(k) =~= Seq::<(i32, u32)>::empty());
    }
}

proof fn lemma_push_contains_u64(s: Seq<u64>, x: u64, p: u64)
    ensures
        s.push(x).contains(p) <==> (s.contains(p) || p == x),
{
    if s.contains(p) {
        let b = choose|b: int| 0 <= b < s.len() && s[b] == p;
        assert(s.push(x)[b] == p);
    }
    if p == x {
        assert(s.push(x)[s.len() as int] == p);
    }
    if s.push(x).contains(p) {
        let b = choose|b: int| 0 <= b < s.len() + 1 && s.push(x)[b] == p;
        if b < s.len() {
            assert(s[b] == p);
        }
    }
}

/// Every set of a pool is either kept or freed.
proof fn lemma_split(sets: Seq<CachedSet>, graphics_queue_time: u64, now_ms: u64)
    ensures
        forall|p: u64| sets_in_pool(sets, p) == sets_in_pool(surviving(sets, graphics_queue_time, now_ms), p)
            + sets_in_pool(freed(sets, graphics_queue_time, now_ms), p),
    decreases sets.len(),
{
    if sets.len() > 0 {
        lemma_split(sets.drop_last(), graphics_queue_time, now_ms);
        let s = surviving(sets.drop_last(), graphics_queue_time, now_ms);
        let f = freed(sets.drop_last(), graphics_queue_time, now_ms);
        assert(s.push(sets.last()).drop_last() =~= s);
        assert(f.push(sets.last()).drop_last() =~= f);
        assert(s.push(sets.last()).last() == sets.last());
        assert(f.push(sets.last()).last() == sets.last());
        assert forall|p: u64| sets_in_pool(sets, p) == sets_in_pool(surviving(sets, graphics_queue_time, now_ms), p)
            + sets_in_pool(freed(sets, graphics_queue_time, now_ms), p) by {
            assert(sets_in_pool(sets.drop_last(), p) == sets_in_pool(s, p) + sets_in_pool(f, p));
            if expired(sets.last(), graphics_queue_time, now_ms) {
                assert(freed(sets, graphics_queue_time, now_ms) == f.push(sets.last()));
                assert(surviving(sets, graphics_queue_time, now_ms) == s);
            } else {
                assert(surviving(sets, graphics_queue_time, now_ms) == s.push(sets.last()));
                assert(freed(sets, graphics_queue_time, now_ms) == f);
            }
        }
    }
}

proof fn lemma_surviving_keys_len(keys: Seq<Seq<u64>>, sets: Seq<CachedSet>, graphics_queue_time: u64, now_ms: u64)
    requires
        keys.len() == sets.len(),
    ensures
        surviving_keys(keys, sets, graphics_queue_time, now_ms).len() == surviving(sets, graphics_queue_time, now_ms).len(),
    decreases sets.len(),
{
    if sets.len() > 0 {
        lemma_surviving_keys_len(keys.drop_last(), sets.drop_last(), graphics_queue_time, now_ms);
    }
}

proof fn lemma_surviving_keys_sub(keys: Seq<Seq<u64>>, sets: Seq<CachedSet>, graphics_queue_time: u64, now_ms: u64, a: int)
    requires
        0 <= a < surviving_keys(keys, sets, graphics_queue_time, now_ms).len(),
    ensures
        keys.contains(surviving_keys(keys, sets, graphics_queue_time, now_ms)[a]),
    decreases sets.len(),
{
    let sk = surviving_keys(keys, sets, graphics_queue_time, now_ms);
    let rest = surviving_keys(keys.drop_last(), sets.drop_last(), graphics_queue_time, now_ms);
    if expired(sets.last(), graphics_queue_time, now_ms) {
        lemma_surviving_keys_sub(keys.drop_last(), sets.drop_last(), graphics_queue_time, now_ms, a);
        let b = choose|b: int| 0 <= b < keys.drop_last().len() && keys.drop_last()[b] == rest[a];
        assert(keys[b] == rest[a]);
    } else if a < rest.len() {
        lemma_surviving_keys_sub(keys.drop_last(), sets.drop_last(), graphics_queue_time, now_ms, a);
        let b = choose|b: int| 0 <= b < keys.drop_last().len() && keys.drop_last()[b] == rest[a];
        assert(keys[b] == sk[a]);
    } else {
        assert(sk[a] == keys.last());
        assert(keys[keys.len() - 1] == sk[a]);
    }
}

proof fn lemma_surviving_keys_unique(keys: Seq<Seq<u64>>, sets: Seq<CachedSet>, graphics_queue_time: u64, now_ms: u64)
    requires
        keys_unique(keys),
    ensures
        keys_unique(surviving_keys(keys, sets, graphics_queue_time, now_ms)),
    decreases sets.len(),
{
    if sets.len() > 0 && keys.len() > 0 {
        assert(keys_unique(keys.drop_last())) by {
            assert forall|a: int, b: int| 0 <= a < b < keys.drop_last().len() implies keys.drop_last()[a] != keys.drop_last()[b] by {
                assert(keys.drop_last()[a] == keys[a]);
                assert(keys.drop_last()[b] == keys[b]);
            }
        }
        lemma_surviving_keys_unique(keys.drop_last(), sets.drop_last(), graphics_queue_time, now_ms);
        let rest = surviving_keys(keys.drop_last(), sets.drop_last(), graphics_queue_time, now_ms);
        let sk = surviving_keys(keys, sets, graphics_queue_time, now_ms);
        if !expired(sets.last(), graphics_queue_time, now_ms) {
            assert forall|a: int, b: int| 0 <= a < b < sk.len() implies sk[a] != sk[b] by {
                if b == rest.len() {
                    assert(sk[a] == rest[a]);
                    lemma_surviving_keys_sub(keys.drop_last(), sets.drop_last(), graphics_queue_time, now_ms, a);
                    let c = choose|c: int| 0 <= c < keys.drop_last().len() && keys.drop_last()[c] == rest[a];
                    assert(keys[c] == rest[a]);
                    assert(keys[c] != keys[keys.len() - 1]);
                } else {
                    assert(sk[a] == rest[a]);
                    assert(sk[b] == rest[b]);
                }
            }
        }
    }
}

spec fn pool_bounded(pools: Seq<(u64, u32)>, gone: Seq<CachedSet>) -> bool {
    forall|j: int| 0 <= j < pools.len() ==> (#[trigger] pools[j]).1 + sets_in_pool(gone, pools[j].0) <= MAX_SETS
}

proof fn lemma_pool_bounded_prefix(pools: Seq<(u64, u32)>, gone: Seq<CachedSet>)
    requires
        pool_bounded(pools, gone),
        pools.len() > 0,
    ensures
        pool_bounded(pools.drop_last(), gone),
{
    assert forall|j: int| 0 <= j < pools.drop_last().len() implies (#[trigger] pools.drop_last()[j]).1
        + sets_in_pool(gone, pools.drop_last()[j].0) <= MAX_SETS by {
        assert(pools.drop_last()[j] == pools[j]);
    }
}

/// Each pool left after a collection is an old pool, with the freed sets' slots returned.
proof fn lemma_pa_entries(pools: Seq<(u64, u32)>, gone: Seq<CachedSet>)
    requires
        pool_bounded(pools, gone),
    ensures
        forall|k: int| 0 <= k < pools_after(pools, gone).len() ==> exists|j: int| 0 <= j < pools.len()
            && pools[j].0 == (#[trigger] pools_after(pools, gone)[k]).0
            && pools_after(pools, gone)[k].1 == pools[j].1 + sets_in_pool(gone, pools[j].0)
            && !released_by(pools[j], gone),
    decreases pools.len(),
{
    if pools.len() > 0 {
        let prev = pools.drop_last();
        lemma_pool_bounded_prefix(pools, gone);
        lemma_pa_entries(prev, gone);
        let rest = pools_after(prev, gone);
        let pa = pools_after(pools, gone);
        let p = pools.last();
        assert(p == pools[pools.len() - 1]);
        let remaining = p.1 + sets_in_pool(gone, p.0);
        assert forall|k: int| 0 <= k < pa.len() implies exists|j: int| 0 <= j < pools.len()
            && pools[j].0 == (#[trigger] pa[k]).0
            && pa[k].1 == pools[j].1 + sets_in_pool(gone, pools[j].0)
            && !released_by(pools[j], gone) by {
            if k < rest.len() {
                assert(pa[k] == rest[k]);
                let j = choose|j: int| 0 <= j < prev.len() && prev[j].0 == (#[trigger] rest[k]).0
                    && rest[k].1 == prev[j].1 + sets_in_pool(gone, prev[j].0)
                    && !released_by(prev[j], gone);
                assert(pools[j] == prev[j]);
            } else {
                assert(pa[k] == (p.0, remaining as u32));
            }
        }
    }
}

/// An old pool whose slots do not all come back stays.
proof fn lemma_pa_covers(pools: Seq<(u64, u32)>, gone: Seq<CachedSet>)
    requires
        pool_bounded(pools, gone),
    ensures
        forall|j: int| 0 <= j < pools.len() && !released_by(#[trigger] pools[j], gone)
            ==> exists|k: int| 0 <= k < pools_after(pools, gone).len() && pools_after(pools, gone)[k].0 == pools[j].0,
    decreases pools.len(),
{
    if pools.len() > 0 {
        let prev = pools.drop_last();
        lemma_pool_bounded_prefix(pools, gone);
        lemma_pa_covers(prev, gone);
        let rest = pools_after(prev, gone);
        let pa = pools_after(pools, gone);
        let p = pools.last();
        assert(p == pools[pools.len() - 1]);
        let remaining = p.1 + sets_in_pool(gone, p.0);
        assert forall|j: int| 0 <= j < pools.len() && !released_by(#[trigger] pools[j], gone)
            implies exists|k: int| 0 <= k < pa.len() && pa[k].0 == pools[j].0 by {
            if j < prev.len() {
                assert(prev[j] == pools[j]);
                let k = choose|k: int| 0 <= k < rest.len() && rest[k].0 == prev[j].0;
                assert(pa[k] == rest[k]);
            } else {
                assert(pa[rest.len() as int] == (p.0, remaining as u32));
            }
        }
    }
}

/// The pools left after a collection are distinct.
proof fn lemma_pa_unique(pools: Seq<(u64, u32)>, gone: Seq<CachedSet>)
    requires
        pool_bounded(pools, gone),
        pools_unique(pools),
    ensures
        pools_unique(pools_after(pools, gone)),
    decreases pools.len(),
{
    if pools.len() > 0 {
        let prev = pools.drop_last();
        lemma_pool_bounded_prefix(pools, gone);
        assert(pools_unique(prev)) by {
            assert forall|a: int, b: int| 0 <= a < b < prev.len() implies prev[a].0 != prev[b].0 by {
                assert(prev[a] == pools[a]);
                assert(prev[b] == pools[b]);
            }
        }
        lemma_pa_unique(prev, gone);
        lemma_pa_entries(prev, gone);
        let rest = pools_after(prev, gone);
        let pa = pools_after(pools, gone);
        let p = pools.last();
        assert(p == pools[pools.len() - 1]);
        let remaining = p.1 + sets_in_pool(gone, p.0);
        if !released_by(p, gone) {
            assert forall|a: int, b: int| 0 <= a < b < pa.len() implies pa[a].0 != pa[b].0 by {
                if b == rest.len() {
                    assert(pa[a] == rest[a]);
                    let j = choose|j: int| 0 <= j < prev.len() && prev[j].0 == (#[trigger] rest[a]).0
                        && rest[a].1 == prev[j].1 + sets_in_pool(gone, prev[j].0)
                        && !released_by(prev[j], gone);
                    assert(pools[j] == prev[j]);
                    assert(pools[j].0 != pools[pools.len() - 1].0);
                } else {
                    assert(pa[a] == rest[a]);
                    assert(pa[b] == rest[b]);
                }
            }
        }
    }
}

proof fn lemma_count_positive(sets: Seq<CachedSet>, i: int)
    requires
        0 <= i < sets.len(),
    ensures
        sets_in_pool(sets, sets[i].pool) >= 1,
    decreases sets.len(),
{
    if i < sets.len() - 1 {
        assert(sets.drop_last()[i] == sets[i]);
        lemma_count_positive(sets.drop_last(), i);
    }
}

/// After a collection, the remaining pools still account for every slot, and each kept
/// set still comes from one of them.
proof fn lemma_after_collection(
    pools: Seq<(u64, u32)>,
    sets: Seq<CachedSet>,
    kept: Seq<CachedSet>,
    gone: Seq<CachedSet>,
)
    requires
        pools_unique(pools),
        forall|i: int| 0 <= i < sets.len() ==> exists|j: int| 0 <= j < pools.len() && pools[j].0 == (#[trigger] sets[i]).pool,
        forall|k: int| 0 <= k < pools.len() ==> (#[trigger] pools[k]).1 + sets_in_pool(sets, pools[k].0) == MAX_SETS,
        forall|p: u64| sets_in_pool(sets, p) == sets_in_pool(kept, p) + sets_in_pool(gone, p),
        forall|i: int| 0 <= i < kept.len() ==> sets.contains(#[trigger] kept[i]),
    ensures
        pools_unique(pools_after(pools, gone)),
        forall|i: int| 0 <= i < kept.len() ==> exists|j: int| 0 <= j < pools_after(pools, gone).len()
            && pools_after(pools, gone)[j].0 == (#[trigger] kept[i]).pool,
        forall|k: int| 0 <= k < pools_after(pools, gone).len() ==> (#[trigger] pools_after(pools, gone)[k]).1
            + sets_in_pool(kept, pools_after(pools, gone)[k].0) == MAX_SETS,
{
    assert forall|j: int| 0 <= j < pools.len() implies (#[trigger] pools[j]).1 + sets_in_pool(gone, pools[j].0) <= MAX_SETS by {
        assert(sets_in_pool(sets, pools[j].0) == sets_in_pool(kept, pools[j].0) + sets_in_pool(gone, pools[j].0));
    }
    lemma_pa_entries(pools, gone);
    lemma_pa_covers(pools, gone);
    lemma_pa_unique(pools, gone);
    let pa = pools_after(pools, gone);
    assert forall|k: int| 0 <= k < pa.len() implies (#[trigger] pa[k]).1 + sets_in_pool(kept, pa[k].0) == MAX_SETS by {
        let j = choose|j: int| 0 <= j < pools.len() && pools[j].0 == pa[k].0
            && pa[k].1 == pools[j].1 + sets_in_pool(gone, pools[j].0)
            && !released_by(pools[j], gone);
        assert(sets_in_pool(sets, pools[j].0) == sets_in_pool(kept, pools[j].0) + sets_in_pool(gone, pools[j].0));
        assert(pools[j].1 + sets_in_pool(sets, pools[j].0) == MAX_SETS);
    }
    assert forall|i: int| 0 <= i < kept.len() implies exists|j: int| 0 <= j < pa.len() && pa[j].0 == (#[trigger] kept[i]).pool by {
        let q = kept[i].pool;
        let c = choose|c: int| 0 <= c < sets.len() && sets[c] == kept[i];
        assert(sets[c].pool == q);
        let j = choose|j: int| 0 <= j < pools.len() && pools[j].0 == sets[c].pool;
        lemma_count_positive(kept, i);
        assert(sets_in_pool(sets, q) == sets_in_pool(kept, q) + sets_in_pool(gone, q));
        assert(pools[j].1 + sets_in_pool(sets, pools[j].0) == MAX_SETS);
        assert(!released_by(pools[j], gone));
    }
}

} // verus!
