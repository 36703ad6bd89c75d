//! The buffer pool: a least-recently-used cache of pages in front of the page store.
//!
//! A cached page carries a dirty flag. Dirty pages reach the store when they are evicted or
//! flushed; clean pages are dropped on eviction.
use crate::storage::pager::{spec_read, spec_write, Page, PageId, Pager, PAGE_SIZE};
use lru::LruCache;
use std::num::NonZeroUsize;
use vstd::prelude::*;

verus! {

#[verifier::external_type_specification]
#[verifier::external_body]
#[verifier::reject_recursive_types(K)]
#[verifier::reject_recursive_types(V)]
#[verifier::reject_recursive_types(S)]
pub struct ExLruCache<K, V, S>(LruCache<K, V, S>);

#[verifier::external_type_specification]
#[verifier::external_body]
pub struct ExLruDefaultHasher(lru::DefaultHasher);

/// A cached page: its bytes and whether it differs from the store.
pub type CachedPage = (Vec<u8>, bool);

/// The cache of pages keyed by page id.
pub type PageCache = LruCache<u32, CachedPage>;

/// The entries of a page cache: page id to the page bytes and the dirty flag.
pub uninterp spec fn lru_entries(c: PageCache) -> Map<u32, (Seq<u8>, bool)>;

/// The number of entries the cache was made to hold.
pub uninterp spec fn lru_capacity(c: PageCache) -> nat;

/// The keys of a page cache in order of use: the least recently used first, the most
/// recently used last.
pub uninterp spec fn lru_order(c: PageCache) -> Seq<u32>;

/// The order of use lists each key of the cache once.
pub open spec fn lru_ordered(c: PageCache) -> bool {
    &&& lru_order(c).no_duplicates()
    &&& forall|k: u32| #[trigger] lru_order(c).contains(k) <==> lru_entries(c).dom().contains(k)
}

/// `o` without key `k`.
pub open spec fn order_without(o: Seq<u32>, k: u32) -> Seq<u32> {
    o.filter(|x: u32| x != k)
}

/// `o` with key `k` moved (or added) to the most recently used end.
pub open spec fn order_touch(o: Seq<u32>, k: u32) -> Seq<u32> {
    order_without(o, k).push(k)
}

/// What every page cache satisfies: finitely many entries, no more than its capacity.
pub open spec fn lru_bounded(c: PageCache) -> bool {
    &&& lru_entries(c).dom().finite()
    &&& lru_capacity(c) >= 1
    &&& lru_entries(c).len() <= lru_capacity(c)
}

/// `LruCache::new`: an empty cache holding at most `cap` entries.
#[verifier::external_body]
fn lru_new(cap: usize) -> (r: PageCache)
    requires
        cap >= 1,
    ensures
        lru_entries(r).dom() == Set::<u32>::empty(),
        lru_capacity(r) == cap,
        lru_bounded(r),
        lru_order(r) == Seq::<u32>::empty(),
        lru_ordered(r),
{
    LruCache::new(NonZeroUsize::new(cap).unwrap_or(NonZeroUsize::MIN))
}

/// `LruCache::get`: the entry for `k`, if any (a copy). A found entry becomes the most
/// recently used; the entries themselves are unchanged.
#[verifier::external_body]
fn lru_get(c: &mut PageCache, k: u32) -> (r: Option<CachedPage>)
    ensures
        lru_entries(*final(c)) == lru_entries(*old(c)),
        lru_ordered(*old(c)) ==> lru_ordered(*final(c)),
        r is Some ==> lru_order(*final(c)) == order_touch(lru_order(*old(c)), k),
        r is None ==> lru_order(*final(c)) == lru_order(*old(c)),
        lru_capacity(*final(c)) == lru_capacity(*old(c)),
        lru_bounded(*old(c)) ==> lru_bounded(*final(c)),
        match r {
            Some(e) => lru_entries(*old(c)).dom().contains(k) && lru_entries(*old(c))[k] == (
            e.0@,
            e.1,
            ),
            None => !lru_entries(*old(c)).dom().contains(k),
        },
{
    c.get(&k).cloned()
}

/// `LruCache::peek`: the entry for `k`, if any (a copy), leaving the order of use alone.
#[verifier::external_body]
fn lru_peek(c: &PageCache, k: u32) -> (r: Option<CachedPage>)
    ensures
        match r {
            Some(e) => lru_entries(*c).dom().contains(k) && lru_entries(*c)[k] == (e.0@, e.1),
            None => !lru_entries(*c).dom().contains(k),
        },
{
    c.peek(&k).cloned()
}

/// `LruCache::peek_mut` used to overwrite the entry for `k` in place, when there is one,
/// without changing how recently it was used.
#[verifier::external_body]
fn lru_overwrite(c: &mut PageCache, k: u32, v: CachedPage)
    ensures
        lru_entries(*old(c)).dom().contains(k) ==> lru_entries(*final(c)) == lru_entries(
            *old(c),
        ).insert(k, (v.0@, v.1)),
        !lru_entries(*old(c)).dom().contains(k) ==> lru_entries(*final(c)) == lru_entries(
            *old(c),
        ),
        lru_capacity(*final(c)) == lru_capacity(*old(c)),
        lru_bounded(*old(c)) ==> lru_bounded(*final(c)),
        lru_order(*final(c)) == lru_order(*old(c)),
        lru_ordered(*old(c)) ==> lru_ordered(*final(c)),
{
    if let Some(slot) = c.peek_mut(&k) {
        *slot = v;
    }
}

/// `LruCache::put`: stores `v` under `k`, which becomes the most recently used. When `k` is
/// new and the cache is full, the least recently used entry (some other key) is dropped to
/// make room.
#[verifier::external_body]
fn lru_put(c: &mut PageCache, k: u32, v: CachedPage)
    ensures
        lru_capacity(*final(c)) == lru_capacity(*old(c)),
        lru_bounded(*old(c)) ==> lru_bounded(*final(c)),
        lru_ordered(*old(c)) ==> lru_ordered(*final(c)),
        (lru_entries(*old(c)).dom().contains(k) || lru_entries(*old(c)).len() < lru_capacity(*old(c)))
            ==> lru_order(*final(c)) == order_touch(lru_order(*old(c)), k),
        !lru_entries(*old(c)).dom().contains(k) && lru_entries(*old(c)).len() >= lru_capacity(*old(c)) && lru_ordered(*old(c))
            && lru_order(*old(c)).len() > 0 ==> {
            &&& lru_entries(*final(c)) == lru_entries(*old(c)).remove(lru_order(*old(c))[0]).insert(k, (v.0@, v.1))
            &&& lru_order(*final(c)) == lru_order(*old(c)).drop_first().push(k)
        },
        (lru_entries(*old(c)).dom().contains(k) || lru_entries(*old(c)).len() < lru_capacity(
            *old(c),
        )) ==> lru_entries(*final(c)) == lru_entries(*old(c)).insert(k, (v.0@, v.1)),
        (!lru_entries(*old(c)).dom().contains(k) && lru_entries(*old(c)).len() >= lru_capacity(
            *old(c),
        )) ==> exists|e: u32|
            #![trigger lru_entries(*old(c)).remove(e)]
            e != k && lru_entries(*old(c)).dom().contains(e) && lru_entries(*final(c))
                == lru_entries(*old(c)).remove(e).insert(k, (v.0@, v.1)),
{
    c.put(k, v);
}

/// `LruCache::pop`: removes the entry for `k` and hands it back, if there is one.
#[verifier::external_body]
fn lru_pop(c: &mut PageCache, k: u32) -> (r: Option<CachedPage>)
    ensures
        lru_entries(*final(c)) == lru_entries(*old(c)).remove(k),
        lru_order(*final(c)) == order_without(lru_order(*old(c)), k),
        lru_ordered(*old(c)) ==> lru_ordered(*final(c)),
        lru_capacity(*final(c)) == lru_capacity(*old(c)),
        lru_bounded(*old(c)) ==> lru_bounded(*final(c)),
        match r {
            Some(e) => lru_entries(*old(c)).dom().contains(k) && lru_entries(*old(c))[k] == (
            e.0@,
            e.1,
            ),
            None => !lru_entries(*old(c)).dom().contains(k),
        },
{
    c.pop(&k)
}

/// `LruCache::pop_lru`: removes the least recently used entry and hands it back; `None` when
/// the cache is empty.
#[verifier::external_body]
fn lru_pop_lru(c: &mut PageCache) -> (r: Option<(u32, CachedPage)>)
    ensures
        lru_capacity(*final(c)) == lru_capacity(*old(c)),
        lru_bounded(*old(c)) ==> lru_bounded(*final(c)),
        lru_ordered(*old(c)) ==> lru_ordered(*final(c)),
        r is Some && lru_ordered(*old(c)) ==> lru_order(*old(c)).len() > 0 && r->Some_0.0 == lru_order(*old(c))[0]
            && lru_order(*final(c)) == lru_order(*old(c)).drop_first(),
        r is None ==> lru_order(*final(c)) == lru_order(*old(c)),
        match r {
            Some(e) => {
                &&& lru_entries(*old(c)).dom().contains(e.0)
                &&& lru_entries(*old(c))[e.0] == (e.1.0@, e.1.1)
                &&& lru_entries(*final(c)) == lru_entries(*old(c)).remove(e.0)
            },
            None => lru_entries(*old(c)).len() == 0 && lru_entries(*final(c)) == lru_entries(
                *old(c),
            ),
        },
{
    c.pop_lru()
}

/// `LruCache::len`: the number of entries.
#[verifier::external_body]
fn lru_len(c: &PageCache) -> (n: usize)
    ensures
        n == lru_entries(*c).len(),
{
    c.len()
}

/// `LruCache::cap`: the capacity.
#[verifier::external_body]
fn lru_cap(c: &PageCache) -> (n: usize)
    ensures
        n == lru_capacity(*c),
{
    c.cap().get()
}

/// `LruCache::contains`: whether `k` has an entry.
#[verifier::external_body]
fn lru_contains(c: &PageCache, k: u32) -> (b: bool)
    ensures
        b == lru_entries(*c).dom().contains(k),
{
    c.contains(&k)
}

/// `LruCache::iter` mapped to the keys: every key exactly once, the most recently used first.
#[verifier::external_body]
fn lru_keys(c: &PageCache) -> (r: Vec<u32>)
    ensures
        r@.to_set() == lru_entries(*c).dom(),
        r@.no_duplicates(),
        r@ == lru_order(*c).reverse(),
{
    c.iter().map(|(k, _)| *k).collect()
}

/// What evicting to make room does, going from pool `before` to `after`: the least recently
/// used page leaves the cache and, when it was dirty, its bytes are written to the store.
pub open spec fn evicted_lru(before: BufferPool, after: BufferPool) -> bool {
    &&& before.recency().len() > 0
    &&& !after.cached().dom().contains(before.recency()[0])
    &&& before.cached()[before.recency()[0]].1 ==> spec_read(after.store(), before.recency()[0] as int) == before.cached()[before.recency()[0]].0
}

/// The buffer pool over a page store.
pub struct BufferPool {
    pager: Pager,
    cache: PageCache,
    dirty_write_count: u32,
    sync_interval: u32,
    sync_requested: bool,
}

impl BufferPool {
    /// The cached page ids in order of use: the least recently used first.
    pub closed spec fn recency(&self) -> Seq<u32> {
        lru_order(self.cache)
    }

    /// The pages of the underlying store.
    pub closed spec fn store(&self) -> Seq<Seq<u8>> {
        self.pager@
    }

    /// The cached pages: id to bytes and dirty flag.
    pub closed spec fn cached(&self) -> Map<u32, (Seq<u8>, bool)> {
        lru_entries(self.cache)
    }

    /// The most pages the cache holds.
    pub closed spec fn capacity(&self) -> nat {
        lru_capacity(self.cache)
    }

    /// Dirty writes counted since the last automatic sync.
    pub closed spec fn spec_dirty_writes(&self) -> u32 {
        self.dirty_write_count
    }

    /// The automatic sync interval (0 = never).
    pub closed spec fn spec_sync_interval(&self) -> u32 {
        self.sync_interval
    }

    /// Whether a sync of the store to stable storage is owed.
    pub closed spec fn spec_sync_requested(&self) -> bool {
        self.sync_requested
    }

    /// What reading page `id` through the pool gives: the cached bytes, else the store's.
    pub open spec fn page(&self, id: u32) -> Seq<u8> {
        if self.cached().dom().contains(id) {
            self.cached()[id].0
        } else {
            spec_read(self.store(), id as int)
        }
    }

    /// Every clean cached page equals the stored page.
    pub open spec fn coherent(&self) -> bool {
        forall|id: u32|
            #![trigger self.cached()[id]]
            self.cached().dom().contains(id) && !self.cached()[id].1 ==> self.cached()[id].0
                == spec_read(self.store(), id as int)
    }

    /// Page `id` is not a clean cached copy that differs from the store.
    pub open spec fn fresh(&self, id: u32) -> bool {
        !(self.cached().dom().contains(id) && !self.cached()[id].1 && self.cached()[id].0
            != spec_read(self.store(), id as int))
    }

    /// The bytes the store holds at `id` once the cached dirty pages are written back.
    pub open spec fn flushed(&self, id: u32) -> Seq<u8> {
        if self.cached().dom().contains(id) && self.cached()[id].1 {
            self.cached()[id].0
        } else {
            spec_read(self.store(), id as int)
        }
    }

    /// Well-formed, with no stale clean cached page.
    pub closed spec fn wf(&self) -> bool {
        &&& self.wf_base()
        &&& self.coherent()
    }

    /// The shape of the pool, whether or not a cached page is stale.
    pub closed spec fn wf_base(&self) -> bool {
        &&& self.pager.wf()
        &&& lru_bounded(self.cache)
        &&& lru_ordered(self.cache)
        &&& self.dirty_write_count < u32::MAX
        &&& forall|id: u32|
            #![trigger lru_entries(self.cache)[id]]
            lru_entries(self.cache).dom().contains(id) ==> {
                &&& lru_entries(self.cache)[id].0.len() == PAGE_SIZE
                &&& lru_entries(self.cache)[id].1 ==> id < u32::MAX
            }
    }

    pub proof fn lemma_wf(&self)
        requires
            self.wf(),
        ensures
            self.store().len() >= 1,
            forall|i: int| 0 <= i < self.store().len() ==> (#[trigger] self.store()[i]).len() == PAGE_SIZE,
            self.cached().dom().finite(),
            self.cached().len() <= self.capacity(),
            self.capacity() >= 1,
            forall|id: u32|
                self.cached().dom().contains(id) ==> (#[trigger] self.cached()[id]).0.len()
                    == PAGE_SIZE,
            forall|id: u32| (#[trigger] self.page(id)).len() == PAGE_SIZE,
            self.coherent(),
    {
        self.pager.lemma_wf();
        assert forall|id: u32| (#[trigger] self.page(id)).len() == PAGE_SIZE by {
            if !self.cached().dom().contains(id) && 0 <= id < self.store().len() {
                assert(self.store()[id as int].len() == PAGE_SIZE);
            }
        }
    }

    /// A pool over `pager` holding at most `capacity` pages (at least one).
    pub fn new(pager: Pager, capacity: usize) -> (r: BufferPool)
        requires
            pager.wf(),
        ensures
            r.wf(),
            r.store() == pager@,
            r.cached() == Map::<u32, (Seq<u8>, bool)>::empty(),
            r.capacity() == if capacity == 0 {
                1
            } else {
                capacity
            },
            r.spec_sync_interval() == 0,
            r.spec_dirty_writes() == 0,
            !r.spec_sync_requested(),
            r.coherent(),
    {
        let cap = if capacity == 0 {
            1
        } else {
            capacity
        };
        BufferPool {
            pager,
            cache: lru_new(cap),
            dirty_write_count: 0,
            sync_interval: 0,
            sync_requested: false,
        }
    }

    /// The same pool, syncing after every `interval` dirty writes (0 = never).
    pub fn with_sync_interval(self, interval: u32) -> (r: BufferPool)
        requires
            self.wf(),
        ensures
            r.wf(),
            r.store() == self.store(),
            r.cached() == self.cached(),
            r.capacity() == self.capacity(),
            r.spec_sync_interval() == interval,
            r.spec_dirty_writes() == self.spec_dirty_writes(),
            r.spec_sync_requested() == self.spec_sync_requested(),
    {
        let mut s = self;
        s.sync_interval = interval;
        proof {
            assert(s.cached() == self.cached() && s.store() == self.store());
            assert(s.coherent());
        }
        s
    }

    /// The page store under the pool.
    pub fn pager(&self) -> (p: &Pager)
        ensures
            p@ == self.store(),
            self.wf() ==> p.wf(),
    {
        &self.pager
    }

    /// Whether a sync of the store to stable storage is owed.
    pub fn sync_requested(&self) -> (b: bool)
        ensures
            b == self.spec_sync_requested(),
    {
        self.sync_requested
    }

    /// Records that the store has been synced.
    pub fn clear_sync_request(&mut self)
        requires
            old(self).wf(),
        ensures
            final(self).wf(),
            final(self).store() == old(self).store(),
            final(self).cached() == old(self).cached(),
            final(self).capacity() == old(self).capacity(),
            final(self).spec_sync_interval() == old(self).spec_sync_interval(),
            final(self).spec_dirty_writes() == old(self).spec_dirty_writes(),
            !final(self).spec_sync_requested(),
    {
        self.sync_requested = false;
        proof {
            assert(self.cached() == old(self).cached() && self.store() == old(self).store());
            assert(self.coherent());
        }
    }

    /// Caches `data` under `id`, first writing back the least recently used page when the
    /// cache is full and `id` is not cached. An already dirty entry stays dirty.
    fn put_and_evict(&mut self, id: PageId, data: Vec<u8>, is_dirty: bool)
        requires
            old(self).wf(),
            data@.len() == PAGE_SIZE,
            is_dirty || data@ == spec_read(old(self).store(), id as int),
            is_dirty ==> id < u32::MAX,
        ensures
            final(self).wf(),
            final(self).cached().dom().contains(id),
            final(self).cached()[id] == (
                data@,
                is_dirty || (old(self).cached().dom().contains(id) && old(self).cached()[id].1),
            ),
            forall|j: u32| j != id ==> #[trigger] final(self).flushed(j) == old(self).flushed(j),
            forall|j: u32|
                j != id && (#[trigger] final(self).cached().dom().contains(j)) ==> old(
                    self,
                ).cached().dom().contains(j) && final(self).cached()[j] == old(self).cached()[j],
            old(self).coherent() && (is_dirty || data@ == spec_read(old(self).store(), id as int))
                ==> final(self).coherent(),
            old(self).coherent() ==> forall|j: u32|
                j != id ==> #[trigger] final(self).page(j) == old(self).page(j),
            spec_read(final(self).store(), id as int) == spec_read(old(self).store(), id as int),
            final(self).store().len() >= old(self).store().len(),
            (forall|j: u32| #[trigger] old(self).cached().dom().contains(j) ==> !old(self).cached()[j].1) ==> final(self).store() == old(self).store(),
            final(self).recency().len() > 0 && final(self).recency().last() == id,
            !old(self).cached().dom().contains(id) && old(self).cached().len() >= old(self).capacity() ==> evicted_lru(*old(self), *final(self)),
            forall|j: u32|
                #![trigger old(self).fresh(j)]
                #![trigger final(self).fresh(j)]
                j != id && old(self).fresh(j) ==> final(self).fresh(j) && final(self).page(j)
                    == old(self).page(j),
            (is_dirty || (old(self).cached().dom().contains(id) && old(self).cached()[id].1) || data@
                == spec_read(old(self).store(), id as int)) ==> final(self).fresh(id),
            final(self).capacity() == old(self).capacity(),
            final(self).spec_sync_interval() == old(self).spec_sync_interval(),
            final(self).spec_dirty_writes() == old(self).spec_dirty_writes(),
            final(self).spec_sync_requested() == old(self).spec_sync_requested(),
    {
        proof {
            self.lemma_wf();
        }
        let ghost c0 = lru_entries(self.cache);
        let ghost s0 = self.pager@;
        let len = lru_len(&self.cache);
        let cap = lru_cap(&self.cache);
        if len == cap && !lru_contains(&self.cache, id) {
            let popped = lru_pop_lru(&mut self.cache);
            match popped {
                Some((evict_id, (evict_data, evict_dirty))) => {
                    proof {
                        assert(c0[evict_id].0.len() == PAGE_SIZE);
                    }
                    proof {
                        assert(evict_id == lru_order(old(self).cache)[0]);
                        if forall|j: u32| #[trigger] old(self).cached().dom().contains(j) ==> !old(self).cached()[j].1 {
                            assert(c0.dom().contains(evict_id));
                            assert(old(self).cached()[evict_id] == c0[evict_id]);
                            assert(!evict_dirty);
                        }
                    }
                    if evict_dirty {
                        let page = Page { data: evict_data };
                        self.pager.write_page(evict_id, &page);
                    }
                    proof {
                        assert forall|j: u32| j != evict_id implies spec_read(
                            self.pager@,
                            j as int,
                        ) == spec_read(s0, j as int) by {
                            if evict_dirty {
                                crate::storage::pager::lemma_read_after_write(
                                    s0,
                                    evict_id as int,
                                    c0[evict_id].0,
                                    j as int,
                                );
                            }
                        }
                        if evict_dirty {
                            crate::storage::pager::lemma_read_after_write(
                                s0,
                                evict_id as int,
                                c0[evict_id].0,
                                evict_id as int + 1,
                            );
                        }
                    }
                },
                None => {},
            }
        }
        let ghost c1 = lru_entries(self.cache);
        let ghost s1 = self.pager@;
        proof {
            self.pager.lemma_wf();
            assert forall|j: u32| #[trigger] c1.dom().contains(j) implies c0.dom().contains(j)
                && c1[j] == c0[j] && spec_read(s1, j as int) == spec_read(s0, j as int) by {}
            assert(spec_read(s1, id as int) == spec_read(s0, id as int));
        }
        let current = lru_get(&mut self.cache, id);
        let new_dirty = match current {
            Some((_, cur_dirty)) => is_dirty || cur_dirty,
            None => is_dirty,
        };
        lru_put(&mut self.cache, id, (data, new_dirty));
        proof {
            let c2 = lru_entries(self.cache);
            assert(c1.dom().contains(id) || c1.len() < lru_capacity(self.cache)) by {
                if !c1.dom().contains(id) && !c0.dom().contains(id) {
                    if c0.len() == lru_capacity(self.cache) {
                        assert(c0.len() > 0);
                        assert(c1.len() < c0.len());
                    }
                }
            }
            assert(c2 == c1.insert(id, (data@, new_dirty)));
            assert(c1.dom().contains(id) == c0.dom().contains(id));
            if c0.dom().contains(id) {
                assert(c1[id] == c0[id]);
            }
            assert forall|j: u32| j != id implies #[trigger] self.flushed(j) == old(self).flushed(
                j,
            ) by {
                assert(self.cached() == c2);
                if c1.dom().contains(j) {
                    assert(c0.dom().contains(j) && c1[j] == c0[j]);
                }
            }
            assert forall|j: u32|
                #![trigger lru_entries(self.cache)[j]]
                lru_entries(self.cache).dom().contains(j) implies {
                &&& lru_entries(self.cache)[j].0.len() == PAGE_SIZE
                &&& lru_entries(self.cache)[j].1 ==> j < u32::MAX
            } by {
                if j != id {
                    assert(c1.dom().contains(j));
                    assert(c0.dom().contains(j) && c1[j] == c0[j]);
                }
            }
            if old(self).coherent() && (is_dirty || data@ == spec_read(old(self).store(), id as int)) {
                assert forall|j: u32|
                    #![trigger self.cached()[j]]
                    self.cached().dom().contains(j) && !self.cached()[j].1 implies self.cached()[j].0
                    == spec_read(self.store(), j as int) by {
                    if j != id {
                        assert(c1.dom().contains(j));
                        assert(c0.dom().contains(j) && c1[j] == c0[j]);
                        assert(old(self).cached()[j] == c0[j]);
                    }
                }
            }
            assert forall|j: u32| j != id && old(self).fresh(j) implies #[trigger] self.fresh(j) && self.page(j)
                == old(self).page(j) by {
                if c0.dom().contains(j) {
                    assert(old(self).cached()[j] == c0[j]);
                }
                if c1.dom().contains(j) {
                    assert(c0.dom().contains(j) && c1[j] == c0[j]);
                }
            }
            if old(self).coherent() {
                assert forall|j: u32| j != id implies #[trigger] self.page(j) == old(self).page(j) by {
                    if c0.dom().contains(j) && !c1.dom().contains(j) {
                        assert(!self.cached().dom().contains(j));
                    } else if c1.dom().contains(j) {
                        assert(c0.dom().contains(j) && c1[j] == c0[j]);
                    }
                    if c0.dom().contains(j) {
                        assert(old(self).cached()[j] == c0[j]);
                    }
                }
            }
        }
    }
}


impl BufferPool {
    /// Reads a page through the cache, loading it from the store (clean) when it is not
    /// cached.
    pub fn fetch_page(&mut self, page_id: PageId) -> (r: Page)
        requires
            old(self).wf(),
        ensures
            final(self).wf(),
            r.wf(),
            r.data@ == old(self).page(page_id),
            final(self).cached().dom().contains(page_id),
            forall|j: u32| j != page_id && #[trigger] final(self).cached().dom().contains(j) ==> old(self).cached().dom().contains(j),
            final(self).page(page_id) == old(self).page(page_id),
            final(self).store().len() >= old(self).store().len(),
            (forall|j: u32| #[trigger] old(self).cached().dom().contains(j) ==> !old(self).cached()[j].1) ==> final(self).store() == old(self).store(),
            forall|j: u32| #[trigger] final(self).flushed(j) == old(self).flushed(j),
            old(self).coherent() ==> final(self).coherent(),
            old(self).coherent() ==> forall|j: u32| #[trigger] final(self).page(j) == old(self).page(j),
            forall|j: u32|
                #![trigger old(self).fresh(j)]
                #![trigger final(self).fresh(j)]
                old(self).fresh(j) ==> final(self).fresh(j) && final(self).page(j) == old(
                    self,
                ).page(j),
            final(self).capacity() == old(self).capacity(),
            final(self).spec_sync_interval() == old(self).spec_sync_interval(),
            final(self).spec_dirty_writes() == old(self).spec_dirty_writes(),
            final(self).spec_sync_requested() == old(self).spec_sync_requested(),
            final(self).recency().len() > 0 && final(self).recency().last() == page_id,
            !old(self).cached().dom().contains(page_id) && old(self).cached().len() >= old(self).capacity() ==> evicted_lru(*old(self), *final(self)),
    {
        proof {
            self.lemma_wf();
        }
        let cached = lru_get(&mut self.cache, page_id);
        match cached {
            Some((data, _)) => {
                return Page { data };
            },
            None => {},
        }
        let page = self.pager.read_page(page_id);
        let copy = page.duplicate();
        self.put_and_evict(page_id, page.data, false);
        copy
    }

    /// Marks a cached page dirty (an uncached page is left alone), then counts a dirty write.
    pub fn mark_dirty(&mut self, page_id: PageId)
        requires
            old(self).wf(),
            page_id < u32::MAX,
        ensures
            final(self).wf(),
            final(self).cached().dom() == old(self).cached().dom(),
            old(self).cached().dom().contains(page_id) ==> final(self).cached()[page_id].1
                || spec_read(final(self).store(), page_id as int) == final(self).cached()[page_id].0,
            forall|j: u32| #[trigger] final(self).page(j) == old(self).page(j),
            forall|j: u32|
                old(self).cached().dom().contains(j) && j != page_id
                    && final(self).spec_dirty_writes() != 0 ==> #[trigger] final(self).cached()[j]
                    == old(self).cached()[j],
            old(self).coherent() ==> final(self).coherent(),
            forall|j: u32| #![trigger old(self).fresh(j)] #![trigger final(self).fresh(j)] old(self).fresh(j) ==> final(self).fresh(j),
            final(self).store().len() >= old(self).store().len(),
            final(self).capacity() == old(self).capacity(),
            final(self).spec_sync_interval() == old(self).spec_sync_interval(),
    {
        proof {
            self.lemma_wf();
        }
        let cached = lru_get(&mut self.cache, page_id);
        match cached {
            Some((data, _)) => {
                lru_overwrite(&mut self.cache, page_id, (data, true));
            },
            None => {},
        }
        proof {
            assert forall|j: u32| #[trigger] self.page(j) == old(self).page(j) by {
                if j == page_id && old(self).cached().dom().contains(j) {
                    assert(self.cached()[j].0 == old(self).cached()[j].0);
                }
            }
            assert forall|j: u32|
                #![trigger lru_entries(self.cache)[j]]
                lru_entries(self.cache).dom().contains(j) implies {
                &&& lru_entries(self.cache)[j].0.len() == PAGE_SIZE
                &&& lru_entries(self.cache)[j].1 ==> j < u32::MAX
            } by {
                assert(lru_entries(old(self).cache)[j].0.len() == PAGE_SIZE);
            }
            if old(self).coherent() {
                assert forall|j: u32|
                    #![trigger self.cached()[j]]
                    self.cached().dom().contains(j) && !self.cached()[j].1 implies self.cached()[j].0
                    == spec_read(self.store(), j as int) by {
                    assert(old(self).cached()[j] == self.cached()[j]);
                }
            }
            assert forall|j: u32| old(self).fresh(j) implies #[trigger] self.fresh(j) by {
                if self.cached().dom().contains(j) && j != page_id {
                    assert(old(self).cached()[j] == self.cached()[j]);
                }
            }
        }
        self.count_dirty_write();
    }

    /// Counts a dirty write and, with a sync interval set, flushes and requests a sync every
    /// `interval` writes.
    fn count_dirty_write(&mut self)
        requires
            old(self).wf(),
        ensures
            final(self).wf(),
            final(self).cached().dom() == old(self).cached().dom(),
            forall|j: u32| #[trigger] final(self).page(j) == old(self).page(j),
            forall|j: u32|
                old(self).cached().dom().contains(j) ==> (#[trigger] final(self).cached()[j]).0
                    == old(self).cached()[j].0,
            forall|j: u32|
                old(self).cached().dom().contains(j) ==> (#[trigger] final(self).cached()[j]).1
                    ==> old(self).cached()[j].1,
            forall|j: u32|
                old(self).cached().dom().contains(j) ==> (#[trigger] final(self).cached()[j]).1
                    == old(self).cached()[j].1 || spec_read(final(self).store(), j as int) == old(
                    self,
                ).flushed(j),
            final(self).spec_dirty_writes() != 0 ==> final(self).cached() == old(self).cached()
                && final(self).store() == old(self).store(),
            old(self).coherent() ==> final(self).coherent(),
            forall|j: u32| #![trigger old(self).fresh(j)] #![trigger final(self).fresh(j)] old(self).fresh(j) ==> final(self).fresh(j),
            final(self).store().len() >= old(self).store().len(),
            final(self).capacity() == old(self).capacity(),
            final(self).spec_sync_interval() == old(self).spec_sync_interval(),
            old(self).spec_sync_interval() == 0 ==> *final(self) == *old(self),
            old(self).spec_sync_interval() > 0 && old(self).spec_dirty_writes() + 1 < old(self).spec_sync_interval() ==> {
                &&& final(self).spec_dirty_writes() == old(self).spec_dirty_writes() + 1
                &&& final(self).cached() == old(self).cached()
                &&& final(self).store() == old(self).store()
                &&& final(self).spec_sync_requested() == old(self).spec_sync_requested()
            },
            old(self).spec_sync_interval() > 0 && old(self).spec_dirty_writes() + 1 >= old(self).spec_sync_interval() ==> {
                &&& final(self).spec_dirty_writes() == 0
                &&& final(self).spec_sync_requested()
                &&& forall|j: u32| #[trigger] final(self).cached().dom().contains(j) ==> !final(self).cached()[j].1
                &&& forall|j: u32| #[trigger] spec_read(final(self).store(), j as int) == old(self).flushed(j)
            },
    {
        if self.sync_interval > 0 {
            self.dirty_write_count = self.dirty_write_count + 1;
            proof {
                assert(self.cached() == old(self).cached());
                assert(self.store() == old(self).store());
                assert(forall|j: u32| old(self).fresh(j) ==> #[trigger] self.fresh(j));
            }
            if self.dirty_write_count >= self.sync_interval {
                self.dirty_write_count = 0;
                self.flush_and_sync();
            }
        }
    }

    /// Writes a page into the cache and marks it dirty.
    pub fn write_page(&mut self, page_id: PageId, page: &Page)
        requires
            old(self).wf(),
            page.wf(),
            page_id < u32::MAX,
        ensures
            final(self).wf(),
            final(self).page(page_id) == page.data@,
            final(self).cached().dom().contains(page_id),
            old(self).coherent() ==> final(self).coherent(),
            old(self).coherent() ==> forall|j: u32|
                j != page_id ==> #[trigger] final(self).page(j) == old(self).page(j),
            forall|j: u32|
                #![trigger old(self).fresh(j)]
                #![trigger final(self).fresh(j)]
                j != page_id && old(self).fresh(j) ==> final(self).fresh(j) && final(self).page(j) == old(self).page(j),
            final(self).fresh(page_id),
            final(self).store().len() >= old(self).store().len(),
            final(self).capacity() == old(self).capacity(),
            final(self).spec_sync_interval() == old(self).spec_sync_interval(),
    {
        proof {
            self.lemma_wf();
        }
        let data = crate::codec::copy_bytes(page.data.as_slice());
        let cached = lru_get(&mut self.cache, page_id);
        match cached {
            Some(_) => {
                lru_overwrite(&mut self.cache, page_id, (data, true));
                proof {
                    if old(self).coherent() {
                        assert forall|j: u32|
                            #![trigger self.cached()[j]]
                            self.cached().dom().contains(j) && !self.cached()[j].1 implies self.cached()[j].0
                            == spec_read(self.store(), j as int) by {
                            assert(old(self).cached()[j] == self.cached()[j]);
                        }
                    }
                    assert forall|j: u32|
                        #![trigger lru_entries(self.cache)[j]]
                        lru_entries(self.cache).dom().contains(j) implies {
                        &&& lru_entries(self.cache)[j].0.len() == PAGE_SIZE
                        &&& lru_entries(self.cache)[j].1 ==> j < u32::MAX
                    } by {
                        assert(lru_entries(old(self).cache)[j].0.len() == PAGE_SIZE);
                    }
                    assert forall|j: u32| j != page_id implies #[trigger] self.page(j) == old(self).page(j) by {
                        if old(self).cached().dom().contains(j) {
                            assert(old(self).cached()[j] == self.cached()[j]);
                        }
                    }
                    assert forall|j: u32| old(self).fresh(j) implies #[trigger] self.fresh(j) by {
                        if self.cached().dom().contains(j) && j != page_id {
                            assert(old(self).cached()[j] == self.cached()[j]);
                        }
                    }
                }
                let ghost mid = *self;
                self.mark_dirty(page_id);
                proof {
                    assert forall|j: u32| j != page_id && old(self).fresh(j) implies #[trigger] self.fresh(j)
                        && self.page(j) == old(self).page(j) by {
                        assert(mid.fresh(j));
                        assert(mid.page(j) == old(self).page(j));
                        assert(self.page(j) == mid.page(j));
                    }
                }
            },
            None => {
                self.put_and_evict(page_id, data, true);
                let ghost mid = *self;
                self.count_dirty_write();
                proof {
                    assert forall|j: u32| j != page_id && old(self).fresh(j) implies #[trigger] self.fresh(j)
                        && self.page(j) == old(self).page(j) by {
                        assert(mid.fresh(j));
                        assert(mid.page(j) == old(self).page(j));
                        assert(self.page(j) == mid.page(j));
                    }
                }
            },
        }
    }

    /// The cache entries `c` without page `id` when it is held clean.
    #[verifier::opaque]
    pub open spec fn without_clean(c: Map<u32, (Seq<u8>, bool)>, id: u32) -> Map<u32, (Seq<u8>, bool)> {
        if c.dom().contains(id) && !c[id].1 {
            c.remove(id)
        } else {
            c
        }
    }

    /// Drops a clean cached copy of page `id`, so that reads of it go to the store.
    fn drop_clean(&mut self, id: PageId)
        requires
            old(self).wf_base(),
        ensures
            final(self).wf_base(),
            final(self).cached() == BufferPool::without_clean(old(self).cached(), id),
            final(self).store() == old(self).store(),
            final(self).capacity() == old(self).capacity(),
            final(self).spec_sync_interval() == old(self).spec_sync_interval(),
            final(self).spec_dirty_writes() == old(self).spec_dirty_writes(),
            final(self).spec_sync_requested() == old(self).spec_sync_requested(),
    {
        proof {
            reveal(BufferPool::without_clean);
        }
        match lru_peek(&self.cache, id) {
            Some(e) => {
                if !e.1 {
                    let _ = lru_pop(&mut self.cache, id);
                }
            },
            None => {},
        }
    }

    /// Hands out a page of the store (see `Pager::allocate_page`); the cache is untouched.
    pub fn allocate_page(&mut self) -> (id: PageId)
        requires
            old(self).wf(),
            old(self).store().len() < u32::MAX,
        ensures
            final(self).wf(),
            id == crate::storage::pager::spec_allocated_id(old(self).store()),
            final(self).store() == crate::storage::pager::spec_allocate(old(self).store()),
            final(self).cached() == BufferPool::without_clean(BufferPool::without_clean(old(self).cached(), 0), id),
            forall|j: u32| #[trigger] final(self).cached().dom().contains(j) ==> old(self).cached().dom().contains(j) && final(self).cached()[j] == old(self).cached()[j],
            forall|j: u32| j != 0 && j != id && #[trigger] old(self).cached().dom().contains(j) ==> final(self).cached().dom().contains(j),
            forall|j: u32| #![trigger final(self).fresh(j)] old(self).fresh(j) ==> final(self).fresh(j),
            final(self).capacity() == old(self).capacity(),
            final(self).spec_sync_interval() == old(self).spec_sync_interval(),
            id < u32::MAX,
            id != 0,
            spec_read(final(self).store(), id as int) == crate::codec::zeros(PAGE_SIZE as nat),
            final(self).store().len() >= old(self).store().len(),
            forall|j: u32|
                j != 0 && j != id ==> #[trigger] final(self).page(j) == old(self).page(j) && (old(
                    self,
                ).fresh(j) ==> final(self).fresh(j)),
            old(self).coherent() ==> final(self).coherent(),
    {
        proof {
            self.pager.lemma_wf();
        }
        let ghost s0 = self.pager@;
        let id = self.pager.allocate_page();
        proof {
            let h = crate::storage::pager::spec_free_head(s0);
            assert forall|j: u32| j != 0 && j != id implies spec_read(self.pager@, j as int) == spec_read(
                s0,
                j as int,
            ) by {
                if crate::storage::pager::reusable_head(s0) {
                    let next = crate::storage::pager::u32_at(s0[h as int], 0);
                    let s1 = spec_write(
                        s0,
                        0,
                        crate::storage::pager::with_u32(
                            s0[0],
                            crate::storage::pager::META_FREE_LIST_OFFSET as int,
                            next,
                        ),
                    );
                    crate::storage::pager::lemma_read_after_write(
                        s0,
                        0,
                        crate::storage::pager::with_u32(
                            s0[0],
                            crate::storage::pager::META_FREE_LIST_OFFSET as int,
                            next,
                        ),
                        j as int,
                    );
                    crate::storage::pager::lemma_read_after_write(
                        s1,
                        h as int,
                        crate::codec::zeros(PAGE_SIZE as nat),
                        j as int,
                    );
                } else {
                    crate::storage::pager::lemma_read_after_write(
                        s0,
                        s0.len() as int,
                        crate::codec::zeros(PAGE_SIZE as nat),
                        j as int,
                    );
                }
            }
            if crate::storage::pager::reusable_head(s0) {
                let next = crate::storage::pager::u32_at(s0[h as int], 0);
                let s1 = spec_write(
                    s0,
                    0,
                    crate::storage::pager::with_u32(
                        s0[0],
                        crate::storage::pager::META_FREE_LIST_OFFSET as int,
                        next,
                    ),
                );
                crate::storage::pager::lemma_read_after_write(
                    s1,
                    h as int,
                    crate::codec::zeros(PAGE_SIZE as nat),
                    h as int + 1,
                );
            } else {
                crate::storage::pager::lemma_read_after_write(
                    s0,
                    s0.len() as int,
                    crate::codec::zeros(PAGE_SIZE as nat),
                    s0.len() as int + 1,
                );
                assert forall|j: u32| #[trigger] spec_read(self.pager@, j as int) == spec_read(s0, j as int) by {
                    if j as int != s0.len() as int {
                        crate::storage::pager::lemma_read_after_write(
                            s0,
                            s0.len() as int,
                            crate::codec::zeros(PAGE_SIZE as nat),
                            j as int,
                        );
                    } else {
                        crate::storage::pager::lemma_read_after_write(
                            s0,
                            s0.len() as int,
                            crate::codec::zeros(PAGE_SIZE as nat),
                            s0.len() as int + 1,
                        );
                    }
                }
            }
        }
        let ghost mid = *self;
        self.drop_clean(0);
        self.drop_clean(id);
        proof {
            reveal(BufferPool::without_clean);
            assert forall|j: u32| j != 0 && j != id implies #[trigger] self.page(j) == old(self).page(j) && (old(self).fresh(j)
                ==> self.fresh(j)) by {
                assert(spec_read(self.store(), j as int) == spec_read(s0, j as int));
                if self.cached().dom().contains(j) {
                    assert(self.cached()[j] == old(self).cached()[j]);
                }
                if old(self).cached().dom().contains(j) {
                    assert(self.cached().dom().contains(j));
                }
            }
            if old(self).coherent() {
                assert forall|cid: u32|
                    #![trigger self.cached()[cid]]
                    self.cached().dom().contains(cid) && !self.cached()[cid].1 implies self.cached()[cid].0
                        == spec_read(self.store(), cid as int) by {
                    assert(cid != 0 && cid != id);
                    assert(spec_read(self.store(), cid as int) == spec_read(s0, cid as int));
                    assert(self.cached()[cid] == old(self).cached()[cid]);
                }
            }
        }
        id
    }

    /// Drops a page from the cache and returns it to the store's free list.
    pub fn free_page(&mut self, page_id: PageId)
        requires
            old(self).wf(),
        ensures
            final(self).wf(),
            final(self).cached() == BufferPool::without_clean(old(self).cached().remove(page_id), 0),
            forall|j: u32| #[trigger] final(self).cached().dom().contains(j) ==> j != page_id && old(self).cached().dom().contains(j) && final(self).cached()[j] == old(self).cached()[j],
            forall|j: u32| j != 0 && j != page_id && #[trigger] old(self).cached().dom().contains(j) ==> final(self).cached().dom().contains(j),
            final(self).store() == crate::storage::pager::spec_free(old(self).store(), page_id),
            old(self).coherent() ==> final(self).coherent(),
            final(self).capacity() == old(self).capacity(),
            final(self).spec_sync_interval() == old(self).spec_sync_interval(),
            final(self).store().len() == old(self).store().len(),
            forall|j: u32|
                j != 0 && j != page_id ==> #[trigger] final(self).page(j) == old(self).page(j) && (old(
                    self,
                ).fresh(j) ==> final(self).fresh(j)),
    {
        proof {
            self.pager.lemma_wf();
        }
        let ghost s0 = self.pager@;
        let _ = lru_pop(&mut self.cache, page_id);
        self.pager.free_page(page_id);
        proof {
            assert forall|j: u32| j != 0 && j != page_id implies spec_read(self.pager@, j as int) == spec_read(
                s0,
                j as int,
            ) by {
                if !(page_id == 0 || page_id >= s0.len()) {
                    let head = crate::storage::pager::spec_free_head(s0);
                    let s1 = spec_write(s0, page_id as int, crate::storage::pager::free_page_bytes(head));
                    crate::storage::pager::lemma_read_after_write(
                        s0,
                        page_id as int,
                        crate::storage::pager::free_page_bytes(head),
                        j as int,
                    );
                    crate::storage::pager::lemma_read_after_write(
                        s1,
                        0,
                        crate::storage::pager::with_u32(
                            s0[0],
                            crate::storage::pager::META_FREE_LIST_OFFSET as int,
                            page_id,
                        ),
                        j as int,
                    );
                }
            }
        }
        self.drop_clean(0);
        proof {
            reveal(BufferPool::without_clean);
            assert forall|j: u32| j != 0 && j != page_id implies #[trigger] self.page(j) == old(self).page(j)
                && (old(self).fresh(j) ==> self.fresh(j)) by {
                assert(spec_read(self.store(), j as int) == spec_read(s0, j as int));
                if self.cached().dom().contains(j) {
                    assert(self.cached()[j] == old(self).cached()[j]);
                }
                if old(self).cached().dom().contains(j) {
                    assert(self.cached().dom().contains(j));
                }
            }
            if old(self).coherent() {
                assert forall|cid: u32|
                    #![trigger self.cached()[cid]]
                    self.cached().dom().contains(cid) && !self.cached()[cid].1 implies self.cached()[cid].0
                        == spec_read(self.store(), cid as int) by {
                    assert(cid != 0 && cid != page_id);
                    assert(spec_read(self.store(), cid as int) == spec_read(s0, cid as int));
                    assert(self.cached()[cid] == old(self).cached()[cid]);
                }
            }
        }
    }

    /// Writes every dirty cached page to the store and marks it clean.
    pub fn flush_all(&mut self)
        requires
            old(self).wf(),
        ensures
            final(self).wf(),
            final(self).cached().dom() == old(self).cached().dom(),
            forall|j: u32|
                #![trigger final(self).cached()[j]]
                final(self).cached().dom().contains(j) ==> final(self).cached()[j] == (
                    old(self).cached()[j].0,
                    false,
                ),
            forall|j: u32|
                #![trigger spec_read(final(self).store(), j as int)]
                spec_read(final(self).store(), j as int) == old(self).flushed(j),
            forall|j: u32| #[trigger] final(self).page(j) == old(self).page(j),
            old(self).coherent() ==> final(self).coherent(),
            forall|j: u32| #![trigger old(self).fresh(j)] #![trigger final(self).fresh(j)] old(self).fresh(j) ==> final(self).fresh(j),
            final(self).store().len() >= old(self).store().len(),
            final(self).capacity() == old(self).capacity(),
            final(self).spec_sync_interval() == old(self).spec_sync_interval(),
            final(self).spec_dirty_writes() == old(self).spec_dirty_writes(),
            final(self).spec_sync_requested() == old(self).spec_sync_requested(),
    {
        proof {
            self.lemma_wf();
        }
        let ghost c0 = lru_entries(self.cache);
        let ghost s0 = self.pager@;
        let keys = lru_keys(&self.cache);
        let mut i: usize = 0;
        while i < keys.len()
            invariant
                self.wf_base(),
                i <= keys@.len(),
                keys@.to_set() == c0.dom(),
                lru_entries(self.cache).dom() == c0.dom(),
                lru_capacity(self.cache) == lru_capacity(old(self).cache),
                self.sync_interval == old(self).sync_interval,
                self.dirty_write_count == old(self).dirty_write_count,
                self.sync_requested == old(self).sync_requested,
                self.pager@.len() >= s0.len(),
                forall|j: u32|
                    #![trigger lru_entries(self.cache)[j]]
                    c0.dom().contains(j) ==> lru_entries(self.cache)[j] == (
                        c0[j].0,
                        c0[j].1 && !keys@.subrange(0, i as int).contains(j),
                    ),
                forall|j: u32|
                    #![trigger spec_read(self.pager@, j as int)]
                    spec_read(self.pager@, j as int) == if c0.dom().contains(j) && c0[j].1
                        && keys@.subrange(0, i as int).contains(j) {
                        c0[j].0
                    } else {
                        spec_read(s0, j as int)
                    },
            decreases keys@.len() - i,
        {
            let k = keys[i];
            proof {
                assert(keys@.to_set().contains(k));
                assert(c0.dom().contains(k));
            }
            let ghost pager_before = self.pager@;
            let entry = lru_peek(&self.cache, k);
            match entry {
                Some((data, dirty)) => {
                    if dirty {
                        let copy = crate::codec::copy_bytes(data.as_slice());
                        lru_overwrite(&mut self.cache, k, (copy, false));
                        let page = Page { data };
                        self.pager.write_page(k, &page);
                    }
                },
                None => {},
            }
            proof {
                let pre = keys@.subrange(0, i as int);
                let post = keys@.subrange(0, i as int + 1);
                assert(post =~= pre.push(k));
                assert forall|j: u32| #[trigger] post.contains(j) == (pre.contains(j) || j == k) by {
                    if post.contains(j) {
                        let t = choose|t: int| 0 <= t < post.len() && post[t] == j;
                        if t < pre.len() {
                            assert(pre[t] == j);
                        }
                    }
                    if pre.contains(j) {
                        let t = choose|t: int| 0 <= t < pre.len() && pre[t] == j;
                        assert(post[t] == j);
                    }
                    if j == k {
                        assert(post[i as int] == j);
                    }
                }
                assert forall|j: u32| #[trigger] spec_read(self.pager@, j as int) == if c0.dom().contains(j)
                    && c0[j].1 && post.contains(j) {
                    c0[j].0
                } else {
                    spec_read(s0, j as int)
                } by {
                    if j != k {
                        if c0[k].1 && !pre.contains(k) {
                            crate::storage::pager::lemma_read_after_write(
                                pager_before,
                                k as int,
                                c0[k].0,
                                j as int,
                            );
                        }
                        assert(spec_read(pager_before, j as int) == spec_read(self.pager@, j as int));
                    } else {
                        if c0[k].1 && !pre.contains(k) {
                            crate::storage::pager::lemma_read_after_write(
                                pager_before,
                                k as int,
                                c0[k].0,
                                k as int + 1,
                            );
                        }
                        assert(spec_read(pager_before, j as int) == spec_read(s0, j as int) || pre.contains(j));
                    }
                }
            }
            i = i + 1;
        }
        proof {
            assert(keys@.subrange(0, keys@.len() as int) =~= keys@);
            assert forall|j: u32| #[trigger] keys@.contains(j) == c0.dom().contains(j) by {
                assert(keys@.to_set().contains(j) == keys@.contains(j));
            }
            if old(self).coherent() {
                assert forall|j: u32|
                    #![trigger self.cached()[j]]
                    self.cached().dom().contains(j) && !self.cached()[j].1 implies self.cached()[j].0
                    == spec_read(self.store(), j as int) by {
                    assert(old(self).cached()[j] == c0[j]);
                }
            }
            assert forall|j: u32| #[trigger] self.page(j) == old(self).page(j) by {
                if c0.dom().contains(j) {
                    assert(old(self).cached()[j] == c0[j]);
                }
            }
            assert forall|j: u32| old(self).fresh(j) implies #[trigger] self.fresh(j) by {
                if c0.dom().contains(j) {
                    assert(old(self).cached()[j] == c0[j]);
                }
            }
            assert forall|j: u32|
                #![trigger spec_read(self.store(), j as int)]
                spec_read(self.store(), j as int) == old(self).flushed(j) by {
                if c0.dom().contains(j) {
                    assert(old(self).cached()[j] == c0[j]);
                }
            }
        }
    }

    /// Flushes every dirty page and requests a sync of the store.
    pub fn flush_and_sync(&mut self)
        requires
            old(self).wf(),
        ensures
            final(self).wf(),
            final(self).cached().dom() == old(self).cached().dom(),
            forall|j: u32|
                #![trigger final(self).cached()[j]]
                final(self).cached().dom().contains(j) ==> final(self).cached()[j] == (
                    old(self).cached()[j].0,
                    false,
                ),
            forall|j: u32|
                #![trigger spec_read(final(self).store(), j as int)]
                spec_read(final(self).store(), j as int) == old(self).flushed(j),
            forall|j: u32| #[trigger] final(self).page(j) == old(self).page(j),
            old(self).coherent() ==> final(self).coherent(),
            forall|j: u32| #![trigger old(self).fresh(j)] #![trigger final(self).fresh(j)] old(self).fresh(j) ==> final(self).fresh(j),
            final(self).store().len() >= old(self).store().len(),
            final(self).capacity() == old(self).capacity(),
            final(self).spec_sync_interval() == old(self).spec_sync_interval(),
            final(self).spec_dirty_writes() == old(self).spec_dirty_writes(),
            final(self).spec_sync_requested(),
    {
        self.sync_requested = true;
        self.flush_all();
    }

    /// Requests a sync of the store.
    pub fn sync(&mut self)
        requires
            old(self).wf(),
        ensures
            final(self).wf(),
            final(self).store() == old(self).store(),
            final(self).cached() == old(self).cached(),
            final(self).capacity() == old(self).capacity(),
            final(self).spec_sync_interval() == old(self).spec_sync_interval(),
            final(self).spec_dirty_writes() == old(self).spec_dirty_writes(),
            final(self).spec_sync_requested(),
    {
        self.sync_requested = true;
        proof {
            assert(self.cached() == old(self).cached() && self.store() == old(self).store());
            assert(self.coherent());
        }
    }

    /// The number of pages in the store.
    pub fn get_num_pages(&self) -> (n: u32)
        requires
            self.wf(),
        ensures
            n == self.store().len(),
    {
        proof {
            self.pager.lemma_wf();
        }
        self.pager.num_pages()
    }

    /// Stores the checkpoint LSN in the store's metadata page (the cache is untouched).
    pub fn write_checkpoint_lsn(&mut self, lsn: u64)
        requires
            old(self).wf(),
        ensures
            final(self).wf(),
            final(self).store() == old(self).store().update(
                0,
                old(self).store()[0].subrange(0, 12) + crate::codec::le_u64(lsn) + old(
                    self,
                ).store()[0].subrange(20, PAGE_SIZE as int),
            ),
            final(self).cached() == BufferPool::without_clean(old(self).cached(), 0),
            forall|j: u32| #[trigger] final(self).cached().dom().contains(j) ==> old(self).cached().dom().contains(j) && final(self).cached()[j] == old(self).cached()[j],
            forall|j: u32| j != 0 && #[trigger] old(self).cached().dom().contains(j) ==> final(self).cached().dom().contains(j),
            final(self).capacity() == old(self).capacity(),
            final(self).spec_sync_interval() == old(self).spec_sync_interval(),
            old(self).coherent() ==> final(self).coherent(),
    {
        proof {
            self.pager.lemma_wf();
        }
        let ghost s0 = self.pager@;
        self.pager.write_checkpoint_lsn(lsn);
        self.drop_clean(0);
        proof {
            reveal(BufferPool::without_clean);
            if old(self).coherent() {
                assert forall|cid: u32|
                    #![trigger self.cached()[cid]]
                    self.cached().dom().contains(cid) && !self.cached()[cid].1 implies self.cached()[cid].0
                        == spec_read(self.store(), cid as int) by {
                    assert(cid != 0);
                    assert(self.cached()[cid] == old(self).cached()[cid]);
                    assert(self.store().len() == s0.len());
                    if (cid as int) < s0.len() {
                        assert(self.store()[cid as int] == s0[cid as int]);
                    }
                    assert(spec_read(self.store(), cid as int) == spec_read(s0, cid as int));
                }
            }
        }
    }
}

} // verus!
