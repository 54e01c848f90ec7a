//! The in-memory block cache: a bounded write-back layer in front of the
//! backing store.  It holds recently written payloads up to a capacity
//! counted in entries, evicts the least-recently-written entry when full
//! (handing it back so it can be persisted before its place is reused),
//! and surrenders its dirty entries for a flush.  The cache is purely an
//! optimization layer: the catalog in `store` stays authoritative.

use vstd::prelude::*;

use crate::store::clone_bytes;

verus! {

/// One cached payload; `dirty` marks data not yet persisted.
pub struct CacheEntry {
    pub hash: u64,
    pub data: Vec<u8>,
    pub dirty: bool,
}

/// There is a cached entry for hash `h`.
pub open spec fn cached(m: Seq<CacheEntry>, h: u64) -> bool {
    exists|i: int| 0 <= i < m.len() && (#[trigger] m[i]).hash == h
}

/// The position of the entry for hash `h` (unique when hashes are
/// distinct).
pub open spec fn cache_index_of(m: Seq<CacheEntry>, h: u64) -> int {
    choose|i: int| 0 <= i < m.len() && (#[trigger] m[i]).hash == h
}

/// No two cached entries share a hash.
pub open spec fn distinct_cached(m: Seq<CacheEntry>) -> bool {
    forall|i: int, j: int|
        0 <= i < j < m.len() ==> (#[trigger] m[i]).hash != (#[trigger] m[j]).hash
}

/// Writing semantics: a fresh entry for the hash goes to the
/// most-recently-written end, displacing any entry it already had.
pub open spec fn cache_write(m: Seq<CacheEntry>, e: CacheEntry) -> Seq<CacheEntry> {
    if cached(m, e.hash) {
        m.remove(cache_index_of(m, e.hash)).push(e)
    } else {
        m.push(e)
    }
}

/// The debounced background-flush rule: a pending dirty snapshot is
/// written once the interval has elapsed since the last flush, or when a
/// flush is forced (an explicit trigger, or shutdown); with no interval
/// configured only forced flushes write.  A clean cache never flushes.
pub open spec fn spec_flush_due(
    interval_ms: Option<u64>,
    elapsed_ms: u64,
    dirty: bool,
    force: bool,
) -> bool {
    dirty && (force || match interval_ms {
        Option::Some(iv) => elapsed_ms >= iv,
        Option::None => false,
    })
}

/// Decides whether the embedding layer's flush task must write now.
pub fn flush_due(interval_ms: Option<u64>, elapsed_ms: u64, dirty: bool, force: bool) -> (r: bool)
    ensures
        r == spec_flush_due(interval_ms, elapsed_ms, dirty, force),
{
    dirty && (force || match interval_ms {
        Some(iv) => elapsed_ms >= iv,
        None => false,
    })
}

/// The bounded cache itself, least-recently-written entry first.
pub struct BlockCache {
    capacity: usize,
    items: Vec<CacheEntry>,
}

impl View for BlockCache {
    type V = Seq<CacheEntry>;

    closed spec fn view(&self) -> Seq<CacheEntry> {
        self.items@
    }
}

impl BlockCache {
    pub closed spec fn spec_capacity(self) -> usize {
        self.capacity
    }

    /// Bounded, and holding at most one entry per hash.
    pub open spec fn wf(self) -> bool {
        self.spec_capacity() >= 1 && distinct_cached(self@) && self@.len()
            <= self.spec_capacity()
    }

    /// An empty cache holding up to `capacity` entries.
    pub fn new(capacity: usize) -> (r: Result<BlockCache, ()>)
        ensures
            r is Ok <==> capacity >= 1,
            r matches Ok(c) ==> c.wf() && c@ =~= Seq::<CacheEntry>::empty() && c.spec_capacity()
                == capacity,
    {
        if capacity >= 1 {
            Ok(BlockCache { capacity, items: Vec::new() })
        } else {
            Err(())
        }
    }

    pub fn len(&self) -> (n: usize)
        ensures
            n == self@.len(),
    {
        self.items.len()
    }

    /// The position of the entry for hash `h`, if resident.
    fn find_cached(&self, h: u64) -> (r: Option<usize>)
        ensures
            match r {
                Some(i) => i < self@.len() && self@[i as int].hash == h,
                None => !cached(self@, h),
            },
    {
        let mut i: usize = 0;
        while i < self.items.len()
            invariant
                i <= self@.len(),
                forall|k: int| 0 <= k < i ==> (#[trigger] self@[k]).hash != h,
            decreases self@.len() - i,
        {
            if self.items[i].hash == h {
                return Some(i);
            }
            i += 1;
        }
        None
    }

    /// The cached payload for `h`, if resident.
    pub fn get(&self, h: u64) -> (r: Option<&Vec<u8>>)
        requires
            self.wf(),
        ensures
            match r {
                Some(d) => cached(self@, h) && d@ == self@[cache_index_of(self@, h)].data@,
                None => !cached(self@, h),
            },
    {
        let mut i: usize = 0;
        while i < self.items.len()
            invariant
                i <= self@.len(),
                distinct_cached(self@),
                forall|k: int| 0 <= k < i ==> (#[trigger] self@[k]).hash != h,
            decreases self@.len() - i,
        {
            if self.items[i].hash == h {
                proof {
                    let k = cache_index_of(self@, h);
                    assert(0 <= k < self@.len() && self@[k].hash == h);
                    assert(k == i);
                }
                return Some(&self.items[i].data);
            }
            i += 1;
        }
        None
    }

    /// Writes a payload into the cache as dirty and most recent.  When the
    /// cache overflows, the least-recently-written entry leaves, and is
    /// returned exactly when it was dirty: such an entry must be persisted
    /// before its place is reused.
    pub fn put(&mut self, h: u64, data: Vec<u8>) -> (evicted: Option<(u64, Vec<u8>)>)
        requires
            old(self).wf(),
        ensures
            final(self).wf(),
            final(self).spec_capacity() == old(self).spec_capacity(),
            ({
                let moved = cache_write(old(self)@, (CacheEntry { hash: h, data, dirty: true }));
                if moved.len() <= old(self).spec_capacity() {
                    final(self)@ == moved && evicted is None
                } else {
                    final(self)@ == moved.subrange(1, moved.len() as int) && (match evicted {
                        Some(p) => moved[0].dirty && p.0 == moved[0].hash && p.1@
                            == moved[0].data@,
                        None => !moved[0].dirty,
                    })
                }
            }),
    {
        let ghost m0 = self@;
        let entry = CacheEntry { hash: h, data, dirty: true };
        let ghost e = entry;
        match self.find_cached(h) {
            Some(k) => {
                let _old = self.items.remove(k);
                proof {
                    let w = cache_index_of(m0, h);
                    assert(0 <= w < m0.len() && m0[w].hash == h);
                    assert(w == k);
                }
                self.items.push(entry);
                proof {
                    assert(self@ == cache_write(m0, e));
                    let m1 = m0.remove(k as int);
                    assert forall|a: int, b: int| 0 <= a < b < m1.len() implies (
                        #[trigger] m1[a]).hash != (#[trigger] m1[b]).hash by {}
                    assert forall|a: int| 0 <= a < m1.len() implies (#[trigger] m1[a]).hash
                        != h by {}
                    assert(distinct_cached(self@));
                    assert(self@.len() == m0.len());
                }
                None
            },
            None => {
                self.items.push(entry);
                proof {
                    assert(self@ == cache_write(m0, e));
                    assert(distinct_cached(self@));
                }
                if self.items.len() > self.capacity {
                    let evicted = self.items.remove(0);
                    proof {
                        assert(self@ =~= cache_write(m0, e).subrange(
                            1,
                            cache_write(m0, e).len() as int,
                        ));
                        assert forall|a: int, b: int| 0 <= a < b < self@.len() implies (
                        #[trigger] self@[a]).hash != (#[trigger] self@[b]).hash by {}
                    }
                    if evicted.dirty {
                        Some((evicted.hash, evicted.data))
                    } else {
                        None
                    }
                } else {
                    None
                }
            },
        }
    }

    /// Hands over every dirty payload for persisting and marks the whole
    /// cache clean; which entries are cached, their payloads and their
    /// recency order do not change.
    pub fn take_dirty(&mut self) -> (r: Vec<(u64, Vec<u8>)>)
        requires
            old(self).wf(),
        ensures
            final(self).wf(),
            final(self).spec_capacity() == old(self).spec_capacity(),
            final(self)@.len() == old(self)@.len(),
            forall|i: int|
                0 <= i < old(self)@.len() ==> (#[trigger] final(self)@[i]).hash == old(self)@[i].hash
                    && final(self)@[i].data@ == old(self)@[i].data@ && !final(self)@[i].dirty,
            r@.len() == old(self)@.filter(|e: CacheEntry| e.dirty).len(),
            forall|k: int|
                0 <= k < r@.len() ==> (#[trigger] r@[k]).0 == old(self)@.filter(
                    |e: CacheEntry| e.dirty,
                )[k].hash && r@[k].1@ == old(self)@.filter(|e: CacheEntry| e.dirty)[k].data@,
    {
        let ghost m0 = self@;
        let mut out: Vec<(u64, Vec<u8>)> = Vec::new();
        let mut kept: Vec<CacheEntry> = Vec::new();
        let mut i: usize = 0;
        while i < self.items.len()
            invariant
                i <= self@.len(),
                self@ == m0,
                kept@.len() == i,
                forall|k: int|
                    0 <= k < i ==> (#[trigger] kept@[k]).hash == m0[k].hash && kept@[k].data@
                        == m0[k].data@ && !kept@[k].dirty,
                out@.len() == m0.take(i as int).filter(|e: CacheEntry| e.dirty).len(),
                forall|k: int|
                    0 <= k < out@.len() ==> (#[trigger] out@[k]).0 == m0.take(i as int).filter(
                        |e: CacheEntry| e.dirty,
                    )[k].hash && out@[k].1@ == m0.take(i as int).filter(
                        |e: CacheEntry| e.dirty,
                    )[k].data@,
            decreases self@.len() - i,
        {
            proof {
                assert(m0.take(i as int + 1) =~= m0.take(i as int).push(m0[i as int]));
                crate::seq_facts::lemma_filter_push(
                    m0.take(i as int),
                    m0[i as int],
                    |e: CacheEntry| e.dirty,
                );
            }
            let e = &self.items[i];
            if e.dirty {
                out.push((e.hash, clone_bytes(&e.data)));
            }
            kept.push(CacheEntry { hash: e.hash, data: clone_bytes(&e.data), dirty: false });
            i += 1;
        }
        proof {
            assert(m0.take(m0.len() as int) =~= m0);
        }
        self.items = kept;
        proof {
            assert forall|a: int, b: int| 0 <= a < b < self@.len() implies (
            #[trigger] self@[a]).hash != (#[trigger] self@[b]).hash by {
                assert(m0[a].hash != m0[b].hash);
            }
        }
        out
    }

    /// Empties the cache without persisting anything; for `clear`, where
    /// the store's contents are discarded anyway.
    pub fn clear(&mut self)
        ensures
            final(self)@ =~= Seq::<CacheEntry>::empty(),
            final(self).spec_capacity() == old(self).spec_capacity(),
    {
        self.items.clear();
    }
}

} // verus!
