//! The block store: a bounded, content-addressed repository of opaque block
//! payloads, indexed by slot, with range queries and pruning of the
//! logically oldest slots when the capacity is exceeded.

use vstd::prelude::*;

use crate::seq_facts::lemma_contains_push;
use crate::seq_facts::lemma_filter_absorb;
use crate::seq_facts::lemma_filter_all_true;
use crate::seq_facts::lemma_filter_congruent;
use crate::seq_facts::lemma_filter_elements;
use crate::seq_facts::lemma_filter_keeps_distinct_keys;
use crate::seq_facts::lemma_filter_len_mono;
use crate::seq_facts::lemma_filter_none;
use crate::seq_facts::lemma_filter_push;
use crate::seq_facts::lemma_filter_strictly_shorter;
use crate::slot::Slot;

verus! {

broadcast use vstd::seq_lib::group_filter_ensures;

/// A block as the store sees it: an opaque serialized payload together with
/// the one field the store interprets, the block's slot.
pub struct Block {
    pub slot: Slot,
    pub data: Vec<u8>,
}

/// One stored entry: a caller-supplied content hash bound to a block.  The
/// hash is carried as a plain 64-bit value; the store never computes hashes
/// and treats two calls with the same value as addressing the same entry.
pub struct StoredBlock {
    pub hash: u64,
    pub block: Block,
}

/// Configuration fixed at engine startup.  `flush_interval_ms` of `None`
/// means the embedding layer flushes only on explicit triggers and on
/// shutdown; `cache_capacity` bounds the embedding layer's cache, counted in
/// entries.
#[derive(Clone, Copy)]
pub struct StorageConfig {
    pub max_stored_blocks: usize,
    pub thread_count: u8,
    pub cache_capacity: usize,
    pub flush_interval_ms: Option<u64>,
}

impl StorageConfig {
    /// The capacity must be strictly positive, and there must be at least
    /// one block-production thread.
    pub open spec fn valid(self) -> bool {
        self.max_stored_blocks >= 1 && self.thread_count >= 1
    }

    pub fn is_valid(&self) -> (r: bool)
        ensures
            r == self.valid(),
    {
        self.max_stored_blocks >= 1 && self.thread_count >= 1
    }
}

/// The ways an operation on the storage layer can fail.
#[derive(Clone, Copy, PartialEq, Eq, Structural, Debug)]
pub enum StorageError {
    /// The configuration is unusable: a capacity of zero, no threads, or an
    /// unusable backing path.
    ConfigurationError,
    /// The backing store failed to read, write or flush.
    IoError,
    /// The operation was issued after shutdown.
    EngineStopped,
    /// Data found at startup could not be read back as blocks.
    Corruption,
}

/// There is an entry bound to hash `h`.
pub open spec fn has_hash(m: Seq<StoredBlock>, h: u64) -> bool {
    exists|i: int| 0 <= i < m.len() && (#[trigger] m[i]).hash == h
}

/// The position of the entry bound to hash `h` (unique when hashes are
/// distinct).
pub open spec fn index_of_hash(m: Seq<StoredBlock>, h: u64) -> int {
    choose|i: int| 0 <= i < m.len() && (#[trigger] m[i]).hash == h
}

/// No two entries are bound to the same hash.
pub open spec fn distinct_hashes(m: Seq<StoredBlock>) -> bool {
    forall|i: int, j: int|
        0 <= i < j < m.len() ==> (#[trigger] m[i]).hash != (#[trigger] m[j]).hash
}

/// Every entry's slot respects the configured thread count.
pub open spec fn threads_bounded(m: Seq<StoredBlock>, thread_count: u8) -> bool {
    forall|i: int| 0 <= i < m.len() ==> (#[trigger] m[i]).block.slot.thread < thread_count
}

/// How many entries occupy slot `s` or a logically later one.
pub open spec fn count_at_or_after(m: Seq<StoredBlock>, s: Slot) -> nat {
    m.filter(|e: StoredBlock| s.spec_le(e.block.slot)).len()
}

/// The entries occupying a slot strictly after `c`, in storage order.
pub open spec fn entries_after(m: Seq<StoredBlock>, c: Slot) -> Seq<StoredBlock> {
    m.filter(|e: StoredBlock| c.spec_lt(e.block.slot))
}

/// The entries left once every entry occupying slot `s` is dropped.
pub open spec fn entries_without_slot(m: Seq<StoredBlock>, s: Slot) -> Seq<StoredBlock> {
    m.filter(|e: StoredBlock| e.block.slot != s)
}

/// Overwriting semantics of an insertion: an entry already bound to the
/// same hash is replaced, otherwise the new entry is appended.
pub open spec fn insert_entry(m: Seq<StoredBlock>, e: StoredBlock) -> Seq<StoredBlock> {
    if has_hash(m, e.hash) {
        m.remove(index_of_hash(m, e.hash)).push(e)
    } else {
        m.push(e)
    }
}

/// The pruning policy: an entry survives exactly when the entries at its
/// slot or later already fit within the capacity.  Entries at the logically
/// oldest slots are the ones dropped, whole slot-buckets at a time.
pub open spec fn prune(m: Seq<StoredBlock>, cap: int) -> Seq<StoredBlock> {
    m.filter(|e: StoredBlock| count_at_or_after(m, e.block.slot) <= cap)
}

/// Slot `s` lies in the queried interval: at or after `start` (unbounded
/// when `None`), strictly before `end` (unbounded when `None`).
pub open spec fn in_range(start: Option<Slot>, end: Option<Slot>, s: Slot) -> bool {
    (match start {
        Option::Some(st) => st.spec_le(s),
        Option::None => true,
    }) && (match end {
        Option::Some(en) => s.spec_lt(en),
        Option::None => true,
    })
}

/// The stored entries whose slot lies in `[start, end)`, in storage order.
pub open spec fn range_of(
    m: Seq<StoredBlock>,
    start: Option<Slot>,
    end: Option<Slot>,
) -> Seq<StoredBlock> {
    m.filter(|e: StoredBlock| in_range(start, end, e.block.slot))
}

/// `ev` lists exactly the hashes present before and gone after.
pub open spec fn evicted_exactly(
    before: Seq<StoredBlock>,
    after: Seq<StoredBlock>,
    ev: Seq<u64>,
) -> bool {
    forall|h: u64| #[trigger] ev.contains(h) <==> (has_hash(before, h) && !has_hash(after, h))
}

/// Some entry is bound to hash `h` and occupies slot `s`.
pub open spec fn hash_at_slot(m: Seq<StoredBlock>, h: u64, s: Slot) -> bool {
    exists|i: int|
        0 <= i < m.len() && (#[trigger] m[i]).hash == h && m[i].block.slot == s
}

proof fn lemma_hash_at_slot_push(m: Seq<StoredBlock>, x: StoredBlock, h: u64, s: Slot)
    ensures
        hash_at_slot(m.push(x), h, s) <==> (hash_at_slot(m, h, s) || (x.hash == h
            && x.block.slot == s)),
{
    let mp = m.push(x);
    if hash_at_slot(mp, h, s) {
        let i = choose|i: int| 0 <= i < mp.len() && mp[i].hash == h && mp[i].block.slot == s;
        if i < m.len() {
            assert(m[i] == mp[i]);
        } else {
            assert(mp[i] == x);
        }
    }
    if hash_at_slot(m, h, s) {
        let i = choose|i: int| 0 <= i < m.len() && m[i].hash == h && m[i].block.slot == s;
        assert(mp[i] == m[i]);
    }
    assert(mp[m.len() as int] == x);
}

/// The storage engine's authoritative state: the catalog of entries, each a
/// content hash bound to a block, owned by a single logical writer.
pub struct BlockStore {
    max_stored_blocks: usize,
    thread_count: u8,
    entries: Vec<StoredBlock>,
}

impl View for BlockStore {
    type V = Seq<StoredBlock>;

    closed spec fn view(&self) -> Seq<StoredBlock> {
        self.entries@
    }
}

impl BlockStore {
    pub closed spec fn spec_capacity(self) -> usize {
        self.max_stored_blocks
    }

    pub closed spec fn spec_thread_count(self) -> u8 {
        self.thread_count
    }

    /// Structural well-formedness: valid configuration, one entry per hash,
    /// every slot within the thread bound.
    pub open spec fn wf_entries(self) -> bool {
        &&& self.spec_capacity() >= 1
        &&& self.spec_thread_count() >= 1
        &&& distinct_hashes(self@)
        &&& threads_bounded(self@, self.spec_thread_count())
    }

    /// The catalog invariant: well-formed, and never more entries than the
    /// configured capacity.
    pub open spec fn wf(self) -> bool {
        self.wf_entries() && self@.len() <= self.spec_capacity()
    }

    /// Creates an empty store, rejecting an invalid configuration.
    pub fn new(config: &StorageConfig) -> (r: Result<BlockStore, StorageError>)
        ensures
            config.valid() <==> r is Ok,
            r matches Ok(st) ==> st.wf() && st@ =~= Seq::<StoredBlock>::empty()
                && st.spec_capacity() == config.max_stored_blocks && st.spec_thread_count()
                == config.thread_count,
            r matches Err(e) ==> e == StorageError::ConfigurationError,
    {
        if config.is_valid() {
            Ok(BlockStore {
                max_stored_blocks: config.max_stored_blocks,
                thread_count: config.thread_count,
                entries: Vec::new(),
            })
        } else {
            Err(StorageError::ConfigurationError)
        }
    }

    /// Rebuilds a store from the (hash, block) pairs recovered from the
    /// backing store, reading each block's embedded slot.  Fails with
    /// `ConfigurationError` on an invalid configuration and with
    /// `Corruption` when the recovered data is not a valid catalog: a
    /// duplicated hash, or a slot that violates the thread bound.  When the
    /// recovered data exceeds the capacity, the oldest slots are pruned and
    /// reported, exactly as `add_block` would.
    pub fn load(config: &StorageConfig, blocks: Vec<(u64, Block)>) -> (r: Result<
        (BlockStore, Vec<u64>),
        StorageError,
    >)
        ensures
            ({
                let ms = blocks@.map_values(
                    |p: (u64, Block)| (StoredBlock { hash: p.0, block: p.1 }),
                );
                &&& (r is Ok <==> config.valid() && distinct_hashes(ms) && threads_bounded(
                    ms,
                    config.thread_count,
                ))
                &&& (r matches Ok(p) ==> p.0.wf() && p.0@ == prune(
                    ms,
                    config.max_stored_blocks as int,
                ) && p.0.spec_capacity() == config.max_stored_blocks
                    && p.0.spec_thread_count() == config.thread_count && evicted_exactly(
                    ms,
                    p.0@,
                    p.1@,
                ))
                &&& (r matches Err(err) ==> (if config.valid() {
                    err == StorageError::Corruption
                } else {
                    err == StorageError::ConfigurationError
                }))
            }),
    {
        let ghost ms = blocks@.map_values(
            |p: (u64, Block)| (StoredBlock { hash: p.0, block: p.1 }),
        );
        if !config.is_valid() {
            return Err(StorageError::ConfigurationError);
        }
        let mut st = BlockStore {
            max_stored_blocks: config.max_stored_blocks,
            thread_count: config.thread_count,
            entries: Vec::new(),
        };
        let mut rest = blocks;
        let ghost orig = rest@;
        let ghost mut j: int = 0;
        while rest.len() > 0
            invariant
                0 <= j <= orig.len(),
                rest@ == orig.skip(j),
                ms == orig.map_values(|p: (u64, Block)| (StoredBlock { hash: p.0, block: p.1 })),
                ms == blocks@.map_values(|p: (u64, Block)| (StoredBlock { hash: p.0, block: p.1 })),
                st.entries@ == ms.take(j),
                st.max_stored_blocks == config.max_stored_blocks,
                st.thread_count == config.thread_count,
                config.valid(),
                distinct_hashes(st.entries@),
                threads_bounded(st.entries@, config.thread_count),
            decreases rest@.len(),
        {
            proof {
                assert(rest@[0] == orig[j]);
                assert(ms[j] == (StoredBlock { hash: orig[j].0, block: orig[j].1 }));
                assert(ms.take(j + 1) =~= ms.take(j).push(ms[j]));
            }
            let p = rest.remove(0);
            proof {
                assert(rest@ =~= orig.skip(j + 1));
            }
            if p.1.slot.thread >= config.thread_count {
                proof {
                    assert(ms[j].block.slot.thread >= config.thread_count);
                    assert(!threads_bounded(ms, config.thread_count));
                }
                return Err(StorageError::Corruption);
            }
            match st.find_hash(p.0) {
                Some(k) => {
                    proof {
                        assert(ms.take(j)[k as int] == ms[k as int]);
                        assert(ms[k as int].hash == ms[j].hash);
                        assert(!distinct_hashes(ms));
                    }
                    return Err(StorageError::Corruption);
                },
                None => {},
            }
            st.entries.push(StoredBlock { hash: p.0, block: p.1 });
            proof {
                assert(st.entries@ == ms.take(j).push(ms[j]));
                j = j + 1;
            }
        }
        proof {
            assert(j == orig.len());
            assert(ms.take(j) =~= ms);
        }
        let ev = st.enforce_capacity();
        Ok((st, ev))
    }

    /// The number of distinct hashes currently stored.
    pub fn len(&self) -> (n: usize)
        ensures
            n == self@.len(),
    {
        self.entries.len()
    }

    /// The configured capacity.
    pub fn capacity(&self) -> (n: usize)
        ensures
            n == self.spec_capacity(),
    {
        self.max_stored_blocks
    }

    /// The configured number of block-production threads.
    pub fn thread_count(&self) -> (n: u8)
        ensures
            n == self.spec_thread_count(),
    {
        self.thread_count
    }

    /// Removes every entry; afterwards the store is empty and every range
    /// query answers with nothing.
    pub fn clear(&mut self)
        ensures
            final(self)@ =~= Seq::<StoredBlock>::empty(),
            final(self).spec_capacity() == old(self).spec_capacity(),
            final(self).spec_thread_count() == old(self).spec_thread_count(),
    {
        self.entries.clear();
    }

    /// The smallest slot currently occupied.
    fn min_slot(&self) -> (s: Slot)
        requires
            self@.len() > 0,
        ensures
            exists|i: int| 0 <= i < self@.len() && (#[trigger] self@[i]).block.slot == s,
            forall|i: int| 0 <= i < self@.len() ==> s.spec_le((#[trigger] self@[i]).block.slot),
    {
        let mut best = self.entries[0].block.slot;
        let mut i: usize = 1;
        while i < self.entries.len()
            invariant
                1 <= i <= self@.len(),
                exists|k: int| 0 <= k < i && (#[trigger] self@[k]).block.slot == best,
                forall|k: int| 0 <= k < i ==> best.spec_le((#[trigger] self@[k]).block.slot),
            decreases self@.len() - i,
        {
            let c = self.entries[i].block.slot;
            if c.lt(&best) {
                best = c;
            }
            i += 1;
        }
        best
    }

    /// The position of the entry bound to hash `h`, if any.
    fn find_hash(&self, h: u64) -> (r: Option<usize>)
        ensures
            match r {
                Some(i) => i < self@.len() && self@[i as int].hash == h,
                None => !has_hash(self@, h),
            },
    {
        let mut i: usize = 0;
        while i < self.entries.len()
            invariant
                i <= self@.len(),
                forall|k: int| 0 <= k < i ==> (#[trigger] self@[k]).hash != h,
            decreases self@.len() - i,
        {
            if self.entries[i].hash == h {
                return Some(i);
            }
            i += 1;
        }
        None
    }

    /// Inserts or overwrites the entry for `hash` with `block`, then
    /// restores the capacity invariant by evicting whole buckets at the
    /// globally smallest slots until the store fits again.  Returns exactly
    /// the hashes that were evicted (which can include `hash` itself, when
    /// the new block's slot is itself the oldest).  Overwriting an existing
    /// hash is not an error.
    pub fn add_block(&mut self, hash: u64, block: Block) -> (evicted: Vec<u64>)
        requires
            old(self).wf(),
            block.slot.thread < old(self).spec_thread_count(),
        ensures
            final(self).wf(),
            final(self)@ == prune(
                insert_entry(old(self)@, (StoredBlock { hash, block })),
                old(self).spec_capacity() as int,
            ),
            final(self)@.len() <= old(self).spec_capacity(),
            final(self).spec_capacity() == old(self).spec_capacity(),
            final(self).spec_thread_count() == old(self).spec_thread_count(),
            evicted_exactly(
                insert_entry(old(self)@, (StoredBlock { hash, block })),
                final(self)@,
                evicted@,
            ),
    {
        let ghost m0 = self@;
        let sb = StoredBlock { hash, block };
        let ghost e = sb;
        match self.find_hash(hash) {
            Some(i) => {
                let _replaced = self.entries.remove(i);
                proof {
                    let k = index_of_hash(m0, hash);
                    assert(0 <= k < m0.len() && m0[k].hash == hash);
                    assert(k == i);
                }
                self.entries.push(sb);
                proof {
                    assert(self.entries@ == m0.remove(i as int).push(e));
                    let m1 = m0.remove(i as int);
                    assert forall|a: int, b: int| 0 <= a < b < m1.len() implies (
                        #[trigger] m1[a]).hash != (#[trigger] m1[b]).hash by {}
                    assert forall|a: int| 0 <= a < m1.len() implies (#[trigger] m1[a]).hash
                        != hash by {}
                }
            },
            None => {
                self.entries.push(sb);
            },
        }
        proof {
            assert(self.entries@ == insert_entry(m0, e));
            assert(distinct_hashes(self.entries@));
            assert(threads_bounded(self.entries@, self.thread_count));
        }
        self.enforce_capacity()
    }

    /// Drops every entry occupying slot `s`, appending the dropped hashes
    /// to `evicted`.
    fn remove_slot_collect(&mut self, s: Slot, evicted: &mut Vec<u64>)
        ensures
            final(self)@ == entries_without_slot(old(self)@, s),
            final(self).spec_capacity() == old(self).spec_capacity(),
            final(self).spec_thread_count() == old(self).spec_thread_count(),
            forall|h: u64|
                #[trigger] final(evicted)@.contains(h) <==> (old(evicted)@.contains(h)
                    || hash_at_slot(old(self)@, h, s)),
    {
        let ghost m = self.entries@;
        let ghost ev0 = evicted@;
        let ghost cap0 = self.max_stored_blocks;
        let ghost tc0 = self.thread_count;
        let mut i: usize = 0;
        let ghost mut j: int = 0;
        while i < self.entries.len()
            invariant
                0 <= j <= m.len(),
                i as int == m.take(j).filter(|e: StoredBlock| e.block.slot != s).len(),
                self.entries@ == m.take(j).filter(|e: StoredBlock| e.block.slot != s)
                    + m.skip(j),
                self.max_stored_blocks == cap0,
                self.thread_count == tc0,
                forall|h: u64|
                    #[trigger] evicted@.contains(h) <==> (ev0.contains(h) || hash_at_slot(
                        m.take(j),
                        h,
                        s,
                    )),
            decreases m.len() - j,
        {
            proof {
                assert(m.skip(j).len() > 0);
                assert(self.entries@[i as int] == m.skip(j)[0]);
                assert(m.skip(j)[0] == m[j]);
                assert(m.take(j + 1) =~= m.take(j).push(m[j]));
                lemma_filter_push(m.take(j), m[j], |e: StoredBlock| e.block.slot != s);
                lemma_hash_at_slot_push(m.take(j), m[j], s.period as u64, s);
            }
            if self.entries[i].block.slot == s {
                let e = self.entries.remove(i);
                let ghost ev_before = evicted@;
                evicted.push(e.hash);
                proof {
                    assert(e == m[j]);
                    assert(self.entries@ =~= m.take(j).filter(
                        |e: StoredBlock| e.block.slot != s,
                    ) + m.skip(j + 1));
                    assert(evicted@ == ev_before.push(m[j].hash));
                    assert forall|h: u64|
                        #[trigger] evicted@.contains(h) <==> (ev0.contains(h)
                            || hash_at_slot(m.take(j + 1), h, s)) by {
                        lemma_contains_push(ev_before, m[j].hash, h);
                        lemma_hash_at_slot_push(m.take(j), m[j], h, s);
                    }
                    j = j + 1;
                }
            } else {
                i += 1;
                proof {
                    assert(self.entries@ =~= m.take(j + 1).filter(
                        |e: StoredBlock| e.block.slot != s,
                    ) + m.skip(j + 1));
                    assert forall|h: u64|
                        #[trigger] evicted@.contains(h) <==> (ev0.contains(h)
                            || hash_at_slot(m.take(j + 1), h, s)) by {
                        lemma_hash_at_slot_push(m.take(j), m[j], h, s);
                    }
                    j = j + 1;
                }
            }
        }
        proof {
            assert(m.skip(j).len() == 0);
            assert(j == m.len());
            assert(m.take(j) =~= m);
        }
    }

    /// Restores the capacity invariant: while the store holds more entries
    /// than its capacity, the whole bucket of entries occupying the
    /// globally smallest slot is evicted.  Returns exactly the hashes that
    /// were dropped.
    fn enforce_capacity(&mut self) -> (evicted: Vec<u64>)
        requires
            old(self).wf_entries(),
        ensures
            final(self).wf(),
            final(self)@ == prune(old(self)@, old(self).spec_capacity() as int),
            final(self).spec_capacity() == old(self).spec_capacity(),
            final(self).spec_thread_count() == old(self).spec_thread_count(),
            evicted_exactly(old(self)@, final(self)@, evicted@),
    {
        let ghost m = self.entries@;
        let cap = self.max_stored_blocks;
        let ghost capi = cap as int;
        let ghost tc0 = self.thread_count;
        let mut evicted: Vec<u64> = Vec::new();
        let ghost mut cut: Option<Slot> = None;
        while self.entries.len() > cap
            invariant
                self.max_stored_blocks == cap,
                self.thread_count == tc0,
                capi == cap as int,
                cap >= 1,
                tc0 >= 1,
                distinct_hashes(m),
                threads_bounded(m, tc0),
                match cut {
                    Option::None => self.entries@ == m,
                    Option::Some(c) => self.entries@ == entries_after(m, c) && forall|i: int|
                        0 <= i < m.len() && (#[trigger] m[i]).block.slot.spec_le(c)
                            ==> count_at_or_after(m, m[i].block.slot) > capi,
                },
                forall|h: u64|
                    #[trigger] evicted@.contains(h) <==> (has_hash(m, h) && !has_hash(
                        self.entries@,
                        h,
                    )),
            decreases self.entries@.len(),
        {
            let s = self.min_slot();
            let ghost cur = self.entries@;
            proof {
                assert(cur.len() > cap);
                // The current entries are exactly those at slot `s` or later,
                // so the bucket being evicted indeed exceeds the capacity.
                match cut {
                    Option::None => {
                        assert forall|i: int| 0 <= i < m.len() implies s.spec_le(
                            (#[trigger] m[i]).block.slot,
                        ) by {}
                        lemma_filter_all_true(m, |e: StoredBlock| s.spec_le(e.block.slot));
                        assert(count_at_or_after(m, s) == cur.len());
                    },
                    Option::Some(c) => {
                        assert forall|i: int| 0 <= i < m.len() implies (s.spec_le(
                            (#[trigger] m[i]).block.slot,
                        ) == c.spec_lt(m[i].block.slot)) by {
                            let k = choose|k: int|
                                0 <= k < cur.len() && (#[trigger] cur[k]).block.slot == s;
                            if c.spec_lt(m[i].block.slot) {
                                assert(cur.contains(m[i]));
                            }
                        }
                        lemma_filter_congruent(
                            m,
                            |e: StoredBlock| s.spec_le(e.block.slot),
                            |e: StoredBlock| c.spec_lt(e.block.slot),
                        );
                        assert(count_at_or_after(m, s) == cur.len());
                    },
                }
            }
            self.remove_slot_collect(s, &mut evicted);
            proof {
                let after_s = |e: StoredBlock| s.spec_lt(e.block.slot);
                let not_s = |e: StoredBlock| e.block.slot != s;
                lemma_filter_elements(cur, not_s);
                // At least the minimal bucket itself is dropped, so the loop
                // makes progress.
                let kmin = choose|k: int|
                    0 <= k < cur.len() && (#[trigger] cur[k]).block.slot == s;
                assert(!not_s(cur[kmin]));
                lemma_filter_strictly_shorter(cur, not_s);
                // Dropping the bucket of the minimal slot `s` leaves exactly
                // the entries strictly after `s`.
                assert forall|k: int| 0 <= k < cur.len() implies (not_s(#[trigger] cur[k])
                    == after_s(cur[k])) by {}
                lemma_filter_congruent(cur, not_s, after_s);
                match cut {
                    Option::None => {
                        assert(self.entries@ == entries_after(m, s));
                    },
                    Option::Some(c) => {
                        assert forall|k: int| 0 <= k < m.len() implies (after_s(
                            #[trigger] m[k],
                        ) ==> c.spec_lt(m[k].block.slot)) by {
                            let w = choose|w: int|
                                0 <= w < cur.len() && (#[trigger] cur[w]).block.slot == s;
                        }
                        lemma_filter_absorb(m, |e: StoredBlock| c.spec_lt(e.block.slot), after_s);
                        assert(self.entries@ == entries_after(m, s));
                    },
                }
                // Minimality: every slot at or before `s` belongs to a bucket
                // whose suffix count exceeds the capacity.
                assert forall|i: int|
                    0 <= i < m.len() && (#[trigger] m[i]).block.slot.spec_le(s) implies
                    count_at_or_after(m, m[i].block.slot) > capi by {
                    let sl = m[i].block.slot;
                    if sl == s {
                        assert(count_at_or_after(m, s) == cur.len());
                        assert(cur.len() > capi);
                        assert(count_at_or_after(m, sl) > capi);
                    } else {
                        match cut {
                            Option::None => {
                                assert(s.spec_le(sl));
                                assert(false);
                            },
                            Option::Some(c) => {
                                if c.spec_lt(sl) {
                                    m.lemma_filter_contains(
                                        |e: StoredBlock| c.spec_lt(e.block.slot),
                                        i,
                                    );
                                    assert(cur.contains(m[i]));
                                    let w = choose|w: int|
                                        0 <= w < cur.len() && cur[w] == m[i];
                                    assert(s.spec_le(sl));
                                    assert(false);
                                }
                            },
                        }
                    }
                }
                // The evicted hashes are still exactly those present in the
                // original catalog but no longer in the current one.
                let newv = self.entries@;
                assert forall|b: int| 0 <= b < newv.len() implies cur.contains(
                    #[trigger] newv[b],
                ) by {
                    assert(newv[b] == cur.filter(not_s)[b]);
                    lemma_filter_elements(cur, not_s);
                }
                assert forall|a: int| 0 <= a < cur.len() implies m.contains(
                    #[trigger] cur[a],
                ) by {
                    match cut {
                        Option::None => {
                            assert(cur[a] == m[a]);
                        },
                        Option::Some(c) => {
                            assert(cur[a] == m.filter(
                                |e: StoredBlock| c.spec_lt(e.block.slot),
                            )[a]);
                            lemma_filter_elements(m, |e: StoredBlock| c.spec_lt(e.block.slot));
                        },
                    }
                }
                assert forall|h: u64|
                    #[trigger] evicted@.contains(h) <==> (has_hash(m, h) && !has_hash(
                        newv,
                        h,
                    )) by {
                    if evicted@.contains(h) {
                        if hash_at_slot(cur, h, s) {
                            let a = choose|a: int|
                                0 <= a < cur.len() && (#[trigger] cur[a]).hash == h
                                    && cur[a].block.slot == s;
                            let am = choose|am: int| 0 <= am < m.len() && m[am] == cur[a];
                            assert(has_hash(m, h));
                            if has_hash(newv, h) {
                                let b = choose|b: int|
                                    0 <= b < newv.len() && (#[trigger] newv[b]).hash == h;
                                assert(newv[b] == cur.filter(not_s)[b]);
                                assert(not_s(newv[b]));
                                let bc = choose|bc: int|
                                    0 <= bc < cur.len() && cur[bc] == newv[b];
                                let bm = choose|bm: int|
                                    0 <= bm < m.len() && m[bm] == cur[bc];
                                assert(m[am].hash == m[bm].hash);
                                assert(am == bm);
                                assert(false);
                            }
                        } else {
                            assert(has_hash(m, h) && !has_hash(cur, h));
                            if has_hash(newv, h) {
                                let b = choose|b: int|
                                    0 <= b < newv.len() && (#[trigger] newv[b]).hash == h;
                                let bc = choose|bc: int|
                                    0 <= bc < cur.len() && cur[bc] == newv[b];
                                assert(has_hash(cur, h));
                                assert(false);
                            }
                        }
                    }
                    if has_hash(m, h) && !has_hash(newv, h) && !evicted@.contains(h) {
                        assert(!hash_at_slot(cur, h, s));
                        assert(has_hash(cur, h));
                        let a = choose|a: int|
                            0 <= a < cur.len() && (#[trigger] cur[a]).hash == h;
                        if cur[a].block.slot == s {
                            assert(hash_at_slot(cur, h, s));
                            assert(false);
                        } else {
                            cur.lemma_filter_contains(not_s, a);
                            assert(newv.contains(cur[a]));
                            let b = choose|b: int|
                                0 <= b < newv.len() && (#[trigger] newv[b]) == cur[a];
                            assert(has_hash(newv, h));
                            assert(false);
                        }
                    }
                }
                cut = Some(s);
            }
        }
        proof {
            let kept = |e: StoredBlock| count_at_or_after(m, e.block.slot) <= capi;
            match cut {
                Option::None => {
                    assert forall|i: int| 0 <= i < m.len() implies kept(#[trigger] m[i]) by {
                        m.lemma_filter_len(|e: StoredBlock| m[i].block.slot.spec_le(e.block.slot));
                    }
                    lemma_filter_all_true(m, kept);
                },
                Option::Some(c) => {
                    let after_c = |e: StoredBlock| c.spec_lt(e.block.slot);
                    assert forall|i: int| 0 <= i < m.len() implies (after_c(#[trigger] m[i])
                        == kept(m[i])) by {
                        let sl = m[i].block.slot;
                        if c.spec_lt(sl) {
                            assert forall|k: int| 0 <= k < m.len() implies (sl.spec_le(
                                (#[trigger] m[k]).block.slot,
                            ) ==> after_c(m[k])) by {}
                            lemma_filter_len_mono(
                                m,
                                |e: StoredBlock| sl.spec_le(e.block.slot),
                                after_c,
                            );
                        }
                    }
                    lemma_filter_congruent(m, after_c, kept);
                },
            }
            lemma_filter_keeps_distinct_keys(
                m,
                kept,
                |e: StoredBlock| e.hash,
            );
            lemma_filter_elements(m, kept);
            assert(distinct_hashes(self.entries@));
            assert forall|i: int| 0 <= i < self.entries@.len() implies
                (#[trigger] self.entries@[i]).block.slot.thread < tc0 by {
                assert(m.contains(self.entries@[i]));
                let w = choose|w: int| 0 <= w < m.len() && m[w] == self.entries@[i];
            }
        }
        evicted
    }

    /// Every entry whose slot falls in `[start, end)`, as (hash, block)
    /// pairs carrying copies of the stored payloads.  An empty or reversed
    /// interval yields an empty result rather than an error.
    pub fn get_slot_range(&self, start: Option<Slot>, end: Option<Slot>) -> (r: Vec<(u64, Block)>)
        ensures
            r@.len() == range_of(self@, start, end).len(),
            forall|i: int|
                0 <= i < r@.len() ==> (#[trigger] r@[i]).0 == range_of(self@, start, end)[i].hash
                    && r@[i].1.slot == range_of(self@, start, end)[i].block.slot
                    && r@[i].1.data@ == range_of(self@, start, end)[i].block.data@,
            (start matches Some(st) && end matches Some(en) && en.spec_le(st)) ==> r@.len() == 0,
    {
        let ghost m = self@;
        let ghost pred = |e: StoredBlock| in_range(start, end, e.block.slot);
        let mut r: Vec<(u64, Block)> = Vec::new();
        let mut i: usize = 0;
        while i < self.entries.len()
            invariant
                i <= self@.len(),
                m == self@,
                r@.len() == m.take(i as int).filter(pred).len(),
                forall|k: int|
                    0 <= k < r@.len() ==> (#[trigger] r@[k]).0 == m.take(i as int).filter(pred)[k].hash
                        && r@[k].1.slot == m.take(i as int).filter(pred)[k].block.slot
                        && r@[k].1.data@ == m.take(i as int).filter(pred)[k].block.data@,
                pred == (|e: StoredBlock| in_range(start, end, e.block.slot)),
            decreases self@.len() - i,
        {
            proof {
                assert(m.take(i as int + 1) =~= m.take(i as int).push(m[i as int]));
                lemma_filter_push(m.take(i as int), m[i as int], pred);
            }
            let e = &self.entries[i];
            if slot_in_range(start, end, &e.block.slot) {
                let copy = Block { slot: e.block.slot, data: clone_bytes(&e.block.data) };
                r.push((e.hash, copy));
            }
            i += 1;
        }
        proof {
            assert(m.take(m.len() as int) =~= m);
            match (start, end) {
                (Some(st), Some(en)) => {
                    if en.spec_le(st) {
                        assert forall|k: int| 0 <= k < m.len() implies !pred(#[trigger] m[k]) by {}
                        lemma_filter_none(m, pred);
                    }
                },
                _ => {},
            }
        }
        r
    }
}

/// Range membership, executably.
fn slot_in_range(start: Option<Slot>, end: Option<Slot>, s: &Slot) -> (r: bool)
    ensures
        r == in_range(start, end, *s),
{
    (match start {
        Some(st) => st.le(s),
        None => true,
    }) && (match end {
        Some(en) => s.lt(&en),
        None => true,
    })
}

/// Copies a payload byte for byte.
pub(crate) fn clone_bytes(v: &Vec<u8>) -> (r: Vec<u8>)
    ensures
        r@ == v@,
{
    let mut r: Vec<u8> = Vec::new();
    let mut i: usize = 0;
    while i < v.len()
        invariant
            i <= v@.len(),
            r@ == v@.take(i as int),
        decreases v@.len() - i,
    {
        proof {
            assert(v@.take(i as int + 1) =~= v@.take(i as int).push(v@[i as int]));
        }
        r.push(v[i]);
        i += 1;
    }
    proof {
        assert(v@.take(v@.len() as int) =~= v@);
    }
    r
}

} // verus!
