//! The store's governing laws, stated over the spec-level model and proved
//! once and for all: which entries pruning keeps, that pruning respects the
//! capacity, and that overwriting an entry with the same hash and slot
//! changes nothing but its payload.

use vstd::prelude::*;

use crate::seq_facts::lemma_filter_all_true;
use crate::seq_facts::lemma_filter_keeps_distinct_keys;
use crate::seq_facts::lemma_filter_len_mono;
use crate::seq_facts::lemma_filter_none;
use crate::slot::Slot;
use crate::store::count_at_or_after;
use crate::store::distinct_hashes;
use crate::store::has_hash;
use crate::store::in_range;
use crate::store::index_of_hash;
use crate::store::insert_entry;
use crate::store::prune;
use crate::store::range_of;
use crate::store::StoredBlock;

verus! {

broadcast use vstd::seq_lib::group_filter_ensures;

/// Later slots never have more entries at or after them.
proof fn lemma_count_monotone(m: Seq<StoredBlock>, s1: Slot, s2: Slot)
    requires
        s1.spec_le(s2),
    ensures
        count_at_or_after(m, s2) <= count_at_or_after(m, s1),
{
    assert forall|i: int| 0 <= i < m.len() implies (s2.spec_le(
        (#[trigger] m[i]).block.slot,
    ) ==> s1.spec_le(m[i].block.slot)) by {}
    lemma_filter_len_mono(
        m,
        |e: StoredBlock| s2.spec_le(e.block.slot),
        |e: StoredBlock| s1.spec_le(e.block.slot),
    );
}

/// Pruning keeps an entry exactly when the entries at its slot or later
/// already fit within the capacity: the dropped entries are precisely the
/// ones at the globally oldest slots, whatever order they were added in.
pub proof fn lemma_prune_membership(m: Seq<StoredBlock>, cap: int, i: int)
    requires
        0 <= i < m.len(),
    ensures
        prune(m, cap).contains(m[i]) <==> count_at_or_after(m, m[i].block.slot) <= cap,
{
    let kept = |e: StoredBlock| count_at_or_after(m, e.block.slot) <= cap;
    if count_at_or_after(m, m[i].block.slot) <= cap {
        m.lemma_filter_contains(kept, i);
    }
    if prune(m, cap).contains(m[i]) {
        let b = choose|b: int| 0 <= b < prune(m, cap).len() && prune(m, cap)[b] == m[i];
        assert(kept(m.filter(kept)[b]));
    }
}

/// Every entry dropped by pruning occupies a slot strictly before every
/// entry kept: eviction removes the logically oldest buckets, whole.
pub proof fn lemma_eviction_takes_oldest(m: Seq<StoredBlock>, cap: int, i: int, j: int)
    requires
        0 <= i < m.len(),
        0 <= j < m.len(),
        !prune(m, cap).contains(m[i]),
        prune(m, cap).contains(m[j]),
    ensures
        m[i].block.slot.spec_lt(m[j].block.slot),
{
    lemma_prune_membership(m, cap, i);
    lemma_prune_membership(m, cap, j);
    if !m[i].block.slot.spec_lt(m[j].block.slot) {
        lemma_count_monotone(m, m[j].block.slot, m[i].block.slot);
        assert(false);
    }
}

/// A store that already fits its capacity is left untouched by pruning.
pub proof fn lemma_prune_noop(m: Seq<StoredBlock>, cap: int)
    requires
        m.len() <= cap,
    ensures
        prune(m, cap) == m,
{
    let kept = |e: StoredBlock| count_at_or_after(m, e.block.slot) <= cap;
    assert forall|i: int| 0 <= i < m.len() implies kept(#[trigger] m[i]) by {
        m.lemma_filter_len(|e: StoredBlock| m[i].block.slot.spec_le(e.block.slot));
    }
    lemma_filter_all_true(m, kept);
}

/// There is an entry whose slot is at or before every other entry's slot.
proof fn lemma_min_slot_index(s: Seq<StoredBlock>) -> (k: int)
    requires
        s.len() > 0,
    ensures
        0 <= k < s.len(),
        forall|w: int| 0 <= w < s.len() ==> s[k].block.slot.spec_le(
            (#[trigger] s[w]).block.slot,
        ),
    decreases s.len(),
{
    if s.len() == 1 {
        0
    } else {
        let dl = s.drop_last();
        let k = lemma_min_slot_index(dl);
        assert(forall|w: int| 0 <= w < dl.len() ==> dl[w] == s[w]);
        let last = s.len() - 1;
        if s[last].block.slot.spec_lt(s[k].block.slot) {
            last
        } else {
            k
        }
    }
}

/// Pruning always restores the capacity invariant: the surviving entries
/// fit within the capacity.
pub proof fn lemma_prune_len(m: Seq<StoredBlock>, cap: int)
    requires
        cap >= 0,
    ensures
        prune(m, cap).len() <= cap,
{
    let kept = |e: StoredBlock| count_at_or_after(m, e.block.slot) <= cap;
    let pr = prune(m, cap);
    if pr.len() > 0 {
        let k = lemma_min_slot_index(pr);
        let smin = pr[k].block.slot;
        m.lemma_filter_pred(kept, k);
        assert(kept(m.filter(kept)[k]));
        assert forall|i: int| 0 <= i < m.len() implies (kept(#[trigger] m[i]) ==> smin.spec_le(
            m[i].block.slot,
        )) by {
            if kept(m[i]) {
                m.lemma_filter_contains(kept, i);
                let w = choose|w: int| 0 <= w < pr.len() && pr[w] == m[i];
            }
        }
        lemma_filter_len_mono(m, kept, |e: StoredBlock| smin.spec_le(e.block.slot));
        assert(pr.len() <= count_at_or_after(m, smin));
    }
}

/// Overwriting keeps the catalog free of duplicate hashes.
pub proof fn lemma_insert_entry_distinct(m: Seq<StoredBlock>, e: StoredBlock)
    requires
        distinct_hashes(m),
    ensures
        distinct_hashes(insert_entry(m, e)),
        insert_entry(m, e).len() == if has_hash(m, e.hash) {
            m.len()
        } else {
            m.len() + 1
        },
{
    if has_hash(m, e.hash) {
        let i = index_of_hash(m, e.hash);
        assert(0 <= i < m.len() && m[i].hash == e.hash);
        let m1 = m.remove(i);
        assert forall|a: int, b: int| 0 <= a < b < m1.len() implies (#[trigger] m1[a]).hash
            != (#[trigger] m1[b]).hash by {}
        assert forall|a: int| 0 <= a < m1.len() implies (#[trigger] m1[a]).hash != e.hash by {}
        assert(distinct_hashes(m1.push(e)));
    } else {
        assert forall|a: int| 0 <= a < m.len() implies (#[trigger] m[a]).hash != e.hash by {}
        assert(distinct_hashes(m.push(e)));
    }
}

/// Pruning keeps the catalog free of duplicate hashes.
pub proof fn lemma_prune_distinct(m: Seq<StoredBlock>, cap: int)
    requires
        distinct_hashes(m),
    ensures
        distinct_hashes(prune(m, cap)),
{
    let kept = |e: StoredBlock| count_at_or_after(m, e.block.slot) <= cap;
    lemma_filter_keeps_distinct_keys(m, kept, |e: StoredBlock| e.hash);
    assert(forall|i: int, j: int|
        0 <= i < j < prune(m, cap).len() ==> (#[trigger] prune(m, cap)[i]).hash != (
        #[trigger] prune(m, cap)[j]).hash);
}

/// Adding the same hash with the same slot twice: the second insertion
/// replaces the first entry's payload in place, and neither the number of
/// stored entries nor any other entry changes.
pub proof fn lemma_overwrite_idempotent(m: Seq<StoredBlock>, e1: StoredBlock, e2: StoredBlock, cap: int)
    requires
        distinct_hashes(m),
        cap >= 1,
        e1.hash == e2.hash,
        e1.block.slot == e2.block.slot,
        has_hash(prune(insert_entry(m, e1), cap), e1.hash),
    ensures
        ({
            let m1 = prune(insert_entry(m, e1), cap);
            let m2 = prune(insert_entry(m1, e2), cap);
            &&& m2 == m1.remove(index_of_hash(m1, e2.hash)).push(e2)
            &&& m2.len() == m1.len()
            &&& has_hash(m2, e2.hash)
            &&& m2[index_of_hash(m2, e2.hash)] == e2
        }),
{
    let big = insert_entry(m, e1);
    lemma_insert_entry_distinct(m, e1);
    let m1 = prune(big, cap);
    lemma_prune_distinct(big, cap);
    lemma_prune_len(big, cap);
    let idx = index_of_hash(m1, e2.hash);
    assert(0 <= idx < m1.len() && m1[idx].hash == e2.hash);
    let mid = insert_entry(m1, e2);
    assert(mid == m1.remove(idx).push(e2));
    assert(mid.len() == m1.len());
    lemma_prune_noop(mid, cap);
    lemma_insert_entry_distinct(m1, e2);
    let m2 = prune(mid, cap);
    assert(m2 == mid);
    assert(m2[m2.len() - 1] == e2);
    assert(has_hash(m2, e2.hash));
    let idx2 = index_of_hash(m2, e2.hash);
    assert(0 <= idx2 < m2.len() && m2[idx2].hash == e2.hash);
    assert(idx2 == m2.len() - 1);
}

/// After a clear, every range query answers with nothing.
pub proof fn lemma_range_of_empty(start: Option<Slot>, end: Option<Slot>)
    ensures
        range_of(Seq::<StoredBlock>::empty(), start, end) == Seq::<StoredBlock>::empty(),
{
    lemma_filter_none(
        Seq::<StoredBlock>::empty(),
        |e: StoredBlock| in_range(start, end, e.block.slot),
    );
}

/// An entry lies in a queried range exactly when its slot does.
pub proof fn lemma_range_membership(
    m: Seq<StoredBlock>,
    start: Option<Slot>,
    end: Option<Slot>,
    i: int,
)
    requires
        0 <= i < m.len(),
    ensures
        range_of(m, start, end).contains(m[i]) <==> in_range(start, end, m[i].block.slot),
{
    let p = |e: StoredBlock| in_range(start, end, e.block.slot);
    if in_range(start, end, m[i].block.slot) {
        m.lemma_filter_contains(p, i);
    }
    if range_of(m, start, end).contains(m[i]) {
        let b = choose|b: int| 0 <= b < range_of(m, start, end).len() && range_of(m, start, end)[b] == m[i];
        assert(p(m.filter(p)[b]));
    }
}

} // verus!
