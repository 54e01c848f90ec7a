//! Slots: the two-dimensional logical clock that orders stored blocks.

use vstd::prelude::*;

verus! {

/// A logical time coordinate: a period number together with the index of
/// the block-production thread inside that period.  Slots are immutable
/// value types; the store orders them by their linear index.
#[derive(Clone, Copy, PartialEq, Eq, Structural, Hash, Debug)]
pub struct Slot {
    pub period: u64,
    pub thread: u8,
}

impl Slot {
    /// The position of this slot on the single global time axis, given the
    /// fixed number of block-production threads per period.
    pub open spec fn linear_index(self, thread_count: int) -> int {
        self.period as int * thread_count + self.thread as int
    }

    /// Strict order on slots: earlier period first, the thread index
    /// breaking ties inside one period.
    pub open spec fn spec_lt(self, other: Slot) -> bool {
        self.period < other.period || (self.period == other.period && self.thread
            < other.thread)
    }

    pub open spec fn spec_le(self, other: Slot) -> bool {
        self.spec_lt(other) || self == other
    }

    pub fn new(period: u64, thread: u8) -> (s: Slot)
        ensures
            s == (Slot { period, thread }),
    {
        Slot { period, thread }
    }

    /// Compares two slots; agrees with the linear-index order whenever both
    /// slots respect the thread bound (`lemma_order_matches_linear_index`).
    pub fn lt(&self, other: &Slot) -> (r: bool)
        ensures
            r == self.spec_lt(*other),
    {
        self.period < other.period || (self.period == other.period && self.thread
            < other.thread)
    }

    pub fn le(&self, other: &Slot) -> (r: bool)
        ensures
            r == self.spec_le(*other),
    {
        self.period < other.period || (self.period == other.period && self.thread
            <= other.thread)
    }

    /// Computes the linear index, exactly, for every representable slot.
    pub fn index(&self, thread_count: u8) -> (i: u128)
        requires
            self.thread < thread_count,
        ensures
            i == self.linear_index(thread_count as int),
    {
        proof {
            assert((self.period as int) * (thread_count as int) <= u64::MAX as int * 255)
                by (nonlinear_arith)
                requires
                    self.period as int <= u64::MAX as int,
                    thread_count as int <= 255,
            ;
        }
        self.period as u128 * thread_count as u128 + self.thread as u128
    }
}

/// The order used by the store (`Slot::spec_lt`) is exactly the order of the
/// linear indexes, for any pair of slots whose thread index is below the
/// configured thread count.
pub proof fn lemma_order_matches_linear_index(a: Slot, b: Slot, thread_count: int)
    requires
        0 < thread_count,
        (a.thread as int) < thread_count,
        (b.thread as int) < thread_count,
    ensures
        a.spec_lt(b) <==> a.linear_index(thread_count) < b.linear_index(thread_count),
{
    let pa = a.period as int;
    let ta = a.thread as int;
    let pb = b.period as int;
    let tb = b.thread as int;
    if pa < pb {
        assert(pa * thread_count + ta < pb * thread_count + tb) by (nonlinear_arith)
            requires
                pa < pb,
                0 <= ta < thread_count,
                0 <= tb,
                0 < thread_count,
        ;
    }
    if pb < pa {
        assert(pb * thread_count + tb < pa * thread_count + ta) by (nonlinear_arith)
            requires
                pb < pa,
                0 <= tb < thread_count,
                0 <= ta,
                0 < thread_count,
        ;
    }
}

} // verus!
