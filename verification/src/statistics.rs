//! Cumulative counters of raw versus encoded byte volume.

use vstd::prelude::*;

verus! {

/// The exact value a counter holds after adding `delta`: the sum where it
/// fits in `usize`, and `usize::MAX` otherwise. The counters saturate at
/// `usize::MAX` rather than wrap, so they never decrease.
pub open spec fn counter_after(total: int, delta: int) -> int {
    if total + delta <= usize::MAX {
        total + delta
    } else {
        usize::MAX as int
    }
}

/// Cumulative totals of raw and encoded bytes, updated exactly once per
/// completed encode or decode operation. The totals only grow; on overflow
/// they saturate at `usize::MAX` instead of wrapping.
#[derive(Clone, Copy, Debug)]
pub struct CobsStatistics {
    raw: usize,
    encoded: usize,
}

impl CobsStatistics {
    /// Total raw bytes recorded so far.
    pub closed spec fn raw_total(&self) -> int {
        self.raw as int
    }

    /// Total encoded bytes recorded so far.
    pub closed spec fn encoded_total(&self) -> int {
        self.encoded as int
    }

    pub fn new() -> (r: CobsStatistics)
        ensures
            r.raw_total() == 0,
            r.encoded_total() == 0,
    {
        CobsStatistics { raw: 0, encoded: 0 }
    }

    /// Adds both deltas to the running totals.
    pub fn update(&mut self, raw: usize, encoded: usize)
        ensures
            final(self).raw_total() == counter_after(old(self).raw_total(), raw as int),
            final(self).encoded_total() == counter_after(old(self).encoded_total(), encoded as int),
            final(self).raw_total() >= old(self).raw_total(),
            final(self).encoded_total() >= old(self).encoded_total(),
    {
        self.raw = if self.raw <= usize::MAX - raw {
            self.raw + raw
        } else {
            usize::MAX
        };
        self.encoded = if self.encoded <= usize::MAX - encoded {
            self.encoded + encoded
        } else {
            usize::MAX
        };
    }

    /// Returns the current cumulative pair `(raw_total, encoded_total)`.
    pub fn get(&self) -> (r: (usize, usize))
        ensures
            r.0 == self.raw_total(),
            r.1 == self.encoded_total(),
    {
        (self.raw, self.encoded)
    }
}

impl Default for CobsStatistics {
    fn default() -> (r: CobsStatistics)
        ensures
            r.raw_total() == 0,
            r.encoded_total() == 0,
    {
        CobsStatistics::new()
    }
}

} // verus!
