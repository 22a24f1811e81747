//! Approximate counters of a collection, used to size buffers and to decide
//! when to compact; never authoritative.
use vstd::prelude::*;

verus! {

#[derive(Debug, Clone, Copy)]
pub struct CollectionStatistics {
    pub approximate_total_entries: usize,
    pub approximate_redundant_entries: usize,
}

impl CollectionStatistics {
    pub fn new() -> (r: CollectionStatistics)
        ensures
            r.approximate_total_entries == 0,
            r.approximate_redundant_entries == 0,
    {
        CollectionStatistics { approximate_total_entries: 0, approximate_redundant_entries: 0 }
    }

    /// Counts one more record, and one more redundant record when it
    /// replaces one already cached; both counters stop at the largest value.
    pub fn count_entry(&mut self, is_in_cache: bool)
        ensures
            final(self).approximate_total_entries == if old(self).approximate_total_entries < usize::MAX {
                old(self).approximate_total_entries + 1
            } else {
                old(self).approximate_total_entries as int
            },
            final(self).approximate_redundant_entries == if is_in_cache && old(self).approximate_redundant_entries < usize::MAX {
                old(self).approximate_redundant_entries + 1
            } else {
                old(self).approximate_redundant_entries as int
            },
    {
        if self.approximate_total_entries < usize::MAX {
            self.approximate_total_entries = self.approximate_total_entries + 1;
        }
        if is_in_cache && self.approximate_redundant_entries < usize::MAX {
            self.approximate_redundant_entries = self.approximate_redundant_entries + 1;
        }
    }

    /// Records that are not redundant (zero if the counters disagree).
    pub fn approximate_entries(&self) -> (r: usize)
        ensures
            r == if self.approximate_redundant_entries <= self.approximate_total_entries {
                self.approximate_total_entries - self.approximate_redundant_entries
            } else {
                0
            },
    {
        if self.approximate_redundant_entries <= self.approximate_total_entries {
            self.approximate_total_entries - self.approximate_redundant_entries
        } else {
            0
        }
    }

    /// Whether redundant records make up at least `percentage` percent of
    /// all records (never, while there is no record).
    pub fn should_compact(&self, percentage: u32) -> (r: bool)
        ensures
            r == (self.approximate_total_entries > 0
                && 100 * self.approximate_redundant_entries >= percentage * self.approximate_total_entries),
    {
        if self.approximate_total_entries == 0 {
            return false;
        }
        let redundant = self.approximate_redundant_entries as u128;
        let total = self.approximate_total_entries as u128;
        let p = percentage as u128;
        assert(p * total <= 0xffff_ffff * 0xffff_ffff_ffff_ffff) by (nonlinear_arith)
            requires
                p <= 0xffff_ffff,
                total <= 0xffff_ffff_ffff_ffff,
        ;
        100 * redundant >= p * total
    }
}

impl Default for CollectionStatistics {
    fn default() -> (r: CollectionStatistics)
        ensures
            r.approximate_total_entries == 0,
            r.approximate_redundant_entries == 0,
    {
        CollectionStatistics::new()
    }
}

} // verus!
