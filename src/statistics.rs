//! Counters the collector reports to while it runs.
use vstd::prelude::*;

verus! {

/// Receives the collector's measurements.
pub trait StatsLogger {
    /// Marks the start of collection.
    fn mark_start_time(&mut self);

    /// Marks the end of collection.
    fn mark_end_time(&mut self);

    /// Adds `ms` milliseconds that the collector slept.
    fn add_sleep(&mut self, ms: usize);

    /// Adds a count of dropped objects.
    fn add_dropped(&mut self, count: usize);

    /// Reports the current number of mature objects.
    fn current_heap_size(&mut self, size: usize);

    /// Prints the statistics.
    fn dump_to_stdout(&self);
}

} // verus!
