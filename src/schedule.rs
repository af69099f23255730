//! The collector loop's decisions: how long to sleep after a drain pass, and when
//! a major collection follows a minor one.
use vstd::prelude::*;

use crate::constants::{MAJOR_COLLECT_THRESHOLD, MAX_SLEEP_DUR, MIN_SLEEP_DUR};

verus! {

/// The back-off sleep after a drain pass that read `entries_read` records, when
/// the previous sleep was `sleep_dur` milliseconds: doubled up to the maximum after
/// an empty pass, the minimum after any other.
pub fn next_sleep_dur(entries_read: usize, sleep_dur: usize) -> (r: usize)
    ensures
        entries_read == 0 ==> r == (if 2 * sleep_dur < MAX_SLEEP_DUR {
            2 * sleep_dur
        } else {
            MAX_SLEEP_DUR as int
        }),
        entries_read != 0 ==> r == MIN_SLEEP_DUR,
{
    if entries_read == 0 {
        if sleep_dur < MAX_SLEEP_DUR / 2 {
            sleep_dur * 2
        } else {
            MAX_SLEEP_DUR
        }
    } else {
        MIN_SLEEP_DUR
    }
}

/// Whether a major collection follows the minor one: only when the collector is
/// not just keeping up with the mutators (its sleep has grown past the minimum)
/// and the young generation has reached the threshold.
pub fn wants_major_collection(sleep_dur: usize, young_count: usize) -> (r: bool)
    ensures
        r == (sleep_dur > MIN_SLEEP_DUR && young_count >= MAJOR_COLLECT_THRESHOLD),
{
    sleep_dur > MIN_SLEEP_DUR && young_count >= MAJOR_COLLECT_THRESHOLD
}

} // verus!
