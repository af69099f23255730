//! A pauseless, concurrent, generational mark-and-sweep garbage collector.
//!
//! Mutator threads post their stack-root changes to per-thread journals; a collector
//! drains those journals into a root map and runs young (minor) and mature (major)
//! mark-and-sweep cycles over address-keyed maps.
use vstd::prelude::*;

pub mod constants;
pub mod heap;
pub mod journal;
pub mod marking;
pub mod parheap;
pub mod schedule;
pub mod statistics;
pub mod youngheap;

pub use constants::{
    BUFFER_RUN, CACHE_LINE, DEC, FLAGS_MASK, INC, INC_BIT, JOURNAL_BUFFER_SIZE, JOURNAL_RUN,
    MAJOR_COLLECT_THRESHOLD, MARK_BIT, MARK_MASK, MAX_SLEEP_DUR, MIN_SLEEP_DUR, NEW, NEW_BIT,
    NEW_INC, NEW_MASK, PTR_MASK, TRAVERSE_BIT,
};
pub use heap::{ptr_shift, HeapMap, Object, ObjectMeta, RootMap, RootMeta, Trace, TraceOps, TraceStack};
pub use journal::{make_journal, BufferQueue, EmptyIter, Receiver, RecvResult, Sender};
pub use parheap::{CollectOps, ParHeap};
pub use schedule::{next_sleep_dur, wants_major_collection};
pub use statistics::StatsLogger;
pub use youngheap::{MinorResult, YoungHeap};
