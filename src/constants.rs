//! Parameters of the collector's behaviour and the bit layout of journal records.
use vstd::prelude::*;

verus! {

/// Requested capacity of each journal buffer.
pub const JOURNAL_BUFFER_SIZE: usize = 32768;

/// Records taken from one journal before moving to the next.
pub const BUFFER_RUN: usize = 1024;

/// Rounds over all journals in one drain pass.
pub const JOURNAL_RUN: usize = 32;

/// Longest back-off sleep, in milliseconds.
pub const MAX_SLEEP_DUR: usize = 100;

/// Shortest back-off sleep, in milliseconds.
pub const MIN_SLEEP_DUR: usize = 1;

/// Young-object count from which a major collection may start.
pub const MAJOR_COLLECT_THRESHOLD: usize = 1048576;

/// Cache line in bytes.
pub const CACHE_LINE: usize = 64;

/// Clears the two flag bits of an address or vtable word.
pub const PTR_MASK: usize = !3;

/// Mark bit of a metadata word.
pub const MARK_BIT: usize = 1;

/// Clears the mark bit.
pub const MARK_MASK: usize = !1;

/// Set in a vtable word when the object can hold managed references.
pub const TRAVERSE_BIT: usize = 2;

/// The flag bits of a journal record's address word.
pub const FLAGS_MASK: usize = 3;

/// Record flag: the record adds a root reference.
pub const INC_BIT: usize = 1;

/// Record flag (and root flag): the object is newly allocated.
pub const NEW_BIT: usize = 2;

/// Clears the new-object bit.
pub const NEW_MASK: usize = !2;

/// Record kind: new object with a root reference.
pub const NEW_INC: usize = 3;

/// Record kind: new object without a root reference.
pub const NEW: usize = 2;

/// Record kind: a further root reference to an existing object.
pub const INC: usize = 1;

/// Record kind: a root reference was dropped.
pub const DEC: usize = 0;

} // verus!
