//! Tuning constants shared by both phases.
use vstd::prelude::*;

verus! {

/// Width of one record on disk.
pub const U64_BYTES: usize = 8;

/// Size of the sequential read buffer (one 16 KB page).
pub const READ_BUFFER_BYTES: usize = 16 * 1024;

/// Budget for the in-memory chunk of phase 1.
pub const MEMORY_LIMIT_BYTES: usize = 20_000_000;

/// Threads used for sorting a chunk when none is given.
pub const DEFAULT_THREAD_COUNT: usize = 8;

/// The fan-in factor recorded with a sort when none is given.
pub const DEFAULT_FAN_IN_FACTOR: usize = 4;

/// Values shown from each end of a file.
pub const PREVIEW_COUNT: usize = 10;

/// The number of records that fit in the memory budget.
pub fn max_chunk_values() -> (n: usize)
    ensures
        n == MEMORY_LIMIT_BYTES / U64_BYTES,
        n == 2_500_000,
{
    MEMORY_LIMIT_BYTES / U64_BYTES
}

} // verus!
