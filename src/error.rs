//! Errors of the store.
use vstd::prelude::*;

verus! {

/// What can go wrong in a store operation.
#[derive(Debug, PartialEq, Eq)]
pub enum StoreError {
    /// The active segment was not found when it should exist.
    ActiveSegmentNotFound,
    /// A segment that the index refers to was not found.
    SegmentNotFound(usize),
    /// A segment disappeared during index rebuild.
    SegmentDisappeared,
    /// A record decoded structurally but its payload does not match its checksum.
    ChecksumMismatch { offset: u64, expected: u32, computed: u32 },
    /// Bytes that are not a record where one was expected.
    CorruptedData(String),
    /// Compaction could not complete; the store is unchanged.
    CompactionFailed(String),
    /// An operation on the underlying files failed, or a file-level limit was reached.
    Io(String),
}

} // verus!
