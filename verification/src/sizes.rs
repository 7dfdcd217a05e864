//! Aggregate byte counts for the three stored regions.

use vstd::prelude::*;

verus! {

/// Bytes stored for each of the stored types.
///
/// Every backend keeps these running totals so a caller can decide when to
/// compact without rescanning storage.
#[derive(Debug, Clone, Copy, PartialEq, Eq, Structural)]
pub struct StoredSizes {
    /// Total bytes stored for all changes.
    pub changes: u64,
    /// Total bytes stored in the document.
    pub document: u64,
    /// Total bytes stored for all sync states.
    pub sync_states: u64,
}

impl Default for StoredSizes {
    /// All three counters start at zero.
    fn default() -> (s: Self)
        ensures
            s == (StoredSizes { changes: 0, document: 0, sync_states: 0 }),
    {
        StoredSizes { changes: 0, document: 0, sync_states: 0 }
    }
}

} // verus!
