//! Errors of the store's operations.

use vstd::prelude::*;

verus! {

/// Why a store operation failed.
#[derive(Debug, Clone, PartialEq, Eq, Structural)]
pub enum StoreError {
    /// A scanned batch held events of more than one session.
    MixedSessions,
    /// A timestamp lies outside the calendar range the partitioner accepts.
    TimestampOutOfRange,
    /// A hot log does not start with the expected magic number and version.
    InvalidHotLogHeader,
}

} // verus!
