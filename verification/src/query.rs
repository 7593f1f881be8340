//! Analytics query facade.

use vstd::prelude::*;
use crate::error::StoreError;

verus! {

/// Facade over the analytics side of the store; the cold tier it fronts holds no rows yet.
#[derive(Debug)]
pub struct QueryStore;

impl QueryStore {
    /// Opens the facade rooted at `root`; this never fails.
    pub fn open(root: &str) -> (r: Result<QueryStore, StoreError>)
        ensures
            r is Ok,
    {
        let _ = root;
        Ok(QueryStore)
    }

    /// Number of events in the cold tier: always zero.
    pub fn cold_event_count(&self) -> (r: Result<u64, StoreError>)
        ensures
            r == Ok::<u64, StoreError>(0),
    {
        Ok(0)
    }
}

} // verus!
