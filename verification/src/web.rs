use vstd::prelude::*;

verus! {

use crate::types::LogType;

/// Custom type to specify the search criteria when getting logs.
#[derive(Clone, Copy, Debug)]
pub struct Params {
    /// Inclusive lower bound on the timestamp, when given.
    pub start: Option<u64>,
    /// Inclusive upper bound on the timestamp, when given.
    pub end: Option<u64>,
    /// Keep only entries of this category, when given.
    pub log_type: Option<LogType>,
}

} // verus!
