//! The runs that wpt.fyi lists.

use vstd::prelude::*;

verus! {

/// A run as wpt.fyi describes it: which browser ran which revision of the
/// tests, on what system and when, and where the report of the run is found.
#[derive(Default, Debug, Clone, PartialEq)]
pub struct Run {
    pub id: i64,
    pub browser_name: String,
    pub browser_version: String,
    pub os_name: String,
    pub os_version: String,
    pub revision: String,
    pub full_revision_hash: String,
    pub results_url: String,
    pub created_at: String,
    pub time_start: String,
    pub time_end: String,
    pub raw_results_url: String,
    pub labels: Vec<String>,
}

} // verus!
