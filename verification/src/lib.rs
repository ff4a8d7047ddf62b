//! Browser score fractions for web-platform-tests reports.
//!
//! Given the reports of several runs of one test suite, the library lines the
//! runs up test by test, blames each regression on the one run that fails
//! where all others pass, and adds the blame up per run and per directory.
//!
//! - [`wptreport`] holds the shape of a report.
//! - [`fetch_wptfyi`] holds the description of a run.
//! - [`order`] holds the order in which identifiers are lined up.
//! - [`utils`] lines the records of the runs up by identifier.
//! - [`bsf`] scores tests and adds the scores up.
//! - [`paths`] names the directories that a test counts for.
//! - [`totals`] holds sums of scores, exactly.

pub mod bsf;
pub mod fetch_wptfyi;
pub mod order;
pub mod paths;
pub mod totals;
pub mod utils;
pub mod wptreport;

pub use bsf::score_test;
