#![verifier::loop_isolation(false)]
//! Benchmark comparison and time-series engine.
//!
//! The library reports how a simulation engine's performance (run time,
//! memory) changed between two revisions of the software under test.  Raw
//! per-run measurements are aggregated into per-testcase statistics, two
//! revisions are joined by testcase identity, a relative change with a
//! three-way classification is computed per metric, and normalized
//! time-series datasets are built for charting.
//!
//! Measurements are held in a fixed-point representation (thousandths of
//! the metric's natural unit); degenerate float inputs (NaN, infinities)
//! are carried as an explicit non-finite marker and downgrade the single
//! affected result to an undefined value rather than failing a request.

use vstd::prelude::*;

pub mod aggregate;
pub mod catalog;
pub mod change;
pub mod compare;
pub mod fmt;
pub mod graphs;
pub mod names;
pub mod records;
pub mod report;
pub mod rows;
pub mod series;
pub mod value;

verus! {

/// Revisions below this floor are never reported; the measurement store
/// keeps older data that the reports deliberately ignore.
pub const LOWEST_REVISION: u32 = 800_000;

/// How far back the default comparison window reaches: when no low
/// revision is requested, the default is the `RECENCY_WINDOW`-th most
/// recent known revision, counting the latest as the first (or the
/// earliest known revision when fewer exist).
pub const RECENCY_WINDOW: usize = 5;

} // verus!
