//! Aggregation, ranking, and interactive-lookup engine for a multi-series
//! daily error chart.
//!
//! Unordered rows of `(date, series key, value)` are folded into per-series
//! date-indexed data with last-write-wins semantics, series are ranked by
//! total value with a deterministic tie-break and truncated to the top 50,
//! a linear integer projection maps the (date, value) domain onto a pixel
//! rectangle and exposes its exact inverse, and a tooltip resolver turns a
//! resolved date into a ranked list of per-series values.

pub mod agg;
pub mod date;
pub mod order;
pub mod project;
pub mod rank;
pub mod tooltip;

use vstd::prelude::*;

verus! {

/// Greatest number of ranked series kept for display; series ranked past
/// this cap are dropped entirely from rendering, table, and tooltip.
pub const MAX_SERIES: usize = 50;

} // verus!
