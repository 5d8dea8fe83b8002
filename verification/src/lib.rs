//! Consolidation engine and chart-geometry contracts for per-locality
//! case-count time series.
//!
//! Raw per-locality series (one region, one case type, one point per date)
//! are consolidated into a [`data::DataSet`]: minor localities can be
//! dropped, country-level aggregates are synthesized by date-wise summation,
//! a significance filter can be applied, and a sorted region index is built.
//! Each region gets a deterministic color, and a selected subset of series
//! is turned into the exact geometry (axis ranges, labels, polylines) that a
//! drawing surface renders.

pub mod chart;
pub mod color;
pub mod consolidate;
pub mod data;
pub mod laws;
pub mod order;
pub mod sort;
