//! Metrics oriented profiler and bencher: the verified core.
//!
//! The library turns raw span events into paths, aggregates them into a span
//! tree, orders it for reporting, and renders the labels shown in a report.
//! Measuring, printing and file handling live around it.

pub mod text;
pub mod path;
pub mod label;
pub mod analysis;
pub mod tree;
pub mod order;
pub mod tree_laws;
pub mod collector;
pub mod mem;
pub mod bench;

pub mod metrics;
pub mod schedule;
pub mod store;
pub mod render;
