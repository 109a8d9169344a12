//! A verified process-monitoring core: snapshot records, per-name
//! aggregation, deterministic sorting, threshold alerts, a parent/child
//! index, and signal-based lifecycle control.

pub mod record;
pub mod text;
pub mod aggregate;
pub mod sort;
pub mod alert;
pub mod tree;
pub mod control;
