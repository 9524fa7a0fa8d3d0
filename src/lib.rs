//! Per-resource congestion pricing for work units contending for shared,
//! mutually exclusive resources.

pub mod fixed;
pub mod model;
pub mod tracker;
pub mod laws;
