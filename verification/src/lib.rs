//! Profiler report view-model builder and layered graph layout.
//!
//! The crate turns a validated topology specification (logical stages owning
//! operator addresses, connected by child edges that may form a multi-parent
//! DAG) plus a log index of per-operator measurements into an immutable
//! report: a canonical spanning tree for drill-down browsing, per-node
//! aggregated metrics, per-rule sub-DAG views, and a deterministic layered
//! ordering of the DAG for rendering.

pub mod addr;
pub mod diagnostics;
pub mod layout;
pub mod log;
pub mod ops;
pub mod order;
pub mod view;
