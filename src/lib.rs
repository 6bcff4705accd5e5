//! Scheduling core for groups of recurring jobs linked by dependency edges:
//! ordering of a group's jobs, the per-run state table, the eligibility rule
//! and the cascading dispatch decisions.

pub mod job;
pub mod graph;
pub mod deps;
pub mod listing;
pub mod epoch;
pub mod dispatch;
