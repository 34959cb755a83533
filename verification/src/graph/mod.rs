//! Change-graph construction, scheduling and per-actor validation.

pub mod change_candidate;
pub mod epoch;
pub mod dependency_graph;
pub mod schedule;
pub mod order;
pub mod actor_state;
pub mod closure;
pub mod topology;
pub mod equivocation;
