//! A harness for planning/learning benchmark experiments.
//!
//! From a declarative suite the planner expands a cross product of
//! (task x runner x problem) jobs, each with its own working directory and a
//! generated runner script that enforces resource limits.  A scheduler hands
//! the jobs out to workers while respecting learn/solve dependency edges, and
//! the aggregator turns the jobs' on-disk artifacts into tabular results.

pub mod aggregate;
pub mod pattern;
pub mod plan;
pub mod register;
pub mod schedule;
pub mod script;
pub mod suite;
pub mod text;
