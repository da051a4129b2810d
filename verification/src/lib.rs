//! A dependency-driven scheduler for named, interdependent steps.
//!
//! Steps form a directed graph of "depends-on" edges. A step starts once all of
//! its dependencies have completed without error, is given a synthetic failure
//! as soon as one of them has failed, and completes exactly once either way.
//!
//! `run_steps` runs a whole graph, executing each step on the spot when it is
//! dispatched. A caller that executes steps elsewhere, on worker threads say,
//! uses the pieces, each under the lock of the status table: `activate` for
//! the first pass, `record_outcome` from the worker, and `wake` for each
//! completion signal. What `cascade` and `plan` prove holds of every such run,
//! in whatever order the workers finish.
pub mod graph;
pub mod step;
pub mod runner;
pub mod cascade;
pub mod plan;
pub mod coordinator;

pub use crate::coordinator::{run_steps, RunError};
pub use crate::runner::{record_outcome, Action, StepRunner};
pub use crate::step::{Outcome, RunType, Status, Step};
