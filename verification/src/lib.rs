//! An in-process task-graph execution engine.
//!
//! Tasks are bundled into groups, groups are chained by precedence edges, and
//! a frozen snapshot of that graph is driven to completion by a worker so that
//! every task runs once and no task starts before its predecessors are done.
//!
//! - [`task`]: tasks and the handles to them.
//! - [`group`]: groups, their edges, and the manager that owns them.
//! - [`topology`]: the plan that a graph is frozen into.
//! - [`schedule`]: what a run of a plan is, and why it comes out whole.
//! - [`worker`]: the completion protocol and the two workers that apply it.
//! - [`executor`]: the cycle of `execute` and `wait_finish`.
//! - [`error`]: the errors.
//! - [`lists`]: facts about sequences that the proofs rest on.
pub mod error;
pub mod executor;
pub mod group;
pub mod lists;
pub mod schedule;
pub mod task;
pub mod topology;
pub mod worker;
