//! A task-runner core: builds a dependency graph from task definitions,
//! classifies tasks as clean or dirty against a run cache, schedules dirty
//! tasks in dependency order with bounded parallelism and failure
//! propagation, and derives the re-runs a watch loop must perform when
//! input files change.

pub mod defs;
pub mod classify;
pub mod graph;
pub mod sched;
pub mod uri;
pub mod util;
pub mod watch;
