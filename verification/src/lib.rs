//! A minimal personal process supervisor: it tracks a set of long-running
//! commands, compares that desired state against a snapshot of the live
//! process table, and decides how to reconcile differences by starting,
//! adopting, or killing processes.
//!
//! All OS interaction (observing the process table, spawning, terminating,
//! reading and writing the persisted state file) happens outside this
//! library: callers hand in a [`table::ProcessTable`] snapshot and carry out
//! the [`record::SpawnRequest`] and [`record::KillStep`] actions the library
//! returns.

pub mod codec;
pub mod record;
pub mod registry;
pub mod status;
pub mod table;
