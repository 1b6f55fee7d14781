//! Persistence: what value moved, and how state outlives a process.

pub mod checkpoint;
pub mod ledger;
pub mod ledger_pg;
pub mod registry;
pub mod snapshot;
pub mod store;
