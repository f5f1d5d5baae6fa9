//! Entity-level review of code changes: which entities of a diff changed, how
//! they are classified, how they group, and which of them to read first.

pub mod agreement;
pub mod analyze;
pub mod classify;
mod clock;
pub mod dependents;
pub mod diff;
pub mod graph;
pub mod guarantees;
pub mod rank;
pub mod source;
pub mod summary;
pub mod text;
pub mod tree;
pub mod types;
pub mod untangle;
