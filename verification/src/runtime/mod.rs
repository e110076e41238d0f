//! Pieces of the earlier actor runtime: version naming of reactives and
//! the state of a table actor.
pub mod table_actor;
pub mod versioning;
