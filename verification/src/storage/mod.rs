//! Opening a database, and moving its plain state to an environment of its own.

pub mod migration;
pub mod open;
