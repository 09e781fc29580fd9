//! Table pre-warming: which tables are read at startup, in which key ranges, and what is
//! counted.

pub mod key_range;
pub mod memory;
pub mod plan;
pub mod run;
pub mod scan;
pub mod stats;
pub mod tally;
