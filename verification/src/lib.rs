//! Verified decision logic of an accelerated Ethereum node.

pub mod bn254;
pub mod bytes;
pub mod config;
pub mod forks;
pub mod hash_table;
pub mod hashed_state;
pub mod icicle;
pub mod icicle_stats;
pub mod keccak;
pub mod precompiles;
pub mod revmc;
pub mod storage;
pub mod table_access;
pub mod warmup;
