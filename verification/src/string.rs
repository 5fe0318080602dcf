//! String algorithms.
pub mod rolling_hash;

pub use rolling_hash::RollingHash;
