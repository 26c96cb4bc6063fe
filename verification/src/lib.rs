//! Proportional pool-share accounting for a vault protocol: overflow-checked
//! 256-bit amounts and fixed-point ratios, keyed accounting containers, the
//! pool/account share-conversion engine, and a time-weighted accumulator.

pub mod accumulated_pool;
pub mod amount;
pub mod authorization;
pub mod error;
pub mod map;
pub mod math;
pub mod neptune_map;
pub mod overseer;
pub mod parser;
pub mod pool;
pub mod ratio;
pub mod signed_decimal;
pub mod storage;
pub mod traits;
pub mod warning;
