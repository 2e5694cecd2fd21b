//! Order statistics over samples of IEEE 754 binary64 numbers, each number
//! carried as its 64-bit pattern (`f64::to_bits`).

pub mod ieee;
pub mod median;

pub use crate::median::median;
