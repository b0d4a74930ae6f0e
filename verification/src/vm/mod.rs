//! The values of a running program: binaries and handles, and the platform behind them.
pub mod answers;
pub mod binary;
pub mod bits;
pub mod fake;
pub mod float;
pub mod heap;
pub mod id;
pub mod joining;
pub mod making;
pub mod metal;
pub mod number;
pub mod objects;
pub mod platform;
pub mod reading;
pub mod value;
pub mod wire;
