//! Bit-scanning primitives over an unsigned 256-bit integer.
//!
//! The crate provides a four-limb `U256` type together with the two
//! classic bit-scan operations used by fixed-point arithmetic: the index
//! of the most significant set bit and the index of the least significant
//! set bit, both verified against their numeric contracts.

pub mod bitwise;
pub mod scan;
pub mod u256;

pub use scan::BitMathError;
pub use scan::BitMathTrait;
pub use u256::U256;
