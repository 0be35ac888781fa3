//! Unsigned integers of any size, stored as little-endian 64-bit limbs, with
//! exact arithmetic proved against their value as a natural number.
pub mod arith;
pub mod biguint;
pub mod decimal;
pub mod division;
pub mod laws;
pub mod limbs;
pub mod power;
pub mod shift;

pub use biguint::BigUint;
