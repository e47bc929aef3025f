//! Finite fields.
pub mod bls12_381;
pub mod u256;
