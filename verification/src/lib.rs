//! Arithmetic over a fixed 256-bit prime field and a bounded, allocation-free
//! model of a multi-call transaction.

pub mod bignum;
pub mod laws;
pub mod modular;
pub mod types;
