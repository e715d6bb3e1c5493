//! Computational core of a two-asset constant-product automated market maker.
//!
//! The library decides, for each state transition of a pool — initialization,
//! proportional liquidity deposit, proportional liquidity withdrawal, and
//! constant-product swap — how much of each asset moves and how the pool's
//! accounting changes. Custody of balances, storage of records and transaction
//! authorization are the host's business: every operation here is a pure
//! transition on plain values, computed first and committed all-or-nothing.

pub mod errors;
pub mod math;
pub mod state;
pub mod checker;
pub mod factory;
pub mod liquidity;
pub mod swap;
