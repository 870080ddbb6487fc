//! Pricing engine for two automated-market-maker pool types: a
//! constant-weighted-product pool and a StableSwap-style pool.
//!
//! * `math::fixed` holds the fixed-point primitives: products, quotients,
//!   complements and powers of numbers scaled by `10^9`, each with its
//!   rounding direction and with every overflow reported.
//! * `math::power` raises a fixed-point number to any exponent;
//!   `math::power_laws` proves that a power rounded up is never below, and a
//!   power rounded down never above, the exact power, and
//!   `math::power_tolerance` how far from it they can lie.
//! * `math::wide` is the 192-bit working width of the stable pool.
//! * `math::weighted` and `math::stable` are the two engines: invariants,
//!   swap amounts and pool shares; `math::stable_laws` bounds how far the
//!   stable pool's swaps are from being monotone.
//! * `state::pool` is the pool as the engines see it, and `instructions`
//!   decides what each operation on a pool moves.
//!
//! Every operation is a pure function of scaled integer balances; nothing
//! here owns or persists pool state.
pub mod errors;
pub mod instructions;
pub mod math;
pub mod state;
