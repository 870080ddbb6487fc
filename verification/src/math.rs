//! The invariant math: fixed-point primitives and the two pool engines.
pub mod fixed;
pub mod power;
pub mod power_laws;
pub mod power_tolerance;
pub mod stable;
pub mod stable_laws;
pub mod weighted;
pub mod wide;
