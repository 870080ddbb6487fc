//! What each operation on a pool decides: the checks, the amounts to move
//! and the pool's next state. Moving tokens and storing the pool are left
//! to the caller, who acts only on a successful result.
use vstd::prelude::*;

pub mod deposit;
pub mod deposit_unbalanced;
pub mod initialize_stable_pool;
pub mod initialize_weighted_pool;
pub mod stable_deposit;
pub mod stable_swap;
pub mod swap;

verus! {

/// The raw amounts that a swap moves.
#[derive(Clone, Copy, Debug, PartialEq, Eq, Structural)]
pub struct SwapTransfers {
    /// What the trader pays into the pool's account of the token in.
    pub amount_in: u64,
    /// What the pool pays out of its account of the token out.
    pub amount_out: u64,
}

/// The raw amounts that a deposit moves, and the shares it mints.
#[derive(Clone, Copy, Debug, PartialEq, Eq, Structural)]
pub struct DepositTransfers {
    /// What the depositor pays of the first token.
    pub amount_a: u64,
    /// What the depositor pays of the second token.
    pub amount_b: u64,
    /// The pool shares minted to the depositor.
    pub lp_to_mint: u64,
}

} // verus!
