//! The creation of a weighted pool of two tokens.
use crate::errors::MiniStabbleError;
use crate::math::fixed::ONE_U64;
use crate::state::pool::{
    bytes_precede, pow10, scaling_factor_for, weight_sum, Address, PoolToken, WeightedPool,
};
use vstd::prelude::*;

verus! {

/// What the creation of a pool reads of one of its tokens.
#[derive(Clone, Copy, Debug)]
pub struct TokenAccounts {
    /// The token's mint.
    pub mint: Address,
    /// The decimals of the mint.
    pub decimals: u8,
    /// The account in which the pool keeps the token.
    pub vault: Address,
    /// What that account holds.
    pub vault_amount: u64,
}

/// The larger of two numbers of decimals.
pub open spec fn larger_decimals(a: u8, b: u8) -> u8 {
    if a >= b {
        a
    } else {
        b
    }
}

/// A token of a new pool: its balance is what its vault holds, and its
/// scaling factor brings it to `max_decimals`.
pub open spec fn new_token(accounts: TokenAccounts, max_decimals: u8, weight: u64) -> PoolToken {
    PoolToken {
        mint: accounts.mint,
        token_account: accounts.vault,
        decimals: accounts.decimals,
        scaling_factor: pow10((max_decimals - accounts.decimals) as nat) as u64,
        balance: accounts.vault_amount,
        weight,
    }
}

/// Why a weighted pool cannot be created, in the order of the checks, or
/// nothing: the first mint comes before the second, the first weight lies
/// strictly between zero and one, the fee is below one, and both scaling
/// factors fit 64 bits.
pub open spec fn weighted_pool_refusal(
    token_a: TokenAccounts,
    token_b: TokenAccounts,
    swap_fee: u64,
    only_token_a_weight: u64,
) -> Option<MiniStabbleError> {
    if !bytes_precede(token_a.mint.bytes@, token_b.mint.bytes@) {
        Some(MiniStabbleError::MintOrderInvalid)
    } else if only_token_a_weight >= ONE_U64 || only_token_a_weight == 0 {
        Some(MiniStabbleError::InvalidWeight)
    } else if swap_fee >= ONE_U64 {
        Some(MiniStabbleError::InvalidAmount)
    } else if pow10(
        (larger_decimals(token_a.decimals, token_b.decimals) - token_a.decimals) as nat,
    ) > u64::MAX || pow10(
        (larger_decimals(token_a.decimals, token_b.decimals) - token_b.decimals) as nat,
    ) > u64::MAX {
        Some(MiniStabbleError::MathOverflow)
    } else {
        None
    }
}

/// Creates an active weighted pool of two tokens, the first with the weight
/// `only_token_a_weight` and the second with the rest to one.
pub fn handler(
    authority: Address,
    lp_mint: Address,
    bump: u8,
    token_a: TokenAccounts,
    token_b: TokenAccounts,
    swap_fee: u64,
    only_token_a_weight: u64,
) -> (result: Result<WeightedPool, MiniStabbleError>)
    ensures
        match result {
            Ok(pool) => {
                let max_decimals = larger_decimals(token_a.decimals, token_b.decimals);
                &&& weighted_pool_refusal(token_a, token_b, swap_fee, only_token_a_weight).is_none()
                &&& pool.well_formed()
                &&& pool.tokens@ == seq![
                    new_token(token_a, max_decimals, only_token_a_weight),
                    new_token(token_b, max_decimals, (ONE_U64 - only_token_a_weight) as u64),
                ]
                &&& pool.authority == authority
                &&& pool.lp_mint == lp_mint
                &&& pool.bump == bump
                &&& pool.is_active
                &&& pool.cached_invariant == 0
                &&& pool.swap_fee == swap_fee
            },
            Err(e) => weighted_pool_refusal(token_a, token_b, swap_fee, only_token_a_weight)
                == Some(e),
        },
{
    if !token_a.mint.precedes(&token_b.mint) {
        return Err(MiniStabbleError::MintOrderInvalid);
    }
    if only_token_a_weight >= ONE_U64 || only_token_a_weight == 0 {
        return Err(MiniStabbleError::InvalidWeight);
    }
    if swap_fee >= ONE_U64 {
        return Err(MiniStabbleError::InvalidAmount);
    }
    let max_decimals: u8 = if token_a.decimals >= token_b.decimals {
        token_a.decimals
    } else {
        token_b.decimals
    };
    let factor_a = match scaling_factor_for(max_decimals, token_a.decimals) {
        None => {
            return Err(MiniStabbleError::MathOverflow);
        },
        Some(v) => v,
    };
    let factor_b = match scaling_factor_for(max_decimals, token_b.decimals) {
        None => {
            return Err(MiniStabbleError::MathOverflow);
        },
        Some(v) => v,
    };
    let pool_token_a = PoolToken {
        mint: token_a.mint,
        token_account: token_a.vault,
        decimals: token_a.decimals,
        scaling_factor: factor_a,
        balance: token_a.vault_amount,
        weight: only_token_a_weight,
    };
    let pool_token_b = PoolToken {
        mint: token_b.mint,
        token_account: token_b.vault,
        decimals: token_b.decimals,
        scaling_factor: factor_b,
        balance: token_b.vault_amount,
        weight: ONE_U64 - only_token_a_weight,
    };
    let tokens = vec![pool_token_a, pool_token_b];
    proof {
        assert(tokens@ =~= seq![pool_token_a, pool_token_b]);
        reveal_with_fuel(weight_sum, 3);
        assert(weight_sum(tokens@, 2) == ONE_U64);
    }
    Ok(
        WeightedPool {
            authority,
            lp_mint,
            is_active: true,
            cached_invariant: 0,
            swap_fee,
            tokens,
            bump,
        },
    )
}

} // verus!
