//! The creation of a stable pool of two tokens.
use crate::errors::MiniStabbleError;
use crate::instructions::initialize_weighted_pool::{larger_decimals, new_token, TokenAccounts};
use crate::math::fixed::ONE_U64;
use crate::math::stable::{AMP_PRECISION, MAX_AMP, MIN_AMP};
use crate::state::pool::{bytes_precede, pow10, scaling_factor_for, PoolToken, StablePool};
use crate::state::pool::Address;
use vstd::prelude::*;

verus! {

/// Why a stable pool cannot be created, in the order of the checks, or
/// nothing: the first mint comes before the second, the amplification lies
/// within its bounds, the fee is below one, and both scaling factors fit
/// 64 bits.
pub open spec fn stable_pool_refusal(
    token_a: TokenAccounts,
    token_b: TokenAccounts,
    swap_fee: u64,
    amp: u64,
) -> Option<MiniStabbleError> {
    if !bytes_precede(token_a.mint.bytes@, token_b.mint.bytes@) {
        Some(MiniStabbleError::MintOrderInvalid)
    } else if amp < MIN_AMP {
        Some(MiniStabbleError::AmpTooLow)
    } else if amp > MAX_AMP {
        Some(MiniStabbleError::AmpTooHigh)
    } else if swap_fee >= ONE_U64 {
        Some(MiniStabbleError::InvalidAmount)
    } else if pow10(
        (larger_decimals(token_a.decimals, token_b.decimals) - token_a.decimals) as nat,
    ) > u64::MAX || pow10(
        (larger_decimals(token_a.decimals, token_b.decimals) - token_b.decimals) as nat,
    ) > u64::MAX {
        Some(MiniStabbleError::MathOverflow)
    } else {
        None
    }
}

/// Creates an active stable pool of two tokens with the amplification
/// `amp`, stored times `AMP_PRECISION` and without a ramp.
pub fn handler(
    authority: Address,
    lp_mint: Address,
    bump: u8,
    token_a: TokenAccounts,
    token_b: TokenAccounts,
    swap_fee: u64,
    amp: u64,
) -> (result: Result<StablePool, MiniStabbleError>)
    ensures
        match result {
            Ok(pool) => {
                let max_decimals = larger_decimals(token_a.decimals, token_b.decimals);
                &&& stable_pool_refusal(token_a, token_b, swap_fee, amp).is_none()
                &&& pool.well_formed()
                &&& pool.tokens@ == seq![
                    new_token(token_a, max_decimals, 0),
                    new_token(token_b, max_decimals, 0),
                ]
                &&& pool.authority == authority
                &&& pool.lp_mint == lp_mint
                &&& pool.bump == bump
                &&& pool.is_active
                &&& pool.cached_invariant == 0
                &&& pool.swap_fee == swap_fee
                &&& pool.amp == amp * AMP_PRECISION
                &&& pool.amp_target == pool.amp
                &&& pool.amp_start_ts == 0
                &&& pool.amp_end_ts == 0
            },
            Err(e) => stable_pool_refusal(token_a, token_b, swap_fee, amp) == Some(e),
        },
{
    if !token_a.mint.precedes(&token_b.mint) {
        return Err(MiniStabbleError::MintOrderInvalid);
    }
    if amp < MIN_AMP {
        return Err(MiniStabbleError::AmpTooLow);
    }
    if amp > MAX_AMP {
        return Err(MiniStabbleError::AmpTooHigh);
    }
    if swap_fee >= ONE_U64 {
        return Err(MiniStabbleError::InvalidAmount);
    }
    let max_decimals: u8 = if token_a.decimals >= token_b.decimals {
        token_a.decimals
    } else {
        token_b.decimals
    };
    let factor_a = match scaling_factor_for(max_decimals, token_a.decimals) {
        None => {
            return Err(MiniStabbleError::MathOverflow);
        },
        Some(v) => v,
    };
    let factor_b = match scaling_factor_for(max_decimals, token_b.decimals) {
        None => {
            return Err(MiniStabbleError::MathOverflow);
        },
        Some(v) => v,
    };
    let pool_token_a = PoolToken {
        mint: token_a.mint,
        token_account: token_a.vault,
        decimals: token_a.decimals,
        scaling_factor: factor_a,
        balance: token_a.vault_amount,
        weight: 0,
    };
    let pool_token_b = PoolToken {
        mint: token_b.mint,
        token_account: token_b.vault,
        decimals: token_b.decimals,
        scaling_factor: factor_b,
        balance: token_b.vault_amount,
        weight: 0,
    };
    let tokens = vec![pool_token_a, pool_token_b];
    proof {
        assert(tokens@ =~= seq![pool_token_a, pool_token_b]);
    }
    let stored_amp: u64 = amp * AMP_PRECISION;
    Ok(
        StablePool {
            authority,
            lp_mint,
            is_active: true,
            cached_invariant: 0,
            swap_fee,
            amp: stored_amp,
            amp_target: stored_amp,
            amp_start_ts: 0,
            amp_end_ts: 0,
            tokens,
            bump,
        },
    )
}

} // verus!
