//! A swap in a stable pool.
use crate::errors::MiniStabbleError;
use crate::instructions::SwapTransfers;
use crate::math::fixed::{FixedMul, SCALE};
use crate::math::stable::{calc_out_given_in, stable_out_given_in};
use crate::state::pool::{
    balances_of, index_of_mint, set_balances, with_balances, Address, StablePool,
};
use vstd::prelude::*;

verus! {

/// What a swap in a stable pool pays out in scaled units, or why it is
/// refused, in the order of the checks: the pool is active, both amounts
/// are positive, both mints are tokens of the pool and differ, the amount
/// in fits in scaled units, the engine finds an amount out, the scaling
/// factor of the token out is not zero, the amount out net of the fee is
/// worth `min_amount_out` raw units at least, and both new balances fit
/// their width.
pub open spec fn stable_swap_amount_out(
    pool: StablePool,
    mint_in: Address,
    mint_out: Address,
    amount_in: u64,
    min_amount_out: u64,
) -> Result<u64, MiniStabbleError> {
    if !pool.is_active {
        Err(MiniStabbleError::PoolInActive)
    } else if amount_in == 0 || min_amount_out == 0 {
        Err(MiniStabbleError::InvalidAmount)
    } else {
        match (
            index_of_mint(pool.tokens@, mint_in, pool.tokens@.len()),
            index_of_mint(pool.tokens@, mint_out, pool.tokens@.len()),
        ) {
            (Some(i), Some(j)) => if i == j {
                Err(MiniStabbleError::InvalidMint)
            } else if amount_in * pool.tokens@[i as int].scaling_factor > u64::MAX {
                Err(MiniStabbleError::MathOverflow)
            } else {
                let scaled_in = (amount_in * pool.tokens@[i as int].scaling_factor) as u64;
                match stable_out_given_in(
                    pool.amp,
                    balances_of(pool.tokens@),
                    i as int,
                    j as int,
                    scaled_in,
                ) {
                    None => Err(MiniStabbleError::InvalidAmount),
                    Some(before_fee) => if pool.swap_fee > SCALE {
                        Err(MiniStabbleError::MathOverflow)
                    } else {
                        match (before_fee as u128).mul_down_spec((SCALE - pool.swap_fee) as u128) {
                            Err(e) => Err(e),
                            Ok(after_fee) => if after_fee > u64::MAX {
                                Err(MiniStabbleError::MathOverflow)
                            } else if pool.tokens@[j as int].scaling_factor == 0 {
                                Err(MiniStabbleError::DivideByZero)
                            } else if min_amount_out > after_fee / (
                            pool.tokens@[j as int].scaling_factor as u128) {
                                Err(MiniStabbleError::SlippageExceeded)
                            } else if after_fee > pool.tokens@[j as int].balance
                                || pool.tokens@[i as int].balance + scaled_in > u64::MAX {
                                Err(MiniStabbleError::MathOverflow)
                            } else {
                                Ok(after_fee as u64)
                            },
                        }
                    },
                }
            },
            _ => Err(MiniStabbleError::InvalidMint),
        }
    }
}

/// Swaps `amount_in` raw units of the token `mint_in` for the token
/// `mint_out`, of which the trader wants `min_amount_out` raw units at
/// least.
///
/// On success the pool's balance of the token in has grown by the scaled
/// amount in and its balance of the token out has shrunk by the scaled
/// amount out, net of the fee. A refused swap leaves the pool as it was; a
/// zero amount is refused as an invalid amount, and so is a swap for which
/// the engine finds no result.
pub fn handler(
    pool: &mut StablePool,
    mint_in: &Address,
    mint_out: &Address,
    amount_in: u64,
    min_amount_out: u64,
) -> (result: Result<SwapTransfers, MiniStabbleError>)
    ensures
        match result {
            Ok(transfers) => {
                let i = index_of_mint(old(pool).tokens@, *mint_in, old(pool).tokens@.len()).unwrap()
                    as int;
                let j = index_of_mint(
                    old(pool).tokens@,
                    *mint_out,
                    old(pool).tokens@.len(),
                ).unwrap() as int;
                let scaled_out = stable_swap_amount_out(
                    *old(pool),
                    *mint_in,
                    *mint_out,
                    amount_in,
                    min_amount_out,
                ).unwrap();
                &&& stable_swap_amount_out(
                    *old(pool),
                    *mint_in,
                    *mint_out,
                    amount_in,
                    min_amount_out,
                ).is_ok()
                &&& transfers.amount_in == amount_in
                &&& transfers.amount_out == scaled_out / old(pool).tokens@[j].scaling_factor
                &&& transfers.amount_out >= min_amount_out
                &&& final(pool).tokens@ == with_balances(
                    old(pool).tokens@,
                    i,
                    (old(pool).tokens@[i].balance + amount_in * old(
                        pool,
                    ).tokens@[i].scaling_factor) as u64,
                    j,
                    (old(pool).tokens@[j].balance - scaled_out) as u64,
                )
                &&& *final(pool) == (StablePool { tokens: final(pool).tokens, ..*old(pool) })
                &&& old(pool).well_formed() ==> final(pool).well_formed()
            },
            Err(e) => stable_swap_amount_out(
                *old(pool),
                *mint_in,
                *mint_out,
                amount_in,
                min_amount_out,
            ) == Err::<u64, MiniStabbleError>(e) && *final(pool) == *old(pool),
        },
        old(pool).is_active && (amount_in == 0 || min_amount_out == 0) ==> result == Err::<
            SwapTransfers,
            MiniStabbleError,
        >(MiniStabbleError::InvalidAmount),
{
    if !pool.is_active {
        return Err(MiniStabbleError::PoolInActive);
    }
    if amount_in == 0 || min_amount_out == 0 {
        return Err(MiniStabbleError::InvalidAmount);
    }
    let i = match pool.get_token_index(mint_in) {
        None => {
            return Err(MiniStabbleError::InvalidMint);
        },
        Some(v) => v,
    };
    let j = match pool.get_token_index(mint_out) {
        None => {
            return Err(MiniStabbleError::InvalidMint);
        },
        Some(v) => v,
    };
    if i == j {
        return Err(MiniStabbleError::InvalidMint);
    }
    let token_in = pool.tokens[i];
    let token_out = pool.tokens[j];
    let scaled_in = match token_in.checked_scale_amount_up(amount_in) {
        None => {
            return Err(MiniStabbleError::MathOverflow);
        },
        Some(v) => v,
    };
    let balances = pool.get_balances();
    let before_fee = match calc_out_given_in(pool.amp, balances.as_slice(), i, j, scaled_in) {
        None => {
            return Err(MiniStabbleError::InvalidAmount);
        },
        Some(v) => v,
    };
    if pool.swap_fee as u128 > SCALE {
        return Err(MiniStabbleError::MathOverflow);
    }
    let after_fee = match (before_fee as u128).mul_down(SCALE - pool.swap_fee as u128) {
        Err(e) => {
            return Err(e);
        },
        Ok(v) => v,
    };
    if after_fee > u64::MAX as u128 {
        return Err(MiniStabbleError::MathOverflow);
    }
    let scaled_out: u64 = after_fee as u64;
    let amount_out = match token_out.checked_scale_amount_down(scaled_out) {
        None => {
            return Err(MiniStabbleError::DivideByZero);
        },
        Some(v) => v,
    };
    if min_amount_out > amount_out {
        return Err(MiniStabbleError::SlippageExceeded);
    }
    if scaled_out > token_out.balance {
        return Err(MiniStabbleError::MathOverflow);
    }
    let new_balance_in = match token_in.balance.checked_add(scaled_in) {
        None => {
            return Err(MiniStabbleError::MathOverflow);
        },
        Some(v) => v,
    };
    let new_balance_out: u64 = token_out.balance - scaled_out;
    let ghost before = *pool;
    set_balances(&mut pool.tokens, i, new_balance_in, j, new_balance_out);
    proof {
        if before.well_formed() {
            before.lemma_well_formed_kept(*pool);
        }
    }
    Ok(SwapTransfers { amount_in, amount_out })
}

} // verus!
