//! A balanced deposit into a stable pool.
use crate::errors::MiniStabbleError;
use crate::instructions::DepositTransfers;
use crate::math::fixed::lemma_u64_product_fits;
use crate::math::power::{integer_sqrt, sqrt_floor};
use crate::state::pool::{
    index_of_mint, set_balances, with_balances, Address, StablePool,
};
use vstd::prelude::*;

verus! {

/// The scaled amount of a token that `lp_amount` shares beside `lp_supply`
/// ask for: `balance * lp_amount / lp_supply`, rounded down, where the
/// product fits 64 bits.
pub open spec fn share_of_balance(balance: u64, lp_amount: u64, lp_supply: u64) -> Result<
    u64,
    MiniStabbleError,
> {
    if balance * lp_amount > u64::MAX || lp_supply == 0 {
        Err(MiniStabbleError::MathOverflow)
    } else {
        Ok((balance * lp_amount / (lp_supply as int)) as u64)
    }
}

/// The shares to mint and the scaled amounts that a deposit adds to the
/// pool's two balances, or why it is refused, in the order of the checks:
/// both limits are positive, the pool is active, both mints are tokens of
/// the pool and differ, both limits fit in scaled units, the amounts are
/// valid and within the limits, neither scaling factor is zero, and both
/// new balances fit their width.
pub open spec fn stable_deposit_plan(
    pool: StablePool,
    mint_a: Address,
    mint_b: Address,
    lp_supply: u64,
    max_amount_a: u64,
    max_amount_b: u64,
    lp_amount: u64,
) -> Result<(u64, u64, u64), MiniStabbleError> {
    if max_amount_a == 0 || max_amount_b == 0 {
        Err(MiniStabbleError::InvalidAmount)
    } else if !pool.is_active {
        Err(MiniStabbleError::PoolInActive)
    } else {
        match (
            index_of_mint(pool.tokens@, mint_a, pool.tokens@.len()),
            index_of_mint(pool.tokens@, mint_b, pool.tokens@.len()),
        ) {
            (Some(i), Some(j)) => if i == j {
                Err(MiniStabbleError::InvalidMint)
            } else if max_amount_a * pool.tokens@[i as int].scaling_factor > u64::MAX
                || max_amount_b * pool.tokens@[j as int].scaling_factor > u64::MAX {
                Err(MiniStabbleError::MathOverflow)
            } else {
                let limit_a = (max_amount_a * pool.tokens@[i as int].scaling_factor) as u64;
                let limit_b = (max_amount_b * pool.tokens@[j as int].scaling_factor) as u64;
                let amounts = if lp_supply == 0 {
                    Ok((sqrt_floor(limit_a * limit_b) as u64, limit_a, limit_b))
                } else if lp_amount == 0 {
                    Err(MiniStabbleError::InvalidAmount)
                } else {
                    match share_of_balance(pool.tokens@[i as int].balance, lp_amount, lp_supply) {
                        Err(e) => Err(e),
                        Ok(amount_a) => match share_of_balance(
                            pool.tokens@[j as int].balance,
                            lp_amount,
                            lp_supply,
                        ) {
                            Err(e) => Err(e),
                            Ok(amount_b) => Ok((lp_amount, amount_a, amount_b)),
                        },
                    }
                };
                match amounts {
                    Err(e) => Err(e),
                    Ok((lp, amount_a, amount_b)) => if amount_a > limit_a || amount_b > limit_b {
                        Err(MiniStabbleError::SlippageExceeded)
                    } else if pool.tokens@[i as int].scaling_factor == 0
                        || pool.tokens@[j as int].scaling_factor == 0 {
                        Err(MiniStabbleError::DivideByZero)
                    } else if pool.tokens@[i as int].balance + amount_a > u64::MAX
                        || pool.tokens@[j as int].balance + amount_b > u64::MAX {
                        Err(MiniStabbleError::MathOverflow)
                    } else {
                        Ok((lp, amount_a, amount_b))
                    },
                }
            },
            _ => Err(MiniStabbleError::InvalidMint),
        }
    }
}

/// The scaled amount of a token that `lp_amount` shares ask for.
fn share_amount(balance: u64, lp_amount: u64, lp_supply: u64) -> (result: Result<
    u64,
    MiniStabbleError,
>)
    ensures
        result == share_of_balance(balance, lp_amount, lp_supply),
{
    match balance.checked_mul(lp_amount) {
        None => Err(MiniStabbleError::MathOverflow),
        Some(product) => if lp_supply == 0 {
            Err(MiniStabbleError::MathOverflow)
        } else {
            Ok(product / lp_supply)
        },
    }
}

/// Deposits both tokens for pool shares, `lp_supply` shares being in
/// circulation. The first deposit takes both limits; a later one takes each
/// balance's share for `lp_amount` shares, within the limits.
///
/// On success each of the pool's two balances has grown by its scaled
/// amount. A refused deposit leaves the pool as it was; a zero amount is
/// refused as an invalid amount.
pub fn handler(
    pool: &mut StablePool,
    mint_a: &Address,
    mint_b: &Address,
    lp_supply: u64,
    max_amount_a: u64,
    max_amount_b: u64,
    lp_amount: u64,
) -> (result: Result<DepositTransfers, MiniStabbleError>)
    ensures
        match result {
            Ok(transfers) => {
                let i = index_of_mint(old(pool).tokens@, *mint_a, old(pool).tokens@.len()).unwrap()
                    as int;
                let j = index_of_mint(old(pool).tokens@, *mint_b, old(pool).tokens@.len()).unwrap()
                    as int;
                let plan = stable_deposit_plan(
                    *old(pool),
                    *mint_a,
                    *mint_b,
                    lp_supply,
                    max_amount_a,
                    max_amount_b,
                    lp_amount,
                ).unwrap();
                &&& stable_deposit_plan(
                    *old(pool),
                    *mint_a,
                    *mint_b,
                    lp_supply,
                    max_amount_a,
                    max_amount_b,
                    lp_amount,
                ).is_ok()
                &&& transfers.lp_to_mint == plan.0
                &&& transfers.amount_a == plan.1 / old(pool).tokens@[i].scaling_factor
                &&& transfers.amount_b == plan.2 / old(pool).tokens@[j].scaling_factor
                &&& final(pool).tokens@ == with_balances(
                    old(pool).tokens@,
                    i,
                    (old(pool).tokens@[i].balance + plan.1) as u64,
                    j,
                    (old(pool).tokens@[j].balance + plan.2) as u64,
                )
                &&& *final(pool) == (StablePool { tokens: final(pool).tokens, ..*old(pool) })
                &&& old(pool).well_formed() ==> final(pool).well_formed()
            },
            Err(e) => stable_deposit_plan(
                *old(pool),
                *mint_a,
                *mint_b,
                lp_supply,
                max_amount_a,
                max_amount_b,
                lp_amount,
            ) == Err::<(u64, u64, u64), MiniStabbleError>(e) && *final(pool) == *old(pool),
        },
        max_amount_a == 0 || max_amount_b == 0 ==> result == Err::<
            DepositTransfers,
            MiniStabbleError,
        >(MiniStabbleError::InvalidAmount),
{
    if max_amount_a == 0 || max_amount_b == 0 {
        return Err(MiniStabbleError::InvalidAmount);
    }
    if !pool.is_active {
        return Err(MiniStabbleError::PoolInActive);
    }
    let i = match pool.get_token_index(mint_a) {
        None => {
            return Err(MiniStabbleError::InvalidMint);
        },
        Some(v) => v,
    };
    let j = match pool.get_token_index(mint_b) {
        None => {
            return Err(MiniStabbleError::InvalidMint);
        },
        Some(v) => v,
    };
    if i == j {
        return Err(MiniStabbleError::InvalidMint);
    }
    let token_a = pool.tokens[i];
    let token_b = pool.tokens[j];
    let limit_a = match token_a.checked_scale_amount_up(max_amount_a) {
        None => {
            return Err(MiniStabbleError::MathOverflow);
        },
        Some(v) => v,
    };
    let limit_b = match token_b.checked_scale_amount_up(max_amount_b) {
        None => {
            return Err(MiniStabbleError::MathOverflow);
        },
        Some(v) => v,
    };
    let lp_to_mint: u64;
    let scaled_a: u64;
    let scaled_b: u64;
    if lp_supply == 0 {
        proof {
            lemma_u64_product_fits(limit_a, limit_b);
        }
        let product: u128 = (limit_a as u128) * (limit_b as u128);
        lp_to_mint = integer_sqrt(product) as u64;
        scaled_a = limit_a;
        scaled_b = limit_b;
    } else {
        if lp_amount == 0 {
            return Err(MiniStabbleError::InvalidAmount);
        }
        scaled_a = match share_amount(token_a.balance, lp_amount, lp_supply) {
            Err(e) => {
                return Err(e);
            },
            Ok(v) => v,
        };
        scaled_b = match share_amount(token_b.balance, lp_amount, lp_supply) {
            Err(e) => {
                return Err(e);
            },
            Ok(v) => v,
        };
        lp_to_mint = lp_amount;
    }
    if scaled_a > limit_a || scaled_b > limit_b {
        return Err(MiniStabbleError::SlippageExceeded);
    }
    let amount_a = match token_a.checked_scale_amount_down(scaled_a) {
        None => {
            return Err(MiniStabbleError::DivideByZero);
        },
        Some(v) => v,
    };
    let amount_b = match token_b.checked_scale_amount_down(scaled_b) {
        None => {
            return Err(MiniStabbleError::DivideByZero);
        },
        Some(v) => v,
    };
    let new_balance_a = match token_a.balance.checked_add(scaled_a) {
        None => {
            return Err(MiniStabbleError::MathOverflow);
        },
        Some(v) => v,
    };
    let new_balance_b = match token_b.balance.checked_add(scaled_b) {
        None => {
            return Err(MiniStabbleError::MathOverflow);
        },
        Some(v) => v,
    };
    let ghost before = *pool;
    set_balances(&mut pool.tokens, i, new_balance_a, j, new_balance_b);
    proof {
        if before.well_formed() {
            before.lemma_well_formed_kept(*pool);
        }
    }
    Ok(DepositTransfers { amount_a, amount_b, lp_to_mint })
}

} // verus!
