//! A balanced deposit into a weighted pool.
use crate::errors::MiniStabbleError;
use crate::instructions::DepositTransfers;
use crate::math::fixed::{lemma_u64_product_fits, FixedDiv};
use crate::math::power::{integer_sqrt, sqrt_floor};
use crate::state::pool::{
    index_of_mint, set_balances, with_balances, Address, WeightedPool,
};
use vstd::prelude::*;

verus! {

/// The scaled amount of a token that `lp_amount` shares beside `lp_supply`
/// ask for: the fixed-point quotient of `lp_amount * balance` by
/// `lp_supply`, rounded up, where it fits 64 bits.
pub open spec fn required_for_shares(lp_amount: u64, balance: u64, lp_supply: u64) -> Result<
    u64,
    MiniStabbleError,
> {
    match ((lp_amount * balance) as u128).div_up_spec(lp_supply as u128) {
        Err(e) => Err(e),
        Ok(required) => if required > u64::MAX {
            Err(MiniStabbleError::MathOverflow)
        } else {
            Ok(required as u64)
        },
    }
}

/// The shares to mint and the scaled amounts of the two tokens that a
/// deposit takes, before the depositor's limits are tested. The first
/// deposit into a pool takes what is offered and mints the square root of
/// the product of the two scaled amounts; every later one takes what
/// `lp_amount` shares ask for.
pub open spec fn deposit_amounts(
    pool: WeightedPool,
    i: int,
    j: int,
    lp_supply: u64,
    lp_amount: u64,
    input_a: u64,
    input_b: u64,
) -> Result<(u64, u64, u64), MiniStabbleError> {
    if lp_supply == 0 {
        if input_a == 0 || input_b == 0 {
            Err(MiniStabbleError::InvalidAmount)
        } else if input_a * pool.tokens@[i].scaling_factor > u64::MAX || input_b
            * pool.tokens@[j].scaling_factor > u64::MAX {
            Err(MiniStabbleError::MathOverflow)
        } else {
            Ok(
                (
                    sqrt_floor(
                        (input_a * pool.tokens@[i].scaling_factor) * (input_b
                            * pool.tokens@[j].scaling_factor),
                    ) as u64,
                    (input_a * pool.tokens@[i].scaling_factor) as u64,
                    (input_b * pool.tokens@[j].scaling_factor) as u64,
                ),
            )
        }
    } else if lp_amount == 0 {
        Err(MiniStabbleError::InvalidAmount)
    } else {
        match required_for_shares(lp_amount, pool.tokens@[i].balance, lp_supply) {
            Err(e) => Err(e),
            Ok(required_a) => match required_for_shares(
                lp_amount,
                pool.tokens@[j].balance,
                lp_supply,
            ) {
                Err(e) => Err(e),
                Ok(required_b) => Ok((lp_amount, required_a, required_b)),
            },
        }
    }
}

/// The shares to mint and the scaled amounts that a deposit adds to the
/// pool's two balances, or why it is refused, in the order of the checks:
/// the pool is active, both mints are tokens of the pool and differ, the
/// amounts are valid, neither scaling factor is zero, neither raw amount
/// exceeds what the depositor offers, and both new balances fit their
/// width.
pub open spec fn deposit_plan(
    pool: WeightedPool,
    mint_a: Address,
    mint_b: Address,
    lp_supply: u64,
    lp_amount: u64,
    input_a: u64,
    input_b: u64,
) -> Result<(u64, u64, u64), MiniStabbleError> {
    if !pool.is_active {
        Err(MiniStabbleError::PoolInActive)
    } else {
        match (
            index_of_mint(pool.tokens@, mint_a, pool.tokens@.len()),
            index_of_mint(pool.tokens@, mint_b, pool.tokens@.len()),
        ) {
            (Some(i), Some(j)) => if i == j {
                Err(MiniStabbleError::InvalidMint)
            } else {
                match deposit_amounts(
                    pool,
                    i as int,
                    j as int,
                    lp_supply,
                    lp_amount,
                    input_a,
                    input_b,
                ) {
                    Err(e) => Err(e),
                    Ok((lp, required_a, required_b)) => if pool.tokens@[i as int].scaling_factor
                        == 0 || pool.tokens@[j as int].scaling_factor == 0 {
                        Err(MiniStabbleError::DivideByZero)
                    } else if required_a / pool.tokens@[i as int].scaling_factor > input_a
                        || required_b / pool.tokens@[j as int].scaling_factor > input_b {
                        Err(MiniStabbleError::SlippageExceeded)
                    } else if pool.tokens@[i as int].balance + required_a > u64::MAX
                        || pool.tokens@[j as int].balance + required_b > u64::MAX {
                        Err(MiniStabbleError::MathOverflow)
                    } else {
                        Ok((lp, required_a, required_b))
                    },
                }
            },
            _ => Err(MiniStabbleError::InvalidMint),
        }
    }
}

/// The scaled amount of a token that `lp_amount` shares ask for.
fn required_amount(lp_amount: u64, balance: u64, lp_supply: u64) -> (result: Result<
    u64,
    MiniStabbleError,
>)
    ensures
        result == required_for_shares(lp_amount, balance, lp_supply),
{
    proof {
        lemma_u64_product_fits(lp_amount, balance);
    }
    let product: u128 = (lp_amount as u128) * (balance as u128);
    match product.div_up(lp_supply as u128) {
        Err(e) => Err(e),
        Ok(required) => if required > u64::MAX as u128 {
            Err(MiniStabbleError::MathOverflow)
        } else {
            Ok(required as u64)
        },
    }
}

/// Deposits both tokens for pool shares, `lp_supply` shares being in
/// circulation. The first deposit takes `input_a` and `input_b`; a later
/// one takes what `lp_amount` shares ask for, at most `input_a` and
/// `input_b`.
///
/// On success each of the pool's two balances has grown by its scaled
/// amount. A refused deposit leaves the pool as it was; a zero amount is
/// refused as an invalid amount.
pub fn handler(
    pool: &mut WeightedPool,
    mint_a: &Address,
    mint_b: &Address,
    lp_supply: u64,
    lp_amount: u64,
    input_a: u64,
    input_b: u64,
) -> (result: Result<DepositTransfers, MiniStabbleError>)
    ensures
        match result {
            Ok(transfers) => {
                let i = index_of_mint(old(pool).tokens@, *mint_a, old(pool).tokens@.len()).unwrap()
                    as int;
                let j = index_of_mint(old(pool).tokens@, *mint_b, old(pool).tokens@.len()).unwrap()
                    as int;
                let plan = deposit_plan(
                    *old(pool),
                    *mint_a,
                    *mint_b,
                    lp_supply,
                    lp_amount,
                    input_a,
                    input_b,
                ).unwrap();
                &&& deposit_plan(
                    *old(pool),
                    *mint_a,
                    *mint_b,
                    lp_supply,
                    lp_amount,
                    input_a,
                    input_b,
                ).is_ok()
                &&& transfers.lp_to_mint == plan.0
                &&& transfers.amount_a == plan.1 / old(pool).tokens@[i].scaling_factor
                &&& transfers.amount_b == plan.2 / old(pool).tokens@[j].scaling_factor
                &&& transfers.amount_a <= input_a
                &&& transfers.amount_b <= input_b
                &&& final(pool).tokens@ == with_balances(
                    old(pool).tokens@,
                    i,
                    (old(pool).tokens@[i].balance + plan.1) as u64,
                    j,
                    (old(pool).tokens@[j].balance + plan.2) as u64,
                )
                &&& *final(pool) == (WeightedPool { tokens: final(pool).tokens, ..*old(pool) })
                &&& old(pool).well_formed() ==> final(pool).well_formed()
            },
            Err(e) => deposit_plan(
                *old(pool),
                *mint_a,
                *mint_b,
                lp_supply,
                lp_amount,
                input_a,
                input_b,
            ) == Err::<(u64, u64, u64), MiniStabbleError>(e) && *final(pool) == *old(pool),
        },
        lp_supply == 0 && (input_a == 0 || input_b == 0) ==> result.is_err(),
        lp_supply != 0 && lp_amount == 0 ==> result.is_err(),
{
    if !pool.is_active {
        return Err(MiniStabbleError::PoolInActive);
    }
    let i = match pool.get_token_index(mint_a) {
        None => {
            return Err(MiniStabbleError::InvalidMint);
        },
        Some(v) => v,
    };
    let j = match pool.get_token_index(mint_b) {
        None => {
            return Err(MiniStabbleError::InvalidMint);
        },
        Some(v) => v,
    };
    if i == j {
        return Err(MiniStabbleError::InvalidMint);
    }
    let token_a = pool.tokens[i];
    let token_b = pool.tokens[j];
    let lp_to_mint: u64;
    let required_a: u64;
    let required_b: u64;
    if lp_supply == 0 {
        if input_a == 0 || input_b == 0 {
            return Err(MiniStabbleError::InvalidAmount);
        }
        let scaled_a = match token_a.checked_scale_amount_up(input_a) {
            None => {
                return Err(MiniStabbleError::MathOverflow);
            },
            Some(v) => v,
        };
        let scaled_b = match token_b.checked_scale_amount_up(input_b) {
            None => {
                return Err(MiniStabbleError::MathOverflow);
            },
            Some(v) => v,
        };
        proof {
            lemma_u64_product_fits(scaled_a, scaled_b);
        }
        let product: u128 = (scaled_a as u128) * (scaled_b as u128);
        lp_to_mint = integer_sqrt(product) as u64;
        required_a = scaled_a;
        required_b = scaled_b;
    } else {
        if lp_amount == 0 {
            return Err(MiniStabbleError::InvalidAmount);
        }
        required_a = match required_amount(lp_amount, token_a.balance, lp_supply) {
            Err(e) => {
                return Err(e);
            },
            Ok(v) => v,
        };
        required_b = match required_amount(lp_amount, token_b.balance, lp_supply) {
            Err(e) => {
                return Err(e);
            },
            Ok(v) => v,
        };
        lp_to_mint = lp_amount;
    }
    let amount_a = match token_a.checked_scale_amount_down(required_a) {
        None => {
            return Err(MiniStabbleError::DivideByZero);
        },
        Some(v) => v,
    };
    let amount_b = match token_b.checked_scale_amount_down(required_b) {
        None => {
            return Err(MiniStabbleError::DivideByZero);
        },
        Some(v) => v,
    };
    if amount_a > input_a || amount_b > input_b {
        return Err(MiniStabbleError::SlippageExceeded);
    }
    let new_balance_a = match token_a.balance.checked_add(required_a) {
        None => {
            return Err(MiniStabbleError::MathOverflow);
        },
        Some(v) => v,
    };
    let new_balance_b = match token_b.balance.checked_add(required_b) {
        None => {
            return Err(MiniStabbleError::MathOverflow);
        },
        Some(v) => v,
    };
    let ghost before = *pool;
    set_balances(&mut pool.tokens, i, new_balance_a, j, new_balance_b);
    proof {
        if before.well_formed() {
            before.lemma_well_formed_kept(*pool);
        }
    }
    Ok(DepositTransfers { amount_a, amount_b, lp_to_mint })
}

} // verus!
