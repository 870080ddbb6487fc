//! A deposit into a weighted pool in any proportion of its two tokens.
//!
//! The part of the deposit that matches the pool's proportion is taken as
//! it is. What the depositor pays of one token beyond that proportion pays
//! the swap fee, and the shares are minted for the growth of the invariant
//! net of that fee.
use crate::errors::MiniStabbleError;
use crate::instructions::DepositTransfers;
use crate::math::fixed::{lemma_u64_product_fits, ONE, SCALE};
use crate::math::weighted::{calc_invariant, calc_lp_to_mint, lp_to_mint, weighted_invariant};
use crate::state::pool::{
    index_of_mint, set_balances, with_balances, Address, WeightedPool,
};
use vstd::prelude::*;

verus! {

/// The two scaled amounts that count towards the shares, net of the fee on
/// the excess: the token paid beyond the pool's proportion counts with its
/// balanced part and with the rest less `swap_fee`.
pub open spec fn effective_deposit(
    scaled_a: u64,
    scaled_b: u64,
    vault_a: u64,
    vault_b: u64,
    swap_fee: u64,
) -> Result<(u128, u128), MiniStabbleError> {
    if scaled_b == 0 || vault_b == 0 || swap_fee > SCALE {
        Err(MiniStabbleError::MathOverflow)
    } else {
        let deposit_ratio = scaled_a * SCALE / (scaled_b as int);
        let pool_ratio = vault_a * SCALE / (vault_b as int);
        if deposit_ratio > pool_ratio {
            let balanced = pool_ratio * scaled_b / (SCALE as int);
            if pool_ratio * scaled_b > u128::MAX || balanced > scaled_a {
                Err(MiniStabbleError::MathOverflow)
            } else {
                let after_fee = (scaled_a - balanced) * (SCALE - swap_fee) / (SCALE as int);
                Ok(((balanced + after_fee) as u128, scaled_b as u128))
            }
        } else if pool_ratio == 0 {
            Err(MiniStabbleError::MathOverflow)
        } else {
            let balanced = scaled_a * SCALE / pool_ratio;
            if balanced > scaled_b {
                Err(MiniStabbleError::MathOverflow)
            } else {
                let after_fee = (scaled_b - balanced) * (SCALE - swap_fee) / (SCALE as int);
                Ok((scaled_a as u128, (balanced + after_fee) as u128))
            }
        }
    }
}

/// The shares that a deposit of the two scaled amounts mints:
/// `lp_supply * (k_new / k_old - 1)`, where `k_new` is the invariant with
/// the effective deposit added to the two balances.
pub open spec fn shares_for_deposit(
    vault_a: u64,
    weight_a: u64,
    vault_b: u64,
    weight_b: u64,
    effective: (u128, u128),
    lp_supply: u64,
) -> Result<u128, MiniStabbleError> {
    match weighted_invariant(
        seq![vault_a as u128, vault_b as u128],
        seq![weight_a as u128, weight_b as u128],
    ) {
        Err(e) => Err(e),
        Ok(k_old) => if vault_a + effective.0 > u128::MAX || vault_b + effective.1 > u128::MAX {
            Err(MiniStabbleError::MathOverflow)
        } else {
            match weighted_invariant(
                seq![(vault_a + effective.0) as u128, (vault_b + effective.1) as u128],
                seq![weight_a as u128, weight_b as u128],
            ) {
                Err(e) => Err(e),
                Ok(k_new) => lp_to_mint(lp_supply as u128, k_new, k_old, ONE),
            }
        },
    }
}

/// The shares that an unbalanced deposit mints, or why it is refused, in
/// the order of the checks: all three amounts are positive, the pool is
/// active, both mints are tokens of the pool and differ, both amounts fit
/// in scaled units, the effective deposit and the shares can be computed,
/// the shares are `min_lp_amount` at least, and both new balances fit their
/// width.
pub open spec fn unbalanced_deposit_shares(
    pool: WeightedPool,
    mint_a: Address,
    mint_b: Address,
    lp_supply: u64,
    min_lp_amount: u64,
    input_a: u64,
    input_b: u64,
) -> Result<u64, MiniStabbleError> {
    if min_lp_amount == 0 || input_a == 0 || input_b == 0 {
        Err(MiniStabbleError::InvalidAmount)
    } else if !pool.is_active {
        Err(MiniStabbleError::PoolInActive)
    } else {
        match (
            index_of_mint(pool.tokens@, mint_a, pool.tokens@.len()),
            index_of_mint(pool.tokens@, mint_b, pool.tokens@.len()),
        ) {
            (Some(i), Some(j)) => if i == j {
                Err(MiniStabbleError::InvalidMint)
            } else if input_a * pool.tokens@[i as int].scaling_factor > u64::MAX || input_b
                * pool.tokens@[j as int].scaling_factor > u64::MAX {
                Err(MiniStabbleError::MathOverflow)
            } else {
                let token_a = pool.tokens@[i as int];
                let token_b = pool.tokens@[j as int];
                let scaled_a = (input_a * token_a.scaling_factor) as u64;
                let scaled_b = (input_b * token_b.scaling_factor) as u64;
                match effective_deposit(
                    scaled_a,
                    scaled_b,
                    token_a.balance,
                    token_b.balance,
                    pool.swap_fee,
                ) {
                    Err(e) => Err(e),
                    Ok(effective) => match shares_for_deposit(
                        token_a.balance,
                        token_a.weight,
                        token_b.balance,
                        token_b.weight,
                        effective,
                        lp_supply,
                    ) {
                        Err(e) => Err(e),
                        Ok(shares) => if shares < min_lp_amount {
                            Err(MiniStabbleError::SlippageExceeded)
                        } else if shares > u64::MAX || token_a.balance + scaled_a > u64::MAX
                            || token_b.balance + scaled_b > u64::MAX {
                            Err(MiniStabbleError::MathOverflow)
                        } else {
                            Ok(shares as u64)
                        },
                    },
                }
            },
            _ => Err(MiniStabbleError::InvalidMint),
        }
    }
}

/// The two scaled amounts that count towards the shares.
fn effective_amounts(scaled_a: u64, scaled_b: u64, vault_a: u64, vault_b: u64, swap_fee: u64) -> (result:
    Result<(u128, u128), MiniStabbleError>)
    ensures
        result == effective_deposit(scaled_a, scaled_b, vault_a, vault_b, swap_fee),
{
    if scaled_b == 0 || vault_b == 0 || swap_fee as u128 > SCALE {
        return Err(MiniStabbleError::MathOverflow);
    }
    proof {
        lemma_u64_product_fits(scaled_a, 1_000_000_000);
        lemma_u64_product_fits(vault_a, 1_000_000_000);
    }
    let deposit_ratio: u128 = (scaled_a as u128) * SCALE / (scaled_b as u128);
    let pool_ratio: u128 = (vault_a as u128) * SCALE / (vault_b as u128);
    let keeps: u128 = SCALE - swap_fee as u128;
    if deposit_ratio > pool_ratio {
        let balanced = match pool_ratio.checked_mul(scaled_b as u128) {
            None => {
                return Err(MiniStabbleError::MathOverflow);
            },
            Some(product) => product / SCALE,
        };
        if balanced > scaled_a as u128 {
            return Err(MiniStabbleError::MathOverflow);
        }
        let excess: u128 = scaled_a as u128 - balanced;
        proof {
            lemma_excess_after_fee(excess as int, keeps as int);
        }
        let after_fee: u128 = excess * keeps / SCALE;
        Ok((balanced + after_fee, scaled_b as u128))
    } else {
        if pool_ratio == 0 {
            return Err(MiniStabbleError::MathOverflow);
        }
        let balanced: u128 = (scaled_a as u128) * SCALE / pool_ratio;
        if balanced > scaled_b as u128 {
            return Err(MiniStabbleError::MathOverflow);
        }
        let excess: u128 = scaled_b as u128 - balanced;
        proof {
            lemma_excess_after_fee(excess as int, keeps as int);
        }
        let after_fee: u128 = excess * keeps / SCALE;
        Ok((scaled_a as u128, balanced + after_fee))
    }
}

/// What is left of an excess after the fee is at most the excess.
pub proof fn lemma_excess_after_fee(excess: int, keeps: int)
    requires
        0 <= excess <= u64::MAX,
        0 <= keeps <= SCALE,
    ensures
        0 <= excess * keeps <= u64::MAX * SCALE,
        0 <= excess * keeps / (SCALE as int) <= excess,
{
    assert(0 <= excess * keeps <= excess * SCALE) by (nonlinear_arith)
        requires
            0 <= excess,
            0 <= keeps <= SCALE,
    ;
    assert(excess * SCALE <= u64::MAX * SCALE) by (nonlinear_arith)
        requires
            excess <= u64::MAX,
    ;
    vstd::arithmetic::div_mod::lemma_div_is_ordered(excess * keeps, excess * SCALE, SCALE as int);
    vstd::arithmetic::div_mod::lemma_div_multiples_vanish(excess, SCALE as int);
    assert(excess * SCALE == (SCALE as int) * excess) by (nonlinear_arith);
    vstd::arithmetic::div_mod::lemma_div_pos_is_pos(excess * keeps, SCALE as int);
}

/// The shares that a deposit of the two scaled amounts mints.
fn shares_of(
    vault_a: u64,
    weight_a: u64,
    vault_b: u64,
    weight_b: u64,
    effective: (u128, u128),
    lp_supply: u64,
) -> (result: Result<u128, MiniStabbleError>)
    ensures
        result == shares_for_deposit(vault_a, weight_a, vault_b, weight_b, effective, lp_supply),
{
    let weights = vec![weight_a as u128, weight_b as u128];
    let balances = vec![vault_a as u128, vault_b as u128];
    assert(weights@ =~= seq![weight_a as u128, weight_b as u128]);
    assert(balances@ =~= seq![vault_a as u128, vault_b as u128]);
    let k_old = match calc_invariant(balances.as_slice(), weights.as_slice()) {
        Err(e) => {
            return Err(e);
        },
        Ok(v) => v,
    };
    let new_a = match (vault_a as u128).checked_add(effective.0) {
        None => {
            return Err(MiniStabbleError::MathOverflow);
        },
        Some(v) => v,
    };
    let new_b = match (vault_b as u128).checked_add(effective.1) {
        None => {
            return Err(MiniStabbleError::MathOverflow);
        },
        Some(v) => v,
    };
    let new_balances = vec![new_a, new_b];
    assert(new_balances@ =~= seq![new_a, new_b]);
    let k_new = match calc_invariant(new_balances.as_slice(), weights.as_slice()) {
        Err(e) => {
            return Err(e);
        },
        Ok(v) => v,
    };
    calc_lp_to_mint(lp_supply as u128, k_new, k_old, ONE)
}

/// Deposits `input_a` and `input_b` raw units of the two tokens for
/// `min_lp_amount` pool shares at least, `lp_supply` shares being in
/// circulation.
///
/// On success each of the pool's two balances has grown by its scaled
/// amount. A refused deposit leaves the pool as it was; a zero amount is
/// refused as an invalid amount.
pub fn handler(
    pool: &mut WeightedPool,
    mint_a: &Address,
    mint_b: &Address,
    lp_supply: u64,
    min_lp_amount: u64,
    input_a: u64,
    input_b: u64,
) -> (result: Result<DepositTransfers, MiniStabbleError>)
    ensures
        match result {
            Ok(transfers) => {
                let i = index_of_mint(old(pool).tokens@, *mint_a, old(pool).tokens@.len()).unwrap()
                    as int;
                let j = index_of_mint(old(pool).tokens@, *mint_b, old(pool).tokens@.len()).unwrap()
                    as int;
                &&& unbalanced_deposit_shares(
                    *old(pool),
                    *mint_a,
                    *mint_b,
                    lp_supply,
                    min_lp_amount,
                    input_a,
                    input_b,
                ) == Ok::<u64, MiniStabbleError>(transfers.lp_to_mint)
                &&& transfers.lp_to_mint >= min_lp_amount
                &&& transfers.amount_a == input_a
                &&& transfers.amount_b == input_b
                &&& final(pool).tokens@ == with_balances(
                    old(pool).tokens@,
                    i,
                    (old(pool).tokens@[i].balance + input_a * old(
                        pool,
                    ).tokens@[i].scaling_factor) as u64,
                    j,
                    (old(pool).tokens@[j].balance + input_b * old(
                        pool,
                    ).tokens@[j].scaling_factor) as u64,
                )
                &&& *final(pool) == (WeightedPool { tokens: final(pool).tokens, ..*old(pool) })
                &&& old(pool).well_formed() ==> final(pool).well_formed()
            },
            Err(e) => unbalanced_deposit_shares(
                *old(pool),
                *mint_a,
                *mint_b,
                lp_supply,
                min_lp_amount,
                input_a,
                input_b,
            ) == Err::<u64, MiniStabbleError>(e) && *final(pool) == *old(pool),
        },
        min_lp_amount == 0 || input_a == 0 || input_b == 0 ==> result == Err::<
            DepositTransfers,
            MiniStabbleError,
        >(MiniStabbleError::InvalidAmount),
{
    if min_lp_amount == 0 || input_a == 0 || input_b == 0 {
        return Err(MiniStabbleError::InvalidAmount);
    }
    if !pool.is_active {
        return Err(MiniStabbleError::PoolInActive);
    }
    let i = match pool.get_token_index(mint_a) {
        None => {
            return Err(MiniStabbleError::InvalidMint);
        },
        Some(v) => v,
    };
    let j = match pool.get_token_index(mint_b) {
        None => {
            return Err(MiniStabbleError::InvalidMint);
        },
        Some(v) => v,
    };
    if i == j {
        return Err(MiniStabbleError::InvalidMint);
    }
    let token_a = pool.tokens[i];
    let token_b = pool.tokens[j];
    let scaled_a = match token_a.checked_scale_amount_up(input_a) {
        None => {
            return Err(MiniStabbleError::MathOverflow);
        },
        Some(v) => v,
    };
    let scaled_b = match token_b.checked_scale_amount_up(input_b) {
        None => {
            return Err(MiniStabbleError::MathOverflow);
        },
        Some(v) => v,
    };
    let effective = match effective_amounts(
        scaled_a,
        scaled_b,
        token_a.balance,
        token_b.balance,
        pool.swap_fee,
    ) {
        Err(e) => {
            return Err(e);
        },
        Ok(v) => v,
    };
    let shares = match shares_of(
        token_a.balance,
        token_a.weight,
        token_b.balance,
        token_b.weight,
        effective,
        lp_supply,
    ) {
        Err(e) => {
            return Err(e);
        },
        Ok(v) => v,
    };
    if shares < min_lp_amount as u128 {
        return Err(MiniStabbleError::SlippageExceeded);
    }
    if shares > u64::MAX as u128 {
        return Err(MiniStabbleError::MathOverflow);
    }
    let new_balance_a = match token_a.balance.checked_add(scaled_a) {
        None => {
            return Err(MiniStabbleError::MathOverflow);
        },
        Some(v) => v,
    };
    let new_balance_b = match token_b.balance.checked_add(scaled_b) {
        None => {
            return Err(MiniStabbleError::MathOverflow);
        },
        Some(v) => v,
    };
    let ghost before = *pool;
    set_balances(&mut pool.tokens, i, new_balance_a, j, new_balance_b);
    proof {
        if before.well_formed() {
            before.lemma_well_formed_kept(*pool);
        }
    }
    Ok(DepositTransfers { amount_a: input_a, amount_b: input_b, lp_to_mint: shares as u64 })
}

} // verus!
