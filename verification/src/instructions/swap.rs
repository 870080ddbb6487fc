//! A swap in a weighted pool.
use crate::errors::MiniStabbleError;
use crate::instructions::SwapTransfers;
use crate::math::fixed::{FixedComplement, FixedMul};
use crate::math::fixed::{lemma_mul_brackets_exact, lemma_mul_fits_u128, SCALE};
use crate::math::power_laws::{lemma_mul_inequalities, lemma_pow_base_monotone};
use crate::math::weighted::{calc_out_given_in, exact_product, out_given_in};
use vstd::arithmetic::power::pow;
use crate::state::pool::{
    index_of_mint, set_balances, with_balances, Address, WeightedPool,
};
use vstd::prelude::*;

verus! {

/// What a swap pays out, or why it is refused, in the order of the checks:
/// the pool is active, both mints are tokens of the pool and differ, both
/// amounts are positive, the amount out net of the fee is at least
/// `min_amount_out`, and both new balances fit their width.
pub open spec fn swap_amount_out(
    pool: WeightedPool,
    mint_in: Address,
    mint_out: Address,
    amount_in: u64,
    min_amount_out: u64,
) -> Result<u64, MiniStabbleError> {
    if !pool.is_active {
        Err(MiniStabbleError::PoolInActive)
    } else {
        match (
            index_of_mint(pool.tokens@, mint_in, pool.tokens@.len()),
            index_of_mint(pool.tokens@, mint_out, pool.tokens@.len()),
        ) {
            (Some(i), Some(j)) => if i == j {
                Err(MiniStabbleError::InvalidMint)
            } else if amount_in == 0 || min_amount_out == 0 {
                Err(MiniStabbleError::InvalidAmount)
            } else {
                match out_given_in(
                    pool.tokens@[i as int].balance as u128,
                    pool.tokens@[i as int].weight as u128,
                    pool.tokens@[j as int].balance as u128,
                    pool.tokens@[j as int].weight as u128,
                    amount_in as u128,
                ) {
                    Err(e) => Err(e),
                    Ok(before_fee) => match before_fee.mul_down_spec(
                        pool.swap_fee.complement_spec() as u128,
                    ) {
                        Err(e) => Err(e),
                        Ok(after_fee) => if after_fee < min_amount_out {
                            Err(MiniStabbleError::SlippageExceeded)
                        } else if after_fee > pool.tokens@[j as int].balance
                            || pool.tokens@[i as int].balance + amount_in > u64::MAX {
                            Err(MiniStabbleError::MathOverflow)
                        } else {
                            Ok(after_fee as u64)
                        },
                    },
                }
            },
            _ => Err(MiniStabbleError::InvalidMint),
        }
    }
}

/// Swaps `amount_in` of the token `mint_in` for the token `mint_out`, of
/// which the trader wants `min_amount_out` at least.
///
/// On success the pool's balance of the token in has grown by `amount_in`
/// and its balance of the token out has shrunk by what is paid out, and the
/// exact weighted product of the two balances has not decreased. A refused
/// swap leaves the pool as it was; a zero amount is refused as an invalid
/// amount.
pub fn handler(
    pool: &mut WeightedPool,
    mint_in: &Address,
    mint_out: &Address,
    amount_in: u64,
    min_amount_out: u64,
) -> (result: Result<SwapTransfers, MiniStabbleError>)
    ensures
        match result {
            Ok(transfers) => {
                let i = index_of_mint(old(pool).tokens@, *mint_in, old(pool).tokens@.len()).unwrap()
                    as int;
                let j = index_of_mint(
                    old(pool).tokens@,
                    *mint_out,
                    old(pool).tokens@.len(),
                ).unwrap() as int;
                &&& swap_amount_out(*old(pool), *mint_in, *mint_out, amount_in, min_amount_out)
                    == Ok::<u64, MiniStabbleError>(transfers.amount_out)
                &&& transfers.amount_in == amount_in
                &&& transfers.amount_out >= min_amount_out
                &&& final(pool).tokens@ == with_balances(
                    old(pool).tokens@,
                    i,
                    (old(pool).tokens@[i].balance + amount_in) as u64,
                    j,
                    (old(pool).tokens@[j].balance - transfers.amount_out) as u64,
                )
                &&& *final(pool) == (WeightedPool { tokens: final(pool).tokens, ..*old(pool) })
                &&& old(pool).well_formed() ==> final(pool).well_formed()
                &&& exact_product(
                    final(pool).tokens@[i].balance as int,
                    old(pool).tokens@[i].weight as nat,
                    final(pool).tokens@[j].balance as int,
                    old(pool).tokens@[j].weight as nat,
                ) >= exact_product(
                    old(pool).tokens@[i].balance as int,
                    old(pool).tokens@[i].weight as nat,
                    old(pool).tokens@[j].balance as int,
                    old(pool).tokens@[j].weight as nat,
                )
            },
            Err(e) => swap_amount_out(*old(pool), *mint_in, *mint_out, amount_in, min_amount_out)
                == Err::<u64, MiniStabbleError>(e) && *final(pool) == *old(pool),
        },
        amount_in == 0 || min_amount_out == 0 ==> result.is_err(),
{
    if !pool.is_active {
        return Err(MiniStabbleError::PoolInActive);
    }
    let i = match pool.get_token_index(mint_in) {
        None => {
            return Err(MiniStabbleError::InvalidMint);
        },
        Some(v) => v,
    };
    let j = match pool.get_token_index(mint_out) {
        None => {
            return Err(MiniStabbleError::InvalidMint);
        },
        Some(v) => v,
    };
    if i == j {
        return Err(MiniStabbleError::InvalidMint);
    }
    if amount_in == 0 || min_amount_out == 0 {
        return Err(MiniStabbleError::InvalidAmount);
    }
    let token_in = pool.tokens[i];
    let token_out = pool.tokens[j];
    let before_fee = match calc_out_given_in(
        token_in.balance as u128,
        token_in.weight as u128,
        token_out.balance as u128,
        token_out.weight as u128,
        amount_in as u128,
    ) {
        Err(e) => {
            return Err(e);
        },
        Ok(v) => v,
    };
    let after_fee = match before_fee.mul_down(pool.swap_fee.complement() as u128) {
        Err(e) => {
            return Err(e);
        },
        Ok(v) => v,
    };
    if after_fee < min_amount_out as u128 {
        return Err(MiniStabbleError::SlippageExceeded);
    }
    if after_fee > token_out.balance as u128 {
        return Err(MiniStabbleError::MathOverflow);
    }
    let amount_out: u64 = after_fee as u64;
    proof {
        // The fee only lowers what is paid out, so the product only grows.
        let keeps = pool.swap_fee.complement_spec() as u128;
        lemma_mul_fits_u128(before_fee, keeps);
        lemma_mul_brackets_exact(before_fee as int, keeps as int);
        assert(after_fee <= before_fee) by (nonlinear_arith)
            requires
                after_fee * SCALE <= before_fee * keeps,
                0 <= keeps <= SCALE,
                0 <= before_fee,
                SCALE > 0,
        ;
        let w_in = token_in.weight as nat;
        let w_out = token_out.weight as nat;
        lemma_pow_base_monotone(
            token_out.balance - before_fee,
            token_out.balance - after_fee,
            w_out,
        );
        lemma_pow_base_monotone(0, token_in.balance + amount_in, w_in);
        lemma_mul_inequalities(
            pow(token_in.balance + amount_in, w_in),
            pow(token_in.balance + amount_in, w_in),
            pow(token_out.balance - before_fee, w_out),
            pow(token_out.balance - after_fee, w_out),
        );
    }
    let new_balance_in = match token_in.balance.checked_add(amount_in) {
        None => {
            return Err(MiniStabbleError::MathOverflow);
        },
        Some(v) => v,
    };
    let new_balance_out: u64 = token_out.balance - amount_out;
    let ghost before = *pool;
    set_balances(&mut pool.tokens, i, new_balance_in, j, new_balance_out);
    proof {
        if before.well_formed() {
            before.lemma_well_formed_kept(*pool);
        }
    }
    Ok(SwapTransfers { amount_in, amount_out })
}

} // verus!
