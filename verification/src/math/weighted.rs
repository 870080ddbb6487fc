//! The constant-weighted-product pool: `k = prod(balance_i ^ weight_i)`.
//!
//! Each rounding is chosen so that a trader never gains from it: what leaves
//! the pool is rounded down, what enters it is rounded up.
use crate::errors::MiniStabbleError;
use crate::math::fixed::{
    lemma_div_brackets_exact, lemma_div_fits_u128, lemma_div_up_antitone, lemma_floor_ceil,
    lemma_mul_brackets_exact, lemma_mul_fits_u128, FixedComplement, FixedDiv, FixedMul, FixedPow,
    ONE, SCALE,
};
use crate::math::power::{
    frac_pow_rounded, lemma_mul_rounded_monotone, lemma_pow_monotone_in_base, lemma_pow_of_one,
    lemma_root_fits, lemma_sqrt_floor_exists, sqrt_floor,
};
use crate::math::power_laws::{
    lemma_cancel, lemma_dominated_carries_over, lemma_dominates_carries_over,
    lemma_dominates_relaxed, lemma_dominates_relaxed_down, lemma_dominates_scaled,
    lemma_dominates_unscaled, lemma_mul_inequalities, lemma_pow_base_monotone,
    lemma_pow_down_dominated, lemma_pow_root, lemma_pow_up_dominates,
    lemma_scale_power_positive,
};
use vstd::arithmetic::power::pow;
use vstd::prelude::*;

verus! {

/// The running product of `calc_invariant` after the first `count` tokens,
/// every power and every product rounded down.
pub open spec fn invariant_product(balances: Seq<u128>, weights: Seq<u128>, count: nat) -> Result<
    u128,
    MiniStabbleError,
>
    decreases count,
{
    if count == 0 {
        Ok(ONE)
    } else {
        match invariant_product(balances, weights, (count - 1) as nat) {
            Err(e) => Err(e),
            Ok(before) => match balances[count - 1].pow_down_spec(weights[count - 1]) {
                Err(e) => Err(e),
                Ok(power) => before.mul_down_spec(power),
            },
        }
    }
}

/// The exact weighted product of the first `count` balances, over the
/// integers: the product of `balance_i^weight_i`.
pub open spec fn exact_weighted_product(balances: Seq<u128>, weights: Seq<u128>, count: nat) -> int
    decreases count,
{
    if count == 0 {
        1
    } else {
        exact_weighted_product(balances, weights, (count - 1) as nat) * pow(
            balances[count - 1] as int,
            weights[count - 1] as nat,
        )
    }
}

/// The sum of the first `count` weights.
pub open spec fn weight_total(weights: Seq<u128>, count: nat) -> nat
    decreases count,
{
    if count == 0 {
        0
    } else {
        weight_total(weights, (count - 1) as nat) + weights[count - 1] as nat
    }
}

/// The running product, rounded down at every step, is at most the exact
/// weighted product: `(k / SCALE)^SCALE <= prod((balance_i / SCALE)^weight_i)`,
/// written as `k^SCALE * SCALE^W <= prod(balance_i^weight_i) * SCALE^SCALE`
/// with `W` the sum of the weights.
pub proof fn lemma_invariant_product_at_most_exact(
    balances: Seq<u128>,
    weights: Seq<u128>,
    count: nat,
)
    requires
        invariant_product(balances, weights, count).is_ok(),
    ensures
        0 <= exact_weighted_product(balances, weights, count),
        pow(invariant_product(balances, weights, count).unwrap() as int, SCALE as nat) * pow(
            SCALE as int,
            weight_total(weights, count),
        ) <= exact_weighted_product(balances, weights, count) * pow(SCALE as int, SCALE as nat),
    decreases count,
{
    let scale = SCALE as int;
    let s = SCALE as nat;
    if count == 0 {
        vstd::arithmetic::power::lemma_pow0(scale);
    } else {
        let fewer = (count - 1) as nat;
        lemma_invariant_product_at_most_exact(balances, weights, fewer);
        let before = invariant_product(balances, weights, fewer).unwrap();
        let balance = balances[count - 1];
        let weight = weights[count - 1] as nat;
        let power = balance.pow_down_spec(weights[count - 1]).unwrap();
        let after = invariant_product(balances, weights, count).unwrap();
        lemma_pow_down_dominated(balance, weights[count - 1]);
        lemma_mul_fits_u128(before, power);
        lemma_mul_brackets_exact(before as int, power as int);
        assert(after * scale <= before * power);
        // after^S * S^S <= before^S * power^S
        lemma_mul_inequalities(0, after as int, 0, scale);
        lemma_pow_base_monotone(after * scale, before * power, s);
        vstd::arithmetic::power::lemma_pow_distributes(after as int, scale, s);
        vstd::arithmetic::power::lemma_pow_distributes(before as int, power as int, s);
        let total_before = weight_total(weights, fewer);
        vstd::arithmetic::power::lemma_pow_adds(scale, total_before, weight);
        lemma_scale_power_positive(s);
        lemma_scale_power_positive(total_before);
        lemma_scale_power_positive(weight);
        lemma_pow_base_monotone(0, after as int, s);
        lemma_pow_base_monotone(0, before as int, s);
        lemma_pow_base_monotone(0, power as int, s);
        lemma_pow_base_monotone(0, balance as int, weight);
        let a_s = pow(after as int, s);
        let b_s = pow(before as int, s);
        let p_s = pow(power as int, s);
        let k_s = pow(scale, s);
        let k_b = pow(scale, total_before);
        let k_w = pow(scale, weight);
        let exact_before = exact_weighted_product(balances, weights, fewer);
        let term = pow(balance as int, weight);
        assert(a_s * k_s <= b_s * p_s);
        assert(b_s * k_b <= exact_before * k_s);
        assert(p_s * k_w <= term * k_s);
        lemma_mul_inequalities(0, b_s, 0, k_b);
        lemma_mul_inequalities(0, p_s, 0, k_w);
        lemma_mul_inequalities(b_s * k_b, exact_before * k_s, p_s * k_w, term * k_s);
        lemma_mul_inequalities(0, exact_before, 0, term);
        assert((a_s * (k_b * k_w)) * k_s <= ((exact_before * term) * k_s) * k_s)
            by (nonlinear_arith)
            requires
                a_s * k_s <= b_s * p_s,
                (b_s * k_b) * (p_s * k_w) <= (exact_before * k_s) * (term * k_s),
                k_b > 0,
                k_w > 0,
                k_s > 0,
                a_s >= 0,
                b_s >= 0,
                p_s >= 0,
        ;
        lemma_cancel((exact_before * term) * k_s, a_s * (k_b * k_w), k_s);
    }
}

/// What `calc_invariant` returns.
pub open spec fn weighted_invariant(balances: Seq<u128>, weights: Seq<u128>) -> Result<
    u128,
    MiniStabbleError,
> {
    if balances.len() != weights.len() || balances.len() == 0 {
        Err(MiniStabbleError::InvalidAmount)
    } else {
        match invariant_product(balances, weights, balances.len()) {
            Err(e) => Err(e),
            Ok(product) => if product > 0 {
                Ok(product)
            } else {
                Err(MiniStabbleError::InvalidAmount)
            },
        }
    }
}

/// The invariant of a weighted pool: the product of the balances, each
/// raised to its weight, every power and product rounded down, so that the
/// result `k` is at most the exact product:
/// `(k / SCALE)^SCALE <= prod((balance_i / SCALE)^weight_i)`.
///
/// Lists of different lengths, an empty list and a zero invariant are
/// refused as an invalid amount.
pub fn calc_invariant(balances: &[u128], weights: &[u128]) -> (result: Result<
    u128,
    MiniStabbleError,
>)
    ensures
        result == weighted_invariant(balances@, weights@),
        balances@.len() != weights@.len() || balances@.len() == 0 ==> result == Err::<
            u128,
            MiniStabbleError,
        >(MiniStabbleError::InvalidAmount),
        result != Ok::<u128, MiniStabbleError>(0),
        result.is_ok() ==> pow(result.unwrap() as int, SCALE as nat) * pow(
            SCALE as int,
            weight_total(weights@, weights@.len()),
        ) <= exact_weighted_product(balances@, weights@, balances@.len()) * pow(
            SCALE as int,
            SCALE as nat,
        ),
{
    if balances.len() != weights.len() || balances.len() == 0 {
        return Err(MiniStabbleError::InvalidAmount);
    }
    proof {
        if invariant_product(balances@, weights@, balances@.len()).is_ok() {
            lemma_invariant_product_at_most_exact(balances@, weights@, balances@.len());
        }
    }
    let mut product: u128 = ONE;
    let mut index: usize = 0;
    while index < balances.len()
        invariant
            balances@.len() == weights@.len(),
            index <= balances@.len(),
            invariant_product(balances@, weights@, index as nat) == Ok::<u128, MiniStabbleError>(
                product,
            ),
        decreases balances@.len() - index,
    {
        let power = match balances[index].pow_down(weights[index]) {
            Err(e) => {
                proof {
                    lemma_invariant_product_fails(balances@, weights@, index as nat + 1, e);
                    assert(invariant_product(balances@, weights@, balances@.len()).is_err());
                }
                return Err(e);
            },
            Ok(v) => v,
        };
        product = match product.mul_down(power) {
            Err(e) => {
                proof {
                    lemma_invariant_product_fails(balances@, weights@, index as nat + 1, e);
                    assert(invariant_product(balances@, weights@, balances@.len()).is_err());
                }
                return Err(e);
            },
            Ok(v) => v,
        };
        index = index + 1;
    }
    if product > 0 {
        Ok(product)
    } else {
        Err(MiniStabbleError::InvalidAmount)
    }
}

/// Once the running product has failed, it fails with the same error for
/// every longer prefix.
pub proof fn lemma_invariant_product_fails(
    balances: Seq<u128>,
    weights: Seq<u128>,
    count: nat,
    e: MiniStabbleError,
)
    requires
        invariant_product(balances, weights, count) == Err::<u128, MiniStabbleError>(e),
    ensures
        forall|longer: nat|
            count <= longer ==> #[trigger] invariant_product(balances, weights, longer) == Err::<
                u128,
                MiniStabbleError,
            >(e),
{
    assert forall|longer: nat| count <= longer implies #[trigger] invariant_product(
        balances,
        weights,
        longer,
    ) == Err::<u128, MiniStabbleError>(e) by {
        lemma_invariant_product_fails_at(balances, weights, count, longer, e);
    }
}

proof fn lemma_invariant_product_fails_at(
    balances: Seq<u128>,
    weights: Seq<u128>,
    count: nat,
    longer: nat,
    e: MiniStabbleError,
)
    requires
        invariant_product(balances, weights, count) == Err::<u128, MiniStabbleError>(e),
        count <= longer,
    ensures
        invariant_product(balances, weights, longer) == Err::<u128, MiniStabbleError>(e),
    decreases longer,
{
    if longer > count {
        lemma_invariant_product_fails_at(balances, weights, count, (longer - 1) as nat, e);
    }
}

/// The exact weighted product of two balances, `a^weight_a * b^weight_b`,
/// over the integers.
pub open spec fn exact_product(a: int, weight_a: nat, b: int, weight_b: nat) -> int {
    pow(a, weight_a) * pow(b, weight_b)
}

/// What `calc_out_given_in` returns: an amount or a weight of zero is an
/// invalid amount, and else the formula with its roundings.
pub open spec fn out_given_in(
    balance_in: u128,
    weight_in: u128,
    balance_out: u128,
    weight_out: u128,
    amount_in: u128,
) -> Result<u128, MiniStabbleError> {
    if amount_in == 0 || weight_in == 0 || weight_out == 0 {
        Err(MiniStabbleError::InvalidAmount)
    } else if balance_in + amount_in > u128::MAX {
        Err(MiniStabbleError::MathOverflow)
    } else {
        match balance_in.div_up_spec((balance_in + amount_in) as u128) {
            Err(e) => Err(e),
            Ok(base) => match weight_in.div_down_spec(weight_out) {
                Err(e) => Err(e),
                Ok(exponent) => match base.pow_up_spec(exponent) {
                    Err(e) => Err(e),
                    Ok(power) => balance_out.mul_down_spec(power.complement_spec()),
                },
            },
        }
    }
}

/// The amount that leaves the pool for `amount_in`:
/// `balance_out * (1 - (balance_in / (balance_in + amount_in)) ^ (weight_in / weight_out))`.
///
/// The ratio of the balances is rounded up, the ratio of the weights down,
/// the power up and the final product down, so the amount is rounded down:
/// the pool never pays out more than it holds, and the exact weighted
/// product of its two balances does not decrease.
///
/// An amount in of zero and a weight of zero are refused as an invalid
/// amount, before any arithmetic.
pub fn calc_out_given_in(
    balance_in: u128,
    weight_in: u128,
    balance_out: u128,
    weight_out: u128,
    amount_in: u128,
) -> (result: Result<u128, MiniStabbleError>)
    ensures
        result == out_given_in(balance_in, weight_in, balance_out, weight_out, amount_in),
        amount_in == 0 || weight_in == 0 || weight_out == 0 ==> result == Err::<
            u128,
            MiniStabbleError,
        >(MiniStabbleError::InvalidAmount),
        result.is_ok() ==> result.unwrap() <= balance_out && exact_product(
            balance_in + amount_in,
            weight_in as nat,
            balance_out - result.unwrap(),
            weight_out as nat,
        ) >= exact_product(
            balance_in as int,
            weight_in as nat,
            balance_out as int,
            weight_out as nat,
        ),
{
    proof {
        if out_given_in(balance_in, weight_in, balance_out, weight_out, amount_in).is_ok() {
            lemma_out_given_in_keeps_invariant(
                balance_in,
                weight_in,
                balance_out,
                weight_out,
                amount_in,
            );
        }
    }
    if amount_in == 0 || weight_in == 0 || weight_out == 0 {
        return Err(MiniStabbleError::InvalidAmount);
    }
    let new_balance_in = match balance_in.checked_add(amount_in) {
        None => {
            return Err(MiniStabbleError::MathOverflow);
        },
        Some(v) => v,
    };
    let base = match balance_in.div_up(new_balance_in) {
        Err(e) => {
            return Err(e);
        },
        Ok(v) => v,
    };
    let exponent = match weight_in.div_down(weight_out) {
        Err(e) => {
            return Err(e);
        },
        Ok(v) => v,
    };
    let power = match base.pow_up(exponent) {
        Err(e) => {
            return Err(e);
        },
        Ok(v) => v,
    };
    let complement = power.complement();
    balance_out.mul_down(complement)
}

/// What `calc_in_given_out` returns: an amount or a weight of zero is an
/// invalid amount, and else the formula with its roundings.
pub open spec fn in_given_out(
    balance_in: u128,
    weight_in: u128,
    balance_out: u128,
    weight_out: u128,
    amount_out: u128,
) -> Result<u128, MiniStabbleError> {
    if amount_out == 0 || weight_in == 0 || weight_out == 0 {
        Err(MiniStabbleError::InvalidAmount)
    } else if amount_out > balance_out {
        Err(MiniStabbleError::MathOverflow)
    } else {
        match balance_out.div_up_spec((balance_out - amount_out) as u128) {
            Err(e) => Err(e),
            Ok(base) => match weight_out.div_up_spec(weight_in) {
                Err(e) => Err(e),
                Ok(exponent) => match base.pow_up_spec(exponent) {
                    Err(e) => Err(e),
                    Ok(power) => if power < ONE {
                        Err(MiniStabbleError::MathOverflow)
                    } else {
                        balance_in.mul_up_spec((power - ONE) as u128)
                    },
                },
            },
        }
    }
}

/// The amount that must enter the pool for `amount_out` to leave it:
/// `balance_in * ((balance_out / (balance_out - amount_out)) ^ (weight_out / weight_in) - 1)`.
///
/// Both ratios, the power and the final product are rounded up, so the
/// amount is rounded up: the exact weighted product of the pool's two
/// balances does not decrease.
///
/// An amount out of zero and a weight of zero are refused as an invalid
/// amount, before any arithmetic.
pub fn calc_in_given_out(
    balance_in: u128,
    weight_in: u128,
    balance_out: u128,
    weight_out: u128,
    amount_out: u128,
) -> (result: Result<u128, MiniStabbleError>)
    ensures
        result == in_given_out(balance_in, weight_in, balance_out, weight_out, amount_out),
        amount_out == 0 || weight_in == 0 || weight_out == 0 ==> result == Err::<
            u128,
            MiniStabbleError,
        >(MiniStabbleError::InvalidAmount),
        result.is_ok() ==> amount_out < balance_out && exact_product(
            balance_in + result.unwrap(),
            weight_in as nat,
            balance_out - amount_out,
            weight_out as nat,
        ) >= exact_product(
            balance_in as int,
            weight_in as nat,
            balance_out as int,
            weight_out as nat,
        ),
{
    proof {
        if in_given_out(balance_in, weight_in, balance_out, weight_out, amount_out).is_ok() {
            lemma_in_given_out_keeps_invariant(
                balance_in,
                weight_in,
                balance_out,
                weight_out,
                amount_out,
            );
        }
    }
    if amount_out == 0 || weight_in == 0 || weight_out == 0 {
        return Err(MiniStabbleError::InvalidAmount);
    }
    let new_balance_out = match balance_out.checked_sub(amount_out) {
        None => {
            return Err(MiniStabbleError::MathOverflow);
        },
        Some(v) => v,
    };
    let base = match balance_out.div_up(new_balance_out) {
        Err(e) => {
            return Err(e);
        },
        Ok(v) => v,
    };
    let exponent = match weight_out.div_up(weight_in) {
        Err(e) => {
            return Err(e);
        },
        Ok(v) => v,
    };
    let power = match base.pow_up(exponent) {
        Err(e) => {
            return Err(e);
        },
        Ok(v) => v,
    };
    let growth = match power.checked_sub(ONE) {
        None => {
            return Err(MiniStabbleError::MathOverflow);
        },
        Some(v) => v,
    };
    balance_in.mul_up(growth)
}

/// What `calc_lp_to_mint` returns.
pub open spec fn lp_to_mint(lp_supply: u128, k_new: u128, k_old: u128, sum_of_weights: u128) -> Result<
    u128,
    MiniStabbleError,
> {
    match k_new.div_down_spec(k_old) {
        Err(e) => Err(e),
        Ok(base) => match base.pow_down_spec(sum_of_weights) {
            Err(e) => Err(e),
            Ok(power) => if power < ONE {
                Err(MiniStabbleError::MathOverflow)
            } else {
                lp_supply.mul_down_spec((power - ONE) as u128)
            },
        },
    }
}

/// The pool shares to mint when the invariant grows from `k_old` to `k_new`:
/// `lp_supply * ((k_new / k_old) ^ sum_of_weights - 1)`, rounded down
/// throughout, so that the supply never grows by more than the exact power:
/// `(lp_supply + minted) / lp_supply <= (k_new / k_old)^(sum_of_weights / SCALE)`.
pub fn calc_lp_to_mint(lp_supply: u128, k_new: u128, k_old: u128, sum_of_weights: u128) -> (result:
    Result<u128, MiniStabbleError>)
    ensures
        result == lp_to_mint(lp_supply, k_new, k_old, sum_of_weights),
        result.is_ok() ==> pow(lp_supply + result.unwrap(), SCALE as nat) * pow(
            k_old as int,
            sum_of_weights as nat,
        ) <= pow(lp_supply as int, SCALE as nat) * pow(k_new as int, sum_of_weights as nat),
{
    proof {
        if lp_to_mint(lp_supply, k_new, k_old, sum_of_weights).is_ok() {
            lemma_lp_to_mint_at_most_exact(lp_supply, k_new, k_old, sum_of_weights);
        }
    }
    let base = match k_new.div_down(k_old) {
        Err(e) => {
            return Err(e);
        },
        Ok(v) => v,
    };
    let power = match base.pow_down(sum_of_weights) {
        Err(e) => {
            return Err(e);
        },
        Ok(v) => v,
    };
    let growth = match power.checked_sub(ONE) {
        None => {
            return Err(MiniStabbleError::MathOverflow);
        },
        Some(v) => v,
    };
    lp_supply.mul_down(growth)
}

/// The shares minted never exceed the exact growth of the invariant:
/// `((lp_supply + minted) / lp_supply)^SCALE <= (k_new / k_old)^sum_of_weights`.
pub proof fn lemma_lp_to_mint_at_most_exact(
    lp_supply: u128,
    k_new: u128,
    k_old: u128,
    sum_of_weights: u128,
)
    requires
        lp_to_mint(lp_supply, k_new, k_old, sum_of_weights).is_ok(),
    ensures
        pow(
            lp_supply + lp_to_mint(lp_supply, k_new, k_old, sum_of_weights).unwrap(),
            SCALE as nat,
        ) * pow(k_old as int, sum_of_weights as nat) <= pow(lp_supply as int, SCALE as nat) * pow(
            k_new as int,
            sum_of_weights as nat,
        ),
{
    let s = SCALE as int;
    let base = k_new.div_down_spec(k_old).unwrap();
    lemma_div_fits_u128(k_new, k_old);
    lemma_div_brackets_exact(k_new as int, k_old as int);
    let power = base.pow_down_spec(sum_of_weights).unwrap();
    lemma_pow_down_dominated(base, sum_of_weights);
    let growth = (power - ONE) as u128;
    let minted = lp_to_mint(lp_supply, k_new, k_old, sum_of_weights).unwrap();
    lemma_mul_fits_u128(lp_supply, growth);
    lemma_mul_brackets_exact(lp_supply as int, growth as int);
    assert(minted * s <= lp_supply * growth);
    assert((lp_supply + minted) * s <= lp_supply * power) by (nonlinear_arith)
        requires
            minted * s <= lp_supply * growth,
            growth == power - s,
    ;
    lemma_dominated_carries_over(
        power as int,
        base as int,
        sum_of_weights as nat,
        SCALE as nat,
        lp_supply + minted,
        lp_supply as int,
        k_old as int,
        k_new as int,
    );
}

/// For a fixed pool, a larger amount paid in never buys less: wherever
/// both swaps succeed, the amount out does not decrease with the amount in.
pub proof fn lemma_out_given_in_monotone(
    balance_in: u128,
    weight_in: u128,
    balance_out: u128,
    weight_out: u128,
    amount1: u128,
    amount2: u128,
)
    requires
        amount1 <= amount2,
        out_given_in(balance_in, weight_in, balance_out, weight_out, amount1).is_ok(),
        out_given_in(balance_in, weight_in, balance_out, weight_out, amount2).is_ok(),
    ensures
        out_given_in(balance_in, weight_in, balance_out, weight_out, amount1).unwrap()
            <= out_given_in(balance_in, weight_in, balance_out, weight_out, amount2).unwrap(),
{
    let d1 = (balance_in + amount1) as u128;
    let d2 = (balance_in + amount2) as u128;
    lemma_div_up_antitone(balance_in as int, d1 as int, d2 as int);
    lemma_div_fits_u128(balance_in, d1);
    lemma_div_fits_u128(balance_in, d2);
    let base1 = balance_in.div_up_spec(d1).unwrap();
    let base2 = balance_in.div_up_spec(d2).unwrap();
    assert(base2 <= base1);
    let exponent = weight_in.div_down_spec(weight_out).unwrap();
    lemma_pow_monotone_in_base(base2, base1, exponent, true);
    let power1 = base1.pow_up_spec(exponent).unwrap();
    let power2 = base2.pow_up_spec(exponent).unwrap();
    lemma_mul_rounded_monotone(
        balance_out,
        power1.complement_spec(),
        balance_out,
        power2.complement_spec(),
        false,
    );
}

/// For a fixed pool, a larger amount taken out never costs less: wherever
/// both swaps succeed, the amount in does not decrease with the amount out.
pub proof fn lemma_in_given_out_monotone(
    balance_in: u128,
    weight_in: u128,
    balance_out: u128,
    weight_out: u128,
    amount1: u128,
    amount2: u128,
)
    requires
        amount1 <= amount2,
        in_given_out(balance_in, weight_in, balance_out, weight_out, amount1).is_ok(),
        in_given_out(balance_in, weight_in, balance_out, weight_out, amount2).is_ok(),
    ensures
        in_given_out(balance_in, weight_in, balance_out, weight_out, amount1).unwrap()
            <= in_given_out(balance_in, weight_in, balance_out, weight_out, amount2).unwrap(),
{
    let d1 = (balance_out - amount1) as u128;
    let d2 = (balance_out - amount2) as u128;
    lemma_div_up_antitone(balance_out as int, d2 as int, d1 as int);
    lemma_div_fits_u128(balance_out, d1);
    lemma_div_fits_u128(balance_out, d2);
    let base1 = balance_out.div_up_spec(d1).unwrap();
    let base2 = balance_out.div_up_spec(d2).unwrap();
    assert(base1 <= base2);
    let exponent = weight_out.div_up_spec(weight_in).unwrap();
    lemma_pow_monotone_in_base(base1, base2, exponent, true);
    let power1 = base1.pow_up_spec(exponent).unwrap();
    let power2 = base2.pow_up_spec(exponent).unwrap();
    lemma_mul_rounded_monotone(
        balance_in,
        (power1 - ONE) as u128,
        balance_in,
        (power2 - ONE) as u128,
        true,
    );
}

/// A quotient rounded up of a number by one that is not smaller is at most
/// one, and times the divisor it is at least the scaled number.
proof fn lemma_ratio_at_most_one(part: u128, whole: u128)
    requires
        part <= whole,
        part.div_up_spec(whole).is_ok(),
    ensures
        part.div_up_spec(whole).unwrap() <= ONE,
        part.div_up_spec(whole).unwrap() * whole >= part * SCALE,
{
    let s = SCALE as int;
    let n = part * s;
    let d = whole as int;
    assert(0 <= n <= s * d) by (nonlinear_arith)
        requires
            0 <= part <= whole,
            n == part * s,
            d == whole,
            s == 1_000_000_000,
    ;
    lemma_floor_ceil(n, d);
    lemma_div_fits_u128(part, whole);
    vstd::arithmetic::div_mod::lemma_div_is_ordered(n + d - 1, s * d + d - 1, d);
    assert(d * s == s * d) by (nonlinear_arith);
    vstd::arithmetic::div_mod::lemma_fundamental_div_mod_converse(s * d + d - 1, d, s, d - 1);
}

/// A swap never lowers the invariant: with what `calc_out_given_in` pays
/// out, the exact weighted product of the two balances after the swap is at
/// least the product before it.
///
/// The ratio of the balances and the power are rounded up and the ratio of
/// the weights down, so the power is at least the exact power, and the
/// amount out, rounded down once more, at most the exact amount.
pub proof fn lemma_out_given_in_keeps_invariant(
    balance_in: u128,
    weight_in: u128,
    balance_out: u128,
    weight_out: u128,
    amount_in: u128,
)
    requires
        out_given_in(balance_in, weight_in, balance_out, weight_out, amount_in).is_ok(),
    ensures
        out_given_in(balance_in, weight_in, balance_out, weight_out, amount_in).unwrap()
            <= balance_out,
        exact_product(
            balance_in + amount_in,
            weight_in as nat,
            balance_out - out_given_in(
                balance_in,
                weight_in,
                balance_out,
                weight_out,
                amount_in,
            ).unwrap(),
            weight_out as nat,
        ) >= exact_product(
            balance_in as int,
            weight_in as nat,
            balance_out as int,
            weight_out as nat,
        ),
{
    let s = SCALE as int;
    let scale = SCALE as nat;
    let w_in = weight_in as nat;
    let w_out = weight_out as nat;
    let total = (balance_in + amount_in) as u128;
    let base = balance_in.div_up_spec(total).unwrap();
    lemma_ratio_at_most_one(balance_in, total);
    let exponent = weight_in.div_down_spec(weight_out).unwrap();
    lemma_div_fits_u128(weight_in, weight_out);
    lemma_div_brackets_exact(weight_in as int, weight_out as int);
    let power = base.pow_up_spec(exponent).unwrap();
    // (power / S)^S >= (base / S)^exponent, so (power / S)^w_out >= (base / S)^w_in.
    lemma_pow_up_dominates(base, exponent);
    lemma_dominates_scaled(power as int, base as int, exponent as nat, scale, w_out);
    assert((exponent as nat) * w_out <= w_in * scale) by (nonlinear_arith)
        requires
            exponent * weight_out <= weight_in * s,
            w_in == weight_in,
            w_out == weight_out,
            scale == s,
    ;
    lemma_dominates_relaxed(
        power as int,
        base as int,
        (exponent as nat) * w_out,
        w_in * scale,
        scale * w_out,
    );
    assert(scale * w_out == w_out * scale) by (nonlinear_arith);
    lemma_dominates_unscaled(power as int, base as int, w_in, w_out, scale);
    // What is left of the balance out is at least its share `power`.
    lemma_pow_of_one(exponent, true);
    lemma_pow_monotone_in_base(base, ONE, exponent, true);
    let share = power.complement_spec();
    assert(share == s - power);
    let out = out_given_in(balance_in, weight_in, balance_out, weight_out, amount_in).unwrap();
    lemma_mul_fits_u128(balance_out, share);
    lemma_mul_brackets_exact(balance_out as int, share as int);
    assert(out * s <= balance_out * share);
    assert(out <= balance_out && balance_out * power <= (balance_out - out) * s)
        by (nonlinear_arith)
        requires
            out * s <= balance_out * share,
            share == s - power,
            0 <= power <= s,
            0 <= out,
            0 <= balance_out,
            s > 0,
    ;
    lemma_dominates_carries_over(
        power as int,
        base as int,
        w_in,
        w_out,
        balance_out - out,
        balance_out as int,
        total as int,
        balance_in as int,
    );
    assert(pow(total as int, w_in) * pow(balance_out - out, w_out) == pow(
        balance_out - out,
        w_out,
    ) * pow(total as int, w_in)) by (nonlinear_arith);
    assert(pow(balance_in as int, w_in) * pow(balance_out as int, w_out) == pow(
        balance_out as int,
        w_out,
    ) * pow(balance_in as int, w_in)) by (nonlinear_arith);
}

/// A swap never lowers the invariant: with what `calc_in_given_out` asks
/// for, the exact weighted product of the two balances after the swap is at
/// least the product before it.
///
/// Both ratios and the power are rounded up, so the power is at least the
/// exact power, and the amount in, rounded up once more, at least the exact
/// amount.
pub proof fn lemma_in_given_out_keeps_invariant(
    balance_in: u128,
    weight_in: u128,
    balance_out: u128,
    weight_out: u128,
    amount_out: u128,
)
    requires
        in_given_out(balance_in, weight_in, balance_out, weight_out, amount_out).is_ok(),
    ensures
        amount_out < balance_out,
        exact_product(
            balance_in + in_given_out(
                balance_in,
                weight_in,
                balance_out,
                weight_out,
                amount_out,
            ).unwrap(),
            weight_in as nat,
            balance_out - amount_out,
            weight_out as nat,
        ) >= exact_product(
            balance_in as int,
            weight_in as nat,
            balance_out as int,
            weight_out as nat,
        ),
{
    let s = SCALE as int;
    let scale = SCALE as nat;
    let w_in = weight_in as nat;
    let w_out = weight_out as nat;
    let rest = (balance_out - amount_out) as u128;
    let base = balance_out.div_up_spec(rest).unwrap();
    lemma_div_fits_u128(balance_out, rest);
    lemma_div_brackets_exact(balance_out as int, rest as int);
    assert(base >= s) by (nonlinear_arith)
        requires
            base * rest >= balance_out * s,
            balance_out >= rest,
            rest > 0,
            s > 0,
    ;
    let exponent = weight_out.div_up_spec(weight_in).unwrap();
    lemma_div_fits_u128(weight_out, weight_in);
    lemma_div_brackets_exact(weight_out as int, weight_in as int);
    let power = base.pow_up_spec(exponent).unwrap();
    // (power / S)^S >= (base / S)^exponent, so (power / S)^w_in >= (base / S)^w_out.
    lemma_pow_up_dominates(base, exponent);
    lemma_dominates_scaled(power as int, base as int, exponent as nat, scale, w_in);
    assert((exponent as nat) * w_in >= w_out * scale) by (nonlinear_arith)
        requires
            exponent * weight_in >= weight_out * s,
            w_in == weight_in,
            w_out == weight_out,
            scale == s,
    ;
    lemma_dominates_relaxed_down(
        power as int,
        base as int,
        (exponent as nat) * w_in,
        w_out * scale,
        scale * w_in,
    );
    assert(scale * w_in == w_in * scale) by (nonlinear_arith);
    lemma_dominates_unscaled(power as int, base as int, w_out, w_in, scale);
    // The balance in grows by at least the growth of the power.
    let growth = (power - ONE) as u128;
    let amount_in = in_given_out(balance_in, weight_in, balance_out, weight_out, amount_out).unwrap();
    lemma_mul_fits_u128(balance_in, growth);
    lemma_mul_brackets_exact(balance_in as int, growth as int);
    assert(amount_in * s >= balance_in * growth);
    assert((balance_in + amount_in) * s >= balance_in * power) by (nonlinear_arith)
        requires
            amount_in * s >= balance_in * growth,
            growth == power - s,
    ;
    lemma_dominates_carries_over(
        power as int,
        base as int,
        w_out,
        w_in,
        balance_in + amount_in,
        balance_in as int,
        rest as int,
        balance_out as int,
    );
}

/// A round trip never gains: swapping `amount_in` and then swapping what
/// came out back into the pool as it then stands returns at most
/// `amount_in`, whatever the two weights. Neither swap lowers the
/// invariant, so the balance that the round trip leaves is at least the
/// balance that it started from.
pub proof fn lemma_round_trip_never_gains(
    balance_in: u128,
    weight_in: u128,
    balance_out: u128,
    weight_out: u128,
    amount_in: u128,
)
    requires
        out_given_in(balance_in, weight_in, balance_out, weight_out, amount_in).is_ok(),
        out_given_in(
            (balance_out - out_given_in(
                balance_in,
                weight_in,
                balance_out,
                weight_out,
                amount_in,
            ).unwrap()) as u128,
            weight_out,
            (balance_in + amount_in) as u128,
            weight_in,
            out_given_in(balance_in, weight_in, balance_out, weight_out, amount_in).unwrap(),
        ).is_ok(),
    ensures
        out_given_in(balance_in, weight_in, balance_out, weight_out, amount_in).unwrap()
            <= balance_out,
        out_given_in(
            (balance_out - out_given_in(
                balance_in,
                weight_in,
                balance_out,
                weight_out,
                amount_in,
            ).unwrap()) as u128,
            weight_out,
            (balance_in + amount_in) as u128,
            weight_in,
            out_given_in(balance_in, weight_in, balance_out, weight_out, amount_in).unwrap(),
        ).unwrap() <= amount_in,
{
    let w_in = weight_in as nat;
    let w_out = weight_out as nat;
    let out = out_given_in(balance_in, weight_in, balance_out, weight_out, amount_in).unwrap();
    lemma_out_given_in_keeps_invariant(balance_in, weight_in, balance_out, weight_out, amount_in);
    let rest = (balance_out - out) as u128;
    let total = (balance_in + amount_in) as u128;
    let back = out_given_in(rest, weight_out, total, weight_in, out).unwrap();
    lemma_out_given_in_keeps_invariant(rest, weight_out, total, weight_in, out);
    assert(rest + out == balance_out);
    // bo^w_out * (total - back)^w_in >= rest^w_out * total^w_in >= bo^w_out * bi^w_in
    let kept = total - back;
    let b_out = pow(balance_out as int, w_out);
    let left = pow(kept, w_in);
    let before = pow(balance_in as int, w_in);
    assert(b_out * left >= pow(rest as int, w_out) * pow(total as int, w_in));
    assert(pow(total as int, w_in) * pow(rest as int, w_out) >= before * b_out);
    assert(pow(rest as int, w_out) * pow(total as int, w_in) == pow(total as int, w_in) * pow(
        rest as int,
        w_out,
    )) by (nonlinear_arith);
    assert(left * b_out >= before * b_out) by (nonlinear_arith)
        requires
            b_out * left >= pow(rest as int, w_out) * pow(total as int, w_in),
            pow(rest as int, w_out) * pow(total as int, w_in) >= before * b_out,
    ;
    vstd::arithmetic::power::lemma_pow_positive(balance_out as int, w_out);
    lemma_cancel(left, before, b_out);
    lemma_pow_root(kept, balance_in as int, w_in);
}

/// A pool of one token whose weight is one has that token's balance as its
/// invariant.
pub proof fn lemma_single_token_invariant(balance: u128)
    requires
        0 < balance,
        balance * SCALE <= u128::MAX,
    ensures
        weighted_invariant(seq![balance], seq![ONE]) == Ok::<u128, MiniStabbleError>(balance),
{
    let balances = seq![balance];
    let weights = seq![ONE];
    assert(invariant_product(balances, weights, 0) == Ok::<u128, MiniStabbleError>(ONE));
    assert(balances[0].pow_down_spec(weights[0]) == Ok::<u128, MiniStabbleError>(balance));
    vstd::arithmetic::div_mod::lemma_div_multiples_vanish(balance as int, SCALE as int);
    assert(ONE * balance == (SCALE as int) * (balance as int));
    assert(ONE.mul_down_spec(balance) == Ok::<u128, MiniStabbleError>(balance));
    assert(invariant_product(balances, weights, 1) == Ok::<u128, MiniStabbleError>(balance));
}

/// The weight one half.
pub const HALF: u128 = 500_000_000;

/// The power one half, rounded down, is the square root rounded down.
pub proof fn lemma_pow_half_is_sqrt(balance: u128)
    requires
        balance * SCALE <= u128::MAX,
    ensures
        balance.pow_down_spec(HALF) == Ok::<u128, MiniStabbleError>(
            sqrt_floor(balance * SCALE) as u128,
        ),
        0 <= sqrt_floor(balance * SCALE) <= u64::MAX,
{
    assert(0 <= balance * SCALE) by (nonlinear_arith)
        requires
            0 <= balance,
    ;
    lemma_root_fits(balance * SCALE);
    let root = sqrt_floor(balance * SCALE) as u128;
    assert(HALF / SCALE == 0);
    assert(HALF % SCALE == 500_000_000);
    assert(500_000_000 * 1_073_741_824 / 1_000_000_000 == 536_870_912int);
    assert((500_000_000 * 1_073_741_824 + 999_999_999) / 1_000_000_000 == 536_870_912int);
    vstd::arithmetic::div_mod::lemma_div_multiples_vanish(root as int, SCALE as int);
    assert(ONE * root == (SCALE as int) * (root as int));
    assert(ONE.mul_down_spec(root) == Ok::<u128, MiniStabbleError>(root));
    reveal_with_fuel(frac_pow_rounded, 3);
    assert(frac_pow_rounded(balance, 536_870_912, 536_870_912, ONE, false) == Ok::<
        u128,
        MiniStabbleError,
    >(root));
}

/// A pool of two tokens of weight one half each has the geometric mean of
/// the two balances as its invariant, rounded down: the product of the two
/// square roots, whose square is at most the product of the balances. A
/// mean that rounds to zero is refused as an invalid amount.
pub proof fn lemma_equal_weights_give_geometric_mean(balance0: u128, balance1: u128)
    requires
        balance0 * SCALE <= u128::MAX,
        balance1 * SCALE <= u128::MAX,
    ensures
        ({
            let mean = sqrt_floor(balance0 * SCALE) * sqrt_floor(balance1 * SCALE) / (
            SCALE as int);
            &&& 0 <= mean <= u128::MAX
            &&& mean * mean <= balance0 * balance1
            &&& weighted_invariant(seq![balance0, balance1], seq![HALF, HALF]) == if mean > 0 {
                Ok::<u128, MiniStabbleError>(mean as u128)
            } else {
                Err::<u128, MiniStabbleError>(MiniStabbleError::InvalidAmount)
            }
        }),
{
    let s = SCALE as int;
    let balances = seq![balance0, balance1];
    let weights = seq![HALF, HALF];
    lemma_pow_half_is_sqrt(balance0);
    lemma_pow_half_is_sqrt(balance1);
    let n0 = balance0 * SCALE;
    let n1 = balance1 * SCALE;
    assert(0 <= n0 && 0 <= n1) by (nonlinear_arith)
        requires
            n0 == balance0 * 1_000_000_000,
            n1 == balance1 * 1_000_000_000,
            0 <= balance0,
            0 <= balance1,
    ;
    lemma_sqrt_floor_exists(n0);
    lemma_sqrt_floor_exists(n1);
    let r0 = sqrt_floor(n0) as u128;
    let r1 = sqrt_floor(n1) as u128;
    crate::math::fixed::lemma_u64_product_fits(r0 as u64, r1 as u64);
    lemma_mul_fits_u128(r0, r1);
    let mean = r0 * r1 / s;
    assert(balances[0] == balance0 && balances[1] == balance1);
    assert(weights[0] == HALF && weights[1] == HALF);
    assert(invariant_product(balances, weights, 0) == Ok::<u128, MiniStabbleError>(ONE));
    vstd::arithmetic::div_mod::lemma_div_multiples_vanish(r0 as int, s);
    assert(ONE * r0 == s * (r0 as int));
    assert(ONE.mul_down_spec(r0) == Ok::<u128, MiniStabbleError>(r0));
    assert(invariant_product(balances, weights, 1) == Ok::<u128, MiniStabbleError>(r0));
    assert(r0.mul_down_spec(r1) == Ok::<u128, MiniStabbleError>(mean as u128));
    reveal_with_fuel(invariant_product, 3);
    assert(invariant_product(balances, weights, 2) == Ok::<u128, MiniStabbleError>(mean as u128));
    let m = r0 * r1;
    assert(0 <= m) by (nonlinear_arith)
        requires
            m == r0 * r1,
            0 <= r0,
            0 <= r1,
    ;
    lemma_floor_ceil(m, s);
    assert(mean * mean <= balance0 * balance1) by (nonlinear_arith)
        requires
            0 <= mean,
            mean * s <= m,
            m == r0 * r1,
            r0 * r0 <= n0,
            r1 * r1 <= n1,
            n0 == balance0 * s,
            n1 == balance1 * s,
            0 <= r0,
            0 <= r1,
            0 < s,
            0 <= balance0,
            0 <= balance1,
    ;
}

} // verus!
