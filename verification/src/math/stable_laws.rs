//! How far the stable pool's swaps are from being monotone.
//!
//! The solver for a balance stops within one unit of its last step, so a
//! larger amount paid in can buy a unit less on a small pool. It cannot buy
//! more than `SOLVER_SLACK` units less: the balance that the solver finds
//! for the larger pool lies at most that far above the balance found for
//! the smaller one.
use crate::math::fixed::lemma_floor_ceil;
use crate::math::stable::{
    balance_equation_b, balance_equation_c, balance_given_invariant, balance_search, balance_step,
    distance, lemma_balance_given_invariant_stays_above, lemma_balance_step_stays_above,
    lemma_prefix_sum_grows, lemma_product_nonnegative, prefix_sum, scaled_product,
    stable_in_given_out, stable_invariant, stable_out_given_in, AMP_PRECISION,
    BALANCE_LOOP_LIMIT, BALANCE_THRESHOLD,
};
use crate::math::wide::fits_wide;
use vstd::arithmetic::div_mod::{
    lemma_div_is_ordered, lemma_div_pos_is_pos, lemma_fundamental_div_mod_converse,
};
use vstd::prelude::*;

verus! {

/// The most units by which a stable swap falls short of being monotone.
pub const SOLVER_SLACK: u64 = 3;

/// Whether every balance of `lower` is at most the balance of `upper` at
/// its place.
pub open spec fn nowhere_above(lower: Seq<u64>, upper: Seq<u64>) -> bool {
    &&& lower.len() == upper.len()
    &&& forall|k: int| 0 <= k < lower.len() ==> lower[k] <= upper[k]
}

/// Balances that are nowhere above others sum to no more.
pub proof fn lemma_prefix_sum_monotone(lower: Seq<u64>, upper: Seq<u64>, count: nat)
    requires
        nowhere_above(lower, upper),
        count <= lower.len(),
    ensures
        prefix_sum(lower, count) <= prefix_sum(upper, count),
    decreases count,
{
    if count > 0 {
        lemma_prefix_sum_monotone(lower, upper, (count - 1) as nat);
    }
}

/// The scaled product is not negative.
pub proof fn lemma_scaled_product_nonnegative(n: int, balances: Seq<u64>, d: int, count: nat)
    requires
        0 <= n,
        0 <= d,
        scaled_product(n, balances, d, count).is_some(),
    ensures
        scaled_product(n, balances, d, count).unwrap() >= 0,
    decreases count,
{
    if count == 1 {
        lemma_product_nonnegative(n, balances[0] as int);
    } else if count > 1 {
        lemma_scaled_product_nonnegative(n, balances, d, (count - 1) as nat);
        let p = scaled_product(n, balances, d, (count - 1) as nat).unwrap();
        lemma_product_nonnegative(n, balances[count - 1] as int);
        lemma_product_nonnegative(p, n * balances[count - 1]);
        lemma_div_pos_is_pos(p * (n * balances[count - 1]), d);
    }
}

/// Balances that are nowhere above others have no larger scaled product.
pub proof fn lemma_scaled_product_monotone(
    n: int,
    lower: Seq<u64>,
    upper: Seq<u64>,
    d: int,
    count: nat,
)
    requires
        0 <= n,
        0 <= d,
        nowhere_above(lower, upper),
        count <= lower.len(),
        scaled_product(n, lower, d, count).is_some(),
        scaled_product(n, upper, d, count).is_some(),
    ensures
        0 <= scaled_product(n, lower, d, count).unwrap() <= scaled_product(
            n,
            upper,
            d,
            count,
        ).unwrap(),
    decreases count,
{
    lemma_scaled_product_nonnegative(n, lower, d, count);
    if count == 1 {
        assert(n * lower[0] <= n * upper[0]) by (nonlinear_arith)
            requires
                0 <= n,
                lower[0] <= upper[0],
        ;
    } else if count > 1 {
        let fewer = (count - 1) as nat;
        lemma_scaled_product_monotone(n, lower, upper, d, fewer);
        let p_low = scaled_product(n, lower, d, fewer).unwrap();
        let p_up = scaled_product(n, upper, d, fewer).unwrap();
        let f_low = n * lower[count - 1];
        let f_up = n * upper[count - 1];
        assert(0 <= f_low <= f_up) by (nonlinear_arith)
            requires
                0 <= n,
                0 <= lower[count - 1] <= upper[count - 1],
                f_low == n * lower[count - 1],
                f_up == n * upper[count - 1],
        ;
        assert(0 <= p_low * f_low <= p_up * f_up) by (nonlinear_arith)
            requires
                0 <= p_low <= p_up,
                0 <= f_low <= f_up,
        ;
        lemma_div_is_ordered(p_low * f_low, p_up * f_up, d);
    }
}

/// A quotient rounded up does not grow when the divisor grows.
pub proof fn lemma_ceil_antitone(n: int, d1: int, d2: int)
    requires
        0 <= n,
        0 < d1 <= d2,
    ensures
        0 <= (n + d2 - 1) / d2 <= (n + d1 - 1) / d1,
{
    lemma_floor_ceil(n, d1);
    lemma_floor_ceil(n, d2);
    let c1 = (n + d1 - 1) / d1;
    assert(c1 * d1 <= c1 * d2) by (nonlinear_arith)
        requires
            0 <= c1,
            0 < d1 <= d2,
    ;
    lemma_div_is_ordered(n + d2 - 1, c1 * d2 + d2 - 1, d2);
    assert(d2 * c1 == c1 * d2) by (nonlinear_arith);
    lemma_fundamental_div_mod_converse(c1 * d2 + d2 - 1, d2, c1, d2 - 1);
}

/// A quotient rounded up is at most `k` where the dividend is at most `k`
/// times the divisor.
pub proof fn lemma_ceil_at_most(n: int, d: int, k: int)
    requires
        0 <= n <= k * d,
        0 < d,
    ensures
        (n + d - 1) / d <= k,
{
    lemma_div_is_ordered(n + d - 1, k * d + d - 1, d);
    assert(d * k == k * d) by (nonlinear_arith);
    assert(0 <= k) by (nonlinear_arith)
        requires
            0 <= k * d,
            0 < d,
            0 <= n <= k * d,
    ;
    lemma_fundamental_div_mod_converse(k * d + d - 1, d, k, d - 1);
}

/// The step on which the solver settles: a value `last` at or above the
/// root from which one step gives the result, at most one unit below it.
pub proof fn lemma_search_last_step(y: int, b: int, c: int, d: int, steps: nat) -> (last: int)
    requires
        balance_search(y, b, c, d, steps).is_some(),
        y >= 1,
        0 <= c,
        y * y + (b - d) * y >= c,
    ensures
        last >= 1,
        last * last + (b - d) * last >= c,
        balance_step(last, b, c, d) == Some(balance_search(y, b, c, d, steps).unwrap() as int),
        balance_search(y, b, c, d, steps).unwrap() >= last - 1,
        balance_search(y, b, c, d, steps).unwrap() >= 1,
    decreases steps,
{
    let next = balance_step(y, b, c, d).unwrap();
    lemma_balance_step_stays_above(y, b, c, d);
    // A step from a positive value is positive.
    let den = 2 * y + b - d;
    assert(y * y >= 1) by (nonlinear_arith)
        requires
            y >= 1,
    ;
    lemma_div_is_ordered(den, y * y + c + den - 1, den);
    vstd::arithmetic::div_mod::lemma_div_basics(den);
    assert(next >= 1);
    if distance(next, y) <= BALANCE_THRESHOLD {
        y
    } else {
        lemma_search_last_step(next, b, c, d, (steps - 1) as nat)
    }
}

/// A settled step lies at most three units above any value that is at or
/// above the root: from `next >= last - 1` for the step `next` from `last`
/// and `other^2 + (b - d) * other >= c` follows `next <= other + 3`.
pub proof fn lemma_settled_step_is_near(last: int, b: int, c: int, d: int, other: int)
    requires
        balance_step(last, b, c, d).is_some(),
        balance_step(last, b, c, d).unwrap() >= last - 1,
        last >= 1,
        0 <= c,
        last * last + (b - d) * last >= c,
        other >= 0,
        other * other + (b - d) * other >= c,
        2 * other + b - d >= 0,
    ensures
        balance_step(last, b, c, d).unwrap() <= other + 3,
{
    let next = balance_step(last, b, c, d).unwrap();
    let den = 2 * last + b - d;
    let numerator = last * last + c;
    assert(0 <= numerator) by (nonlinear_arith)
        requires
            numerator == last * last + c,
            0 <= c,
    ;
    // The step does not rise: last * den >= numerator.
    assert(numerator <= last * den) by (nonlinear_arith)
        requires
            numerator == last * last + c,
            den == 2 * last + b - d,
            last * last + (b - d) * last >= c,
    ;
    lemma_ceil_at_most(numerator, den, last);
    if other <= next - 4 {
        let u = last - other;
        let v = last + other + (b - d);
        assert(numerator <= (last - 2) * den) by (nonlinear_arith)
            requires
                numerator == last * last + c,
                den == 2 * last + b - d,
                other * other + (b - d) * other >= c,
                u == last - other,
                v == last + other + (b - d),
                u >= 4,
                v >= u,
        ;
        lemma_ceil_at_most(numerator, den, last - 2);
    }
}

/// The balance that the solver finds rises by three units at most where no
/// balance of the pool rises more: for balances `lower` nowhere above
/// `upper` and the same at `token_index`, the balance found for `upper` is
/// at most three units above the balance found for `lower`.
pub proof fn lemma_solver_nearly_monotone(
    amp: u64,
    lower: Seq<u64>,
    upper: Seq<u64>,
    target: u64,
    token_index: int,
)
    requires
        nowhere_above(lower, upper),
        lower.len() >= 2,
        0 <= token_index < lower.len(),
        lower[token_index] == upper[token_index],
        balance_given_invariant(amp, lower, target, token_index).is_some(),
        balance_given_invariant(amp, upper, target, token_index).is_some(),
    ensures
        balance_given_invariant(amp, upper, target, token_index).unwrap()
            <= balance_given_invariant(amp, lower, target, token_index).unwrap() + SOLVER_SLACK,
{
    let n = lower.len() as int;
    let len = lower.len();
    let ann = amp * n;
    let d = target as int;
    let balance = lower[token_index] as int;
    lemma_product_nonnegative(amp as int, n);
    // The invariant is not zero: the scaled product divides by it.
    assert(d != 0);
    let p_low = scaled_product(n, lower, d, len).unwrap();
    let p_up = scaled_product(n, upper, d, len).unwrap();
    lemma_scaled_product_monotone(n, lower, upper, d, len);
    let c_low = balance_equation_c(amp, lower, target, token_index, p_low);
    let c_up = balance_equation_c(amp, upper, target, token_index, p_up);
    let b_low = balance_equation_b(amp, lower, target, token_index);
    let b_up = balance_equation_b(amp, upper, target, token_index);
    // The constant term falls and the linear term rises with the balances.
    let divisor_low = ann * p_low;
    let divisor_up = ann * p_up;
    assert(0 <= divisor_low <= divisor_up) by (nonlinear_arith)
        requires
            0 <= ann,
            0 <= p_low <= p_up,
            divisor_low == ann * p_low,
            divisor_up == ann * p_up,
    ;
    let numerator = d * d * AMP_PRECISION;
    assert(0 <= numerator) by (nonlinear_arith)
        requires
            numerator == d * d * 1000,
    ;
    lemma_ceil_antitone(numerator, divisor_low, divisor_up);
    let unit_low = (numerator + divisor_low - 1) / divisor_low;
    let unit_up = (numerator + divisor_up - 1) / divisor_up;
    assert(0 <= c_up <= c_low) by (nonlinear_arith)
        requires
            0 <= unit_up <= unit_low,
            0 <= balance,
            c_up == unit_up * balance,
            c_low == unit_low * balance,
    ;
    lemma_prefix_sum_monotone(lower, upper, len);
    lemma_prefix_sum_grows(lower, (token_index + 1) as nat, len);
    lemma_prefix_sum_grows(lower, token_index as nat, (token_index + 1) as nat);
    assert(ann > 0) by (nonlinear_arith)
        requires
            divisor_low == ann * p_low,
            divisor_low != 0,
            0 <= ann,
    ;
    assert(0 <= d * AMP_PRECISION) by (nonlinear_arith)
        requires
            0 <= d,
    ;
    lemma_div_pos_is_pos(d * AMP_PRECISION, ann);
    assert(0 <= b_low <= b_up);
    // The first guesses are steps from the invariant itself.
    let guess_low = (d * d + c_low + (d + b_low) - 1) / (d + b_low);
    let guess_up = (d * d + c_up + (d + b_up) - 1) / (d + b_up);
    lemma_first_guess(d, b_low, c_low);
    lemma_first_guess(d, b_up, c_up);
    let found_low = balance_given_invariant(amp, lower, target, token_index).unwrap() as int;
    let found_up = balance_given_invariant(amp, upper, target, token_index).unwrap() as int;
    let last_low = lemma_search_last_step(
        guess_low,
        b_low,
        c_low,
        d,
        BALANCE_LOOP_LIMIT as nat,
    );
    let last_up = lemma_search_last_step(guess_up, b_up, c_up, d, BALANCE_LOOP_LIMIT as nat);
    // What was found for the lower balances lies at or above the root of
    // the equation for the upper ones.
    lemma_balance_given_invariant_stays_above(amp, lower, target, token_index);
    assert(found_low * found_low + (b_low - d) * found_low >= c_low);
    assert(found_low * found_low + (b_up - d) * found_low >= c_up && 2 * found_low + b_up - d
        >= 0) by (nonlinear_arith)
        requires
            found_low * found_low + (b_low - d) * found_low >= c_low,
            found_low >= 1,
            b_low <= b_up,
            0 <= c_up <= c_low,
    ;
    lemma_settled_step_is_near(last_up, b_up, c_up, d, found_low);
}

/// The first guess of the solver is one step from the invariant, and so at
/// or above the root and positive.
proof fn lemma_first_guess(d: int, b: int, c: int)
    requires
        1 <= d <= u64::MAX,
        0 <= b,
        0 <= c,
        fits_wide(d * d + c),
        fits_wide(2 * d + b),
    ensures
        ({
            let guess = (d * d + c + (d + b) - 1) / (d + b);
            &&& guess >= 1
            &&& guess * guess + (b - d) * guess >= c
        }),
{
    assert(balance_step(d, b, c, d) == Some((d * d + c + (d + b) - 1) / (d + b)));
    lemma_balance_step_stays_above(d, b, c, d);
    let den = d + b;
    assert(d * d >= 1) by (nonlinear_arith)
        requires
            d >= 1,
    ;
    lemma_div_is_ordered(den, d * d + c + den - 1, den);
    vstd::arithmetic::div_mod::lemma_div_basics(den);
}

/// For a fixed pool, a larger amount paid in buys at most three units
/// less: wherever both swaps succeed between two different tokens, the
/// amount out for the smaller amount in is at most the amount out for the
/// larger one and `SOLVER_SLACK` more.
pub proof fn lemma_out_given_in_nearly_monotone(
    amp: u64,
    balances: Seq<u64>,
    token_index_in: int,
    token_index_out: int,
    amount1: u64,
    amount2: u64,
)
    requires
        amount1 <= amount2,
        token_index_in != token_index_out,
        stable_out_given_in(amp, balances, token_index_in, token_index_out, amount1).is_some(),
        stable_out_given_in(amp, balances, token_index_in, token_index_out, amount2).is_some(),
    ensures
        stable_out_given_in(amp, balances, token_index_in, token_index_out, amount1).unwrap()
            <= stable_out_given_in(
            amp,
            balances,
            token_index_in,
            token_index_out,
            amount2,
        ).unwrap() + SOLVER_SLACK,
{
    let d = stable_invariant(amp, balances).unwrap();
    let lower = balances.update(
        token_index_in,
        (balances[token_index_in] + amount1) as u64,
    );
    let upper = balances.update(
        token_index_in,
        (balances[token_index_in] + amount2) as u64,
    );
    assert(nowhere_above(lower, upper));
    lemma_solver_nearly_monotone(amp, lower, upper, d, token_index_out);
}

/// For a fixed pool, a larger amount taken out costs at most three units
/// less: wherever both swaps succeed between two different tokens, the
/// amount in for the smaller amount out is at most the amount in for the
/// larger one and `SOLVER_SLACK` more.
pub proof fn lemma_in_given_out_nearly_monotone(
    amp: u64,
    balances: Seq<u64>,
    token_index_in: int,
    token_index_out: int,
    amount1: u64,
    amount2: u64,
)
    requires
        amount1 <= amount2,
        token_index_in != token_index_out,
        stable_in_given_out(amp, balances, token_index_in, token_index_out, amount1).is_some(),
        stable_in_given_out(amp, balances, token_index_in, token_index_out, amount2).is_some(),
    ensures
        stable_in_given_out(amp, balances, token_index_in, token_index_out, amount1).unwrap()
            <= stable_in_given_out(
            amp,
            balances,
            token_index_in,
            token_index_out,
            amount2,
        ).unwrap() + SOLVER_SLACK,
{
    let d = stable_invariant(amp, balances).unwrap();
    let upper = balances.update(
        token_index_out,
        (balances[token_index_out] - amount1) as u64,
    );
    let lower = balances.update(
        token_index_out,
        (balances[token_index_out] - amount2) as u64,
    );
    assert(nowhere_above(lower, upper));
    lemma_solver_nearly_monotone(amp, lower, upper, d, token_index_in);
}

} // verus!
