//! The StableSwap pool: the invariant `D` with
//! `Ann * S + D = Ann * D + D^(n+1) / (n^n * P)`, solved by Newton's method.
//!
//! Both solvers run a fixed number of steps at most and stop as soon as two
//! successive values lie within a fixed tolerance. A solver that runs out of
//! steps, or any step that does not fit its working width, yields no result.
use crate::math::fixed::{FixedComplement, FixedDiv, FixedMul, ONE_U64};
use crate::math::wide::{fits_wide, U192};
use vstd::prelude::*;

verus! {

/// The factor by which an amplification is stored.
pub const AMP_PRECISION: u64 = 1_000;

/// The smallest amplification.
pub const MIN_AMP: u64 = 1;

/// The largest amplification.
pub const MAX_AMP: u64 = 10_000;

/// The most steps that the solver for the invariant takes.
pub const MAX_LOOP_LIMIT: u64 = 256;

/// The most steps that the solver for a balance takes.
pub const BALANCE_LOOP_LIMIT: u64 = 64;

/// The solver for the invariant stops when a step moves it by this or less.
pub const DEFAULT_INV_THRESHOLD: u64 = 100;

/// The solver for a balance stops when a step moves it by this or less.
pub const BALANCE_THRESHOLD: u64 = 1;

/// The sum of the first `count` balances.
pub open spec fn prefix_sum(balances: Seq<u64>, count: nat) -> int
    decreases count,
{
    if count == 0 {
        0
    } else {
        prefix_sum(balances, (count - 1) as nat) + balances[count - 1]
    }
}

/// The sum of all balances.
pub open spec fn sum_of(balances: Seq<u64>) -> int {
    prefix_sum(balances, balances.len())
}

/// A sum of balances does not shrink as more of them are counted.
pub proof fn lemma_prefix_sum_grows(balances: Seq<u64>, fewer: nat, more: nat)
    requires
        fewer <= more,
    ensures
        0 <= prefix_sum(balances, fewer) <= prefix_sum(balances, more),
    decreases more,
{
    if more == 0 {
    } else if fewer == more {
        lemma_prefix_sum_grows(balances, (fewer - 1) as nat, (more - 1) as nat);
    } else {
        lemma_prefix_sum_grows(balances, fewer, (more - 1) as nat);
    }
}

/// The sum of all balances, where it fits 64 bits.
pub fn checked_sum(balances: &[u64]) -> (result: Option<u64>)
    ensures
        result == if sum_of(balances@) <= u64::MAX {
            Some(sum_of(balances@) as u64)
        } else {
            None
        },
        0 <= sum_of(balances@),
{
    proof {
        lemma_prefix_sum_grows(balances@, 0, balances@.len());
    }
    let mut total: u64 = 0;
    let mut index: usize = 0;
    while index < balances.len()
        invariant
            index <= balances@.len(),
            total == prefix_sum(balances@, index as nat),
        decreases balances@.len() - index,
    {
        total = match total.checked_add(balances[index]) {
            None => {
                proof {
                    lemma_prefix_sum_grows(balances@, (index + 1) as nat, balances@.len());
                }
                return None;
            },
            Some(v) => v,
        };
        index = index + 1;
    }
    Some(total)
}

/// The correction term `D_P` after the first `count` balances: it starts at
/// `d`, and each balance multiplies it by `d / (n * balance)`, rounded down.
pub open spec fn correction_term(d: int, n: int, balances: Seq<u64>, count: nat) -> Option<int>
    decreases count,
{
    if count == 0 {
        Some(d)
    } else {
        match correction_term(d, n, balances, (count - 1) as nat) {
            None => None,
            Some(dp) => if fits_wide(dp * d) && n * balances[count - 1] != 0 {
                Some(dp * d / (n * balances[count - 1]))
            } else {
                None
            },
        }
    }
}

/// One Newton step for the invariant, from `d`:
/// `(Ann * S + n * D_P * AMP_PRECISION) * d`
/// `/ ((Ann - AMP_PRECISION) * d + (n + 1) * D_P * AMP_PRECISION)`,
/// where every intermediate value fits the wide width.
pub open spec fn invariant_step(ann: int, sum: int, n: int, balances: Seq<u64>, d: int) -> Option<
    int,
> {
    match correction_term(d, n, balances, balances.len()) {
        None => None,
        Some(dp) => {
            let numerator = ann * sum + n * dp * AMP_PRECISION;
            let denominator = (ann - AMP_PRECISION) * d + (n + 1) * dp * AMP_PRECISION;
            if ann >= AMP_PRECISION && fits_wide(numerator) && fits_wide(denominator)
                && denominator != 0 && fits_wide(numerator * d) {
                Some(numerator * d / denominator)
            } else {
                None
            }
        },
    }
}

/// The distance between two integers.
pub open spec fn distance(a: int, b: int) -> int {
    if a > b {
        a - b
    } else {
        b - a
    }
}

/// The invariant that Newton's method reaches from `d` in `steps` steps at
/// most: the first value that its step moved by `DEFAULT_INV_THRESHOLD` or
/// less, where that value fits 64 bits.
pub open spec fn invariant_search(
    ann: int,
    sum: int,
    n: int,
    balances: Seq<u64>,
    d: int,
    steps: nat,
) -> Option<u64>
    decreases steps,
{
    if steps == 0 {
        None
    } else {
        match invariant_step(ann, sum, n, balances, d) {
            None => None,
            Some(next) => if distance(next, d) <= DEFAULT_INV_THRESHOLD {
                if next <= u64::MAX {
                    Some(next as u64)
                } else {
                    None
                }
            } else {
                invariant_search(ann, sum, n, balances, next, (steps - 1) as nat)
            },
        }
    }
}

/// What `calc_invariant` returns: zero for balances that sum to zero, and
/// else what Newton's method reaches from the sum of the balances.
pub open spec fn stable_invariant(amp: u64, balances: Seq<u64>) -> Option<u64> {
    if sum_of(balances) > u64::MAX {
        None
    } else if sum_of(balances) == 0 {
        Some(0)
    } else if amp * balances.len() > u64::MAX {
        None
    } else {
        invariant_search(
            amp * balances.len(),
            sum_of(balances),
            balances.len() as int,
            balances,
            sum_of(balances),
            MAX_LOOP_LIMIT as nat,
        )
    }
}

/// The correction term `D_P` for `d` over all balances.
fn correction_term_of(d: &U192, n: &U192, balances: &[u64]) -> (result: Option<U192>)
    requires
        n@ <= u64::MAX,
    ensures
        match result {
            Some(dp) => correction_term(d@, n@, balances@, balances@.len()) == Some(dp@),
            None => correction_term(d@, n@, balances@, balances@.len()).is_none(),
        },
{
    let mut dp: U192 = *d;
    let mut index: usize = 0;
    while index < balances.len()
        invariant
            index <= balances@.len(),
            n@ <= u64::MAX,
            correction_term(d@, n@, balances@, index as nat) == Some(dp@),
        decreases balances@.len() - index,
    {
        let balance = U192::from_u64(balances[index]);
        proof {
            crate::math::fixed::lemma_u64_product_fits(n@ as u64, balances[index as int]);
        }
        let next = match n.checked_mul(&balance) {
            None => None,
            Some(denominator) => dp.checked_mul_div_down(d, &denominator),
        };
        dp = match next {
            None => {
                proof {
                    lemma_correction_term_fails(
                        d@,
                        n@,
                        balances@,
                        (index + 1) as nat,
                        balances@.len(),
                    );
                }
                return None;
            },
            Some(v) => v,
        };
        index = index + 1;
    }
    Some(dp)
}

/// Once the correction term has failed, it fails for every longer prefix.
pub proof fn lemma_correction_term_fails(
    d: int,
    n: int,
    balances: Seq<u64>,
    count: nat,
    longer: nat,
)
    requires
        correction_term(d, n, balances, count).is_none(),
        count <= longer,
    ensures
        correction_term(d, n, balances, longer).is_none(),
    decreases longer,
{
    if longer > count {
        lemma_correction_term_fails(d, n, balances, count, (longer - 1) as nat);
    }
}

/// One Newton step for the invariant.
fn invariant_next(ann: u64, sum: u64, n: u64, balances: &[u64], d: &U192) -> (result: Option<
    U192,
>)
    ensures
        match result {
            Some(next) => invariant_step(ann as int, sum as int, n as int, balances@, d@) == Some(
                next@,
            ),
            None => invariant_step(ann as int, sum as int, n as int, balances@, d@).is_none(),
        },
{
    let ann_wide = U192::from_u64(ann);
    let sum_wide = U192::from_u64(sum);
    let n_wide = U192::from_u64(n);
    let precision = U192::from_u64(AMP_PRECISION);
    let one = U192::from_u64(1);
    let dp = match correction_term_of(d, &n_wide, balances) {
        None => {
            return None;
        },
        Some(v) => v,
    };
    proof {
        dp.lemma_bounds();
        d.lemma_bounds();
        crate::math::fixed::lemma_u64_product_fits(ann, sum);
        lemma_product_chain(n as int, dp@, AMP_PRECISION as int);
        lemma_product_chain((n + 1) as int, dp@, AMP_PRECISION as int);
        if ann >= AMP_PRECISION {
            lemma_product_nonnegative((ann - AMP_PRECISION) as int, d@);
        }
        lemma_product_nonnegative(ann as int, sum as int);
    }
    let ghost numerator_spec = ann * sum + n * dp@ * AMP_PRECISION;
    let ghost denominator_spec = (ann - AMP_PRECISION) * d@ + (n + 1) * dp@ * AMP_PRECISION;
    // Ann * S + n * D_P * AMP_PRECISION
    let ann_sum = match ann_wide.checked_mul(&sum_wide) {
        None => {
            return None;
        },
        Some(v) => v,
    };
    let n_dp = match n_wide.checked_mul(&dp) {
        None => {
            return None;
        },
        Some(v) => v,
    };
    let n_dp_scaled = match n_dp.checked_mul(&precision) {
        None => {
            return None;
        },
        Some(v) => v,
    };
    let numerator = match ann_sum.checked_add(&n_dp_scaled) {
        None => {
            return None;
        },
        Some(v) => v,
    };
    // (Ann - AMP_PRECISION) * d + (n + 1) * D_P * AMP_PRECISION
    let ann_less = match ann_wide.checked_sub(&precision) {
        None => {
            return None;
        },
        Some(v) => v,
    };
    let ann_d = match ann_less.checked_mul(d) {
        None => {
            return None;
        },
        Some(v) => v,
    };
    let n_more = match n_wide.checked_add(&one) {
        None => {
            return None;
        },
        Some(v) => v,
    };
    let n_more_dp = match n_more.checked_mul(&dp) {
        None => {
            return None;
        },
        Some(v) => v,
    };
    let n_more_dp_scaled = match n_more_dp.checked_mul(&precision) {
        None => {
            return None;
        },
        Some(v) => v,
    };
    let denominator = match ann_d.checked_add(&n_more_dp_scaled) {
        None => {
            return None;
        },
        Some(v) => v,
    };
    assert(numerator@ == numerator_spec);
    assert(denominator@ == denominator_spec);
    numerator.checked_mul_div_down(d, &denominator)
}

/// A product of numbers that are not negative is not negative.
pub proof fn lemma_product_nonnegative(a: int, b: int)
    requires
        0 <= a,
        0 <= b,
    ensures
        0 <= a * b,
{
    assert(0 <= a * b) by (nonlinear_arith)
        requires
            0 <= a,
            0 <= b,
    ;
}

/// For numbers that are not negative and a positive `c`, `a * b` is at most
/// `a * b * c`.
pub proof fn lemma_product_chain(a: int, b: int, c: int)
    requires
        0 <= a,
        0 <= b,
        1 <= c,
    ensures
        0 <= a * b <= a * b * c,
{
    assert(0 <= a * b <= a * b * c) by (nonlinear_arith)
        requires
            0 <= a,
            0 <= b,
            1 <= c,
    ;
}

/// The invariant `D` of a stable pool with amplification `amp` (times
/// `AMP_PRECISION`) and the given balances.
///
/// Zero where the balances sum to zero; nothing where the sum or a step does
/// not fit its width, where a balance is zero beside others that are not, or
/// where the solver has not settled after `MAX_LOOP_LIMIT` steps.
pub fn calc_invariant(amp: u64, balances: &[u64]) -> (result: Option<u64>)
    ensures
        result == stable_invariant(amp, balances@),
        sum_of(balances@) == 0 ==> result == Some(0u64),
{
    let n: u64 = balances.len() as u64;
    let sum = match checked_sum(balances) {
        None => {
            return None;
        },
        Some(v) => v,
    };
    if sum == 0 {
        return Some(0);
    }
    let ann = match amp.checked_mul(n) {
        None => {
            return None;
        },
        Some(v) => v,
    };
    let threshold = U192::from_u64(DEFAULT_INV_THRESHOLD);
    let mut d = U192::from_u64(sum);
    let mut step: u64 = 0;
    while step < MAX_LOOP_LIMIT
        invariant
            step <= MAX_LOOP_LIMIT,
            n == balances@.len(),
            ann == amp * n,
            sum == sum_of(balances@),
            threshold@ == DEFAULT_INV_THRESHOLD,
            stable_invariant(amp, balances@) == invariant_search(
                ann as int,
                sum as int,
                n as int,
                balances@,
                d@,
                (MAX_LOOP_LIMIT - step) as nat,
            ),
        decreases MAX_LOOP_LIMIT - step,
    {
        let next = match invariant_next(ann, sum, n, balances, &d) {
            None => {
                return None;
            },
            Some(v) => v,
        };
        let moved = if next.gt(&d) {
            next.checked_sub(&d)
        } else {
            d.checked_sub(&next)
        };
        match moved {
            None => {
                return None;
            },
            Some(by) => {
                if threshold.ge(&by) {
                    return next.as_u64();
                }
            },
        }
        d = next;
        step = step + 1;
    }
    None
}

/// The scaled product `P` after the first `count` balances: it starts at
/// `n * balance_0`, and each further balance multiplies it by
/// `n * balance / d`, rounded down. Each `n * balance` has to fit 64 bits.
pub open spec fn scaled_product(n: int, balances: Seq<u64>, d: int, count: nat) -> Option<int>
    decreases count,
{
    if count == 0 {
        None
    } else if n * balances[count - 1] > u64::MAX {
        None
    } else if count == 1 {
        Some(n * balances[0])
    } else {
        match scaled_product(n, balances, d, (count - 1) as nat) {
            None => None,
            Some(p) => if fits_wide(p * (n * balances[count - 1])) && d != 0 {
                Some(p * (n * balances[count - 1]) / d)
            } else {
                None
            },
        }
    }
}

/// One Newton step for a balance, from `y`:
/// `(y^2 + c) / (2 * y + b - d)`, rounded up, where every intermediate
/// value fits the wide width and the divisor is positive.
pub open spec fn balance_step(y: int, b: int, c: int, d: int) -> Option<int> {
    if fits_wide(y * y + c) && fits_wide(2 * y + b) && 2 * y + b - d > 0 {
        Some((y * y + c + (2 * y + b - d) - 1) / (2 * y + b - d))
    } else {
        None
    }
}

/// The balance that Newton's method reaches from `y` in `steps` steps at
/// most: the first value that its step moved by `BALANCE_THRESHOLD` or less,
/// where both that value and the one before it fit 64 bits.
pub open spec fn balance_search(y: int, b: int, c: int, d: int, steps: nat) -> Option<u64>
    decreases steps,
{
    if steps == 0 {
        None
    } else {
        match balance_step(y, b, c, d) {
            None => None,
            Some(next) => if next > u64::MAX || y > u64::MAX {
                None
            } else if distance(next, y) <= BALANCE_THRESHOLD {
                Some(next as u64)
            } else {
                balance_search(next, b, c, d, (steps - 1) as nat)
            },
        }
    }
}

/// The constant term `c` of the equation `y^2 + (b - D) * y = c` for the
/// balance of one token: `ceil(D^2 * AMP_PRECISION / (Ann * P)) * balance`,
/// for the scaled product `p` of all balances.
pub open spec fn balance_equation_c(amp: u64, balances: Seq<u64>, target: u64, token_index: int, p: int) -> int {
    let divisor = amp * balances.len() * p;
    ((target * target * AMP_PRECISION + divisor - 1) / divisor) * balances[token_index]
}

/// The linear term `b` of the equation `y^2 + (b - D) * y = c` for the
/// balance of one token: `D * AMP_PRECISION / Ann` and the sum of the other
/// balances.
pub open spec fn balance_equation_b(amp: u64, balances: Seq<u64>, target: u64, token_index: int) -> int {
    target * AMP_PRECISION / (amp * balances.len()) + (sum_of(balances) - balances[token_index])
}

/// What `get_token_balance_given_invariant_and_others` returns: what
/// Newton's method reaches for `y^2 + (b - D) * y = c` from
/// `ceil((D^2 + c) / (D + b))`.
pub open spec fn balance_given_invariant(
    amp: u64,
    balances: Seq<u64>,
    target: u64,
    token_index: int,
) -> Option<u64> {
    let n = balances.len() as int;
    let ann = amp * n;
    let d = target as int;
    if !(0 <= token_index < n) || ann > u64::MAX || sum_of(balances) > u64::MAX {
        None
    } else {
        match scaled_product(n, balances, d, balances.len()) {
            None => None,
            Some(p) => {
                let divisor = ann * p;
                let c = balance_equation_c(amp, balances, target, token_index, p);
                let b = balance_equation_b(amp, balances, target, token_index);
                if !fits_wide(divisor) || divisor == 0 || !fits_wide(c) || !fits_wide(d * d + c)
                    || d + b == 0 {
                    None
                } else {
                    balance_search(
                        (d * d + c + (d + b) - 1) / (d + b),
                        b,
                        c,
                        d,
                        BALANCE_LOOP_LIMIT as nat,
                    )
                }
            },
        }
    }
}

/// Whether `y` lies at or above the root of the equation for the balance
/// of the token at `token_index`: `y^2 + (b - D) * y >= c`.
pub open spec fn holds_invariant_from_above(
    amp: u64,
    balances: Seq<u64>,
    target: u64,
    token_index: int,
    y: int,
) -> bool {
    y * y + (balance_equation_b(amp, balances, target, token_index) - target) * y
        >= balance_equation_c(
        amp,
        balances,
        target,
        token_index,
        scaled_product(balances.len() as int, balances, target as int, balances.len()).unwrap(),
    )
}

/// The balance that the solver finds for a token holds the invariant from
/// above.
pub proof fn lemma_balance_given_invariant_stays_above(
    amp: u64,
    balances: Seq<u64>,
    target: u64,
    token_index: int,
)
    requires
        balance_given_invariant(amp, balances, target, token_index).is_some(),
    ensures
        holds_invariant_from_above(
            amp,
            balances,
            target,
            token_index,
            balance_given_invariant(amp, balances, target, token_index).unwrap() as int,
        ),
{
    let d = target as int;
    let p = scaled_product(balances.len() as int, balances, d, balances.len()).unwrap();
    let c = balance_equation_c(amp, balances, target, token_index, p);
    let b = balance_equation_b(amp, balances, target, token_index);
    lemma_balance_search_stays_above(
        (d * d + c + (d + b) - 1) / (d + b),
        b,
        c,
        d,
        BALANCE_LOOP_LIMIT as nat,
    );
}

/// A step of the solver for a balance lands at or above the root of
/// `y^2 + (b - d) * y = c`: for the value `next` that it gives,
/// `next^2 + (b - d) * next >= c`.
pub proof fn lemma_balance_step_stays_above(y: int, b: int, c: int, d: int)
    requires
        balance_step(y, b, c, d).is_some(),
    ensures
        ({
            let next = balance_step(y, b, c, d).unwrap();
            next * next + (b - d) * next >= c
        }),
{
    let numerator = y * y + c;
    let denominator = 2 * y + b - d;
    let next = (numerator + denominator - 1) / denominator;
    crate::math::fixed::lemma_floor_ceil(numerator, denominator);
    assert(next * next + (b - d) * next - c >= (next - y) * (next - y)) by (nonlinear_arith)
        requires
            numerator <= next * denominator,
            numerator == y * y + c,
            denominator == 2 * y + b - d,
    ;
    assert((next - y) * (next - y) >= 0) by (nonlinear_arith);
}

/// The balance that the solver finds holds the invariant from above: it is
/// at or above the root of `y^2 + (b - d) * y = c`, so the pool is never
/// left with less than the invariant asks for.
pub proof fn lemma_balance_search_stays_above(y: int, b: int, c: int, d: int, steps: nat)
    requires
        balance_search(y, b, c, d, steps).is_some(),
    ensures
        ({
            let found = balance_search(y, b, c, d, steps).unwrap() as int;
            found * found + (b - d) * found >= c
        }),
    decreases steps,
{
    if steps > 0 {
        lemma_balance_step_stays_above(y, b, c, d);
        let next = balance_step(y, b, c, d).unwrap();
        if !(distance(next, y) <= BALANCE_THRESHOLD) {
            lemma_balance_search_stays_above(next, b, c, d, (steps - 1) as nat);
        }
    }
}

/// Once the scaled product has failed, it fails for every longer prefix.
pub proof fn lemma_scaled_product_fails(
    n: int,
    balances: Seq<u64>,
    d: int,
    count: nat,
    longer: nat,
)
    requires
        scaled_product(n, balances, d, count).is_none(),
        1 <= count <= longer,
    ensures
        scaled_product(n, balances, d, longer).is_none(),
    decreases longer,
{
    if longer > count {
        lemma_scaled_product_fails(n, balances, d, count, (longer - 1) as nat);
    }
}

/// The scaled product `P` over all balances.
fn scaled_product_of(n: u64, balances: &[u64], d: &U192) -> (result: Option<U192>)
    requires
        n == balances@.len(),
    ensures
        match result {
            Some(p) => scaled_product(n as int, balances@, d@, balances@.len()) == Some(p@),
            None => scaled_product(n as int, balances@, d@, balances@.len()).is_none(),
        },
{
    if balances.len() == 0 {
        return None;
    }
    let mut p = match balances[0].checked_mul(n) {
        None => {
            proof {
                assert(n * balances@[0] == balances@[0] * n) by (nonlinear_arith);
                lemma_scaled_product_fails(n as int, balances@, d@, 1, balances@.len());
            }
            return None;
        },
        Some(v) => U192::from_u64(v),
    };
    proof {
        assert(n * balances@[0] == balances@[0] * n) by (nonlinear_arith);
    }
    let mut index: usize = 1;
    while index < balances.len()
        invariant
            1 <= index <= balances@.len(),
            scaled_product(n as int, balances@, d@, index as nat) == Some(p@),
        decreases balances@.len() - index,
    {
        proof {
            assert(n * balances@[index as int] == balances@[index as int] * n)
                by (nonlinear_arith);
        }
        let next = match balances[index].checked_mul(n) {
            None => None,
            Some(scaled) => p.checked_mul_div_down(&U192::from_u64(scaled), d),
        };
        p = match next {
            None => {
                proof {
                    lemma_scaled_product_fails(
                        n as int,
                        balances@,
                        d@,
                        (index + 1) as nat,
                        balances@.len(),
                    );
                }
                return None;
            },
            Some(v) => v,
        };
        index = index + 1;
    }
    Some(p)
}

/// One Newton step for a balance.
fn balance_next(y: &U192, b: &U192, c: &U192, d: &U192) -> (result: Option<U192>)
    ensures
        match result {
            Some(next) => balance_step(y@, b@, c@, d@) == Some(next@),
            None => balance_step(y@, b@, c@, d@).is_none(),
        },
{
    proof {
        y.lemma_bounds();
        b.lemma_bounds();
        c.lemma_bounds();
        lemma_product_nonnegative(y@, y@);
    }
    let square = match y.checked_mul(y) {
        None => {
            return None;
        },
        Some(v) => v,
    };
    let numerator = match square.checked_add(c) {
        None => {
            return None;
        },
        Some(v) => v,
    };
    let twice = match y.checked_double() {
        None => {
            return None;
        },
        Some(v) => v,
    };
    let twice_more = match twice.checked_add(b) {
        None => {
            return None;
        },
        Some(v) => v,
    };
    let denominator = match twice_more.checked_sub(d) {
        None => {
            return None;
        },
        Some(v) => v,
    };
    numerator.checked_div_up(&denominator)
}

/// The balance of the token at `token_index` that gives the pool the
/// invariant `target`, all other balances being as they are.
///
/// The steps round up, so the balance found never lies below the root of
/// the pool's equation `y^2 + (b - D) * y = c`.
///
/// Nothing where the index names no token, where a step does not fit its
/// width, or where the solver has not settled after `BALANCE_LOOP_LIMIT`
/// steps.
pub fn get_token_balance_given_invariant_and_others(
    amp: u64,
    balances: &[u64],
    target: u64,
    token_index: usize,
) -> (result: Option<u64>)
    ensures
        result == balance_given_invariant(amp, balances@, target, token_index as int),
        token_index >= balances@.len() ==> result.is_none(),
        result.is_some() ==> holds_invariant_from_above(
            amp,
            balances@,
            target,
            token_index as int,
            result.unwrap() as int,
        ),
{
    proof {
        if balance_given_invariant(amp, balances@, target, token_index as int).is_some() {
            lemma_balance_given_invariant_stays_above(amp, balances@, target, token_index as int);
        }
    }
    if token_index >= balances.len() {
        return None;
    }
    let n: u64 = balances.len() as u64;
    let ann = match amp.checked_mul(n) {
        None => {
            return None;
        },
        Some(v) => v,
    };
    let sum = match checked_sum(balances) {
        None => {
            return None;
        },
        Some(v) => v,
    };
    let d = U192::from_u64(target);
    let p = match scaled_product_of(n, balances, &d) {
        None => {
            return None;
        },
        Some(v) => v,
    };
    let balance = balances[token_index];
    proof {
        lemma_prefix_sum_bounds_each(balances@, token_index as int);
        p.lemma_bounds();
        crate::math::fixed::lemma_u64_product_fits(target, target);
        lemma_product_nonnegative(ann as int, p@);
        lemma_product_nonnegative(target as int, target as int);
        assert(target * target * AMP_PRECISION <= 0xFFFF_FFFF_FFFF_FFFE_0000_0000_0000_0001
            * 1000) by (nonlinear_arith)
            requires
                0 <= target * target <= 0xFFFF_FFFF_FFFF_FFFE_0000_0000_0000_0001,
                AMP_PRECISION == 1000,
        ;
        assert(0 <= target * AMP_PRECISION <= 0xFFFF_FFFF_FFFF_FFFF * 1000)
            by (nonlinear_arith)
            requires
                0 <= target <= 0xFFFF_FFFF_FFFF_FFFF,
                AMP_PRECISION == 1000,
        ;
    }
    let others = U192::from_u64(sum - balance);
    let ann_wide = U192::from_u64(ann);
    let precision = U192::from_u64(AMP_PRECISION);
    let d_squared = match d.checked_mul(&d) {
        None => {
            return None;
        },
        Some(v) => v,
    };
    // c = ceil(D^2 * AMP_PRECISION / (Ann * P)) * balance
    let divisor = match ann_wide.checked_mul(&p) {
        None => {
            return None;
        },
        Some(v) => v,
    };
    let c_unit = match d_squared.checked_mul_div_up(&precision, &divisor) {
        None => {
            return None;
        },
        Some(v) => v,
    };
    proof {
        c_unit.lemma_bounds();
        lemma_product_nonnegative(c_unit@, balance as int);
    }
    let c = match c_unit.checked_mul(&U192::from_u64(balance)) {
        None => {
            return None;
        },
        Some(v) => v,
    };
    // b = D * AMP_PRECISION / Ann + (S - balance)
    proof {
        assert(ann != 0) by (nonlinear_arith)
            requires
                divisor@ == ann * p@,
                divisor@ != 0,
        ;
        vstd::arithmetic::div_mod::lemma_div_pos_is_pos(
            target * AMP_PRECISION,
            ann as int,
        );
        vstd::arithmetic::div_mod::lemma_div_is_ordered_by_denominator(
            target * AMP_PRECISION,
            1,
            ann as int,
        );
    }
    let b_unit = match d.checked_mul_div_down(&precision, &ann_wide) {
        None => {
            return None;
        },
        Some(v) => v,
    };
    let b = match b_unit.checked_add(&others) {
        None => {
            return None;
        },
        Some(v) => v,
    };
    // The first guess: ceil((D^2 + c) / (D + b))
    let guess_numerator = match d_squared.checked_add(&c) {
        None => {
            return None;
        },
        Some(v) => v,
    };
    let guess_denominator = match d.checked_add(&b) {
        None => {
            return None;
        },
        Some(v) => v,
    };
    let mut y = match guess_numerator.checked_div_up(&guess_denominator) {
        None => {
            return None;
        },
        Some(v) => v,
    };
    let mut step: u64 = 0;
    while step < BALANCE_LOOP_LIMIT
        invariant
            step <= BALANCE_LOOP_LIMIT,
            d@ == target,
            balance_given_invariant(amp, balances@, target, token_index as int)
                == balance_search(y@, b@, c@, d@, (BALANCE_LOOP_LIMIT - step) as nat),
            balance_given_invariant(amp, balances@, target, token_index as int).is_some()
                ==> holds_invariant_from_above(
                amp,
                balances@,
                target,
                token_index as int,
                balance_given_invariant(amp, balances@, target, token_index as int).unwrap() as int,
            ),
        decreases BALANCE_LOOP_LIMIT - step,
    {
        let next = match balance_next(&y, &b, &c, &d) {
            None => {
                return None;
            },
            Some(v) => v,
        };
        let next_small = match next.as_u64() {
            None => {
                return None;
            },
            Some(v) => v,
        };
        let y_small = match y.as_u64() {
            None => {
                return None;
            },
            Some(v) => v,
        };
        if next_small > y_small {
            if next_small - y_small <= BALANCE_THRESHOLD {
                return Some(next_small);
            }
        } else if y_small - next_small <= BALANCE_THRESHOLD {
            return Some(next_small);
        }
        y = next;
        step = step + 1;
    }
    None
}

/// Each balance is at most the sum of all balances.
pub proof fn lemma_prefix_sum_bounds_each(balances: Seq<u64>, index: int)
    requires
        0 <= index < balances.len(),
    ensures
        balances[index] <= sum_of(balances),
{
    lemma_prefix_sum_grows(balances, index as nat, (index + 1) as nat);
    lemma_prefix_sum_grows(balances, (index + 1) as nat, balances.len());
}

/// A copy of the balances with the one at `index` replaced.
fn with_balance(balances: &[u64], index: usize, value: u64) -> (result: Vec<u64>)
    requires
        index < balances@.len(),
    ensures
        result@ == balances@.update(index as int, value),
{
    let mut copy: Vec<u64> = Vec::with_capacity(balances.len());
    let mut i: usize = 0;
    while i < balances.len()
        invariant
            i <= balances@.len(),
            index < balances@.len(),
            copy@.len() == i,
            forall|j: int|
                0 <= j < i ==> copy@[j] == (if j == index {
                    value
                } else {
                    balances@[j]
                }),
        decreases balances@.len() - i,
    {
        if i == index {
            copy.push(value);
        } else {
            copy.push(balances[i]);
        }
        i = i + 1;
    }
    assert(copy@ =~= balances@.update(index as int, value));
    copy
}

/// What the stable `calc_out_given_in` returns.
pub open spec fn stable_out_given_in(
    amp: u64,
    balances: Seq<u64>,
    token_index_in: int,
    token_index_out: int,
    amount_in: u64,
) -> Option<u64> {
    if !(0 <= token_index_in < balances.len()) || !(0 <= token_index_out < balances.len()) {
        None
    } else if balances[token_index_in] + amount_in > u64::MAX {
        None
    } else {
        match stable_invariant(amp, balances) {
            None => None,
            Some(d) => match balance_given_invariant(
                amp,
                balances.update(token_index_in, (balances[token_index_in] + amount_in) as u64),
                d,
                token_index_out,
            ) {
                None => None,
                Some(final_balance) => if balances[token_index_out] - final_balance - 1 >= 0 {
                    Some((balances[token_index_out] - final_balance - 1) as u64)
                } else {
                    None
                },
            },
        }
    }
}

/// The amount of the token at `token_index_out` that leaves the pool when
/// `amount_in` of the token at `token_index_in` enters it: the invariant is
/// held, and one unit is kept back for the pool. The solver settles within
/// one unit, so a larger amount in can buy less, by three units at most
/// (`stable_laws`).
///
/// Nothing where an index names no token, where a solver yields nothing, or
/// where the pool cannot pay.
pub fn calc_out_given_in(
    amp: u64,
    balances: &[u64],
    token_index_in: usize,
    token_index_out: usize,
    amount_in: u64,
) -> (result: Option<u64>)
    ensures
        result == stable_out_given_in(
            amp,
            balances@,
            token_index_in as int,
            token_index_out as int,
            amount_in,
        ),
        token_index_in >= balances@.len() || token_index_out >= balances@.len()
            ==> result.is_none(),
        result.is_some() ==> result.unwrap() < balances@[token_index_out as int],
{
    if token_index_in >= balances.len() || token_index_out >= balances.len() {
        return None;
    }
    let d = match calc_invariant(amp, balances) {
        None => {
            return None;
        },
        Some(v) => v,
    };
    let new_balance_in = match balances[token_index_in].checked_add(amount_in) {
        None => {
            return None;
        },
        Some(v) => v,
    };
    let new_balances = with_balance(balances, token_index_in, new_balance_in);
    let balance_out = balances[token_index_out];
    let final_balance_out = match get_token_balance_given_invariant_and_others(
        amp,
        new_balances.as_slice(),
        d,
        token_index_out,
    ) {
        None => {
            return None;
        },
        Some(v) => v,
    };
    match balance_out.checked_sub(final_balance_out) {
        None => None,
        Some(difference) => difference.checked_sub(1),
    }
}

/// What the stable `calc_in_given_out` returns.
pub open spec fn stable_in_given_out(
    amp: u64,
    balances: Seq<u64>,
    token_index_in: int,
    token_index_out: int,
    amount_out: u64,
) -> Option<u64> {
    if !(0 <= token_index_in < balances.len()) || !(0 <= token_index_out < balances.len()) {
        None
    } else if balances[token_index_out] < amount_out {
        None
    } else {
        match stable_invariant(amp, balances) {
            None => None,
            Some(d) => match balance_given_invariant(
                amp,
                balances.update(token_index_out, (balances[token_index_out] - amount_out) as u64),
                d,
                token_index_in,
            ) {
                None => None,
                Some(final_balance) => if final_balance >= balances[token_index_in]
                    && final_balance - balances[token_index_in] + 1 <= u64::MAX {
                    Some((final_balance - balances[token_index_in] + 1) as u64)
                } else {
                    None
                },
            },
        }
    }
}

/// The amount of the token at `token_index_in` that must enter the pool for
/// `amount_out` of the token at `token_index_out` to leave it: the invariant
/// is held, and one unit more is charged for the pool. The solver settles
/// within one unit, so a larger amount out can cost less, by three units at
/// most (`stable_laws`).
///
/// Nothing where an index names no token, where the pool holds less than
/// `amount_out`, or where a solver yields nothing.
pub fn calc_in_given_out(
    amp: u64,
    balances: &[u64],
    token_index_in: usize,
    token_index_out: usize,
    amount_out: u64,
) -> (result: Option<u64>)
    ensures
        result == stable_in_given_out(
            amp,
            balances@,
            token_index_in as int,
            token_index_out as int,
            amount_out,
        ),
        token_index_in >= balances@.len() || token_index_out >= balances@.len()
            ==> result.is_none(),
        result.is_some() ==> result.unwrap() >= 1,
{
    if token_index_in >= balances.len() || token_index_out >= balances.len() {
        return None;
    }
    let d = match calc_invariant(amp, balances) {
        None => {
            return None;
        },
        Some(v) => v,
    };
    let new_balance_out = match balances[token_index_out].checked_sub(amount_out) {
        None => {
            return None;
        },
        Some(v) => v,
    };
    let new_balances = with_balance(balances, token_index_out, new_balance_out);
    let balance_in = balances[token_index_in];
    let final_balance_in = match get_token_balance_given_invariant_and_others(
        amp,
        new_balances.as_slice(),
        d,
        token_index_in,
    ) {
        None => {
            return None;
        },
        Some(v) => v,
    };
    match final_balance_in.checked_sub(balance_in) {
        None => None,
        Some(difference) => difference.checked_add(1),
    }
}

/// The balances after each has taken its amount, where the two lists are
/// of one length and every sum fits 64 bits.
pub open spec fn balances_after_deposit(balances: Seq<u64>, amounts_in: Seq<u64>) -> Option<
    Seq<u64>,
> {
    if balances.len() == amounts_in.len() && (forall|i: int|
        0 <= i < balances.len() ==> balances[i] + amounts_in[i] <= u64::MAX) {
        Some(Seq::new(balances.len(), |i: int| (balances[i] + amounts_in[i]) as u64))
    } else {
        None
    }
}

/// The balances after each has taken its amount.
fn add_amounts(balances: &[u64], amounts_in: &[u64]) -> (result: Option<Vec<u64>>)
    ensures
        match result {
            Some(sums) => balances_after_deposit(balances@, amounts_in@) == Some(sums@),
            None => balances_after_deposit(balances@, amounts_in@).is_none(),
        },
{
    if balances.len() != amounts_in.len() {
        return None;
    }
    let mut sums: Vec<u64> = Vec::with_capacity(balances.len());
    let mut i: usize = 0;
    while i < balances.len()
        invariant
            i <= balances@.len(),
            balances@.len() == amounts_in@.len(),
            sums@.len() == i,
            forall|j: int| 0 <= j < i ==> balances@[j] + amounts_in@[j] <= u64::MAX,
            forall|j: int| 0 <= j < i ==> sums@[j] == balances@[j] + amounts_in@[j],
        decreases balances@.len() - i,
    {
        match balances[i].checked_add(amounts_in[i]) {
            None => {
                return None;
            },
            Some(v) => {
                sums.push(v);
            },
        }
        i = i + 1;
    }
    assert(sums@ =~= Seq::new(
        balances@.len(),
        |i: int| (balances@[i] + amounts_in@[i]) as u64,
    ));
    Some(sums)
}

/// What `calc_lp_tokens_for_deposit_simple` returns.
pub open spec fn lp_tokens_for_deposit_simple(
    amp: u64,
    balances: Seq<u64>,
    amounts_in: Seq<u64>,
    lp_supply: u64,
) -> Option<u64> {
    match (stable_invariant(amp, balances), balances_after_deposit(balances, amounts_in)) {
        (Some(current_d), Some(new_balances)) => match stable_invariant(amp, new_balances) {
            None => None,
            Some(new_d) => if lp_supply != 0 && current_d != 0 && lp_supply * new_d / (
            current_d as int) >= lp_supply && lp_supply * new_d / (current_d as int) - lp_supply
                <= u64::MAX {
                Some((lp_supply * new_d / (current_d as int) - lp_supply) as u64)
            } else {
                None
            },
        },
        _ => None,
    }
}

/// The pool shares for a deposit, without fees:
/// `lp_supply * D_new / D_old - lp_supply`, rounded down.
///
/// Nothing where the two lists differ in length, where the pool or the
/// supply is empty, or where the invariant has shrunk.
pub fn calc_lp_tokens_for_deposit_simple(
    amp: u64,
    balances: &[u64],
    amounts_in: &[u64],
    lp_supply: u64,
) -> (result: Option<u64>)
    ensures
        result == lp_tokens_for_deposit_simple(amp, balances@, amounts_in@, lp_supply),
        balances@.len() != amounts_in@.len() ==> result.is_none(),
        sum_of(balances@) == 0 ==> result.is_none(),
        lp_supply == 0 ==> result.is_none(),
        result.is_some() ==> stable_invariant(
            amp,
            balances_after_deposit(balances@, amounts_in@).unwrap(),
        ).unwrap() >= stable_invariant(amp, balances@).unwrap(),
{
    let current_d = match calc_invariant(amp, balances) {
        None => {
            return None;
        },
        Some(v) => v,
    };
    let new_balances = match add_amounts(balances, amounts_in) {
        None => {
            return None;
        },
        Some(v) => v,
    };
    let new_d = match calc_invariant(amp, new_balances.as_slice()) {
        None => {
            return None;
        },
        Some(v) => v,
    };
    if current_d == 0 || lp_supply == 0 {
        return None;
    }
    proof {
        crate::math::fixed::lemma_u64_product_fits(lp_supply, new_d);
    }
    let grown: u128 = (lp_supply as u128) * (new_d as u128) / (current_d as u128);
    if grown < lp_supply as u128 {
        return None;
    }
    proof {
        // Shares are minted only where the invariant has not shrunk.
        if new_d < current_d {
            lemma_product_nonnegative(lp_supply as int, new_d as int);
            crate::math::fixed::lemma_floor_ceil(lp_supply * new_d, current_d as int);
            assert(false) by (nonlinear_arith)
                requires
                    grown * current_d <= lp_supply * new_d,
                    grown >= lp_supply,
                    new_d < current_d,
                    lp_supply > 0,
                    new_d >= 0,
            ;
        }
    }
    let lp_out: u128 = grown - lp_supply as u128;
    if lp_out <= u64::MAX as u128 {
        Some(lp_out as u64)
    } else {
        None
    }
}

/// The deposit ratio of one token: `(balance + amount_in) / balance`,
/// rounded down.
pub open spec fn deposit_ratio(balance: u64, amount_in: u64) -> Option<u64> {
    if balance + amount_in > u64::MAX {
        None
    } else {
        match ((balance + amount_in) as u64).div_down_spec(balance) {
            Ok(ratio) => Some(ratio),
            Err(_) => None,
        }
    }
}

/// The ideal ratio over the first `count` tokens: the sum of their deposit
/// ratios, each weighted by its token's share `balance / sum` of the pool.
pub open spec fn ideal_ratio(balances: Seq<u64>, amounts_in: Seq<u64>, sum: u64, count: nat) -> Option<
    u64,
>
    decreases count,
{
    if count == 0 {
        Some(0)
    } else {
        match (
            ideal_ratio(balances, amounts_in, sum, (count - 1) as nat),
            deposit_ratio(balances[count - 1], amounts_in[count - 1]),
            balances[count - 1].div_down_spec(sum),
        ) {
            (Some(before), Some(ratio), Ok(weight)) => match ratio.mul_down_spec(weight) {
                Ok(part) => if before + part <= u64::MAX {
                    Some((before + part) as u64)
                } else {
                    None
                },
                Err(_) => None,
            },
            _ => None,
        }
    }
}

/// Once the ideal ratio has failed, it fails for every longer prefix.
pub proof fn lemma_ideal_ratio_fails(
    balances: Seq<u64>,
    amounts_in: Seq<u64>,
    sum: u64,
    count: nat,
    longer: nat,
)
    requires
        ideal_ratio(balances, amounts_in, sum, count).is_none(),
        count <= longer,
    ensures
        ideal_ratio(balances, amounts_in, sum, longer).is_none(),
    decreases longer,
{
    if longer > count {
        lemma_ideal_ratio_fails(balances, amounts_in, sum, count, (longer - 1) as nat);
    }
}

/// The balance of one token after its deposit, net of the fee: a deposit
/// whose ratio exceeds the ideal ratio pays `swap_fee` on the part above
/// `balance * (ideal - 1)`.
pub open spec fn balance_after_fee(balance: u64, amount_in: u64, ideal: u64, swap_fee: u64) -> Option<
    u64,
> {
    match deposit_ratio(balance, amount_in) {
        None => None,
        Some(ratio) => if ratio > ideal {
            match balance.mul_down_spec(
                if ideal > ONE_U64 {
                    (ideal - ONE_U64) as u64
                } else {
                    0
                },
            ) {
                Err(_) => None,
                Ok(non_taxable) => {
                    let taxable = if amount_in > non_taxable {
                        (amount_in - non_taxable) as u64
                    } else {
                        0
                    };
                    match taxable.mul_down_spec(swap_fee.complement_spec()) {
                        Err(_) => None,
                        Ok(net) => if balance + (net + non_taxable) <= u64::MAX {
                            Some((balance + (net + non_taxable)) as u64)
                        } else {
                            None
                        },
                    }
                },
            }
        } else {
            Some((balance + amount_in) as u64)
        },
    }
}

/// Whether every token has a balance after its deposit, net of the fee.
pub open spec fn all_pay_fee(balances: Seq<u64>, amounts_in: Seq<u64>, ideal: u64, swap_fee: u64) -> bool {
    forall|i: int|
        0 <= i < balances.len() ==> (#[trigger] balance_after_fee(
            balances[i],
            amounts_in[i],
            ideal,
            swap_fee,
        )).is_some()
}

/// The balances after the deposits, net of the fee.
pub open spec fn balances_after_fee(
    balances: Seq<u64>,
    amounts_in: Seq<u64>,
    ideal: u64,
    swap_fee: u64,
) -> Seq<u64> {
    Seq::new(
        balances.len(),
        |i: int| balance_after_fee(balances[i], amounts_in[i], ideal, swap_fee).unwrap(),
    )
}

/// What `calc_lp_tokens_for_deposit_with_fee` returns.
pub open spec fn lp_tokens_for_deposit_with_fee(
    amp: u64,
    balances: Seq<u64>,
    amounts_in: Seq<u64>,
    lp_supply: u64,
    current_d: u64,
    swap_fee: u64,
) -> Option<u64> {
    if balances.len() == 0 || balances.len() != amounts_in.len() || sum_of(balances) > u64::MAX {
        None
    } else {
        match ideal_ratio(balances, amounts_in, sum_of(balances) as u64, balances.len()) {
            None => None,
            Some(ideal) => if all_pay_fee(balances, amounts_in, ideal, swap_fee) {
                match stable_invariant(
                    amp,
                    balances_after_fee(balances, amounts_in, ideal, swap_fee),
                ) {
                    None => None,
                    Some(new_d) => match new_d.div_down_spec(current_d) {
                        Err(_) => None,
                        Ok(growth) => if growth > ONE_U64 {
                            match lp_supply.mul_down_spec((growth - ONE_U64) as u64) {
                                Ok(minted) => Some(minted),
                                Err(_) => None,
                            }
                        } else {
                            Some(0)
                        },
                    },
                }
            } else {
                None
            },
        }
    }
}

/// The deposit ratio of one token.
fn deposit_ratio_of(balance: u64, amount_in: u64) -> (result: Option<u64>)
    ensures
        result == deposit_ratio(balance, amount_in),
{
    match balance.checked_add(amount_in) {
        None => None,
        Some(new_balance) => match new_balance.div_down(balance) {
            Ok(ratio) => Some(ratio),
            Err(_) => None,
        },
    }
}

/// The ideal ratio over all tokens.
fn ideal_ratio_of(balances: &[u64], amounts_in: &[u64], sum: u64) -> (result: Option<u64>)
    requires
        balances@.len() == amounts_in@.len(),
    ensures
        result == ideal_ratio(balances@, amounts_in@, sum, balances@.len()),
{
    let mut ideal: u64 = 0;
    let mut i: usize = 0;
    while i < balances.len()
        invariant
            i <= balances@.len(),
            balances@.len() == amounts_in@.len(),
            ideal_ratio(balances@, amounts_in@, sum, i as nat) == Some(ideal),
        decreases balances@.len() - i,
    {
        let next = match deposit_ratio_of(balances[i], amounts_in[i]) {
            None => None,
            Some(ratio) => match balances[i].div_down(sum) {
                Err(_) => None,
                Ok(weight) => match ratio.mul_down(weight) {
                    Err(_) => None,
                    Ok(part) => ideal.checked_add(part),
                },
            },
        };
        ideal = match next {
            None => {
                proof {
                    lemma_ideal_ratio_fails(
                        balances@,
                        amounts_in@,
                        sum,
                        (i + 1) as nat,
                        balances@.len(),
                    );
                }
                return None;
            },
            Some(v) => v,
        };
        i = i + 1;
    }
    Some(ideal)
}

/// The balance of one token after its deposit, net of the fee.
fn balance_after_fee_of(balance: u64, amount_in: u64, ideal: u64, swap_fee: u64) -> (result:
    Option<u64>)
    ensures
        result == balance_after_fee(balance, amount_in, ideal, swap_fee),
{
    let ratio = match deposit_ratio_of(balance, amount_in) {
        None => {
            return None;
        },
        Some(v) => v,
    };
    if ratio > ideal {
        let above_one: u64 = if ideal > ONE_U64 {
            ideal - ONE_U64
        } else {
            0
        };
        let non_taxable = match balance.mul_down(above_one) {
            Err(_) => {
                return None;
            },
            Ok(v) => v,
        };
        let taxable: u64 = if amount_in > non_taxable {
            amount_in - non_taxable
        } else {
            0
        };
        let net = match taxable.mul_down(swap_fee.complement()) {
            Err(_) => {
                return None;
            },
            Ok(v) => v,
        };
        match net.checked_add(non_taxable) {
            None => None,
            Some(amount_in_without_fee) => balance.checked_add(amount_in_without_fee),
        }
    } else {
        Some(balance + amount_in)
    }
}

/// The pool shares for a deposit that need not be balanced:
/// `lp_supply * (D_new / D_old - 1)`, and zero where the invariant has not
/// grown. `D_new` is taken over the balances net of the fee: each token
/// whose deposit ratio `(balance + amount_in) / balance` exceeds the ideal
/// ratio, the average of the ratios weighted by the tokens' shares of the
/// pool, pays `swap_fee` on the part of its deposit above the ideal.
///
/// Nothing for a pool without tokens, for lists of different lengths, for a
/// token with a balance of zero, or where a step does not fit its width.
pub fn calc_lp_tokens_for_deposit_with_fee(
    amp: u64,
    balances: &[u64],
    amounts_in: &[u64],
    lp_supply: u64,
    current_d: u64,
    swap_fee: u64,
) -> (result: Option<u64>)
    ensures
        result == lp_tokens_for_deposit_with_fee(
            amp,
            balances@,
            amounts_in@,
            lp_supply,
            current_d,
            swap_fee,
        ),
        balances@.len() == 0 || balances@.len() != amounts_in@.len() ==> result.is_none(),
        current_d == 0 ==> result.is_none(),
{
    if balances.len() == 0 || balances.len() != amounts_in.len() {
        return None;
    }
    let sum = match checked_sum(balances) {
        None => {
            return None;
        },
        Some(v) => v,
    };
    let ideal = match ideal_ratio_of(balances, amounts_in, sum) {
        None => {
            return None;
        },
        Some(v) => v,
    };
    let mut new_balances: Vec<u64> = Vec::with_capacity(balances.len());
    let mut i: usize = 0;
    while i < balances.len()
        invariant
            i <= balances@.len(),
            balances@.len() == amounts_in@.len(),
            new_balances@.len() == i,
            balances@.len() > 0,
            sum == sum_of(balances@),
            ideal_ratio(balances@, amounts_in@, sum, balances@.len()) == Some(ideal),
            forall|j: int|
                0 <= j < i ==> (#[trigger] balance_after_fee(
                    balances@[j],
                    amounts_in@[j],
                    ideal,
                    swap_fee,
                )) == Some(new_balances@[j]),
        decreases balances@.len() - i,
    {
        match balance_after_fee_of(balances[i], amounts_in[i], ideal, swap_fee) {
            None => {
                assert(balance_after_fee(
                    balances@[i as int],
                    amounts_in@[i as int],
                    ideal,
                    swap_fee,
                ).is_none());
                return None;
            },
            Some(v) => {
                new_balances.push(v);
            },
        }
        i = i + 1;
    }
    assert(new_balances@ =~= balances_after_fee(balances@, amounts_in@, ideal, swap_fee));
    let new_d = match calc_invariant(amp, new_balances.as_slice()) {
        None => {
            return None;
        },
        Some(v) => v,
    };
    let growth = match new_d.div_down(current_d) {
        Err(_) => {
            return None;
        },
        Ok(v) => v,
    };
    if growth > ONE_U64 {
        match lp_supply.mul_down(growth - ONE_U64) {
            Ok(minted) => Some(minted),
            Err(_) => None,
        }
    } else {
        Some(0)
    }
}

/// What `calc_token_out_for_lp_burn` returns.
pub open spec fn token_out_for_lp_burn(
    amp: u64,
    balances: Seq<u64>,
    token_index: int,
    lp_amount_in: u64,
    lp_supply: u64,
    current_d: u64,
    swap_fee: u64,
) -> Option<u64> {
    if lp_amount_in > lp_supply || lp_supply == 0 || !(0 <= token_index < balances.len()) {
        None
    } else {
        let new_d = current_d * (lp_supply - lp_amount_in) / (lp_supply as int);
        if new_d > u64::MAX {
            None
        } else {
            match balance_given_invariant(amp, balances, new_d as u64, token_index) {
                None => None,
                Some(new_balance) => if balances[token_index] < new_balance || sum_of(balances)
                    > u64::MAX {
                    None
                } else {
                    let raw = (balances[token_index] - new_balance) as u64;
                    match balances[token_index].div_down_spec(sum_of(balances) as u64) {
                        Err(_) => None,
                        Ok(weight) => match raw.mul_up_spec(weight.complement_spec()) {
                            Err(_) => None,
                            Ok(taxable) => match taxable.mul_down_spec(swap_fee.complement_spec()) {
                                Err(_) => None,
                                Ok(net) => {
                                    let non_taxable = if raw > taxable {
                                        raw - taxable
                                    } else {
                                        0
                                    };
                                    if net + non_taxable <= u64::MAX {
                                        Some((net + non_taxable) as u64)
                                    } else {
                                        None
                                    }
                                },
                            },
                        },
                    }
                },
            }
        }
    }
}

/// What the token at `token_index` pays out when `lp_amount_in` of
/// `lp_supply` shares are burnt for that token alone. The invariant shrinks
/// to `D_old * (lp_supply - lp_amount_in) / lp_supply`, and the token's
/// balance to what that invariant implies. Of the difference, the share
/// `1 - balance / sum` (rounded up) pays `swap_fee`; the rest is free.
///
/// Nothing where more shares are burnt than exist, where the supply is zero,
/// where the index names no token, or where a step yields nothing.
pub fn calc_token_out_for_lp_burn(
    amp: u64,
    balances: &[u64],
    token_index: usize,
    lp_amount_in: u64,
    lp_supply: u64,
    current_d: u64,
    swap_fee: u64,
) -> (result: Option<u64>)
    ensures
        result == token_out_for_lp_burn(
            amp,
            balances@,
            token_index as int,
            lp_amount_in,
            lp_supply,
            current_d,
            swap_fee,
        ),
        lp_supply == 0 || lp_amount_in > lp_supply || token_index >= balances@.len()
            ==> result.is_none(),
{
    if lp_amount_in > lp_supply || lp_supply == 0 || token_index >= balances.len() {
        return None;
    }
    proof {
        crate::math::fixed::lemma_u64_product_fits(current_d, (lp_supply - lp_amount_in) as u64);
    }
    let shrunk: u128 = (current_d as u128) * ((lp_supply - lp_amount_in) as u128) / (
    lp_supply as u128);
    if shrunk > u64::MAX as u128 {
        return None;
    }
    let new_d: u64 = shrunk as u64;
    let balance = balances[token_index];
    let new_balance = match get_token_balance_given_invariant_and_others(
        amp,
        balances,
        new_d,
        token_index,
    ) {
        None => {
            return None;
        },
        Some(v) => v,
    };
    let raw = match balance.checked_sub(new_balance) {
        None => {
            return None;
        },
        Some(v) => v,
    };
    let sum = match checked_sum(balances) {
        None => {
            return None;
        },
        Some(v) => v,
    };
    let weight = match balance.div_down(sum) {
        Err(_) => {
            return None;
        },
        Ok(v) => v,
    };
    let taxable = match raw.mul_up(weight.complement()) {
        Err(_) => {
            return None;
        },
        Ok(v) => v,
    };
    let non_taxable: u64 = if raw > taxable {
        raw - taxable
    } else {
        0
    };
    match taxable.mul_down(swap_fee.complement()) {
        Err(_) => None,
        Ok(net) => net.checked_add(non_taxable),
    }
}

/// `balance * lp_amount / lp_supply` for each balance, rounded down or up,
/// where the supply is not zero and every amount fits 64 bits. A pool
/// without tokens has no proportional amounts.
pub open spec fn proportional_amounts(
    balances: Seq<u64>,
    lp_amount: u64,
    lp_supply: u64,
    up: bool,
) -> Option<Seq<u64>> {
    if balances.len() > 0 && lp_supply != 0 && (forall|i: int|
        0 <= i < balances.len() ==> proportional_amount(balances[i], lp_amount, lp_supply, up)
            <= u64::MAX) {
        Some(
            Seq::new(
                balances.len(),
                |i: int| proportional_amount(balances[i], lp_amount, lp_supply, up) as u64,
            ),
        )
    } else {
        None
    }
}

/// `balance * lp_amount / lp_supply`, rounded down or up.
pub open spec fn proportional_amount(balance: u64, lp_amount: u64, lp_supply: u64, up: bool) -> int {
    if up {
        (balance * lp_amount + lp_supply - 1) / (lp_supply as int)
    } else {
        balance * lp_amount / (lp_supply as int)
    }
}

/// A proportional amount rounded down is at most the exact share
/// `balance * lp_amount / lp_supply`, and rounded up at least that share;
/// the two differ by one at most. So a withdrawal never takes more, and a
/// deposit never brings less, than the shares are worth.
pub proof fn lemma_proportional_amount_brackets(balance: u64, lp_amount: u64, lp_supply: u64)
    requires
        lp_supply != 0,
    ensures
        proportional_amount(balance, lp_amount, lp_supply, false) * lp_supply <= balance
            * lp_amount <= proportional_amount(balance, lp_amount, lp_supply, true) * lp_supply,
        0 <= proportional_amount(balance, lp_amount, lp_supply, false) <= proportional_amount(
            balance,
            lp_amount,
            lp_supply,
            true,
        ) <= proportional_amount(balance, lp_amount, lp_supply, false) + 1,
{
    lemma_product_nonnegative(balance as int, lp_amount as int);
    crate::math::fixed::lemma_floor_ceil(balance * lp_amount, lp_supply as int);
}

/// The proportional amounts of all balances in the given rounding.
fn proportional(balances: &[u64], lp_amount: u64, lp_supply: u64, up: bool) -> (result: Option<
    Vec<u64>,
>)
    ensures
        match result {
            Some(amounts) => proportional_amounts(balances@, lp_amount, lp_supply, up) == Some(
                amounts@,
            ),
            None => proportional_amounts(balances@, lp_amount, lp_supply, up).is_none(),
        },
{
    if balances.len() == 0 || lp_supply == 0 {
        return None;
    }
    let mut amounts: Vec<u64> = Vec::with_capacity(balances.len());
    let mut i: usize = 0;
    while i < balances.len()
        invariant
            i <= balances@.len(),
            lp_supply != 0,
            amounts@.len() == i,
            forall|j: int|
                0 <= j < i ==> proportional_amount(balances@[j], lp_amount, lp_supply, up)
                    <= u64::MAX,
            forall|j: int|
                0 <= j < i ==> amounts@[j] == proportional_amount(
                    balances@[j],
                    lp_amount,
                    lp_supply,
                    up,
                ),
        decreases balances@.len() - i,
    {
        proof {
            crate::math::fixed::lemma_u64_product_fits(balances@[i as int], lp_amount);
        }
        let product: u128 = (balances[i] as u128) * (lp_amount as u128);
        let amount: u128 = if up {
            (product + (lp_supply as u128 - 1)) / (lp_supply as u128)
        } else {
            product / (lp_supply as u128)
        };
        if amount > u64::MAX as u128 {
            return None;
        }
        amounts.push(amount as u64);
        i = i + 1;
    }
    assert(amounts@ =~= Seq::new(
        balances@.len(),
        |i: int| proportional_amount(balances@[i], lp_amount, lp_supply, up) as u64,
    ));
    Some(amounts)
}

/// What each token pays out when `lp_amount_in` of `lp_supply` shares are
/// burnt: `balance * lp_amount_in / lp_supply`, rounded down.
///
/// Nothing for a pool without tokens, for a supply of zero, or where an
/// amount does not fit 64 bits.
pub fn calc_tokens_out_proportional(balances: &[u64], lp_amount_in: u64, lp_supply: u64) -> (result:
    Option<Vec<u64>>)
    ensures
        match result {
            Some(amounts) => proportional_amounts(balances@, lp_amount_in, lp_supply, false)
                == Some(amounts@),
            None => proportional_amounts(balances@, lp_amount_in, lp_supply, false).is_none(),
        },
        balances@.len() == 0 || lp_supply == 0 ==> result.is_none(),
{
    proportional(balances, lp_amount_in, lp_supply, false)
}

/// What each token must pay in for `lp_amount_out` new shares beside
/// `lp_supply`: `balance * lp_amount_out / lp_supply`, rounded up.
///
/// Nothing for a pool without tokens, for a supply of zero, or where an
/// amount does not fit 64 bits.
pub fn calc_tokens_in_proportional(balances: &[u64], lp_amount_out: u64, lp_supply: u64) -> (result:
    Option<Vec<u64>>)
    ensures
        match result {
            Some(amounts) => proportional_amounts(balances@, lp_amount_out, lp_supply, true)
                == Some(amounts@),
            None => proportional_amounts(balances@, lp_amount_out, lp_supply, true).is_none(),
        },
        balances@.len() == 0 || lp_supply == 0 ==> result.is_none(),
{
    proportional(balances, lp_amount_out, lp_supply, true)
}

} // verus!
