//! How far a rounded power can lie from the exact power.
//!
//! For a base from one quarter to one and an exponent below one, the power
//! rounded up exceeds the exact power, and the power rounded down falls
//! short of it, by `POW_TOLERANCE` units of the last place at most; the two
//! roundings differ by twice that at most. Each of the thirty square roots
//! adds at most two units to the error of its predecessor, each product
//! adds the errors of its factors and two units at most, and the rounding
//! of the exponent to thirty binary digits costs four units at most.
//!
//! For an exponent below sixteen the whole part of the exponent adds two
//! units for each unit of it at most, and the tolerance is
//! `WIDE_POW_TOLERANCE`.
use crate::errors::MiniStabbleError;
use crate::math::fixed::{lemma_floor_ceil, lemma_mul_fits_u128, ONE, SCALE};
use crate::math::power::{
    approx_pow, exponent_steps, frac_pow_rounded, lemma_pow_of_one, lemma_root_fits,
    lemma_sqrt_floor_exists, mul_rounded, pow_rounded, sqrt_ceil, sqrt_floor, sqrt_rounded,
    BITS_HALF, BITS_ONE,
};
use crate::math::power_laws::{
    dominated, dominates, lemma_cancel, lemma_dominated_product, lemma_dominated_relaxed_down,
    lemma_dominated_root, lemma_dominated_scaled, lemma_dominated_trivially,
    lemma_dominated_unscaled, lemma_dominates_product, lemma_dominates_relaxed,
    lemma_dominates_root, lemma_dominates_scaled, lemma_dominates_trivially,
    lemma_dominates_unscaled, lemma_mul_inequalities, lemma_pow_base_monotone,
    lemma_pow_down_dominated, lemma_pow_root, lemma_pow_up_dominates,
    lemma_scale_power_positive,
};
use vstd::arithmetic::power::{lemma_pow_adds, lemma_pow_distributes, pow};
use vstd::arithmetic::power2::{lemma2_to64, lemma_pow2_pos, lemma_pow2_unfold, pow2};
use vstd::prelude::*;

verus! {

/// The most units of the last place by which a rounded power differs from
/// the exact power, for a base from one quarter to one and an exponent
/// below one.
pub const POW_TOLERANCE: u128 = 964;

/// The smallest base for which the tolerance is proved: one quarter.
pub const QUARTER: u128 = 250_000_000;

/// The error of a square root after `level` halvings, in units of the last
/// place.
pub open spec fn root_error(level: nat) -> int {
    2 * (level as int)
}

/// The error of a product of roots after `level` halvings, in units of the
/// last place.
pub open spec fn product_error(level: nat) -> int {
    (level as int) * (level as int) + 2 * (level as int)
}

/// A bound from above holds of every smaller number too.
pub proof fn lemma_dominated_smaller(r: int, smaller: int, x: int, num: nat, den: nat)
    requires
        0 <= smaller <= r,
        dominated(r, x, num, den),
    ensures
        dominated(smaller, x, num, den),
{
    lemma_pow_base_monotone(smaller, r, den);
    lemma_scale_power_positive(num);
    let k = pow(SCALE as int, num);
    let a = pow(smaller, den);
    let b = pow(r, den);
    assert(a * k <= b * k) by (nonlinear_arith)
        requires
            0 <= a <= b,
            k > 0,
    ;
}

/// A number that dominates a base of at most one, to an exponent that is
/// not above its own, is at least the base.
pub proof fn lemma_dominates_at_least_base(r: int, x: int, num: nat, den: nat)
    requires
        0 <= r,
        0 <= x <= SCALE,
        num <= den,
        den >= 1,
        dominates(r, x, num, den),
    ensures
        r >= x,
{
    let scale = SCALE as int;
    lemma_dominates_relaxed(r, x, num, den, den);
    lemma_pow_distributes(r, scale, den);
    lemma_pow_distributes(x, scale, den);
    lemma_mul_inequalities(0, r, 0, scale);
    lemma_mul_inequalities(0, x, 0, scale);
    lemma_pow_root(r * scale, x * scale, den);
    lemma_cancel(r, x, scale);
}

/// Bernoulli's inequality at the scale: `S * (S + 3)^n >= S^n * (S + 3 * n)`.
proof fn lemma_bernoulli(n: nat)
    ensures
        (SCALE as int) * pow(SCALE + 3, n) >= pow(SCALE as int, n) * (SCALE + 3 * n),
    decreases n,
{
    let s = SCALE as int;
    reveal(pow);
    if n > 0 {
        lemma_bernoulli((n - 1) as nat);
        let m = (n - 1) as nat;
        let up = pow(s + 3, m);
        let flat = pow(s, m);
        lemma_scale_power_positive(m);
        lemma_pow_base_monotone(0, s + 3, m);
        assert(s * ((s + 3) * up) >= (s * flat) * (s + 3 * n)) by (nonlinear_arith)
            requires
                s * up >= flat * (s + 3 * m),
                n == m + 1,
                flat > 0,
                up >= 0,
                s > 0,
        ;
    }
}

/// One step of `1 / BITS_ONE` in the exponent lowers a power of a base of
/// at least one quarter by three units of the last place at most:
/// `((SCALE - 3) / SCALE)^BITS_ONE <= x / SCALE`.
pub proof fn lemma_one_step_costs_three(x: int)
    requires
        QUARTER <= x,
    ensures
        dominated(SCALE - 3, x, 1, BITS_ONE as nat),
{
    let s = SCALE as int;
    let t = BITS_ONE as nat;
    lemma_bernoulli(t);
    let low = pow(s - 3, t);
    let high = pow(s + 3, t);
    let flat = pow(s, t);
    lemma_scale_power_positive(t);
    lemma_pow_base_monotone(0, s - 3, t);
    // (S + 3)^T >= 4 * S^T, since 3 * T >= 3 * S
    assert(high >= 4 * flat) by (nonlinear_arith)
        requires
            s * high >= flat * (s + 3 * t),
            t == 1_073_741_824,
            s == 1_000_000_000,
            flat > 0,
    ;
    // (S - 3)^T * (S + 3)^T <= S^T * S^T
    lemma_pow_distributes(s - 3, s + 3, t);
    lemma_pow_distributes(s, s, t);
    assert((s - 3) * (s + 3) <= s * s) by (nonlinear_arith);
    assert(0 <= (s - 3) * (s + 3)) by (nonlinear_arith)
        requires
            s == 1_000_000_000,
    ;
    lemma_pow_base_monotone((s - 3) * (s + 3), s * s, t);
    assert(low * high <= flat * flat);
    assert(4 * low <= flat) by (nonlinear_arith)
        requires
            low * high <= flat * flat,
            high >= 4 * flat,
            flat > 0,
            low >= 0,
    ;
    vstd::arithmetic::power::lemma_pow1(s);
    vstd::arithmetic::power::lemma_pow1(x);
    assert(low * s <= x * flat) by (nonlinear_arith)
        requires
            4 * low <= flat,
            4 * x >= s,
            s > 0,
            low >= 0,
            flat > 0,
    ;
}

/// What the square root rounded up of a number from one quarter to one is:
/// its square is at least the number, the square of one less is below it,
/// and it lies between the number and one, and at or above one half.
pub proof fn lemma_sqrt_up_of_fraction(s: u128)
    requires
        QUARTER <= s <= ONE,
    ensures
        sqrt_rounded(s, true).is_ok(),
        ({
            let root = sqrt_rounded(s, true).unwrap() as int;
            &&& root * root >= s * SCALE
            &&& (root - 1) * (root - 1) < s * SCALE
            &&& s <= root <= SCALE
            &&& 2 * root >= SCALE
        }),
{
    let scale = SCALE as int;
    let n = s * scale;
    assert(0 < n <= scale * scale && n >= s * s && 4 * n >= scale * scale) by (nonlinear_arith)
        requires
            n == s * scale,
            250_000_000 <= s <= scale,
            scale == 1_000_000_000,
    ;
    lemma_sqrt_floor_exists(n);
    lemma_root_fits(n);
    let low = sqrt_floor(n);
    let root = sqrt_ceil(n);
    assert(root * root >= n && (root - 1) * (root - 1) < n) by (nonlinear_arith)
        requires
            0 <= low,
            low * low <= n,
            n < (low + 1) * (low + 1),
            0 < n,
            root == low || root == low + 1,
            root == low <==> low * low == n,
    ;
    assert(root <= scale) by (nonlinear_arith)
        requires
            (root - 1) * (root - 1) < n,
            n <= scale * scale,
            root >= 0,
            scale > 0,
    ;
    assert(root >= s) by (nonlinear_arith)
        requires
            root * root >= n,
            n >= s * s,
            root >= 0,
            s >= 0,
    ;
    assert(2 * root >= scale) by (nonlinear_arith)
        requires
            root * root >= n,
            4 * n >= scale * scale,
            root >= 0,
            scale > 0,
    ;
}

/// What the product rounded up of two numbers of at most one is: at least
/// the exact product, less than one unit above it, and at most one.
pub proof fn lemma_mul_up_of_fractions(a: u128, b: u128)
    requires
        a <= ONE,
        b <= ONE,
    ensures
        mul_rounded(a, b, true).is_ok(),
        ({
            let c = mul_rounded(a, b, true).unwrap() as int;
            &&& c * SCALE >= a * b
            &&& c * SCALE <= a * b + SCALE - 1
            &&& 0 <= c <= SCALE
        }),
{
    let scale = SCALE as int;
    let n = a * b;
    assert(0 <= n <= scale * scale) by (nonlinear_arith)
        requires
            n == a * b,
            0 <= a <= scale,
            0 <= b <= scale,
    ;
    assert(scale * scale == 1_000_000_000_000_000_000) by (nonlinear_arith)
        requires
            scale == 1_000_000_000,
    ;
    lemma_mul_fits_u128(a, b);
    lemma_floor_ceil(n, scale);
    lemma_floor_ceil(n + scale - 1, scale);
    let c = (n + scale - 1) / scale;
    assert(c <= scale) by (nonlinear_arith)
        requires
            c * scale <= n + scale - 1,
            n <= scale * scale,
            scale > 0,
    ;
}

/// The fraction of a power rounded up, with its error. After `level`
/// halvings, where `s` exceeds the exact root by `root_error(level)` at
/// most and the factor in front the exact product by
/// `product_error(level)` at most, the result exceeds the exact power by
/// `product_error(30)` units at most.
pub proof fn lemma_frac_pow_up_within(
    s: u128,
    rem: nat,
    w: nat,
    acc: u128,
    x: int,
    done: nat,
    den: nat,
    digits: nat,
    level: nat,
)
    requires
        QUARTER <= x <= SCALE,
        w == pow2(digits),
        rem < 2 * w,
        level + digits == 29,
        done < den,
        x <= s <= ONE,
        x <= acc <= ONE,
        dominates(s as int, x, 1, den),
        dominates(acc as int, x, done, den),
        dominated(s - root_error(level), x, 1, den),
        dominated(acc - product_error(level), x, done, den),
    ensures
        frac_pow_rounded(s, rem, w, acc, true).is_ok(),
        x <= frac_pow_rounded(s, rem, w, acc, true).unwrap() <= ONE,
        dominated(
            frac_pow_rounded(s, rem, w, acc, true).unwrap() - product_error(30),
            x,
            done * (2 * w) + rem,
            den * (2 * w),
        ),
    decreases w,
{
    let scale = SCALE as int;
    let delta = root_error(level);
    let eps = product_error(level);
    lemma_pow2_pos(digits);
    assert(0 <= delta <= 58 && 0 <= eps <= 899 && eps <= product_error(30)) by (nonlinear_arith)
        requires
            level <= 29,
            delta == 2 * level,
            eps == level * level + 2 * level,
            product_error(30) == 960,
    ;
    if rem == 0 {
        lemma_dominated_smaller(acc - eps, acc - product_error(30), x, done, den);
        lemma_dominated_scaled(acc - product_error(30), x, done, den, 2 * w);
    } else {
        // The next root and its error.
        lemma_sqrt_up_of_fraction(s);
        let root = sqrt_rounded(s, true).unwrap();
        let next_delta = root_error(level + 1);
        assert(next_delta == delta + 2);
        let t = root - 1;
        let d = delta + 1;
        assert((root - next_delta) * (root - next_delta) <= (s - delta) * scale)
            by (nonlinear_arith)
            requires
                t * t < s * scale,
                t == root - 1,
                d == delta + 1,
                next_delta == delta + 2,
                2 * root >= scale,
                0 <= delta <= 58,
                scale == 1_000_000_000,
        ;
        lemma_dominated_root(root - next_delta, s - delta, x, 1, den);
        lemma_dominates_root(root as int, s as int, x, 1, den);
        // The factor in front, with both exponents doubled.
        lemma_dominated_scaled(acc - eps, x, done, den, 2);
        lemma_dominates_scaled(acc as int, x, done, den, 2);
        assert(done * 2 == 2 * done) by (nonlinear_arith);
        assert(den * 2 == 2 * den) by (nonlinear_arith);
        let next_eps = product_error(level + 1);
        assert(next_eps == eps + next_delta + 1) by (nonlinear_arith)
            requires
                next_eps == (level + 1) * (level + 1) + 2 * (level + 1),
                eps == level * level + 2 * level,
                next_delta == 2 * (level + 1),
        ;
        let takes = rem >= w;
        let next_done: nat = if takes {
            2 * done + 1
        } else {
            2 * done
        };
        let next_rem: nat = if takes {
            (rem - w) as nat
        } else {
            rem
        };
        let next = if takes {
            mul_rounded(acc, root, true).unwrap()
        } else {
            acc
        };
        if takes {
            lemma_mul_up_of_fractions(acc, root);
            lemma_dominates_product(acc as int, root as int, next as int, x, 2 * done, 1, 2 * den);
            lemma_dominates_at_least_base(next as int, x, 2 * done + 1, 2 * den);
            assert((next - next_eps) * scale <= (acc - eps) * (root - next_delta))
                by (nonlinear_arith)
                requires
                    next * scale <= acc * root + scale - 1,
                    next_eps == eps + next_delta + 1,
                    0 <= acc <= scale,
                    0 <= root <= scale,
                    0 <= eps,
                    0 <= next_delta,
            ;
            lemma_dominated_product(
                acc - eps,
                root - next_delta,
                next - next_eps,
                x,
                2 * done,
                1,
                2 * den,
            );
        } else {
            lemma_dominated_smaller(acc - eps, acc - next_eps, x, 2 * done, 2 * den);
        }
        assert(x <= next <= ONE);
        assert(dominates(next as int, x, next_done, 2 * den));
        assert(dominated(next - next_eps, x, next_done, 2 * den));
        if digits == 0 {
            lemma2_to64();
            assert(w == 1);
            assert(next_rem == 0);
            assert(level + 1 == 30);
            assert(frac_pow_rounded(s, rem, w, acc, true) == Ok::<u128, MiniStabbleError>(next));
            assert(done * (2 * w) + rem == next_done);
            assert(den * (2 * w) == 2 * den);
        } else {
            lemma_pow2_unfold(digits);
            let half = w / 2;
            assert(half == pow2((digits - 1) as nat));
            assert(w == 2 * half);
            lemma_frac_pow_up_within(
                root,
                next_rem,
                half,
                next,
                x,
                next_done,
                2 * den,
                (digits - 1) as nat,
                level + 1,
            );
            assert(next_done * (2 * half) + next_rem == done * (2 * w) + rem) by (nonlinear_arith)
                requires
                    w == 2 * half,
                    next_done == 2 * done + (if takes {
                        1int
                    } else {
                        0
                    }),
                    next_rem == rem - (if takes {
                        w as int
                    } else {
                        0
                    }),
            ;
            assert((2 * den) * (2 * half) == den * (2 * w)) by (nonlinear_arith)
                requires
                    w == 2 * half,
            ;
        }
    }
}

/// The tolerance of a power rounded up: for a base from one quarter to one
/// and an exponent below one, the result lies at or above the exact power
/// and less than `POW_TOLERANCE` units of the last place above it,
/// `((r - POW_TOLERANCE) / SCALE)^SCALE <= (base / SCALE)^exp <= (r / SCALE)^SCALE`.
pub proof fn lemma_pow_up_within_tolerance(base: u128, exp: u128)
    requires
        QUARTER <= base <= ONE,
        0 < exp < ONE,
    ensures
        pow_rounded(base, exp, true).is_ok(),
        POW_TOLERANCE <= pow_rounded(base, exp, true).unwrap() <= ONE,
        dominates(
            pow_rounded(base, exp, true).unwrap() as int,
            base as int,
            exp as nat,
            SCALE as nat,
        ),
        dominated(
            pow_rounded(base, exp, true).unwrap() - POW_TOLERANCE,
            base as int,
            exp as nat,
            SCALE as nat,
        ),
{
    let x = base as int;
    let scale = SCALE as int;
    let s = SCALE as nat;
    let t = BITS_ONE as nat;
    let f = exp as int;
    let steps = exponent_steps(base, f, true) as nat;
    lemma2_to64();
    assert(pow2(29) == BITS_HALF);
    assert(exp / SCALE == 0 && exp % SCALE == exp);
    assert(0 <= f * BITS_ONE <= 999_999_999 * 1_073_741_824) by (nonlinear_arith)
        requires
            0 <= f <= 999_999_999,
    ;
    lemma_floor_ceil(f * BITS_ONE, scale);
    vstd::arithmetic::div_mod::lemma_div_is_ordered(
        f * BITS_ONE + SCALE - 1,
        999_999_999 * 1_073_741_824 + SCALE - 1,
        scale,
    );
    vstd::arithmetic::div_mod::lemma_fundamental_div_mod(f * BITS_ONE, scale);
    vstd::arithmetic::div_mod::lemma_mod_bound(f * BITS_ONE, scale);
    assert(steps < t);
    // The steps never fall short of the exponent by a whole step.
    assert((steps + 1) * s >= f * t) by (nonlinear_arith)
        requires
            steps == f * t / (s as int) || steps == (f * t + s - 1) / (s as int),
            f * t == (s as int) * (f * t / (s as int)) + (f * t) % (s as int),
            0 <= (f * t) % (s as int) < s,
            f * t / (s as int) <= (f * t + s - 1) / (s as int),
    ;
    lemma_dominates_trivially(x);
    lemma_dominated_trivially(x);
    lemma_frac_pow_up_within(base, steps, BITS_HALF as nat, ONE, x, 0, 1, 29, 0);
    assert(0 * (2 * (BITS_HALF as nat)) + steps == steps);
    assert(1 * (2 * (BITS_HALF as nat)) == t);
    let part = frac_pow_rounded(base, steps, BITS_HALF as nat, ONE, true).unwrap();
    // The whole part is one, and one times the fraction is the fraction.
    lemma_mul_up_of_fractions(ONE, part);
    let result = mul_rounded(ONE, part, true).unwrap();
    assert(result == part) by (nonlinear_arith)
        requires
            result * scale >= ONE * part,
            result * scale <= ONE * part + scale - 1,
            ONE == scale,
            scale > 0,
    ;
    assert(approx_pow(base, exp, true) == Ok::<u128, MiniStabbleError>(part));
    assert(pow_rounded(base, exp, true) == Ok::<u128, MiniStabbleError>(part));
    lemma_pow_up_dominates(base, exp);
    // One more step of the exponent costs three units at most.
    lemma_one_step_costs_three(x);
    let below = part - product_error(30);
    let lowest = part - POW_TOLERANCE;
    assert(lowest * scale <= below * (scale - 3)) by (nonlinear_arith)
        requires
            below == part - 960,
            lowest == part - 964,
            part <= scale,
            scale == 1_000_000_000,
    ;
    lemma_dominated_product(below, scale - 3, lowest, x, steps, 1, t);
    lemma_dominated_scaled(lowest, x, steps + 1, t, s);
    assert(exp as nat * t <= (steps + 1) * s);
    lemma_dominated_relaxed_down(lowest, x, (steps + 1) * s, exp as nat * t, t * s);
    assert(t * s == s * t) by (nonlinear_arith);
    lemma_dominated_unscaled(lowest, x, exp as nat, s, t);
}

/// The error of a square root rounded down after `level` halvings, in
/// units of the last place.
pub open spec fn root_error_down(level: nat) -> int {
    level as int
}

/// A bound from below holds of every larger number too.
pub proof fn lemma_dominates_larger(r: int, larger: int, x: int, num: nat, den: nat)
    requires
        0 <= r <= larger,
        dominates(r, x, num, den),
    ensures
        dominates(larger, x, num, den),
{
    lemma_pow_base_monotone(r, larger, den);
    lemma_scale_power_positive(num);
    let k = pow(SCALE as int, num);
    let a = pow(r, den);
    let b = pow(larger, den);
    assert(a * k <= b * k) by (nonlinear_arith)
        requires
            0 <= a <= b,
            k > 0,
    ;
}

/// What the square root rounded down of a number from one quarter to one
/// is: its square is at most the number, the square of one more is above
/// it, and it lies between the number and one, and at or above one half.
pub proof fn lemma_sqrt_down_of_fraction(s: u128)
    requires
        QUARTER <= s <= ONE,
    ensures
        sqrt_rounded(s, false).is_ok(),
        ({
            let root = sqrt_rounded(s, false).unwrap() as int;
            &&& root * root <= s * SCALE
            &&& (root + 1) * (root + 1) > s * SCALE
            &&& s <= root <= SCALE
            &&& 2 * root >= SCALE
        }),
{
    let scale = SCALE as int;
    let n = s * scale;
    assert(0 < n <= scale * scale && n >= s * s && 4 * n >= scale * scale) by (nonlinear_arith)
        requires
            n == s * scale,
            250_000_000 <= s <= scale,
            scale == 1_000_000_000,
    ;
    lemma_sqrt_floor_exists(n);
    lemma_root_fits(n);
    let root = sqrt_floor(n);
    assert(root <= scale) by (nonlinear_arith)
        requires
            root * root <= n,
            n <= scale * scale,
            root >= 0,
            scale > 0,
    ;
    assert(root >= s) by (nonlinear_arith)
        requires
            (root + 1) * (root + 1) > n,
            n >= s * s,
            root >= 0,
            s >= 0,
    ;
    assert(2 * root >= scale) by (nonlinear_arith)
        requires
            (root + 1) * (root + 1) > n,
            4 * n >= scale * scale,
            root >= 0,
            scale == 1_000_000_000,
    ;
}

/// What the product rounded down of two numbers of at most one is: at most
/// the exact product, less than one unit below it, and at most one.
pub proof fn lemma_mul_down_of_fractions(a: u128, b: u128)
    requires
        a <= ONE,
        b <= ONE,
    ensures
        mul_rounded(a, b, false).is_ok(),
        ({
            let c = mul_rounded(a, b, false).unwrap() as int;
            &&& c * SCALE <= a * b
            &&& c * SCALE >= a * b - SCALE + 1
            &&& 0 <= c <= SCALE
        }),
{
    let scale = SCALE as int;
    let n = a * b;
    assert(0 <= n <= scale * scale) by (nonlinear_arith)
        requires
            n == a * b,
            0 <= a <= scale,
            0 <= b <= scale,
    ;
    assert(scale * scale == 1_000_000_000_000_000_000) by (nonlinear_arith)
        requires
            scale == 1_000_000_000,
    ;
    lemma_mul_fits_u128(a, b);
    lemma_floor_ceil(n, scale);
    vstd::arithmetic::div_mod::lemma_fundamental_div_mod(n, scale);
    vstd::arithmetic::div_mod::lemma_mod_bound(n, scale);
    let c = n / scale;
    assert(scale * c == c * scale) by (nonlinear_arith);
    assert(c <= scale) by (nonlinear_arith)
        requires
            c * scale <= n,
            n <= scale * scale,
            scale > 0,
    ;
}

/// The fraction of a power rounded down, with its error. After `level`
/// halvings, where `s` falls short of the exact root by
/// `root_error_down(level)` at most and the factor in front of the exact
/// product by `product_error(level)` at most, the result falls short of the
/// exact power by `product_error(30)` units at most.
pub proof fn lemma_frac_pow_down_within(
    s: u128,
    rem: nat,
    w: nat,
    acc: u128,
    x: int,
    done: nat,
    den: nat,
    digits: nat,
    level: nat,
)
    requires
        QUARTER <= x <= SCALE,
        w == pow2(digits),
        rem < 2 * w,
        level + digits == 29,
        x <= s <= ONE,
        acc <= ONE,
        dominates(s + root_error_down(level), x, 1, den),
        dominates(acc + product_error(level), x, done, den),
    ensures
        frac_pow_rounded(s, rem, w, acc, false).is_ok(),
        frac_pow_rounded(s, rem, w, acc, false).unwrap() <= ONE,
        dominates(
            frac_pow_rounded(s, rem, w, acc, false).unwrap() + product_error(30),
            x,
            done * (2 * w) + rem,
            den * (2 * w),
        ),
    decreases w,
{
    let scale = SCALE as int;
    let delta = root_error_down(level);
    let eps = product_error(level);
    lemma_pow2_pos(digits);
    assert(0 <= delta <= 29 && 0 <= eps <= 899 && eps <= product_error(30)) by (nonlinear_arith)
        requires
            level <= 29,
            delta == level,
            eps == level * level + 2 * level,
            product_error(30) == 960,
    ;
    if rem == 0 {
        lemma_dominates_larger(acc + eps, acc + product_error(30), x, done, den);
        lemma_dominates_scaled(acc + product_error(30), x, done, den, 2 * w);
    } else {
        // The next root and its error.
        lemma_sqrt_down_of_fraction(s);
        let root = sqrt_rounded(s, false).unwrap();
        let next_delta = root_error_down(level + 1);
        assert(next_delta == delta + 1);
        assert((root + next_delta) * (root + next_delta) >= (s + delta) * scale)
            by (nonlinear_arith)
            requires
                (root + 1) * (root + 1) > s * scale,
                next_delta == delta + 1,
                2 * root >= scale,
                0 <= delta,
                scale > 0,
        ;
        lemma_dominates_root(root + next_delta, s + delta, x, 1, den);
        // The factor in front, with both exponents doubled.
        lemma_dominates_scaled(acc + eps, x, done, den, 2);
        assert(done * 2 == 2 * done) by (nonlinear_arith);
        assert(den * 2 == 2 * den) by (nonlinear_arith);
        let next_eps = product_error(level + 1);
        assert(next_eps == eps + 2 * level + 3) by (nonlinear_arith)
            requires
                next_eps == (level + 1) * (level + 1) + 2 * (level + 1),
                eps == level * level + 2 * level,
        ;
        let takes = rem >= w;
        let next_done: nat = if takes {
            2 * done + 1
        } else {
            2 * done
        };
        let next_rem: nat = if takes {
            (rem - w) as nat
        } else {
            rem
        };
        let next = if takes {
            mul_rounded(acc, root, false).unwrap()
        } else {
            acc
        };
        if takes {
            lemma_mul_down_of_fractions(acc, root);
            assert((next + next_eps) * scale >= (acc + eps) * (root + next_delta))
                by (nonlinear_arith)
                requires
                    next * scale >= acc * root - scale + 1,
                    next_eps == eps + 2 * level + 3,
                    next_delta == level + 1,
                    0 <= acc <= scale,
                    0 <= root <= scale,
                    0 <= eps <= 899,
                    0 <= level <= 29,
                    scale == 1_000_000_000,
            ;
            lemma_dominates_product(
                acc + eps,
                root + next_delta,
                next + next_eps,
                x,
                2 * done,
                1,
                2 * den,
            );
        } else {
            lemma_dominates_larger(acc + eps, acc + next_eps, x, 2 * done, 2 * den);
        }
        assert(next <= ONE);
        assert(dominates(next + next_eps, x, next_done, 2 * den));
        if digits == 0 {
            lemma2_to64();
            assert(w == 1);
            assert(next_rem == 0);
            assert(level + 1 == 30);
            assert(frac_pow_rounded(s, rem, w, acc, false) == Ok::<u128, MiniStabbleError>(next));
            assert(done * (2 * w) + rem == next_done);
            assert(den * (2 * w) == 2 * den);
        } else {
            lemma_pow2_unfold(digits);
            let half = w / 2;
            assert(half == pow2((digits - 1) as nat));
            assert(w == 2 * half);
            lemma_frac_pow_down_within(
                root,
                next_rem,
                half,
                next,
                x,
                next_done,
                2 * den,
                (digits - 1) as nat,
                level + 1,
            );
            assert(next_done * (2 * half) + next_rem == done * (2 * w) + rem) by (nonlinear_arith)
                requires
                    w == 2 * half,
                    next_done == 2 * done + (if takes {
                        1int
                    } else {
                        0
                    }),
                    next_rem == rem - (if takes {
                        w as int
                    } else {
                        0
                    }),
            ;
            assert((2 * den) * (2 * half) == den * (2 * w)) by (nonlinear_arith)
                requires
                    w == 2 * half,
            ;
        }
    }
}

/// One step of `1 / BITS_ONE` less in the exponent: from
/// `(a / SCALE)^BITS_ONE >= (x / SCALE)^m` and `c * (SCALE - 3) >= a * SCALE`
/// follows `(c / SCALE)^BITS_ONE >= (x / SCALE)^(m - 1)`, for a base of at
/// least one quarter.
pub proof fn lemma_dominates_one_step_less(a: int, c: int, x: int, m: nat)
    requires
        QUARTER <= x,
        0 <= a,
        0 <= c,
        m >= 1,
        dominates(a, x, m, BITS_ONE as nat),
        c * (SCALE - 3) >= a * SCALE,
    ensures
        dominates(c, x, (m - 1) as nat, BITS_ONE as nat),
{
    let s = SCALE as int;
    let t = BITS_ONE as nat;
    let less = (m - 1) as nat;
    lemma_one_step_costs_three(x);
    lemma_mul_inequalities(0, a, 0, s);
    lemma_pow_base_monotone(a * s, c * (s - 3), t);
    lemma_pow_distributes(a, s, t);
    lemma_pow_distributes(c, s - 3, t);
    lemma_pow_adds(s, less, 1);
    lemma_pow_adds(x, less, 1);
    vstd::arithmetic::power::lemma_pow1(s);
    vstd::arithmetic::power::lemma_pow1(x);
    lemma_scale_power_positive(t);
    lemma_scale_power_positive(less);
    lemma_pow_base_monotone(0, a, t);
    lemma_pow_base_monotone(0, c, t);
    lemma_pow_base_monotone(0, x, less);
    vstd::arithmetic::power::lemma_pow_positive(s - 3, t);
    let a_t = pow(a, t);
    let c_t = pow(c, t);
    let low = pow(s - 3, t);
    let k_t = pow(s, t);
    let k_l = pow(s, less);
    let x_l = pow(x, less);
    // c^T * low >= a^T * S^T,  a^T * (S^less * S) >= (x^less * x) * S^T,  low * S <= x * S^T
    assert(c_t * low >= a_t * k_t);
    assert(a_t * (k_l * s) >= (x_l * x) * k_t);
    assert(low * s <= x * k_t);
    assert((c_t * k_l) * (low * s) >= (x_l * k_t) * (low * s)) by (nonlinear_arith)
        requires
            c_t * low >= a_t * k_t,
            a_t * (k_l * s) >= (x_l * x) * k_t,
            low * s <= x * k_t,
            low > 0,
            s > 0,
            k_t > 0,
            k_l > 0,
            x_l >= 0,
            a_t >= 0,
            c_t >= 0,
            x >= 0,
    ;
    assert(low * s > 0) by (nonlinear_arith)
        requires
            low > 0,
            s > 0,
    ;
    lemma_cancel(c_t * k_l, x_l * k_t, low * s);
}

/// The tolerance of a power rounded down: for a base from one quarter to
/// one and an exponent below one, the result lies at or below the exact
/// power and `POW_TOLERANCE` units of the last place below it at most,
/// `(r / SCALE)^SCALE <= (base / SCALE)^exp <= ((r + POW_TOLERANCE) / SCALE)^SCALE`.
pub proof fn lemma_pow_down_within_tolerance(base: u128, exp: u128)
    requires
        QUARTER <= base <= ONE,
        0 < exp < ONE,
    ensures
        pow_rounded(base, exp, false).is_ok(),
        pow_rounded(base, exp, false).unwrap() <= ONE,
        dominated(
            pow_rounded(base, exp, false).unwrap() as int,
            base as int,
            exp as nat,
            SCALE as nat,
        ),
        dominates(
            pow_rounded(base, exp, false).unwrap() + POW_TOLERANCE,
            base as int,
            exp as nat,
            SCALE as nat,
        ),
{
    let x = base as int;
    let scale = SCALE as int;
    let s = SCALE as nat;
    let t = BITS_ONE as nat;
    let f = exp as int;
    if base == ONE {
        lemma_pow_of_one(exp, false);
        lemma_pow_of_one(exp, true);
        lemma_pow_down_dominated(base, exp);
        lemma_pow_up_dominates(base, exp);
        lemma_dominates_larger(scale, scale + POW_TOLERANCE, x, exp as nat, s);
    } else {
        let steps = exponent_steps(base, f, false) as nat;
        lemma2_to64();
        assert(pow2(29) == BITS_HALF);
        assert(exp / SCALE == 0 && exp % SCALE == exp);
        assert(0 < f * BITS_ONE <= 999_999_999 * 1_073_741_824) by (nonlinear_arith)
            requires
                0 < f <= 999_999_999,
        ;
        lemma_floor_ceil(f * BITS_ONE, scale);
        lemma_floor_ceil(f * BITS_ONE + scale - 1, scale);
        vstd::arithmetic::div_mod::lemma_div_is_ordered(
            f * BITS_ONE + SCALE - 1,
            999_999_999 * 1_073_741_824 + SCALE - 1,
            scale,
        );
        assert(steps == (f * BITS_ONE + scale - 1) / scale);
        assert(steps < t);
        // The steps are the exponent rounded up: at least one, and less
        // than one step above it.
        assert(steps >= 1 && (steps - 1) * s <= f * t) by (nonlinear_arith)
            requires
                steps * s <= f * t + s - 1,
                steps * s >= f * t,
                f * t > 0,
                s > 0,
                steps >= 0,
        ;
        lemma_dominates_trivially(x);
        lemma_frac_pow_down_within(base, steps, BITS_HALF as nat, ONE, x, 0, 1, 29, 0);
        assert(0 * (2 * (BITS_HALF as nat)) + steps == steps);
        assert(1 * (2 * (BITS_HALF as nat)) == t);
        let part = frac_pow_rounded(base, steps, BITS_HALF as nat, ONE, false).unwrap();
        // The whole part is one, and one times the fraction is the fraction.
        lemma_mul_down_of_fractions(ONE, part);
        let result = mul_rounded(ONE, part, false).unwrap();
        assert(result == part) by (nonlinear_arith)
            requires
                result * scale <= ONE * part,
                result * scale >= ONE * part - scale + 1,
                ONE == scale,
                scale > 0,
        ;
        assert(approx_pow(base, exp, false) == Ok::<u128, MiniStabbleError>(part));
        assert(pow_rounded(base, exp, false) == Ok::<u128, MiniStabbleError>(part));
        lemma_pow_down_dominated(base, exp);
        // One step less of the exponent costs four units at most.
        let above = part + product_error(30);
        let highest = part + POW_TOLERANCE;
        assert(highest * (scale - 3) >= above * scale) by (nonlinear_arith)
            requires
                above == part + 960,
                highest == part + 964,
                0 <= part <= scale,
                scale == 1_000_000_000,
        ;
        lemma_dominates_one_step_less(above, highest, x, steps);
        let less = (steps - 1) as nat;
        lemma_dominates_scaled(highest, x, less, t, s);
        assert(less * s <= exp as nat * t);
        lemma_dominates_relaxed(highest, x, less * s, exp as nat * t, t * s);
        assert(t * s == s * t) by (nonlinear_arith);
        lemma_dominates_unscaled(highest, x, exp as nat, s, t);
    }
}

/// The defined tolerance of the power: for a base from one quarter to one
/// and an exponent below one, the power rounded down and the power rounded
/// up bracket the exact power and differ by twice `POW_TOLERANCE` units of
/// the last place at most.
pub proof fn lemma_pow_roundings_are_close(base: u128, exp: u128)
    requires
        QUARTER <= base <= ONE,
        0 < exp < ONE,
    ensures
        pow_rounded(base, exp, false).is_ok(),
        pow_rounded(base, exp, true).is_ok(),
        pow_rounded(base, exp, false).unwrap() <= pow_rounded(base, exp, true).unwrap()
            <= pow_rounded(base, exp, false).unwrap() + 2 * POW_TOLERANCE,
{
    lemma_pow_up_within_tolerance(base, exp);
    lemma_pow_down_within_tolerance(base, exp);
    crate::math::power_laws::lemma_pow_down_le_exact_le_pow_up(base, exp);
    let down = pow_rounded(base, exp, false).unwrap() as int;
    let up = pow_rounded(base, exp, true).unwrap() as int;
    let s = SCALE as nat;
    lemma_scale_power_positive(exp as nat);
    let k = pow(SCALE as int, exp as nat);
    // (up - T)^S * k <= x^e * S^S <= (down + T)^S * k
    assert(pow(down + POW_TOLERANCE, s) * k >= pow(up - POW_TOLERANCE, s) * k);
    lemma_cancel(pow(down + POW_TOLERANCE, s), pow(up - POW_TOLERANCE, s), k);
    lemma_pow_root(down + POW_TOLERANCE, up - POW_TOLERANCE, s);
}

/// The most units of the last place by which a rounded power differs from
/// the exact power, for a base from one quarter to one and an exponent
/// below sixteen.
pub const WIDE_POW_TOLERANCE: u128 = 1_000;

/// The exponent below which the wide tolerance is proved: sixteen.
pub const SIXTEEN: u128 = 16_000_000_000;

/// `r - k`, and zero where that is negative.
pub open spec fn less_by(r: int, k: int) -> int {
    if r >= k {
        r - k
    } else {
        0
    }
}

/// The product rounded up of two numbers of at most one, with errors: less
/// the errors of both factors and one unit, it is at most the product of
/// the factors less their errors.
pub proof fn lemma_mul_up_with_errors(a: u128, b: u128, error_a: int, error_b: int)
    requires
        a <= ONE,
        b <= ONE,
        0 <= error_a,
        0 <= error_b,
    ensures
        mul_rounded(a, b, true).is_ok(),
        mul_rounded(a, b, true).unwrap() <= ONE,
        less_by(mul_rounded(a, b, true).unwrap() as int, error_a + error_b + 1) * SCALE <= less_by(
            a as int,
            error_a,
        ) * less_by(b as int, error_b),
{
    let scale = SCALE as int;
    lemma_mul_up_of_fractions(a, b);
    let next = mul_rounded(a, b, true).unwrap() as int;
    let left = less_by(next, error_a + error_b + 1);
    let a_less = less_by(a as int, error_a);
    let b_less = less_by(b as int, error_b);
    lemma_mul_inequalities(0, a_less, 0, b_less);
    if a >= error_a && b >= error_b {
        assert((a - error_a) * (b - error_b) >= (next - error_a - error_b - 1) * scale)
            by (nonlinear_arith)
            requires
                next * scale <= a * b + scale - 1,
                0 <= error_a <= a,
                0 <= error_b <= b,
                a <= scale,
                b <= scale,
        ;
    } else {
        assert(next <= error_a + error_b) by (nonlinear_arith)
            requires
                next * scale <= a * b + scale - 1,
                a < error_a || b < error_b,
                0 <= a <= scale,
                0 <= b <= scale,
                0 <= error_a,
                0 <= error_b,
                scale > 0,
        ;
    }
}

/// A whole power rounded up, with its error. Where the base exceeds the
/// exact power `q` of `x` by `error_base` at most and the factor in front
/// the power `p` by `error_acc`, the result exceeds the power `p + q * k`
/// by `error_acc + k * (error_base + 1)` at most.
pub proof fn lemma_int_pow_up_with_errors(
    base: u128,
    k: nat,
    acc: u128,
    x: int,
    q: nat,
    p: nat,
    error_base: int,
    error_acc: int,
)
    requires
        0 <= x,
        base <= ONE,
        acc <= ONE,
        0 <= error_base,
        0 <= error_acc,
        dominated(less_by(base as int, error_base), x, q, 1),
        dominated(less_by(acc as int, error_acc), x, p, 1),
    ensures
        crate::math::power::int_pow_rounded(base, k, acc, true).is_ok(),
        crate::math::power::int_pow_rounded(base, k, acc, true).unwrap() <= ONE,
        dominated(
            less_by(
                crate::math::power::int_pow_rounded(base, k, acc, true).unwrap() as int,
                error_acc + k * (error_base + 1),
            ),
            x,
            p + q * k,
            1,
        ),
    decreases k,
{
    if k == 0 {
        assert(q * k == 0 && k * (error_base + 1) == 0) by (nonlinear_arith)
            requires
                k == 0,
        ;
    } else {
        let odd = k % 2 == 1;
        let half = k / 2;
        let next = if odd {
            mul_rounded(acc, base, true).unwrap()
        } else {
            acc
        };
        let next_p = if odd {
            p + q
        } else {
            p
        };
        let next_error = if odd {
            error_acc + error_base + 1
        } else {
            error_acc
        };
        if odd {
            lemma_mul_up_with_errors(acc, base, error_acc, error_base);
            lemma_dominated_product(
                less_by(acc as int, error_acc),
                less_by(base as int, error_base),
                less_by(next as int, next_error),
                x,
                p,
                q,
                1,
            );
        }
        assert(next <= ONE);
        assert(dominated(less_by(next as int, next_error), x, next_p, 1));
        assert(next_p + (2 * q) * half == p + q * k) by (nonlinear_arith)
            requires
                k == 2 * half + (if odd {
                    1int
                } else {
                    0
                }),
                next_p == p + (if odd {
                    q
                } else {
                    0
                }),
        ;
        assert(next_error + half * ((2 * error_base + 1) + 1) == error_acc + k * (error_base + 1))
            by (nonlinear_arith)
            requires
                k == 2 * half + (if odd {
                    1int
                } else {
                    0
                }),
                next_error == error_acc + (if odd {
                    error_base + 1
                } else {
                    0
                }),
        ;
        if half == 0 {
            assert((2 * q) * half == 0 && half * ((2 * error_base + 1) + 1) == 0)
                by (nonlinear_arith)
                requires
                    half == 0,
            ;
        } else {
            lemma_mul_up_with_errors(base, base, error_base, error_base);
            let square = mul_rounded(base, base, true).unwrap();
            lemma_dominated_product(
                less_by(base as int, error_base),
                less_by(base as int, error_base),
                less_by(square as int, 2 * error_base + 1),
                x,
                q,
                q,
                1,
            );
            lemma_int_pow_up_with_errors(
                square,
                half,
                next,
                x,
                2 * q,
                next_p,
                2 * error_base + 1,
                next_error,
            );
        }
    }
}

/// The wide tolerance of a power rounded up: for a base from one quarter to
/// one and an exponent below sixteen, the result lies at or above the exact
/// power and less than `WIDE_POW_TOLERANCE` units of the last place above
/// it.
pub proof fn lemma_pow_up_within_wide_tolerance(base: u128, exp: u128)
    requires
        QUARTER <= base <= ONE,
        0 < exp < SIXTEEN,
    ensures
        pow_rounded(base, exp, true).is_ok(),
        pow_rounded(base, exp, true).unwrap() <= ONE,
        dominates(
            pow_rounded(base, exp, true).unwrap() as int,
            base as int,
            exp as nat,
            SCALE as nat,
        ),
        dominated(
            less_by(pow_rounded(base, exp, true).unwrap() as int, WIDE_POW_TOLERANCE as int),
            base as int,
            exp as nat,
            SCALE as nat,
        ),
{
    let x = base as int;
    let scale = SCALE as int;
    let s = SCALE as nat;
    let t = BITS_ONE as nat;
    let tolerance = WIDE_POW_TOLERANCE as int;
    lemma_dominated_trivially(x);
    lemma_dominates_trivially(x);
    if exp == ONE {
        lemma_dominated_scaled(x, x, 1, 1, s);
        assert(1 * s == s) by (nonlinear_arith);
        lemma_dominated_smaller(x, less_by(x, tolerance), x, s, s);
        lemma_pow_up_dominates(base, exp);
    } else if exp == crate::math::fixed::TWO {
        lemma_mul_up_with_errors(base, base, 0, 0);
        let result = mul_rounded(base, base, true).unwrap() as int;
        lemma_dominated_product(x, x, less_by(result, 1), x, 1, 1, 1);
        lemma_dominated_scaled(less_by(result, 1), x, 2, 1, s);
        assert(1 * s == s && 2 * s == exp) by (nonlinear_arith)
            requires
                s == 1_000_000_000,
                exp == 2_000_000_000,
        ;
        lemma_dominated_smaller(less_by(result, 1), less_by(result, tolerance), x, 2 * s, s);
        lemma_pow_up_dominates(base, exp);
    } else if exp == crate::math::fixed::THREE {
        lemma_mul_up_with_errors(base, base, 0, 0);
        let square = mul_rounded(base, base, true).unwrap();
        lemma_dominated_product(x, x, less_by(square as int, 1), x, 1, 1, 1);
        lemma_mul_up_with_errors(square, base, 1, 0);
        let result = mul_rounded(square, base, true).unwrap() as int;
        lemma_dominated_product(less_by(square as int, 1), x, less_by(result, 2), x, 2, 1, 1);
        lemma_dominated_scaled(less_by(result, 2), x, 3, 1, s);
        assert(1 * s == s && 3 * s == exp) by (nonlinear_arith)
            requires
                s == 1_000_000_000,
                exp == 3_000_000_000,
        ;
        lemma_dominated_smaller(less_by(result, 2), less_by(result, tolerance), x, 3 * s, s);
        lemma_pow_up_dominates(base, exp);
    } else if exp == crate::math::fixed::FOUR {
        lemma_mul_up_with_errors(base, base, 0, 0);
        let square = mul_rounded(base, base, true).unwrap();
        lemma_dominated_product(x, x, less_by(square as int, 1), x, 1, 1, 1);
        lemma_mul_up_with_errors(square, square, 1, 1);
        let result = mul_rounded(square, square, true).unwrap() as int;
        lemma_dominated_product(
            less_by(square as int, 1),
            less_by(square as int, 1),
            less_by(result, 3),
            x,
            2,
            2,
            1,
        );
        lemma_dominated_scaled(less_by(result, 3), x, 4, 1, s);
        assert(1 * s == s && 4 * s == exp) by (nonlinear_arith)
            requires
                s == 1_000_000_000,
                exp == 4_000_000_000,
        ;
        lemma_dominated_smaller(less_by(result, 3), less_by(result, tolerance), x, 4 * s, s);
        lemma_pow_up_dominates(base, exp);
    } else {
        let k = (exp / SCALE) as nat;
        let f = (exp % SCALE) as int;
        let steps = exponent_steps(base, f, true) as nat;
        lemma2_to64();
        assert(pow2(29) == BITS_HALF);
        assert(k <= 15);
        assert(0 <= f * BITS_ONE <= 999_999_999 * 1_073_741_824) by (nonlinear_arith)
            requires
                0 <= f <= 999_999_999,
        ;
        lemma_floor_ceil(f * BITS_ONE, scale);
        vstd::arithmetic::div_mod::lemma_div_is_ordered(
            f * BITS_ONE + SCALE - 1,
            999_999_999 * 1_073_741_824 + SCALE - 1,
            scale,
        );
        vstd::arithmetic::div_mod::lemma_fundamental_div_mod(f * BITS_ONE, scale);
        vstd::arithmetic::div_mod::lemma_mod_bound(f * BITS_ONE, scale);
        assert(steps < t);
        assert((steps + 1) * s >= f * t) by (nonlinear_arith)
            requires
                steps == f * t / (s as int) || steps == (f * t + s - 1) / (s as int),
                f * t == (s as int) * (f * t / (s as int)) + (f * t) % (s as int),
                0 <= (f * t) % (s as int) < s,
                f * t / (s as int) <= (f * t + s - 1) / (s as int),
        ;
        // The whole part and its error.
        lemma_int_pow_up_with_errors(base, k, ONE, x, 1, 0, 0, 0);
        let whole = crate::math::power::int_pow_rounded(base, k, ONE, true).unwrap();
        assert(0 + k * (0 + 1) == k && 0 + 1 * k == k) by (nonlinear_arith);
        lemma_dominated_scaled(less_by(whole as int, k as int), x, k, 1, t);
        assert(1 * t == t) by (nonlinear_arith);
        // The fraction and its error.
        lemma_frac_pow_up_within(base, steps, BITS_HALF as nat, ONE, x, 0, 1, 29, 0);
        assert(0 * (2 * (BITS_HALF as nat)) + steps == steps);
        assert(1 * (2 * (BITS_HALF as nat)) == t);
        let part = frac_pow_rounded(base, steps, BITS_HALF as nat, ONE, true).unwrap();
        assert(less_by(part as int, 960) == part - 960);
        // Their product.
        lemma_mul_up_with_errors(whole, part, k as int, 960);
        let result = mul_rounded(whole, part, true).unwrap() as int;
        assert(approx_pow(base, exp, true) == Ok::<u128, MiniStabbleError>(result as u128));
        lemma_dominated_product(
            less_by(whole as int, k as int),
            part - 960,
            less_by(result, (k + 961) as int),
            x,
            k * t,
            steps,
            t,
        );
        lemma_dominated_smaller(
            less_by(result, (k + 961) as int),
            less_by(result, 976),
            x,
            k * t + steps,
            t,
        );
        // One more step of the exponent costs three units at most.
        lemma_one_step_costs_three(x);
        let lowest = less_by(result, tolerance);
        assert(lowest * scale <= less_by(result, 976) * (scale - 3)) by (nonlinear_arith)
            requires
                lowest == less_by(result, 1000),
                0 <= result <= scale,
                scale == 1_000_000_000,
        ;
        lemma_dominated_product(less_by(result, 976), scale - 3, lowest, x, k * t + steps, 1, t);
        lemma_dominated_scaled(lowest, x, k * t + steps + 1, t, s);
        assert(exp as nat * t <= (k * t + steps + 1) * s) by (nonlinear_arith)
            requires
                (steps + 1) * s >= f * t,
                exp == k * s + f,
                0 <= k,
                0 <= f,
        ;
        lemma_dominated_relaxed_down(lowest, x, (k * t + steps + 1) * s, exp as nat * t, t * s);
        assert(t * s == s * t) by (nonlinear_arith);
        lemma_dominated_unscaled(lowest, x, exp as nat, s, t);
        lemma_pow_up_dominates(base, exp);
    }
}

/// The product rounded down of two numbers of at most one, with errors:
/// with the errors of both factors and two units more, it is at least the
/// product of the factors with their errors.
pub proof fn lemma_mul_down_with_errors(a: u128, b: u128, error_a: int, error_b: int)
    requires
        a <= ONE,
        b <= ONE,
        0 <= error_a <= 2_000,
        0 <= error_b <= 2_000,
    ensures
        mul_rounded(a, b, false).is_ok(),
        mul_rounded(a, b, false).unwrap() <= ONE,
        (mul_rounded(a, b, false).unwrap() + error_a + error_b + 2) * SCALE >= (a + error_a) * (b
            + error_b),
{
    let scale = SCALE as int;
    lemma_mul_down_of_fractions(a, b);
    let next = mul_rounded(a, b, false).unwrap() as int;
    assert((next + error_a + error_b + 2) * scale >= (a + error_a) * (b + error_b))
        by (nonlinear_arith)
        requires
            next * scale >= a * b - scale + 1,
            0 <= error_a <= 2_000,
            0 <= error_b <= 2_000,
            0 <= a <= scale,
            0 <= b <= scale,
            scale == 1_000_000_000,
    ;
}

/// A whole power rounded down, with its error. Where the base falls short
/// of the exact power `q` of `x` by `error_base` at most and the factor in
/// front of the power `p` by `error_acc`, the result falls short of the
/// power `p + q * k` by `error_acc + k * (error_base + 2)` at most.
pub proof fn lemma_int_pow_down_with_errors(
    base: u128,
    k: nat,
    acc: u128,
    x: int,
    q: nat,
    p: nat,
    error_base: int,
    error_acc: int,
)
    requires
        0 <= x,
        base <= ONE,
        acc <= ONE,
        0 <= error_base,
        0 <= error_acc,
        error_acc + k * (error_base + 2) <= 2_000,
        k == 0 ==> error_base <= 2_000,
        dominates(base + error_base, x, q, 1),
        dominates(acc + error_acc, x, p, 1),
    ensures
        crate::math::power::int_pow_rounded(base, k, acc, false).is_ok(),
        crate::math::power::int_pow_rounded(base, k, acc, false).unwrap() <= ONE,
        dominates(
            crate::math::power::int_pow_rounded(base, k, acc, false).unwrap() + error_acc + k * (
            error_base + 2),
            x,
            p + q * k,
            1,
        ),
    decreases k,
{
    if k == 0 {
        assert(q * k == 0 && k * (error_base + 2) == 0) by (nonlinear_arith)
            requires
                k == 0,
        ;
    } else {
        let odd = k % 2 == 1;
        let half = k / 2;
        assert(error_base + 2 <= 2_000 && error_acc <= 2_000) by (nonlinear_arith)
            requires
                error_acc + k * (error_base + 2) <= 2_000,
                k >= 1,
                0 <= error_base,
                0 <= error_acc,
        ;
        let next = if odd {
            mul_rounded(acc, base, false).unwrap()
        } else {
            acc
        };
        let next_p = if odd {
            p + q
        } else {
            p
        };
        let next_error = if odd {
            error_acc + error_base + 2
        } else {
            error_acc
        };
        if odd {
            lemma_mul_down_with_errors(acc, base, error_acc, error_base);
            lemma_dominates_product(
                acc + error_acc,
                base + error_base,
                next + next_error,
                x,
                p,
                q,
                1,
            );
        }
        assert(next <= ONE);
        assert(dominates(next + next_error, x, next_p, 1));
        assert(next_p + (2 * q) * half == p + q * k) by (nonlinear_arith)
            requires
                k == 2 * half + (if odd {
                    1int
                } else {
                    0
                }),
                next_p == p + (if odd {
                    q
                } else {
                    0
                }),
        ;
        assert(next_error + half * ((2 * error_base + 2) + 2) == error_acc + k * (error_base + 2))
            by (nonlinear_arith)
            requires
                k == 2 * half + (if odd {
                    1int
                } else {
                    0
                }),
                next_error == error_acc + (if odd {
                    error_base + 2
                } else {
                    0
                }),
        ;
        if half == 0 {
            assert((2 * q) * half == 0 && half * ((2 * error_base + 2) + 2) == 0)
                by (nonlinear_arith)
                requires
                    half == 0,
            ;
        } else {
            lemma_mul_down_with_errors(base, base, error_base, error_base);
            let square = mul_rounded(base, base, false).unwrap();
            lemma_dominates_product(
                base + error_base,
                base + error_base,
                square + 2 * error_base + 2,
                x,
                q,
                q,
                1,
            );
            lemma_int_pow_down_with_errors(
                square,
                half,
                next,
                x,
                2 * q,
                next_p,
                2 * error_base + 2,
                next_error,
            );
        }
    }
}

/// The wide tolerance of a power rounded down: for a base from one quarter
/// to one and an exponent below sixteen, the result lies at or below the
/// exact power and `WIDE_POW_TOLERANCE` units of the last place below it
/// at most.
pub proof fn lemma_pow_down_within_wide_tolerance(base: u128, exp: u128)
    requires
        QUARTER <= base <= ONE,
        0 < exp < SIXTEEN,
    ensures
        pow_rounded(base, exp, false).is_ok(),
        pow_rounded(base, exp, false).unwrap() <= ONE,
        dominated(
            pow_rounded(base, exp, false).unwrap() as int,
            base as int,
            exp as nat,
            SCALE as nat,
        ),
        dominates(
            pow_rounded(base, exp, false).unwrap() + WIDE_POW_TOLERANCE,
            base as int,
            exp as nat,
            SCALE as nat,
        ),
{
    let x = base as int;
    let scale = SCALE as int;
    let s = SCALE as nat;
    let t = BITS_ONE as nat;
    let tolerance = WIDE_POW_TOLERANCE as int;
    lemma_dominated_trivially(x);
    lemma_dominates_trivially(x);
    if base == ONE {
        lemma_pow_of_one(exp, false);
        lemma_pow_of_one(exp, true);
        lemma_pow_down_dominated(base, exp);
        lemma_pow_up_dominates(base, exp);
        lemma_dominates_larger(scale, scale + tolerance, x, exp as nat, s);
    } else if exp == ONE {
        lemma_dominates_scaled(x, x, 1, 1, s);
        assert(1 * s == s) by (nonlinear_arith);
        lemma_dominates_larger(x, x + tolerance, x, s, s);
        lemma_pow_down_dominated(base, exp);
    } else if exp == crate::math::fixed::TWO {
        lemma_mul_down_with_errors(base, base, 0, 0);
        let result = mul_rounded(base, base, false).unwrap() as int;
        lemma_dominates_product(x, x, result + 2, x, 1, 1, 1);
        lemma_dominates_scaled(result + 2, x, 2, 1, s);
        assert(1 * s == s && 2 * s == exp) by (nonlinear_arith)
            requires
                s == 1_000_000_000,
                exp == 2_000_000_000,
        ;
        lemma_dominates_larger(result + 2, result + tolerance, x, 2 * s, s);
        lemma_pow_down_dominated(base, exp);
    } else if exp == crate::math::fixed::THREE {
        lemma_mul_down_with_errors(base, base, 0, 0);
        let square = mul_rounded(base, base, false).unwrap();
        lemma_dominates_product(x, x, square + 2, x, 1, 1, 1);
        lemma_mul_down_with_errors(square, base, 2, 0);
        let result = mul_rounded(square, base, false).unwrap() as int;
        lemma_dominates_product(square + 2, x, result + 4, x, 2, 1, 1);
        lemma_dominates_scaled(result + 4, x, 3, 1, s);
        assert(1 * s == s && 3 * s == exp) by (nonlinear_arith)
            requires
                s == 1_000_000_000,
                exp == 3_000_000_000,
        ;
        lemma_dominates_larger(result + 4, result + tolerance, x, 3 * s, s);
        lemma_pow_down_dominated(base, exp);
    } else if exp == crate::math::fixed::FOUR {
        lemma_mul_down_with_errors(base, base, 0, 0);
        let square = mul_rounded(base, base, false).unwrap();
        lemma_dominates_product(x, x, square + 2, x, 1, 1, 1);
        lemma_mul_down_with_errors(square, square, 2, 2);
        let result = mul_rounded(square, square, false).unwrap() as int;
        lemma_dominates_product(square + 2, square + 2, result + 6, x, 2, 2, 1);
        lemma_dominates_scaled(result + 6, x, 4, 1, s);
        assert(1 * s == s && 4 * s == exp) by (nonlinear_arith)
            requires
                s == 1_000_000_000,
                exp == 4_000_000_000,
        ;
        lemma_dominates_larger(result + 6, result + tolerance, x, 4 * s, s);
        lemma_pow_down_dominated(base, exp);
    } else {
        let k = (exp / SCALE) as nat;
        let f = (exp % SCALE) as int;
        let steps = exponent_steps(base, f, false) as nat;
        lemma2_to64();
        assert(pow2(29) == BITS_HALF);
        assert(k <= 15);
        assert(0 <= f * BITS_ONE <= 999_999_999 * 1_073_741_824) by (nonlinear_arith)
            requires
                0 <= f <= 999_999_999,
        ;
        lemma_floor_ceil(f * BITS_ONE, scale);
        lemma_floor_ceil(f * BITS_ONE + scale - 1, scale);
        vstd::arithmetic::div_mod::lemma_div_is_ordered(
            f * BITS_ONE + SCALE - 1,
            999_999_999 * 1_073_741_824 + SCALE - 1,
            scale,
        );
        assert(steps == (f * BITS_ONE + scale - 1) / scale);
        assert(steps < t);
        // The whole part and its error.
        assert(0 + k * (0 + 2) <= 2_000) by (nonlinear_arith)
            requires
                k <= 15,
        ;
        lemma_int_pow_down_with_errors(base, k, ONE, x, 1, 0, 0, 0);
        let whole = crate::math::power::int_pow_rounded(base, k, ONE, false).unwrap();
        assert(0 + k * (0 + 2) == 2 * k && 0 + 1 * k == k) by (nonlinear_arith);
        lemma_dominates_scaled(whole + 2 * k, x, k, 1, t);
        assert(1 * t == t) by (nonlinear_arith);
        // The fraction and its error.
        lemma_frac_pow_down_within(base, steps, BITS_HALF as nat, ONE, x, 0, 1, 29, 0);
        assert(0 * (2 * (BITS_HALF as nat)) + steps == steps);
        assert(1 * (2 * (BITS_HALF as nat)) == t);
        let part = frac_pow_rounded(base, steps, BITS_HALF as nat, ONE, false).unwrap();
        // Their product.
        lemma_mul_down_with_errors(whole, part, (2 * k) as int, 960);
        let result = mul_rounded(whole, part, false).unwrap() as int;
        assert(approx_pow(base, exp, false) == Ok::<u128, MiniStabbleError>(result as u128));
        lemma_dominates_product(
            whole + 2 * k,
            part + 960,
            result + 2 * k + 962,
            x,
            k * t,
            steps,
            t,
        );
        lemma_dominates_larger(result + 2 * k + 962, result + 992, x, k * t + steps, t);
        if steps == 0 {
            // A whole exponent: nothing is lost to its rounding.
            assert(f == 0) by (nonlinear_arith)
                requires
                    steps * s >= f * t,
                    steps == 0,
                    f >= 0,
                    t > 0,
            ;
            lemma_dominates_scaled(result + 992, x, k * t, t, s);
            assert((k * t) * s == exp as nat * t) by (nonlinear_arith)
                requires
                    exp == k * s + f,
                    f == 0,
            ;
            assert(t * s == s * t) by (nonlinear_arith);
            lemma_dominates_unscaled(result + 992, x, exp as nat, s, t);
            lemma_dominates_larger(result + 992, result + tolerance, x, exp as nat, s);
        } else {
            // One step less of the exponent costs four units at most.
            let highest = result + 996;
            assert(highest * (scale - 3) >= (result + 992) * scale) by (nonlinear_arith)
                requires
                    highest == result + 996,
                    0 <= result <= scale,
                    scale == 1_000_000_000,
            ;
            lemma_dominates_one_step_less(result + 992, highest, x, k * t + steps);
            let less = (k * t + steps - 1) as nat;
            lemma_dominates_scaled(highest, x, less, t, s);
            assert(less * s <= exp as nat * t) by (nonlinear_arith)
                requires
                    less == k * t + steps - 1,
                    steps * s <= f * t + s - 1,
                    exp == k * s + f,
                    0 <= k,
                    0 <= f,
                    steps >= 1,
            ;
            lemma_dominates_relaxed(highest, x, less * s, exp as nat * t, t * s);
            assert(t * s == s * t) by (nonlinear_arith);
            lemma_dominates_unscaled(highest, x, exp as nat, s, t);
            lemma_dominates_larger(highest, result + tolerance, x, exp as nat, s);
        }
        lemma_pow_down_dominated(base, exp);
    }
}

/// The defined tolerance of the power: for a base from one quarter to one
/// and an exponent below sixteen, the power rounded down and the power
/// rounded up bracket the exact power and differ by twice
/// `WIDE_POW_TOLERANCE` units of the last place at most.
pub proof fn lemma_pow_roundings_are_close_wide(base: u128, exp: u128)
    requires
        QUARTER <= base <= ONE,
        0 < exp < SIXTEEN,
    ensures
        pow_rounded(base, exp, false).is_ok(),
        pow_rounded(base, exp, true).is_ok(),
        pow_rounded(base, exp, false).unwrap() <= pow_rounded(base, exp, true).unwrap()
            <= pow_rounded(base, exp, false).unwrap() + 2 * WIDE_POW_TOLERANCE,
{
    lemma_pow_up_within_wide_tolerance(base, exp);
    lemma_pow_down_within_wide_tolerance(base, exp);
    crate::math::power_laws::lemma_pow_down_le_exact_le_pow_up(base, exp);
    let down = pow_rounded(base, exp, false).unwrap() as int;
    let up = pow_rounded(base, exp, true).unwrap() as int;
    let s = SCALE as nat;
    let tolerance = WIDE_POW_TOLERANCE as int;
    lemma_scale_power_positive(exp as nat);
    let k = pow(SCALE as int, exp as nat);
    assert(pow(down + tolerance, s) * k >= pow(less_by(up, tolerance), s) * k);
    lemma_cancel(pow(down + tolerance, s), pow(less_by(up, tolerance), s), k);
    lemma_pow_root(down + tolerance, less_by(up, tolerance), s);
}

} // verus!
