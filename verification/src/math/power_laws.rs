//! A power rounded up is never below the exact power, and a power rounded
//! down never above it.
//!
//! The exact power of a fraction is no integer, so the bounds are stated
//! over integers: `(r / SCALE)^den >= (x / SCALE)^num` is written as
//! `r^den * SCALE^num >= x^num * SCALE^den`.
use crate::errors::MiniStabbleError;
use crate::math::fixed::{
    lemma_floor_ceil, lemma_mul_brackets_exact, lemma_mul_fits_u128, FOUR, ONE, SCALE, THREE, TWO,
    ZERO,
};
use crate::math::power::{
    approx_pow, exponent_steps, frac_pow_rounded, int_pow_rounded, lemma_root_fits,
    lemma_sqrt_floor_exists, mul_rounded, pow_rounded, sqrt_ceil, sqrt_floor, sqrt_rounded,
    BITS_HALF, BITS_ONE,
};
use vstd::arithmetic::power::{
    lemma_pow0, lemma_pow1, lemma_pow_adds, lemma_pow_distributes, lemma_pow_multiplies,
    lemma_pow_positive, pow,
};
use vstd::arithmetic::power2::{lemma2_to64, lemma_pow2_unfold, pow2};
use vstd::prelude::*;

verus! {

/// `(r / SCALE)^den >= (x / SCALE)^num`, over the integers.
pub open spec fn dominates(r: int, x: int, num: nat, den: nat) -> bool {
    pow(r, den) * pow(SCALE as int, num) >= pow(x, num) * pow(SCALE as int, den)
}

/// A power does not decrease when its base grows.
pub proof fn lemma_pow_base_monotone(a: int, b: int, n: nat)
    requires
        0 <= a <= b,
    ensures
        0 <= pow(a, n) <= pow(b, n),
    decreases n,
{
    reveal(pow);
    if n > 0 {
        lemma_pow_base_monotone(a, b, (n - 1) as nat);
        let pa = pow(a, (n - 1) as nat);
        let pb = pow(b, (n - 1) as nat);
        assert(0 <= a * pa <= b * pb) by (nonlinear_arith)
            requires
                0 <= a <= b,
                0 <= pa <= pb,
        ;
    }
}

/// A power grows strictly with a base that is not negative.
pub proof fn lemma_pow_base_strictly_monotone(a: int, b: int, n: nat)
    requires
        0 <= a < b,
        n >= 1,
    ensures
        0 <= pow(a, n) < pow(b, n),
    decreases n,
{
    reveal(pow);
    if n == 1 {
        lemma_pow0(a);
        lemma_pow0(b);
        assert(pow(a, 1) == a * pow(a, 0));
        assert(pow(b, 1) == b * pow(b, 0));
    } else {
        lemma_pow_base_strictly_monotone(a, b, (n - 1) as nat);
        let pa = pow(a, (n - 1) as nat);
        let pb = pow(b, (n - 1) as nat);
        assert(0 <= a * pa < b * pb) by (nonlinear_arith)
            requires
                0 <= a < b,
                0 <= pa < pb,
        ;
    }
}

/// Of two numbers that are not negative, the one with the larger power is
/// the larger.
pub proof fn lemma_pow_root(a: int, b: int, n: nat)
    requires
        0 <= a,
        0 <= b,
        n >= 1,
        pow(a, n) >= pow(b, n),
    ensures
        a >= b,
{
    if a < b {
        lemma_pow_base_strictly_monotone(a, b, n);
    }
}

/// The product of two inequalities between numbers that are not negative.
pub proof fn lemma_mul_inequalities(a: int, b: int, c: int, d: int)
    requires
        0 <= a <= b,
        0 <= c <= d,
    ensures
        0 <= a * c <= b * d,
{
    assert(0 <= a * c <= b * d) by (nonlinear_arith)
        requires
            0 <= a <= b,
            0 <= c <= d,
    ;
}

/// A positive factor on both sides of an inequality can be left out.
pub proof fn lemma_cancel(u: int, v: int, k: int)
    requires
        k > 0,
        u * k >= v * k,
    ensures
        u >= v,
{
    assert(u >= v) by (nonlinear_arith)
        requires
            k > 0,
            u * k >= v * k,
    ;
}

/// Every power of the scale is positive.
pub proof fn lemma_scale_power_positive(n: nat)
    ensures
        pow(SCALE as int, n) > 0,
{
    lemma_pow_positive(SCALE as int, n);
}

/// A number dominates itself once, and the number one dominates the power
/// zero of everything.
pub proof fn lemma_dominates_trivially(x: int)
    ensures
        dominates(x, x, 1, 1),
        dominates(SCALE as int, x, 0, 1),
{
    lemma_pow1(x);
    lemma_pow1(SCALE as int);
    lemma_pow0(x);
    lemma_pow0(SCALE as int);
    assert(x * (SCALE as int) == x * (SCALE as int));
}

/// A product rounded up dominates the sum of the powers that its factors
/// dominate: from `(a / SCALE)^den >= (x / SCALE)^n1`,
/// `(b / SCALE)^den >= (x / SCALE)^n2` and `c * SCALE >= a * b` follows
/// `(c / SCALE)^den >= (x / SCALE)^(n1 + n2)`.
pub proof fn lemma_dominates_product(a: int, b: int, c: int, x: int, n1: nat, n2: nat, den: nat)
    requires
        0 <= a,
        0 <= b,
        0 <= c,
        0 <= x,
        c * SCALE >= a * b,
        dominates(a, x, n1, den),
        dominates(b, x, n2, den),
    ensures
        dominates(c, x, n1 + n2, den),
{
    let s = SCALE as int;
    let a_d = pow(a, den);
    let b_d = pow(b, den);
    let c_d = pow(c, den);
    let s_d = pow(s, den);
    let s_1 = pow(s, n1);
    let s_2 = pow(s, n2);
    let x_1 = pow(x, n1);
    let x_2 = pow(x, n2);
    lemma_mul_inequalities(0, a, 0, b);
    lemma_pow_base_monotone(a * b, c * s, den);
    lemma_pow_distributes(a, b, den);
    lemma_pow_distributes(c, s, den);
    lemma_pow_adds(s, n1, n2);
    lemma_pow_adds(x, n1, n2);
    lemma_scale_power_positive(den);
    lemma_scale_power_positive(n1);
    lemma_scale_power_positive(n2);
    lemma_pow_base_monotone(0, a, den);
    lemma_pow_base_monotone(0, b, den);
    lemma_pow_base_monotone(0, c, den);
    lemma_pow_base_monotone(0, x, n1);
    lemma_pow_base_monotone(0, x, n2);
    // c^d * s^d >= a^d * b^d
    assert(c_d * s_d >= a_d * b_d);
    // (a^d * s^n1) * (b^d * s^n2) >= (x^n1 * s^d) * (x^n2 * s^d)
    lemma_mul_inequalities(x_1 * s_d, a_d * s_1, x_2 * s_d, b_d * s_2);
    assert((c_d * (s_1 * s_2)) * s_d >= ((x_1 * x_2) * s_d) * s_d) by (nonlinear_arith)
        requires
            c_d * s_d >= a_d * b_d,
            (a_d * s_1) * (b_d * s_2) >= (x_1 * s_d) * (x_2 * s_d),
            s_1 > 0,
            s_2 > 0,
            s_d > 0,
            x_1 >= 0,
            x_2 >= 0,
    ;
    lemma_cancel(c_d * (s_1 * s_2), (x_1 * x_2) * s_d, s_d);
}

/// A square root rounded up dominates half the power: from
/// `root^2 >= s * SCALE` and `(s / SCALE)^den >= (x / SCALE)^num` follows
/// `(root / SCALE)^(2 * den) >= (x / SCALE)^num`.
pub proof fn lemma_dominates_root(root: int, s: int, x: int, num: nat, den: nat)
    requires
        0 <= root,
        0 <= s,
        0 <= x,
        root * root >= s * SCALE,
        dominates(s, x, num, den),
    ensures
        dominates(root, x, num, 2 * den),
{
    let scale = SCALE as int;
    lemma_mul_inequalities(0, s, 0, scale);
    lemma_pow_base_monotone(s * scale, root * root, den);
    lemma_pow_distributes(s, scale, den);
    lemma_pow_distributes(root, root, den);
    lemma_pow_adds(root, den, den);
    lemma_pow_adds(scale, den, den);
    lemma_scale_power_positive(den);
    lemma_scale_power_positive(num);
    lemma_pow_base_monotone(0, x, num);
    lemma_pow_base_monotone(0, s, den);
    let r_2d = pow(root, 2 * den);
    let s_d = pow(s, den);
    let k_d = pow(scale, den);
    let k_n = pow(scale, num);
    let x_n = pow(x, num);
    assert(r_2d >= s_d * k_d);
    assert(r_2d * k_n >= x_n * (k_d * k_d)) by (nonlinear_arith)
        requires
            r_2d >= s_d * k_d,
            s_d * k_n >= x_n * k_d,
            k_d > 0,
            k_n > 0,
            x_n >= 0,
            s_d >= 0,
    ;
}

/// Both exponents of a bound can be multiplied by one number: from
/// `(r / SCALE)^den >= (x / SCALE)^num` follows
/// `(r / SCALE)^(den * k) >= (x / SCALE)^(num * k)`.
pub proof fn lemma_dominates_scaled(r: int, x: int, num: nat, den: nat, k: nat)
    requires
        0 <= r,
        0 <= x,
        dominates(r, x, num, den),
    ensures
        dominates(r, x, num * k, den * k),
{
    let scale = SCALE as int;
    lemma_scale_power_positive(den);
    lemma_scale_power_positive(num);
    lemma_pow_base_monotone(0, x, num);
    lemma_pow_base_monotone(0, r, den);
    let left = pow(r, den) * pow(scale, num);
    let right = pow(x, num) * pow(scale, den);
    lemma_mul_inequalities(0, pow(x, num), 0, pow(scale, den));
    lemma_pow_base_monotone(right, left, k);
    lemma_pow_distributes(pow(r, den), pow(scale, num), k);
    lemma_pow_distributes(pow(x, num), pow(scale, den), k);
    lemma_pow_multiplies(r, den, k);
    lemma_pow_multiplies(scale, num, k);
    lemma_pow_multiplies(x, num, k);
    lemma_pow_multiplies(scale, den, k);
}

/// Both exponents of a bound can be divided by one positive number: from
/// `(r / SCALE)^(den * k) >= (x / SCALE)^(num * k)` follows
/// `(r / SCALE)^den >= (x / SCALE)^num`.
pub proof fn lemma_dominates_unscaled(r: int, x: int, num: nat, den: nat, k: nat)
    requires
        0 <= r,
        0 <= x,
        k >= 1,
        dominates(r, x, num * k, den * k),
    ensures
        dominates(r, x, num, den),
{
    let scale = SCALE as int;
    lemma_scale_power_positive(den);
    lemma_scale_power_positive(num);
    lemma_pow_base_monotone(0, x, num);
    lemma_pow_base_monotone(0, r, den);
    let left = pow(r, den) * pow(scale, num);
    let right = pow(x, num) * pow(scale, den);
    lemma_mul_inequalities(0, pow(x, num), 0, pow(scale, den));
    lemma_mul_inequalities(0, pow(r, den), 0, pow(scale, num));
    lemma_pow_distributes(pow(r, den), pow(scale, num), k);
    lemma_pow_distributes(pow(x, num), pow(scale, den), k);
    lemma_pow_multiplies(r, den, k);
    lemma_pow_multiplies(scale, num, k);
    lemma_pow_multiplies(x, num, k);
    lemma_pow_multiplies(scale, den, k);
    lemma_pow_root(left, right, k);
}

/// For a base of at most one, a bound holds of every larger exponent too:
/// from `(r / SCALE)^den >= (x / SCALE)^num` and `x <= SCALE` follows
/// `(r / SCALE)^den >= (x / SCALE)^more` for `more >= num`.
pub proof fn lemma_dominates_relaxed(r: int, x: int, num: nat, more: nat, den: nat)
    requires
        0 <= r,
        0 <= x <= SCALE,
        num <= more,
        dominates(r, x, num, den),
    ensures
        dominates(r, x, more, den),
{
    let scale = SCALE as int;
    let extra = (more - num) as nat;
    lemma_pow_adds(scale, num, extra);
    lemma_pow_adds(x, num, extra);
    lemma_pow_base_monotone(x, scale, extra);
    lemma_pow_base_monotone(0, x, num);
    lemma_pow_base_monotone(0, r, den);
    lemma_scale_power_positive(den);
    lemma_scale_power_positive(num);
    let r_d = pow(r, den);
    let k_d = pow(scale, den);
    let k_n = pow(scale, num);
    let x_n = pow(x, num);
    let k_e = pow(scale, extra);
    let x_e = pow(x, extra);
    assert(r_d * (k_n * k_e) >= (x_n * x_e) * k_d) by (nonlinear_arith)
        requires
            r_d * k_n >= x_n * k_d,
            0 <= x_e <= k_e,
            x_n >= 0,
            k_d > 0,
            r_d >= 0,
            k_n > 0,
    ;
}

/// For a base of at least one, a bound holds of every smaller exponent
/// too: from `(r / SCALE)^den >= (x / SCALE)^num` and `x >= SCALE` follows
/// `(r / SCALE)^den >= (x / SCALE)^less` for `less <= num`.
pub proof fn lemma_dominates_relaxed_down(r: int, x: int, num: nat, less: nat, den: nat)
    requires
        0 <= r,
        SCALE <= x,
        less <= num,
        dominates(r, x, num, den),
    ensures
        dominates(r, x, less, den),
{
    let scale = SCALE as int;
    let extra = (num - less) as nat;
    lemma_pow_adds(scale, less, extra);
    lemma_pow_adds(x, less, extra);
    lemma_pow_base_monotone(scale, x, extra);
    lemma_pow_base_monotone(0, x, less);
    lemma_pow_base_monotone(0, r, den);
    lemma_scale_power_positive(den);
    lemma_scale_power_positive(less);
    lemma_scale_power_positive(extra);
    let r_d = pow(r, den);
    let k_d = pow(scale, den);
    let k_l = pow(scale, less);
    let x_l = pow(x, less);
    let k_e = pow(scale, extra);
    let x_e = pow(x, extra);
    assert((r_d * k_l) * k_e >= (x_l * k_d) * k_e) by (nonlinear_arith)
        requires
            r_d * (k_l * k_e) >= (x_l * x_e) * k_d,
            0 < k_e <= x_e,
            x_l >= 0,
            k_d > 0,
            r_d >= 0,
            k_l > 0,
    ;
    lemma_cancel(r_d * k_l, x_l * k_d, k_e);
}

/// A product rounded up is at least the exact product.
pub proof fn lemma_mul_up_covers(a: u128, b: u128)
    requires
        mul_rounded(a, b, true).is_ok(),
    ensures
        mul_rounded(a, b, true).unwrap() * SCALE >= a * b,
{
    lemma_mul_brackets_exact(a as int, b as int);
    lemma_mul_fits_u128(a, b);
}

/// The square of a square root rounded up is at least the number.
pub proof fn lemma_sqrt_up_covers(s: u128)
    requires
        sqrt_rounded(s, true).is_ok(),
    ensures
        sqrt_rounded(s, true).unwrap() * sqrt_rounded(s, true).unwrap() >= s * SCALE,
{
    let n = s * SCALE;
    assert(0 <= n) by (nonlinear_arith)
        requires
            0 <= s,
            n == s * 1_000_000_000,
    ;
    lemma_sqrt_floor_exists(n);
    lemma_root_fits(n);
    let low = sqrt_floor(n);
    if low * low != n {
        assert(sqrt_ceil(n) == low + 1);
    }
}

/// A whole power rounded up is at least the exact power: where the base
/// dominates the power `q` of `x` and the factor in front the power `p`,
/// the result dominates the power `p + q * k`.
pub proof fn lemma_int_pow_dominates(base: u128, k: nat, acc: u128, x: int, q: nat, p: nat)
    requires
        0 <= x,
        dominates(base as int, x, q, 1),
        dominates(acc as int, x, p, 1),
        int_pow_rounded(base, k, acc, true).is_ok(),
    ensures
        dominates(int_pow_rounded(base, k, acc, true).unwrap() as int, x, p + q * k, 1),
    decreases k,
{
    if k == 0 {
        assert(q * k == 0) by (nonlinear_arith)
            requires
                k == 0,
        ;
    } else {
        let odd = k % 2 == 1;
        let half = k / 2;
        let next = if odd {
            mul_rounded(acc, base, true).unwrap()
        } else {
            acc
        };
        let next_p = if odd {
            p + q
        } else {
            p
        };
        if odd {
            lemma_mul_up_covers(acc, base);
            lemma_dominates_product(acc as int, base as int, next as int, x, p, q, 1);
        }
        assert(dominates(next as int, x, next_p, 1));
        assert(next_p + (2 * q) * half == p + q * k) by (nonlinear_arith)
            requires
                k == 2 * half + (if odd {
                    1int
                } else {
                    0
                }),
                next_p == p + (if odd {
                    q
                } else {
                    0
                }),
        ;
        if half == 0 {
            assert((2 * q) * half == 0) by (nonlinear_arith)
                requires
                    half == 0,
            ;
        } else {
            lemma_mul_up_covers(base, base);
            let square = mul_rounded(base, base, true).unwrap();
            lemma_dominates_product(base as int, base as int, square as int, x, q, q, 1);
            lemma_int_pow_dominates(square, half, next, x, 2 * q, next_p);
        }
    }
}

/// A fractional power rounded up is at least the exact power. With `den`
/// halvings done and binary digits of weight `w` and less still to come,
/// where `s` dominates `x^(1 / den)` and the factor in front dominates
/// `x^(done / den)`, the result dominates
/// `x^((done * 2 * w + rem) / (den * 2 * w))`.
pub proof fn lemma_frac_pow_dominates(
    s: u128,
    rem: nat,
    w: nat,
    acc: u128,
    x: int,
    done: nat,
    den: nat,
    digits: nat,
)
    requires
        0 <= x,
        w == pow2(digits),
        rem < 2 * w,
        dominates(s as int, x, 1, den),
        dominates(acc as int, x, done, den),
        frac_pow_rounded(s, rem, w, acc, true).is_ok(),
    ensures
        dominates(
            frac_pow_rounded(s, rem, w, acc, true).unwrap() as int,
            x,
            done * (2 * w) + rem,
            den * (2 * w),
        ),
    decreases w,
{
    vstd::arithmetic::power2::lemma_pow2_pos(digits);
    if rem == 0 {
        lemma_dominates_scaled(acc as int, x, done, den, 2 * w);
    } else {
        lemma_sqrt_up_covers(s);
        let root = sqrt_rounded(s, true).unwrap();
        lemma_dominates_root(root as int, s as int, x, 1, den);
        lemma_dominates_scaled(acc as int, x, done, den, 2);
        assert(done * 2 == 2 * done) by (nonlinear_arith);
        assert(den * 2 == 2 * den) by (nonlinear_arith);
        let takes = rem >= w;
        let next = if takes {
            mul_rounded(acc, root, true).unwrap()
        } else {
            acc
        };
        let next_done: nat = if takes {
            2 * done + 1
        } else {
            2 * done
        };
        let next_rem: nat = if takes {
            (rem - w) as nat
        } else {
            rem
        };
        if takes {
            lemma_mul_up_covers(acc, root);
            lemma_dominates_product(acc as int, root as int, next as int, x, 2 * done, 1, 2 * den);
        }
        assert(dominates(next as int, x, next_done, 2 * den));
        if digits == 0 {
            // The last digit: nothing is left, and the result is `next`.
            lemma2_to64();
            assert(w == 1);
            assert(next_rem == 0);
            assert(frac_pow_rounded(s, rem, w, acc, true) == Ok::<u128, MiniStabbleError>(next));
            assert(done * (2 * w) + rem == next_done);
            assert(den * (2 * w) == 2 * den);
        } else {
            lemma_pow2_unfold(digits);
            let half = w / 2;
            assert(half == pow2((digits - 1) as nat));
            assert(w == 2 * half);
            lemma_frac_pow_dominates(
                root,
                next_rem,
                half,
                next,
                x,
                next_done,
                2 * den,
                (digits - 1) as nat,
            );
            assert(next_done * (2 * half) + next_rem == done * (2 * w) + rem) by (nonlinear_arith)
                requires
                    w == 2 * half,
                    next_done == 2 * done + (if takes {
                        1int
                    } else {
                        0
                    }),
                    next_rem == rem - (if takes {
                        w as int
                    } else {
                        0
                    }),
            ;
            assert((2 * den) * (2 * half) == den * (2 * w)) by (nonlinear_arith)
                requires
                    w == 2 * half,
            ;
        }
    }
}

/// The approximation of a power, rounded up, is at least the exact power:
/// `(r / SCALE)^SCALE >= (base / SCALE)^exp`.
pub proof fn lemma_approx_pow_up_dominates(base: u128, exp: u128)
    requires
        approx_pow(base, exp, true).is_ok(),
    ensures
        dominates(
            approx_pow(base, exp, true).unwrap() as int,
            base as int,
            exp as nat,
            SCALE as nat,
        ),
{
    let x = base as int;
    let k = (exp / SCALE) as nat;
    let f = (exp % SCALE) as int;
    let steps = exponent_steps(base, f, true) as nat;
    let t = BITS_ONE as nat;
    let s = SCALE as nat;
    lemma2_to64();
    assert(pow2(29) == BITS_HALF);
    // Below one the fraction is rounded down, else up: towards the larger
    // power.
    assert(0 <= f * BITS_ONE <= 999_999_999 * 1_073_741_824) by (nonlinear_arith)
        requires
            0 <= f <= 999_999_999,
    ;
    lemma_floor_ceil(f * BITS_ONE, SCALE as int);
    vstd::arithmetic::div_mod::lemma_div_is_ordered(
        f * BITS_ONE + SCALE - 1,
        999_999_999 * 1_073_741_824 + SCALE - 1,
        SCALE as int,
    );
    assert(steps < t);
    assert(base < ONE ==> steps * SCALE <= f * BITS_ONE);
    assert(base >= ONE ==> steps * SCALE >= f * BITS_ONE);
    lemma_dominates_trivially(x);
    // The whole part.
    let whole = int_pow_rounded(base, k, ONE, true).unwrap();
    lemma_int_pow_dominates(base, k, ONE, x, 1, 0);
    assert(0 + 1 * k == k) by (nonlinear_arith);
    lemma_dominates_scaled(whole as int, x, k, 1, t);
    assert(1 * t == t) by (nonlinear_arith);
    // The fraction.
    let part = frac_pow_rounded(base, steps, BITS_HALF as nat, ONE, true).unwrap();
    lemma_frac_pow_dominates(base, steps, BITS_HALF as nat, ONE, x, 0, 1, 29);
    assert(0 * (2 * (BITS_HALF as nat)) + steps == steps);
    assert(1 * (2 * (BITS_HALF as nat)) == t);
    assert(dominates(part as int, x, steps, t));
    // Their product.
    let result = approx_pow(base, exp, true).unwrap();
    lemma_mul_up_covers(whole, part);
    lemma_dominates_product(whole as int, part as int, result as int, x, k * t, steps, t);
    // From steps of 1 / BITS_ONE to the exponent itself.
    lemma_dominates_scaled(result as int, x, k * t + steps, t, s);
    if base < ONE {
        assert((k * t + steps) * s <= exp * t) by (nonlinear_arith)
            requires
                steps * s <= f * t,
                exp == k * s + f,
                0 <= k,
                0 <= f,
        ;
        lemma_dominates_relaxed(result as int, x, (k * t + steps) * s, exp as nat * t, t * s);
    } else {
        assert((k * t + steps) * s >= exp * t) by (nonlinear_arith)
            requires
                steps * s >= f * t,
                exp == k * s + f,
                0 <= k,
                0 <= f,
        ;
        lemma_dominates_relaxed_down(
            result as int,
            x,
            (k * t + steps) * s,
            exp as nat * t,
            t * s,
        );
    }
    assert(t * s == s * t) by (nonlinear_arith);
    lemma_dominates_unscaled(result as int, x, exp as nat, s, t);
}

/// A power rounded up is at least the exact power:
/// `(r / SCALE)^SCALE >= (base / SCALE)^exp`, for every base and exponent.
pub proof fn lemma_pow_up_dominates(base: u128, exp: u128)
    requires
        pow_rounded(base, exp, true).is_ok(),
    ensures
        dominates(
            pow_rounded(base, exp, true).unwrap() as int,
            base as int,
            exp as nat,
            SCALE as nat,
        ),
{
    let x = base as int;
    let s = SCALE as nat;
    let result = pow_rounded(base, exp, true).unwrap();
    lemma_dominates_trivially(x);
    if exp == ZERO {
        lemma_dominates_scaled(SCALE as int, x, 0, 1, s);
        assert(0 * s == 0) by (nonlinear_arith);
        assert(1 * s == s) by (nonlinear_arith);
    } else if exp == ONE {
        lemma_dominates_scaled(x, x, 1, 1, s);
        assert(1 * s == s) by (nonlinear_arith);
    } else if exp == TWO {
        lemma_mul_up_covers(base, base);
        lemma_dominates_product(x, x, result as int, x, 1, 1, 1);
        lemma_dominates_scaled(result as int, x, 2, 1, s);
        assert(1 * s == s) by (nonlinear_arith);
        assert(2 * s == exp) by (nonlinear_arith)
            requires
                s == 1_000_000_000,
                exp == 2_000_000_000,
        ;
    } else if exp == THREE {
        lemma_mul_up_covers(base, base);
        let square = mul_rounded(base, base, true).unwrap();
        lemma_dominates_product(x, x, square as int, x, 1, 1, 1);
        lemma_mul_up_covers(square, base);
        lemma_dominates_product(square as int, x, result as int, x, 2, 1, 1);
        lemma_dominates_scaled(result as int, x, 3, 1, s);
        assert(1 * s == s) by (nonlinear_arith);
        assert(3 * s == exp) by (nonlinear_arith)
            requires
                s == 1_000_000_000,
                exp == 3_000_000_000,
        ;
    } else if exp == FOUR {
        lemma_mul_up_covers(base, base);
        let square = mul_rounded(base, base, true).unwrap();
        lemma_dominates_product(x, x, square as int, x, 1, 1, 1);
        lemma_mul_up_covers(square, square);
        lemma_dominates_product(square as int, square as int, result as int, x, 2, 2, 1);
        lemma_dominates_scaled(result as int, x, 4, 1, s);
        assert(1 * s == s) by (nonlinear_arith);
        assert(4 * s == exp) by (nonlinear_arith)
            requires
                s == 1_000_000_000,
                exp == 4_000_000_000,
        ;
    } else {
        lemma_approx_pow_up_dominates(base, exp);
    }
}

/// A bound between fixed-point numbers carries over to the ratios that
/// they round: from `(p / SCALE)^m >= (x / SCALE)^n`, `u / v >= p / SCALE`
/// and `x / SCALE >= z / y` follows `(u / v)^m >= (z / y)^n`, written as
/// `u^m * y^n >= v^m * z^n`.
pub proof fn lemma_dominates_carries_over(
    p: int,
    x: int,
    n: nat,
    m: nat,
    u: int,
    v: int,
    y: int,
    z: int,
)
    requires
        0 <= p,
        0 <= x,
        0 <= u,
        0 <= v,
        0 <= y,
        0 <= z,
        dominates(p, x, n, m),
        u * SCALE >= v * p,
        x * y >= z * SCALE,
    ensures
        pow(u, m) * pow(y, n) >= pow(v, m) * pow(z, n),
{
    let scale = SCALE as int;
    lemma_mul_inequalities(0, v, 0, p);
    lemma_mul_inequalities(0, z, 0, scale);
    lemma_pow_base_monotone(v * p, u * scale, m);
    lemma_pow_base_monotone(z * scale, x * y, n);
    lemma_pow_distributes(v, p, m);
    lemma_pow_distributes(u, scale, m);
    lemma_pow_distributes(z, scale, n);
    lemma_pow_distributes(x, y, n);
    lemma_scale_power_positive(m);
    lemma_scale_power_positive(n);
    lemma_pow_base_monotone(0, p, m);
    lemma_pow_base_monotone(0, x, n);
    lemma_pow_base_monotone(0, u, m);
    lemma_pow_base_monotone(0, v, m);
    lemma_pow_base_monotone(0, y, n);
    lemma_pow_base_monotone(0, z, n);
    let p_m = pow(p, m);
    let x_n = pow(x, n);
    let u_m = pow(u, m);
    let v_m = pow(v, m);
    let y_n = pow(y, n);
    let z_n = pow(z, n);
    let k_m = pow(scale, m);
    let k_n = pow(scale, n);
    // u^m * S^m >= v^m * p^m,  x^n * y^n >= z^n * S^n,  p^m * S^n >= x^n * S^m
    assert(u_m * k_m >= v_m * p_m);
    assert(x_n * y_n >= z_n * k_n);
    assert(p_m * k_n >= x_n * k_m);
    let left = u_m * y_n;
    let right = v_m * z_n;
    lemma_mul_inequalities(0, u_m, 0, y_n);
    lemma_mul_inequalities(0, v_m, 0, z_n);
    lemma_mul_inequalities(0, k_m, 0, k_n);
    // (u^m * y^n) * (S^m * S^n) >= (v^m * z^n) * (S^m * S^n)
    assert((u_m * k_m) * (y_n * k_n) >= (v_m * p_m) * (y_n * k_n)) by (nonlinear_arith)
        requires
            u_m * k_m >= v_m * p_m,
            y_n >= 0,
            k_n > 0,
    ;
    assert((v_m * y_n) * (p_m * k_n) >= (v_m * y_n) * (x_n * k_m)) by (nonlinear_arith)
        requires
            p_m * k_n >= x_n * k_m,
            v_m >= 0,
            y_n >= 0,
    ;
    assert((v_m * k_m) * (x_n * y_n) >= (v_m * k_m) * (z_n * k_n)) by (nonlinear_arith)
        requires
            x_n * y_n >= z_n * k_n,
            v_m >= 0,
            k_m > 0,
    ;
    assert(left * (k_m * k_n) == (u_m * k_m) * (y_n * k_n)) by (nonlinear_arith)
        requires
            left == u_m * y_n,
    ;
    assert((v_m * p_m) * (y_n * k_n) == (v_m * y_n) * (p_m * k_n)) by (nonlinear_arith);
    assert((v_m * y_n) * (x_n * k_m) == (v_m * k_m) * (x_n * y_n)) by (nonlinear_arith);
    assert((v_m * k_m) * (z_n * k_n) == right * (k_m * k_n)) by (nonlinear_arith)
        requires
            right == v_m * z_n,
    ;
    assert(k_m * k_n > 0) by (nonlinear_arith)
        requires
            k_m > 0,
            k_n > 0,
    ;
    lemma_cancel(left, right, k_m * k_n);
}

/// `(r / SCALE)^den <= (x / SCALE)^num`, over the integers.
pub open spec fn dominated(r: int, x: int, num: nat, den: nat) -> bool {
    pow(r, den) * pow(SCALE as int, num) <= pow(x, num) * pow(SCALE as int, den)
}

/// A number is dominated by itself once, and the number one by the power
/// zero of everything.
pub proof fn lemma_dominated_trivially(x: int)
    ensures
        dominated(x, x, 1, 1),
        dominated(SCALE as int, x, 0, 1),
{
    lemma_pow1(x);
    lemma_pow1(SCALE as int);
    lemma_pow0(x);
    lemma_pow0(SCALE as int);
    assert(x * (SCALE as int) == x * (SCALE as int));
}

/// A product rounded down is dominated by the sum of the powers that
/// dominate its factors: from `(a / SCALE)^den <= (x / SCALE)^n1`,
/// `(b / SCALE)^den <= (x / SCALE)^n2` and `c * SCALE <= a * b` follows
/// `(c / SCALE)^den <= (x / SCALE)^(n1 + n2)`.
pub proof fn lemma_dominated_product(a: int, b: int, c: int, x: int, n1: nat, n2: nat, den: nat)
    requires
        0 <= a,
        0 <= b,
        0 <= c,
        0 <= x,
        c * SCALE <= a * b,
        dominated(a, x, n1, den),
        dominated(b, x, n2, den),
    ensures
        dominated(c, x, n1 + n2, den),
{
    let s = SCALE as int;
    let a_d = pow(a, den);
    let b_d = pow(b, den);
    let c_d = pow(c, den);
    let s_d = pow(s, den);
    let s_1 = pow(s, n1);
    let s_2 = pow(s, n2);
    let x_1 = pow(x, n1);
    let x_2 = pow(x, n2);
    lemma_mul_inequalities(0, c, 0, s);
    lemma_pow_base_monotone(c * s, a * b, den);
    lemma_pow_distributes(a, b, den);
    lemma_pow_distributes(c, s, den);
    lemma_pow_adds(s, n1, n2);
    lemma_pow_adds(x, n1, n2);
    lemma_scale_power_positive(den);
    lemma_scale_power_positive(n1);
    lemma_scale_power_positive(n2);
    lemma_pow_base_monotone(0, a, den);
    lemma_pow_base_monotone(0, b, den);
    lemma_pow_base_monotone(0, c, den);
    lemma_pow_base_monotone(0, x, n1);
    lemma_pow_base_monotone(0, x, n2);
    // c^d * s^d <= a^d * b^d
    assert(c_d * s_d <= a_d * b_d);
    lemma_mul_inequalities(0, a_d, 0, s_1);
    lemma_mul_inequalities(0, b_d, 0, s_2);
    lemma_mul_inequalities(a_d * s_1, x_1 * s_d, b_d * s_2, x_2 * s_d);
    assert((c_d * (s_1 * s_2)) * s_d <= ((x_1 * x_2) * s_d) * s_d) by (nonlinear_arith)
        requires
            c_d * s_d <= a_d * b_d,
            (a_d * s_1) * (b_d * s_2) <= (x_1 * s_d) * (x_2 * s_d),
            s_1 > 0,
            s_2 > 0,
            s_d > 0,
            c_d >= 0,
            a_d >= 0,
            b_d >= 0,
    ;
    lemma_cancel((x_1 * x_2) * s_d, c_d * (s_1 * s_2), s_d);
}

/// A square root rounded down is dominated by half the power: from
/// `root^2 <= s * SCALE` and `(s / SCALE)^den <= (x / SCALE)^num` follows
/// `(root / SCALE)^(2 * den) <= (x / SCALE)^num`.
pub proof fn lemma_dominated_root(root: int, s: int, x: int, num: nat, den: nat)
    requires
        0 <= root,
        0 <= s,
        0 <= x,
        root * root <= s * SCALE,
        dominated(s, x, num, den),
    ensures
        dominated(root, x, num, 2 * den),
{
    let scale = SCALE as int;
    lemma_mul_inequalities(0, root, 0, root);
    lemma_pow_base_monotone(root * root, s * scale, den);
    lemma_pow_distributes(s, scale, den);
    lemma_pow_distributes(root, root, den);
    lemma_pow_adds(root, den, den);
    lemma_pow_adds(scale, den, den);
    lemma_scale_power_positive(den);
    lemma_scale_power_positive(num);
    lemma_pow_base_monotone(0, x, num);
    lemma_pow_base_monotone(0, s, den);
    lemma_pow_base_monotone(0, root, 2 * den);
    let r_2d = pow(root, 2 * den);
    let s_d = pow(s, den);
    let k_d = pow(scale, den);
    let k_n = pow(scale, num);
    let x_n = pow(x, num);
    assert(r_2d <= s_d * k_d);
    assert(r_2d * k_n <= x_n * (k_d * k_d)) by (nonlinear_arith)
        requires
            r_2d <= s_d * k_d,
            s_d * k_n <= x_n * k_d,
            k_d > 0,
            k_n > 0,
            r_2d >= 0,
            s_d >= 0,
    ;
}

/// Both exponents of a bound from above can be multiplied by one number.
pub proof fn lemma_dominated_scaled(r: int, x: int, num: nat, den: nat, k: nat)
    requires
        0 <= r,
        0 <= x,
        dominated(r, x, num, den),
    ensures
        dominated(r, x, num * k, den * k),
{
    lemma_dominates_scaled(x, r, den, num, k);
}

/// Both exponents of a bound from above can be divided by one positive
/// number.
pub proof fn lemma_dominated_unscaled(r: int, x: int, num: nat, den: nat, k: nat)
    requires
        0 <= r,
        0 <= x,
        k >= 1,
        dominated(r, x, num * k, den * k),
    ensures
        dominated(r, x, num, den),
{
    lemma_dominates_unscaled(x, r, den, num, k);
}

/// For a base of at least one, a bound from above holds of every larger
/// exponent too.
pub proof fn lemma_dominated_relaxed(r: int, x: int, num: nat, more: nat, den: nat)
    requires
        0 <= r,
        SCALE <= x,
        num <= more,
        dominated(r, x, num, den),
    ensures
        dominated(r, x, more, den),
{
    let scale = SCALE as int;
    let extra = (more - num) as nat;
    lemma_pow_adds(scale, num, extra);
    lemma_pow_adds(x, num, extra);
    lemma_pow_base_monotone(scale, x, extra);
    lemma_pow_base_monotone(0, x, num);
    lemma_pow_base_monotone(0, r, den);
    lemma_scale_power_positive(den);
    lemma_scale_power_positive(num);
    lemma_scale_power_positive(extra);
    let r_d = pow(r, den);
    let k_d = pow(scale, den);
    let k_n = pow(scale, num);
    let x_n = pow(x, num);
    let k_e = pow(scale, extra);
    let x_e = pow(x, extra);
    assert(r_d * (k_n * k_e) <= (x_n * x_e) * k_d) by (nonlinear_arith)
        requires
            r_d * k_n <= x_n * k_d,
            0 < k_e <= x_e,
            x_n >= 0,
            k_d > 0,
            r_d >= 0,
            k_n > 0,
    ;
}

/// For a base of at most one, a bound from above holds of every smaller
/// exponent too.
pub proof fn lemma_dominated_relaxed_down(r: int, x: int, num: nat, less: nat, den: nat)
    requires
        0 <= r,
        0 <= x <= SCALE,
        less <= num,
        dominated(r, x, num, den),
    ensures
        dominated(r, x, less, den),
{
    let scale = SCALE as int;
    let extra = (num - less) as nat;
    lemma_pow_adds(scale, less, extra);
    lemma_pow_adds(x, less, extra);
    lemma_pow_base_monotone(x, scale, extra);
    lemma_pow_base_monotone(0, x, less);
    lemma_pow_base_monotone(0, r, den);
    lemma_scale_power_positive(den);
    lemma_scale_power_positive(less);
    lemma_scale_power_positive(extra);
    let r_d = pow(r, den);
    let k_d = pow(scale, den);
    let k_l = pow(scale, less);
    let x_l = pow(x, less);
    let k_e = pow(scale, extra);
    let x_e = pow(x, extra);
    assert((r_d * k_l) * k_e <= (x_l * k_d) * k_e) by (nonlinear_arith)
        requires
            r_d * (k_l * k_e) <= (x_l * x_e) * k_d,
            0 <= x_e <= k_e,
            x_l >= 0,
            k_d > 0,
            r_d >= 0,
            k_l > 0,
    ;
    lemma_cancel(x_l * k_d, r_d * k_l, k_e);
}

/// A product rounded down is at most the exact product.
pub proof fn lemma_mul_down_covered(a: u128, b: u128)
    requires
        mul_rounded(a, b, false).is_ok(),
    ensures
        mul_rounded(a, b, false).unwrap() * SCALE <= a * b,
{
    lemma_mul_brackets_exact(a as int, b as int);
    lemma_mul_fits_u128(a, b);
}

/// The square of a square root rounded down is at most the number.
pub proof fn lemma_sqrt_down_covered(s: u128)
    requires
        sqrt_rounded(s, false).is_ok(),
    ensures
        sqrt_rounded(s, false).unwrap() * sqrt_rounded(s, false).unwrap() <= s * SCALE,
{
    let n = s * SCALE;
    assert(0 <= n) by (nonlinear_arith)
        requires
            0 <= s,
            n == s * 1_000_000_000,
    ;
    lemma_sqrt_floor_exists(n);
    lemma_root_fits(n);
}

/// A whole power rounded down is at most the exact power.
pub proof fn lemma_int_pow_dominated(base: u128, k: nat, acc: u128, x: int, q: nat, p: nat)
    requires
        0 <= x,
        dominated(base as int, x, q, 1),
        dominated(acc as int, x, p, 1),
        int_pow_rounded(base, k, acc, false).is_ok(),
    ensures
        dominated(int_pow_rounded(base, k, acc, false).unwrap() as int, x, p + q * k, 1),
    decreases k,
{
    if k == 0 {
        assert(q * k == 0) by (nonlinear_arith)
            requires
                k == 0,
        ;
    } else {
        let odd = k % 2 == 1;
        let half = k / 2;
        let next = if odd {
            mul_rounded(acc, base, false).unwrap()
        } else {
            acc
        };
        let next_p = if odd {
            p + q
        } else {
            p
        };
        if odd {
            lemma_mul_down_covered(acc, base);
            lemma_dominated_product(acc as int, base as int, next as int, x, p, q, 1);
        }
        assert(dominated(next as int, x, next_p, 1));
        assert(next_p + (2 * q) * half == p + q * k) by (nonlinear_arith)
            requires
                k == 2 * half + (if odd {
                    1int
                } else {
                    0
                }),
                next_p == p + (if odd {
                    q
                } else {
                    0
                }),
        ;
        if half == 0 {
            assert((2 * q) * half == 0) by (nonlinear_arith)
                requires
                    half == 0,
            ;
        } else {
            lemma_mul_down_covered(base, base);
            let square = mul_rounded(base, base, false).unwrap();
            lemma_dominated_product(base as int, base as int, square as int, x, q, q, 1);
            lemma_int_pow_dominated(square, half, next, x, 2 * q, next_p);
        }
    }
}

/// A fractional power rounded down is at most the exact power, with the
/// exponents as in `lemma_frac_pow_dominates`.
pub proof fn lemma_frac_pow_dominated(
    s: u128,
    rem: nat,
    w: nat,
    acc: u128,
    x: int,
    done: nat,
    den: nat,
    digits: nat,
)
    requires
        0 <= x,
        w == pow2(digits),
        rem < 2 * w,
        dominated(s as int, x, 1, den),
        dominated(acc as int, x, done, den),
        frac_pow_rounded(s, rem, w, acc, false).is_ok(),
    ensures
        dominated(
            frac_pow_rounded(s, rem, w, acc, false).unwrap() as int,
            x,
            done * (2 * w) + rem,
            den * (2 * w),
        ),
    decreases w,
{
    vstd::arithmetic::power2::lemma_pow2_pos(digits);
    if rem == 0 {
        lemma_dominated_scaled(acc as int, x, done, den, 2 * w);
    } else {
        lemma_sqrt_down_covered(s);
        let root = sqrt_rounded(s, false).unwrap();
        lemma_dominated_root(root as int, s as int, x, 1, den);
        lemma_dominated_scaled(acc as int, x, done, den, 2);
        assert(done * 2 == 2 * done) by (nonlinear_arith);
        assert(den * 2 == 2 * den) by (nonlinear_arith);
        let takes = rem >= w;
        let next = if takes {
            mul_rounded(acc, root, false).unwrap()
        } else {
            acc
        };
        let next_done: nat = if takes {
            2 * done + 1
        } else {
            2 * done
        };
        let next_rem: nat = if takes {
            (rem - w) as nat
        } else {
            rem
        };
        if takes {
            lemma_mul_down_covered(acc, root);
            lemma_dominated_product(acc as int, root as int, next as int, x, 2 * done, 1, 2 * den);
        }
        assert(dominated(next as int, x, next_done, 2 * den));
        if digits == 0 {
            lemma2_to64();
            assert(w == 1);
            assert(next_rem == 0);
            assert(frac_pow_rounded(s, rem, w, acc, false) == Ok::<u128, MiniStabbleError>(next));
            assert(done * (2 * w) + rem == next_done);
            assert(den * (2 * w) == 2 * den);
        } else {
            lemma_pow2_unfold(digits);
            let half = w / 2;
            assert(half == pow2((digits - 1) as nat));
            assert(w == 2 * half);
            lemma_frac_pow_dominated(
                root,
                next_rem,
                half,
                next,
                x,
                next_done,
                2 * den,
                (digits - 1) as nat,
            );
            assert(next_done * (2 * half) + next_rem == done * (2 * w) + rem) by (nonlinear_arith)
                requires
                    w == 2 * half,
                    next_done == 2 * done + (if takes {
                        1int
                    } else {
                        0
                    }),
                    next_rem == rem - (if takes {
                        w as int
                    } else {
                        0
                    }),
            ;
            assert((2 * den) * (2 * half) == den * (2 * w)) by (nonlinear_arith)
                requires
                    w == 2 * half,
            ;
        }
    }
}

/// The approximation of a power, rounded down, is at most the exact power:
/// `(r / SCALE)^SCALE <= (base / SCALE)^exp`.
pub proof fn lemma_approx_pow_down_dominated(base: u128, exp: u128)
    requires
        approx_pow(base, exp, false).is_ok(),
    ensures
        dominated(
            approx_pow(base, exp, false).unwrap() as int,
            base as int,
            exp as nat,
            SCALE as nat,
        ),
{
    let x = base as int;
    let k = (exp / SCALE) as nat;
    let f = (exp % SCALE) as int;
    let steps = exponent_steps(base, f, false) as nat;
    let t = BITS_ONE as nat;
    let s = SCALE as nat;
    lemma2_to64();
    assert(pow2(29) == BITS_HALF);
    // Below one the fraction is rounded up, else down: towards the smaller
    // power.
    assert(0 <= f * BITS_ONE <= 999_999_999 * 1_073_741_824) by (nonlinear_arith)
        requires
            0 <= f <= 999_999_999,
    ;
    lemma_floor_ceil(f * BITS_ONE, SCALE as int);
    vstd::arithmetic::div_mod::lemma_div_is_ordered(
        f * BITS_ONE + SCALE - 1,
        999_999_999 * 1_073_741_824 + SCALE - 1,
        SCALE as int,
    );
    assert(steps < t);
    assert(base < ONE ==> steps * SCALE >= f * BITS_ONE);
    assert(base >= ONE ==> steps * SCALE <= f * BITS_ONE);
    lemma_dominated_trivially(x);
    // The whole part.
    let whole = int_pow_rounded(base, k, ONE, false).unwrap();
    lemma_int_pow_dominated(base, k, ONE, x, 1, 0);
    assert(0 + 1 * k == k) by (nonlinear_arith);
    lemma_dominated_scaled(whole as int, x, k, 1, t);
    assert(1 * t == t) by (nonlinear_arith);
    // The fraction.
    let part = frac_pow_rounded(base, steps, BITS_HALF as nat, ONE, false).unwrap();
    lemma_frac_pow_dominated(base, steps, BITS_HALF as nat, ONE, x, 0, 1, 29);
    assert(0 * (2 * (BITS_HALF as nat)) + steps == steps);
    assert(1 * (2 * (BITS_HALF as nat)) == t);
    assert(dominated(part as int, x, steps, t));
    // Their product.
    let result = approx_pow(base, exp, false).unwrap();
    lemma_mul_down_covered(whole, part);
    lemma_dominated_product(whole as int, part as int, result as int, x, k * t, steps, t);
    // From steps of 1 / BITS_ONE to the exponent itself.
    lemma_dominated_scaled(result as int, x, k * t + steps, t, s);
    if base < ONE {
        assert((k * t + steps) * s >= exp * t) by (nonlinear_arith)
            requires
                steps * s >= f * t,
                exp == k * s + f,
                0 <= k,
                0 <= f,
        ;
        lemma_dominated_relaxed_down(
            result as int,
            x,
            (k * t + steps) * s,
            exp as nat * t,
            t * s,
        );
    } else {
        assert((k * t + steps) * s <= exp * t) by (nonlinear_arith)
            requires
                steps * s <= f * t,
                exp == k * s + f,
                0 <= k,
                0 <= f,
        ;
        lemma_dominated_relaxed(result as int, x, (k * t + steps) * s, exp as nat * t, t * s);
    }
    assert(t * s == s * t) by (nonlinear_arith);
    lemma_dominated_unscaled(result as int, x, exp as nat, s, t);
}

/// A power rounded down is at most the exact power:
/// `(r / SCALE)^SCALE <= (base / SCALE)^exp`, for every base and exponent.
pub proof fn lemma_pow_down_dominated(base: u128, exp: u128)
    requires
        pow_rounded(base, exp, false).is_ok(),
    ensures
        dominated(
            pow_rounded(base, exp, false).unwrap() as int,
            base as int,
            exp as nat,
            SCALE as nat,
        ),
{
    let x = base as int;
    let s = SCALE as nat;
    let result = pow_rounded(base, exp, false).unwrap();
    lemma_dominated_trivially(x);
    if exp == ZERO {
        lemma_dominated_scaled(SCALE as int, x, 0, 1, s);
        assert(0 * s == 0) by (nonlinear_arith);
        assert(1 * s == s) by (nonlinear_arith);
    } else if exp == ONE {
        lemma_dominated_scaled(x, x, 1, 1, s);
        assert(1 * s == s) by (nonlinear_arith);
    } else if exp == TWO {
        lemma_mul_down_covered(base, base);
        lemma_dominated_product(x, x, result as int, x, 1, 1, 1);
        lemma_dominated_scaled(result as int, x, 2, 1, s);
        assert(1 * s == s) by (nonlinear_arith);
        assert(2 * s == exp) by (nonlinear_arith)
            requires
                s == 1_000_000_000,
                exp == 2_000_000_000,
        ;
    } else if exp == THREE {
        lemma_mul_down_covered(base, base);
        let square = mul_rounded(base, base, false).unwrap();
        lemma_dominated_product(x, x, square as int, x, 1, 1, 1);
        lemma_mul_down_covered(square, base);
        lemma_dominated_product(square as int, x, result as int, x, 2, 1, 1);
        lemma_dominated_scaled(result as int, x, 3, 1, s);
        assert(1 * s == s) by (nonlinear_arith);
        assert(3 * s == exp) by (nonlinear_arith)
            requires
                s == 1_000_000_000,
                exp == 3_000_000_000,
        ;
    } else if exp == FOUR {
        lemma_mul_down_covered(base, base);
        let square = mul_rounded(base, base, false).unwrap();
        lemma_dominated_product(x, x, square as int, x, 1, 1, 1);
        lemma_mul_down_covered(square, square);
        lemma_dominated_product(square as int, square as int, result as int, x, 2, 2, 1);
        lemma_dominated_scaled(result as int, x, 4, 1, s);
        assert(1 * s == s) by (nonlinear_arith);
        assert(4 * s == exp) by (nonlinear_arith)
            requires
                s == 1_000_000_000,
                exp == 4_000_000_000,
        ;
    } else {
        lemma_approx_pow_down_dominated(base, exp);
    }
}

/// The exact power lies between the power rounded down and the power
/// rounded up: wherever both succeed,
/// `(down / SCALE)^SCALE <= (base / SCALE)^exp <= (up / SCALE)^SCALE`, and so
/// `down <= up`.
pub proof fn lemma_pow_down_le_exact_le_pow_up(base: u128, exp: u128)
    requires
        pow_rounded(base, exp, false).is_ok(),
        pow_rounded(base, exp, true).is_ok(),
    ensures
        dominated(
            pow_rounded(base, exp, false).unwrap() as int,
            base as int,
            exp as nat,
            SCALE as nat,
        ),
        dominates(
            pow_rounded(base, exp, true).unwrap() as int,
            base as int,
            exp as nat,
            SCALE as nat,
        ),
        pow_rounded(base, exp, false).unwrap() <= pow_rounded(base, exp, true).unwrap(),
{
    lemma_pow_down_dominated(base, exp);
    lemma_pow_up_dominates(base, exp);
    let down = pow_rounded(base, exp, false).unwrap() as int;
    let up = pow_rounded(base, exp, true).unwrap() as int;
    let s = SCALE as nat;
    lemma_scale_power_positive(exp as nat);
    let k = pow(SCALE as int, exp as nat);
    assert(pow(up, s) * k >= pow(down, s) * k);
    lemma_cancel(pow(up, s), pow(down, s), k);
    lemma_pow_root(up, down, s);
}

/// A bound from above between fixed-point numbers carries over to the
/// ratios that they round: from `(p / SCALE)^m <= (x / SCALE)^n`,
/// `u / v <= p / SCALE` and `x / SCALE <= z / y` follows
/// `(u / v)^m <= (z / y)^n`, written as `u^m * y^n <= v^m * z^n`.
pub proof fn lemma_dominated_carries_over(
    p: int,
    x: int,
    n: nat,
    m: nat,
    u: int,
    v: int,
    y: int,
    z: int,
)
    requires
        0 <= p,
        0 <= x,
        0 <= u,
        0 <= v,
        0 <= y,
        0 <= z,
        dominated(p, x, n, m),
        u * SCALE <= v * p,
        x * y <= z * SCALE,
    ensures
        pow(u, m) * pow(y, n) <= pow(v, m) * pow(z, n),
{
    let scale = SCALE as int;
    lemma_mul_inequalities(0, u, 0, scale);
    lemma_mul_inequalities(0, x, 0, y);
    lemma_pow_base_monotone(u * scale, v * p, m);
    lemma_pow_base_monotone(x * y, z * scale, n);
    lemma_pow_distributes(v, p, m);
    lemma_pow_distributes(u, scale, m);
    lemma_pow_distributes(z, scale, n);
    lemma_pow_distributes(x, y, n);
    lemma_scale_power_positive(m);
    lemma_scale_power_positive(n);
    lemma_pow_base_monotone(0, p, m);
    lemma_pow_base_monotone(0, x, n);
    lemma_pow_base_monotone(0, u, m);
    lemma_pow_base_monotone(0, v, m);
    lemma_pow_base_monotone(0, y, n);
    lemma_pow_base_monotone(0, z, n);
    let p_m = pow(p, m);
    let x_n = pow(x, n);
    let u_m = pow(u, m);
    let v_m = pow(v, m);
    let y_n = pow(y, n);
    let z_n = pow(z, n);
    let k_m = pow(scale, m);
    let k_n = pow(scale, n);
    // u^m * S^m <= v^m * p^m,  x^n * y^n <= z^n * S^n,  p^m * S^n <= x^n * S^m
    assert(u_m * k_m <= v_m * p_m);
    assert(x_n * y_n <= z_n * k_n);
    assert(p_m * k_n <= x_n * k_m);
    let left = u_m * y_n;
    let right = v_m * z_n;
    assert((u_m * k_m) * (y_n * k_n) <= (v_m * p_m) * (y_n * k_n)) by (nonlinear_arith)
        requires
            u_m * k_m <= v_m * p_m,
            y_n >= 0,
            k_n > 0,
    ;
    assert((v_m * y_n) * (p_m * k_n) <= (v_m * y_n) * (x_n * k_m)) by (nonlinear_arith)
        requires
            p_m * k_n <= x_n * k_m,
            v_m >= 0,
            y_n >= 0,
    ;
    assert((v_m * k_m) * (x_n * y_n) <= (v_m * k_m) * (z_n * k_n)) by (nonlinear_arith)
        requires
            x_n * y_n <= z_n * k_n,
            v_m >= 0,
            k_m > 0,
    ;
    assert(left * (k_m * k_n) == (u_m * k_m) * (y_n * k_n)) by (nonlinear_arith)
        requires
            left == u_m * y_n,
    ;
    assert((v_m * p_m) * (y_n * k_n) == (v_m * y_n) * (p_m * k_n)) by (nonlinear_arith);
    assert((v_m * y_n) * (x_n * k_m) == (v_m * k_m) * (x_n * y_n)) by (nonlinear_arith);
    assert((v_m * k_m) * (z_n * k_n) == right * (k_m * k_n)) by (nonlinear_arith)
        requires
            right == v_m * z_n,
    ;
    assert(k_m * k_n > 0) by (nonlinear_arith)
        requires
            k_m > 0,
            k_n > 0,
    ;
    lemma_cancel(right, left, k_m * k_n);
}

} // verus!
