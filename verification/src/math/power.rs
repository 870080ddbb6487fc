//! Powers of fixed-point numbers for exponents of any size.
//!
//! An exponent `y` is split into its whole part `k` and its fraction `f`.
//! The whole part is raised by squaring and multiplying. The fraction is
//! turned into thirty binary digits, and the power is the product of the
//! repeated square roots of the base that those digits select. Every
//! product and every root is rounded in the direction asked for, and the
//! fraction itself is rounded so that the power moves in that direction:
//! for a base of one or more a larger exponent gives a larger power, below
//! one a smaller power.
//!
//! A power rounded up is never below the exact power and a power rounded
//! down never above it; `power_laws` proves both. For a base from one
//! quarter to one the result lies within `POW_TOLERANCE` units of the last
//! place of the exact power where the exponent is below one, and within
//! `WIDE_POW_TOLERANCE` units where it is below sixteen, which
//! `power_tolerance` proves.
use crate::errors::MiniStabbleError;
use crate::math::fixed::{
    lemma_mul_fits_u128, FixedMul, FOUR, ONE, SCALE, THREE, TWO, ZERO,
};
use vstd::arithmetic::div_mod::lemma_div_is_ordered;
use vstd::prelude::*;

verus! {

/// The number of steps into which the fraction of an exponent is divided:
/// two to the power of thirty.
pub const BITS_ONE: u64 = 1_073_741_824;

/// Half of `BITS_ONE`: the weight of the first binary digit of a fraction.
pub const BITS_HALF: u64 = 536_870_912;

/// `r` is the square root of `n`, rounded down.
pub open spec fn is_sqrt_floor(n: int, r: int) -> bool {
    0 <= r && r * r <= n < (r + 1) * (r + 1)
}

/// The square root of a non-negative `n`, rounded down.
pub open spec fn sqrt_floor(n: int) -> int {
    choose|r: int| is_sqrt_floor(n, r)
}

/// The square root of a non-negative `n`, rounded up.
pub open spec fn sqrt_ceil(n: int) -> int {
    if sqrt_floor(n) * sqrt_floor(n) == n {
        sqrt_floor(n)
    } else {
        sqrt_floor(n) + 1
    }
}

/// Every non-negative integer has a square root rounded down.
pub proof fn lemma_sqrt_floor_exists(n: int)
    requires
        0 <= n,
    ensures
        is_sqrt_floor(n, sqrt_floor(n)),
    decreases n,
{
    if n == 0 {
        assert(is_sqrt_floor(0, 0));
    } else {
        lemma_sqrt_floor_exists(n - 1);
        let r = sqrt_floor(n - 1);
        if n < (r + 1) * (r + 1) {
            assert(is_sqrt_floor(n, r));
        } else {
            assert((r + 1) * (r + 1) < (r + 2) * (r + 2)) by (nonlinear_arith)
                requires
                    0 <= r,
            ;
            assert(is_sqrt_floor(n, r + 1));
        }
    }
}

/// The square root rounded down is unique.
pub proof fn lemma_sqrt_floor_unique(n: int, r: int)
    requires
        is_sqrt_floor(n, r),
    ensures
        sqrt_floor(n) == r,
{
    let q = sqrt_floor(n);
    assert(is_sqrt_floor(n, q));
    if q < r {
        assert((q + 1) * (q + 1) <= r * r) by (nonlinear_arith)
            requires
                0 <= q + 1 <= r,
        ;
    } else if r < q {
        assert((r + 1) * (r + 1) <= q * q) by (nonlinear_arith)
            requires
                0 <= r + 1 <= q,
        ;
    }
}

/// The product `a * b` of the given rounding, on the 128-bit width.
pub open spec fn mul_rounded(a: u128, b: u128, up: bool) -> Result<u128, MiniStabbleError> {
    if up {
        a.mul_up_spec(b)
    } else {
        a.mul_down_spec(b)
    }
}

/// The square root of the fixed-point number `s` in the given rounding: the
/// integer square root of `s * SCALE`.
pub open spec fn sqrt_rounded(s: u128, up: bool) -> Result<u128, MiniStabbleError> {
    if s * SCALE <= u128::MAX {
        if up {
            Ok(sqrt_ceil(s * SCALE) as u128)
        } else {
            Ok(sqrt_floor(s * SCALE) as u128)
        }
    } else {
        Err(MiniStabbleError::MathOverflow)
    }
}

/// `acc * base^k` for a whole number `k`, by squaring and multiplying, every
/// product in the given rounding.
pub open spec fn int_pow_rounded(base: u128, k: nat, acc: u128, up: bool) -> Result<
    u128,
    MiniStabbleError,
>
    decreases k,
{
    if k == 0 {
        Ok(acc)
    } else {
        let taken = if k % 2 == 1 {
            mul_rounded(acc, base, up)
        } else {
            Ok(acc)
        };
        match taken {
            Err(e) => Err(e),
            Ok(next) => if k / 2 == 0 {
                Ok(next)
            } else {
                match mul_rounded(base, base, up) {
                    Err(e) => Err(e),
                    Ok(square) => int_pow_rounded(square, k / 2, next, up),
                }
            },
        }
    }
}

/// `acc * s^(rem / (2 * w))` for a binary fraction with digits left in `rem`
/// and the next digit of weight `w`: the product of the repeated square roots
/// of `s` that the digits select, roots and products in the given rounding.
pub open spec fn frac_pow_rounded(s: u128, rem: nat, w: nat, acc: u128, up: bool) -> Result<
    u128,
    MiniStabbleError,
>
    decreases w,
{
    if rem == 0 || w == 0 {
        Ok(acc)
    } else {
        match sqrt_rounded(s, up) {
            Err(e) => Err(e),
            Ok(root) => if rem >= w {
                match mul_rounded(acc, root, up) {
                    Err(e) => Err(e),
                    Ok(next) => frac_pow_rounded(root, (rem - w) as nat, w / 2, next, up),
                }
            } else {
                frac_pow_rounded(root, rem, w / 2, acc, up)
            },
        }
    }
}

/// The fraction `f` of an exponent as a count of steps of `1 / BITS_ONE`,
/// rounded so that the power of `base` moves in the direction `up`.
pub open spec fn exponent_steps(base: u128, f: int, up: bool) -> int {
    if up == (base >= ONE) {
        (f * BITS_ONE + (SCALE - 1)) / (SCALE as int)
    } else {
        f * BITS_ONE / (SCALE as int)
    }
}

/// `base^exp` in the given rounding, for any exponent.
pub open spec fn approx_pow(base: u128, exp: u128, up: bool) -> Result<u128, MiniStabbleError> {
    match int_pow_rounded(base, (exp / SCALE) as nat, ONE, up) {
        Err(e) => Err(e),
        Ok(whole) => match frac_pow_rounded(
            base,
            exponent_steps(base, (exp % SCALE) as int, up) as nat,
            BITS_HALF as nat,
            ONE,
            up,
        ) {
            Err(e) => Err(e),
            Ok(part) => mul_rounded(whole, part, up),
        },
    }
}

/// `base^exp` in the given rounding: exact products for the exponents zero to
/// four, the approximation for every other exponent.
pub open spec fn pow_rounded(base: u128, exp: u128, up: bool) -> Result<u128, MiniStabbleError> {
    if exp == ZERO {
        Ok(ONE)
    } else if exp == ONE {
        Ok(base)
    } else if exp == TWO {
        mul_rounded(base, base, up)
    } else if exp == THREE {
        match mul_rounded(base, base, up) {
            Err(e) => Err(e),
            Ok(square) => mul_rounded(square, base, up),
        }
    } else if exp == FOUR {
        match mul_rounded(base, base, up) {
            Err(e) => Err(e),
            Ok(square) => mul_rounded(square, square, up),
        }
    } else {
        approx_pow(base, exp, up)
    }
}

/// The square root of `n`, rounded down.
pub fn integer_sqrt(n: u128) -> (root: u128)
    ensures
        root == sqrt_floor(n as int),
        is_sqrt_floor(n as int, root as int),
        root <= u64::MAX,
{
    let mut lo: u128 = 0;
    let mut hi: u128 = 0x1_0000_0000_0000_0000;
    assert(n < hi * hi) by (nonlinear_arith)
        requires
            hi == 0x1_0000_0000_0000_0000,
            n <= 0xFFFF_FFFF_FFFF_FFFF_FFFF_FFFF_FFFF_FFFF,
    ;
    while hi - lo > 1
        invariant
            lo < hi <= 0x1_0000_0000_0000_0000,
            lo * lo <= n < hi * hi,
        decreases hi - lo,
    {
        let mid: u128 = lo + (hi - lo) / 2;
        assert(mid * mid <= 0xFFFF_FFFF_FFFF_FFFF * 0xFFFF_FFFF_FFFF_FFFF) by (nonlinear_arith)
            requires
                0 <= mid <= 0xFFFF_FFFF_FFFF_FFFF,
        ;
        if mid * mid <= n {
            lo = mid;
        } else {
            hi = mid;
        }
    }
    proof {
        assert(hi == lo + 1);
        lemma_sqrt_floor_unique(n as int, lo as int);
    }
    lo
}

/// The product `a * b` in the given rounding.
pub fn mul_fixed(a: u128, b: u128, up: bool) -> (result: Result<u128, MiniStabbleError>)
    ensures
        result == mul_rounded(a, b, up),
{
    if up {
        a.mul_up(b)
    } else {
        a.mul_down(b)
    }
}

/// The square root of the fixed-point number `s` in the given rounding.
pub fn sqrt_fixed(s: u128, up: bool) -> (result: Result<u128, MiniStabbleError>)
    ensures
        result == sqrt_rounded(s, up),
{
    match s.checked_mul(SCALE) {
        None => Err(MiniStabbleError::MathOverflow),
        Some(n) => {
            let root = integer_sqrt(n);
            assert(root * root <= n);
            if up && root * root != n {
                Ok(root + 1)
            } else {
                Ok(root)
            }
        },
    }
}

/// `acc * base^k` for a whole number `k`, in the given rounding.
pub fn int_pow(base: u128, k: u128, acc: u128, up: bool) -> (result: Result<
    u128,
    MiniStabbleError,
>)
    ensures
        result == int_pow_rounded(base, k as nat, acc, up),
{
    let mut b: u128 = base;
    let mut left: u128 = k;
    let mut product: u128 = acc;
    while left > 0
        invariant
            int_pow_rounded(base, k as nat, acc, up) == int_pow_rounded(
                b,
                left as nat,
                product,
                up,
            ),
        decreases left,
    {
        if left % 2 == 1 {
            match mul_fixed(product, b, up) {
                Err(e) => {
                    return Err(e);
                },
                Ok(next) => {
                    product = next;
                },
            }
        }
        left = left / 2;
        if left > 0 {
            match mul_fixed(b, b, up) {
                Err(e) => {
                    return Err(e);
                },
                Ok(square) => {
                    b = square;
                },
            }
        }
    }
    Ok(product)
}

/// `acc * s^(steps / BITS_ONE)` in the given rounding: the thirty binary
/// digits of `steps` each select one of the repeated square roots of `s`.
/// A count of `BITS_ONE` or more selects every root.
pub fn frac_pow(s: u128, steps: u64, acc: u128, up: bool) -> (result: Result<
    u128,
    MiniStabbleError,
>)
    ensures
        result == frac_pow_rounded(s, steps as nat, BITS_HALF as nat, acc, up),
{
    let mut root: u128 = s;
    let mut rem: u64 = steps;
    let mut w: u64 = BITS_HALF;
    let mut product: u128 = acc;
    while rem > 0 && w > 0
        invariant
            frac_pow_rounded(s, steps as nat, BITS_HALF as nat, acc, up) == frac_pow_rounded(
                root,
                rem as nat,
                w as nat,
                product,
                up,
            ),
        decreases w,
    {
        match sqrt_fixed(root, up) {
            Err(e) => {
                return Err(e);
            },
            Ok(next_root) => {
                if rem >= w {
                    match mul_fixed(product, next_root, up) {
                        Err(e) => {
                            return Err(e);
                        },
                        Ok(next) => {
                            product = next;
                        },
                    }
                    rem = rem - w;
                }
                root = next_root;
                w = w / 2;
            },
        }
    }
    Ok(product)
}

/// The fraction `f` of an exponent as a count of steps of `1 / BITS_ONE`.
pub fn exponent_steps_of(base: u128, f: u128, up: bool) -> (steps: u64)
    requires
        f < SCALE,
    ensures
        steps == exponent_steps(base, f as int, up),
        steps < BITS_ONE,
{
    assert(f * 1_073_741_824 <= 999_999_999 * 1_073_741_824) by (nonlinear_arith)
        requires
            0 <= f <= 999_999_999,
    ;
    let scaled: u128 = f * (BITS_ONE as u128);
    if up == (base >= ONE) {
        ((scaled + (SCALE - 1)) / SCALE) as u64
    } else {
        (scaled / SCALE) as u64
    }
}

/// `base^exp` in the given rounding, for any exponent.
pub fn pow_approx(base: u128, exp: u128, up: bool) -> (result: Result<u128, MiniStabbleError>)
    ensures
        result == approx_pow(base, exp, up),
{
    let whole = match int_pow(base, exp / SCALE, ONE, up) {
        Err(e) => {
            return Err(e);
        },
        Ok(v) => v,
    };
    let steps = exponent_steps_of(base, exp % SCALE, up);
    let part = match frac_pow(base, steps, ONE, up) {
        Err(e) => {
            return Err(e);
        },
        Ok(v) => v,
    };
    mul_fixed(whole, part, up)
}

/// `base^exp` in the given rounding.
pub fn pow_fixed(base: u128, exp: u128, up: bool) -> (result: Result<u128, MiniStabbleError>)
    ensures
        result == pow_rounded(base, exp, up),
{
    if exp == ZERO {
        Ok(ONE)
    } else if exp == ONE {
        Ok(base)
    } else if exp == TWO {
        mul_fixed(base, base, up)
    } else if exp == THREE {
        match mul_fixed(base, base, up) {
            Err(e) => Err(e),
            Ok(square) => mul_fixed(square, base, up),
        }
    } else if exp == FOUR {
        match mul_fixed(base, base, up) {
            Err(e) => Err(e),
            Ok(square) => mul_fixed(square, square, up),
        }
    } else {
        pow_approx(base, exp, up)
    }
}

/// A square root rounded down does not decrease when the number grows.
pub proof fn lemma_sqrt_floor_monotone(n1: int, n2: int)
    requires
        0 <= n1 <= n2,
    ensures
        0 <= sqrt_floor(n1) <= sqrt_floor(n2),
        0 <= sqrt_ceil(n1) <= sqrt_ceil(n2),
        sqrt_floor(n1) <= sqrt_ceil(n1) <= sqrt_floor(n1) + 1,
{
    lemma_sqrt_floor_exists(n1);
    lemma_sqrt_floor_exists(n2);
    let r1 = sqrt_floor(n1);
    let r2 = sqrt_floor(n2);
    if r2 < r1 {
        assert((r2 + 1) * (r2 + 1) <= r1 * r1) by (nonlinear_arith)
            requires
                0 <= r2 + 1 <= r1,
        ;
    }
}

/// A number whose square fits the 128-bit width is below two to the power
/// of sixty-four.
pub proof fn lemma_root_fits(n: int)
    requires
        0 <= n <= u128::MAX,
    ensures
        0 <= sqrt_floor(n) <= u64::MAX,
        0 <= sqrt_ceil(n) <= u64::MAX + 1,
{
    lemma_sqrt_floor_exists(n);
    let r = sqrt_floor(n);
    if r > u64::MAX {
        assert(r * r >= 0x1_0000_0000_0000_0000 * 0x1_0000_0000_0000_0000) by (nonlinear_arith)
            requires
                r >= 0x1_0000_0000_0000_0000,
        ;
    }
}

/// The square root of a perfect square.
pub proof fn lemma_sqrt_of_square(r: int)
    requires
        0 <= r,
    ensures
        sqrt_floor(r * r) == r,
        sqrt_ceil(r * r) == r,
{
    assert(r * r < (r + 1) * (r + 1)) by (nonlinear_arith)
        requires
            0 <= r,
    ;
    lemma_sqrt_floor_unique(r * r, r);
}

/// A product does not decrease when its factors grow, and succeeds
/// wherever the larger product does.
pub proof fn lemma_mul_rounded_monotone(a1: u128, b1: u128, a2: u128, b2: u128, up: bool)
    requires
        a1 <= a2,
        b1 <= b2,
        mul_rounded(a2, b2, up).is_ok(),
    ensures
        mul_rounded(a1, b1, up).is_ok(),
        mul_rounded(a1, b1, up).unwrap() <= mul_rounded(a2, b2, up).unwrap(),
{
    assert(0 <= a1 * b1 <= a2 * b2) by (nonlinear_arith)
        requires
            0 <= a1 <= a2,
            0 <= b1 <= b2,
    ;
    lemma_mul_fits_u128(a1, b1);
    lemma_mul_fits_u128(a2, b2);
    lemma_div_is_ordered(a1 * b1, a2 * b2, SCALE as int);
    lemma_div_is_ordered(a1 * b1 + SCALE - 1, a2 * b2 + SCALE - 1, SCALE as int);
}

/// A fixed-point square root does not decrease when the number grows, and
/// succeeds wherever the root of the larger number does.
pub proof fn lemma_sqrt_rounded_monotone(s1: u128, s2: u128, up: bool)
    requires
        s1 <= s2,
        sqrt_rounded(s2, up).is_ok(),
    ensures
        sqrt_rounded(s1, up).is_ok(),
        sqrt_rounded(s1, up).unwrap() <= sqrt_rounded(s2, up).unwrap(),
{
    assert(0 <= s1 * SCALE <= s2 * SCALE) by (nonlinear_arith)
        requires
            0 <= s1 <= s2,
    ;
    lemma_sqrt_floor_monotone(s1 * SCALE, s2 * SCALE);
    lemma_root_fits(s1 * SCALE);
    lemma_root_fits(s2 * SCALE);
}

/// The products and the root of the number one are the number one.
pub proof fn lemma_one_is_fixed(up: bool)
    ensures
        mul_rounded(ONE, ONE, up) == Ok::<u128, MiniStabbleError>(ONE),
        sqrt_rounded(ONE, up) == Ok::<u128, MiniStabbleError>(ONE),
{
    assert(ONE * SCALE == 1_000_000_000 * 1_000_000_000);
    lemma_sqrt_of_square(1_000_000_000);
}

/// A whole power does not decrease when the base and the factor in front
/// grow, and succeeds wherever the larger one does.
pub proof fn lemma_int_pow_monotone(
    base1: u128,
    acc1: u128,
    base2: u128,
    acc2: u128,
    k: nat,
    up: bool,
)
    requires
        base1 <= base2,
        acc1 <= acc2,
        int_pow_rounded(base2, k, acc2, up).is_ok(),
    ensures
        int_pow_rounded(base1, k, acc1, up).is_ok(),
        int_pow_rounded(base1, k, acc1, up).unwrap() <= int_pow_rounded(
            base2,
            k,
            acc2,
            up,
        ).unwrap(),
    decreases k,
{
    if k != 0 {
        if k % 2 == 1 {
            lemma_mul_rounded_monotone(acc1, base1, acc2, base2, up);
        }
        let next1 = if k % 2 == 1 {
            mul_rounded(acc1, base1, up).unwrap()
        } else {
            acc1
        };
        let next2 = if k % 2 == 1 {
            mul_rounded(acc2, base2, up).unwrap()
        } else {
            acc2
        };
        if k / 2 != 0 {
            lemma_mul_rounded_monotone(base1, base1, base2, base2, up);
            lemma_int_pow_monotone(
                mul_rounded(base1, base1, up).unwrap(),
                next1,
                mul_rounded(base2, base2, up).unwrap(),
                next2,
                k / 2,
                up,
            );
        }
    }
}

/// A fractional power does not decrease when the base and the factor in
/// front grow, and succeeds wherever the larger one does.
pub proof fn lemma_frac_pow_monotone(
    s1: u128,
    acc1: u128,
    s2: u128,
    acc2: u128,
    rem: nat,
    w: nat,
    up: bool,
)
    requires
        s1 <= s2,
        acc1 <= acc2,
        frac_pow_rounded(s2, rem, w, acc2, up).is_ok(),
    ensures
        frac_pow_rounded(s1, rem, w, acc1, up).is_ok(),
        frac_pow_rounded(s1, rem, w, acc1, up).unwrap() <= frac_pow_rounded(
            s2,
            rem,
            w,
            acc2,
            up,
        ).unwrap(),
    decreases w,
{
    if rem != 0 && w != 0 {
        lemma_sqrt_rounded_monotone(s1, s2, up);
        let root1 = sqrt_rounded(s1, up).unwrap();
        let root2 = sqrt_rounded(s2, up).unwrap();
        if rem >= w {
            lemma_mul_rounded_monotone(acc1, root1, acc2, root2, up);
            lemma_frac_pow_monotone(
                root1,
                mul_rounded(acc1, root1, up).unwrap(),
                root2,
                mul_rounded(acc2, root2, up).unwrap(),
                (rem - w) as nat,
                w / 2,
                up,
            );
        } else {
            lemma_frac_pow_monotone(root1, acc1, root2, acc2, rem, w / 2, up);
        }
    }
}

/// Every whole power of the number one is the number one.
pub proof fn lemma_int_pow_of_one(k: nat, up: bool)
    ensures
        int_pow_rounded(ONE, k, ONE, up) == Ok::<u128, MiniStabbleError>(ONE),
    decreases k,
{
    lemma_one_is_fixed(up);
    if k != 0 && k / 2 != 0 {
        lemma_int_pow_of_one(k / 2, up);
    }
}

/// Every fractional power of the number one is the number one.
pub proof fn lemma_frac_pow_of_one(rem: nat, w: nat, up: bool)
    ensures
        frac_pow_rounded(ONE, rem, w, ONE, up) == Ok::<u128, MiniStabbleError>(ONE),
    decreases w,
{
    lemma_one_is_fixed(up);
    if rem != 0 && w != 0 {
        if rem >= w {
            lemma_frac_pow_of_one((rem - w) as nat, w / 2, up);
        } else {
            lemma_frac_pow_of_one(rem, w / 2, up);
        }
    }
}

/// Every power of the number one is the number one.
pub proof fn lemma_pow_of_one(exp: u128, up: bool)
    ensures
        approx_pow(ONE, exp, up) == Ok::<u128, MiniStabbleError>(ONE),
        pow_rounded(ONE, exp, up) == Ok::<u128, MiniStabbleError>(ONE),
{
    lemma_one_is_fixed(up);
    lemma_int_pow_of_one((exp / SCALE) as nat, up);
    lemma_frac_pow_of_one(
        exponent_steps(ONE, (exp % SCALE) as int, up) as nat,
        BITS_HALF as nat,
        up,
    );
}

/// A power of a base of at most one succeeds and is at most one; a power of
/// a base of at least one is at least one wherever it succeeds.
pub proof fn lemma_approx_pow_side_of_one(base: u128, exp: u128, up: bool)
    ensures
        base <= ONE ==> approx_pow(base, exp, up).is_ok() && approx_pow(base, exp, up).unwrap()
            <= ONE,
        base >= ONE && approx_pow(base, exp, up).is_ok() ==> approx_pow(base, exp, up).unwrap()
            >= ONE,
{
    let k = (exp / SCALE) as nat;
    let steps = exponent_steps(base, (exp % SCALE) as int, up) as nat;
    lemma_one_is_fixed(up);
    lemma_int_pow_of_one(k, up);
    lemma_frac_pow_of_one(steps, BITS_HALF as nat, up);
    if base <= ONE {
        lemma_int_pow_monotone(base, ONE, ONE, ONE, k, up);
        lemma_frac_pow_monotone(base, ONE, ONE, ONE, steps, BITS_HALF as nat, up);
        lemma_mul_rounded_monotone(
            int_pow_rounded(base, k, ONE, up).unwrap(),
            frac_pow_rounded(base, steps, BITS_HALF as nat, ONE, up).unwrap(),
            ONE,
            ONE,
            up,
        );
    }
    if base >= ONE && approx_pow(base, exp, up).is_ok() {
        lemma_int_pow_monotone(ONE, ONE, base, ONE, k, up);
        lemma_frac_pow_monotone(ONE, ONE, base, ONE, steps, BITS_HALF as nat, up);
        lemma_mul_rounded_monotone(
            ONE,
            ONE,
            int_pow_rounded(base, k, ONE, up).unwrap(),
            frac_pow_rounded(base, steps, BITS_HALF as nat, ONE, up).unwrap(),
            up,
        );
    }
}

/// For a fixed exponent and rounding, a power does not decrease when the
/// base grows, and succeeds wherever the power of the larger base does.
pub proof fn lemma_pow_monotone_in_base(base1: u128, base2: u128, exp: u128, up: bool)
    requires
        base1 <= base2,
        pow_rounded(base2, exp, up).is_ok(),
    ensures
        pow_rounded(base1, exp, up).is_ok(),
        pow_rounded(base1, exp, up).unwrap() <= pow_rounded(base2, exp, up).unwrap(),
{
    if exp == ZERO || exp == ONE {
    } else if exp == TWO {
        lemma_mul_rounded_monotone(base1, base1, base2, base2, up);
    } else if exp == THREE {
        lemma_mul_rounded_monotone(base1, base1, base2, base2, up);
        lemma_mul_rounded_monotone(
            mul_rounded(base1, base1, up).unwrap(),
            base1,
            mul_rounded(base2, base2, up).unwrap(),
            base2,
            up,
        );
    } else if exp == FOUR {
        lemma_mul_rounded_monotone(base1, base1, base2, base2, up);
        lemma_mul_rounded_monotone(
            mul_rounded(base1, base1, up).unwrap(),
            mul_rounded(base1, base1, up).unwrap(),
            mul_rounded(base2, base2, up).unwrap(),
            mul_rounded(base2, base2, up).unwrap(),
            up,
        );
    } else {
        let k = (exp / SCALE) as nat;
        if (base1 >= ONE) == (base2 >= ONE) {
            let steps = exponent_steps(base2, (exp % SCALE) as int, up) as nat;
            lemma_int_pow_monotone(base1, ONE, base2, ONE, k, up);
            lemma_frac_pow_monotone(base1, ONE, base2, ONE, steps, BITS_HALF as nat, up);
            lemma_mul_rounded_monotone(
                int_pow_rounded(base1, k, ONE, up).unwrap(),
                frac_pow_rounded(base1, steps, BITS_HALF as nat, ONE, up).unwrap(),
                int_pow_rounded(base2, k, ONE, up).unwrap(),
                frac_pow_rounded(base2, steps, BITS_HALF as nat, ONE, up).unwrap(),
                up,
            );
        } else {
            lemma_approx_pow_side_of_one(base1, exp, up);
            lemma_approx_pow_side_of_one(base2, exp, up);
        }
    }
}

} // verus!
