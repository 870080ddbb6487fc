//! Scaled-integer arithmetic with an explicit rounding direction.
//!
//! A real number `x` is held as the integer `x * SCALE`. Products and
//! quotients multiply first and divide afterwards, and every operation
//! reports an overflow of its working width instead of wrapping.
use crate::errors::MiniStabbleError;
use crate::math::power::{pow_fixed, pow_rounded};
use crate::math::power_laws::{
    dominated, dominates, lemma_pow_down_dominated, lemma_pow_up_dominates,
};
use crate::math::power_tolerance::{
    lemma_pow_down_within_tolerance, lemma_pow_down_within_wide_tolerance,
    lemma_pow_up_within_tolerance, lemma_pow_up_within_wide_tolerance, less_by, POW_TOLERANCE,
    QUARTER, SIXTEEN, WIDE_POW_TOLERANCE,
};
use vstd::prelude::*;

verus! {

pub const SCALE: u128 = 1_000_000_000;

pub const ZERO: u128 = 0;

pub const ONE: u128 = 1_000_000_000;

pub const TWO: u128 = 2_000_000_000;

pub const THREE: u128 = 3_000_000_000;

pub const FOUR: u128 = 4_000_000_000;

/// The number one in the 64-bit working width.
pub const ONE_U64: u64 = 1_000_000_000;

/// `floor(a * b / SCALE)` over the integers.
pub open spec fn mul_down_int(a: int, b: int) -> int {
    a * b / (SCALE as int)
}

/// `ceil(a * b / SCALE)` over the integers.
pub open spec fn mul_up_int(a: int, b: int) -> int {
    (a * b + SCALE - 1) / (SCALE as int)
}

/// `floor(a * SCALE / b)` over the integers, for a positive `b`.
pub open spec fn div_down_int(a: int, b: int) -> int {
    a * SCALE / b
}

/// `ceil(a * SCALE / b)` over the integers, for a positive `b`.
pub open spec fn div_up_int(a: int, b: int) -> int {
    (a * SCALE + b - 1) / b
}

/// `max(ONE - a, 0)` over the integers.
pub open spec fn complement_int(a: int) -> int {
    if a < SCALE {
        SCALE - a
    } else {
        0
    }
}

/// Fixed-point multiplication, rounded down or up.
pub trait FixedMul: Sized {
    /// What `mul_down` returns.
    spec fn mul_down_spec(self, other: Self) -> Result<Self, MiniStabbleError>;

    /// What `mul_up` returns.
    spec fn mul_up_spec(self, other: Self) -> Result<Self, MiniStabbleError>;

    fn mul_down(self, other: Self) -> (result: Result<Self, MiniStabbleError>)
        ensures
            result == self.mul_down_spec(other),
    ;

    fn mul_up(self, other: Self) -> (result: Result<Self, MiniStabbleError>)
        ensures
            result == self.mul_up_spec(other),
    ;
}

/// Fixed-point division, rounded down or up.
pub trait FixedDiv: Sized {
    /// What `div_down` returns.
    spec fn div_down_spec(self, other: Self) -> Result<Self, MiniStabbleError>;

    /// What `div_up` returns.
    spec fn div_up_spec(self, other: Self) -> Result<Self, MiniStabbleError>;

    fn div_down(self, other: Self) -> (result: Result<Self, MiniStabbleError>)
        ensures
            result == self.div_down_spec(other),
    ;

    fn div_up(self, other: Self) -> (result: Result<Self, MiniStabbleError>)
        ensures
            result == self.div_up_spec(other),
    ;
}

/// The distance of a fraction from one, never negative.
pub trait FixedComplement: Sized {
    /// What `complement` returns.
    spec fn complement_spec(self) -> Self;

    fn complement(self) -> (result: Self)
        ensures
            result == self.complement_spec(),
    ;
}

impl FixedMul for u128 {
    open spec fn mul_down_spec(self, other: u128) -> Result<u128, MiniStabbleError> {
        if self * other <= u128::MAX {
            Ok(mul_down_int(self as int, other as int) as u128)
        } else {
            Err(MiniStabbleError::MathOverflow)
        }
    }

    open spec fn mul_up_spec(self, other: u128) -> Result<u128, MiniStabbleError> {
        if self * other + (SCALE - 1) <= u128::MAX {
            Ok(mul_up_int(self as int, other as int) as u128)
        } else {
            Err(MiniStabbleError::MathOverflow)
        }
    }

    fn mul_down(self, other: u128) -> (result: Result<u128, MiniStabbleError>)
        ensures
            result == self.mul_down_spec(other),
    {
        match self.checked_mul(other) {
            Some(product) => Ok(product / SCALE),
            None => Err(MiniStabbleError::MathOverflow),
        }
    }

    fn mul_up(self, other: u128) -> (result: Result<u128, MiniStabbleError>)
        ensures
            result == self.mul_up_spec(other),
    {
        match self.checked_mul(other) {
            Some(product) => match product.checked_add(SCALE - 1) {
                Some(padded) => Ok(padded / SCALE),
                None => Err(MiniStabbleError::MathOverflow),
            },
            None => Err(MiniStabbleError::MathOverflow),
        }
    }
}

impl FixedDiv for u128 {
    open spec fn div_down_spec(self, other: u128) -> Result<u128, MiniStabbleError> {
        if other == 0 {
            Err(MiniStabbleError::DivideByZero)
        } else if self * SCALE <= u128::MAX {
            Ok(div_down_int(self as int, other as int) as u128)
        } else {
            Err(MiniStabbleError::MathOverflow)
        }
    }

    open spec fn div_up_spec(self, other: u128) -> Result<u128, MiniStabbleError> {
        if other == 0 {
            Err(MiniStabbleError::DivideByZero)
        } else if self * SCALE + (other - 1) <= u128::MAX {
            Ok(div_up_int(self as int, other as int) as u128)
        } else {
            Err(MiniStabbleError::MathOverflow)
        }
    }

    fn div_down(self, other: u128) -> (result: Result<u128, MiniStabbleError>)
        ensures
            result == self.div_down_spec(other),
    {
        if other == 0 {
            return Err(MiniStabbleError::DivideByZero);
        }
        match self.checked_mul(SCALE) {
            Some(numerator) => Ok(numerator / other),
            None => Err(MiniStabbleError::MathOverflow),
        }
    }

    fn div_up(self, other: u128) -> (result: Result<u128, MiniStabbleError>)
        ensures
            result == self.div_up_spec(other),
    {
        if other == 0 {
            return Err(MiniStabbleError::DivideByZero);
        }
        match self.checked_mul(SCALE) {
            Some(numerator) => match numerator.checked_add(other - 1) {
                Some(padded) => Ok(padded / other),
                None => Err(MiniStabbleError::MathOverflow),
            },
            None => Err(MiniStabbleError::MathOverflow),
        }
    }
}

impl FixedComplement for u128 {
    open spec fn complement_spec(self) -> u128 {
        complement_int(self as int) as u128
    }

    fn complement(self) -> (result: u128)
        ensures
            result == self.complement_spec(),
    {
        if self < ONE {
            ONE - self
        } else {
            0
        }
    }
}

/// Fixed-point powers, rounded down or up.
pub trait FixedPow: Sized {
    /// What `pow_down` returns.
    spec fn pow_down_spec(self, exp: Self) -> Result<Self, MiniStabbleError>;

    /// What `pow_up` returns.
    spec fn pow_up_spec(self, exp: Self) -> Result<Self, MiniStabbleError>;

    fn pow_down(self, exp: Self) -> (result: Result<Self, MiniStabbleError>)
        ensures
            result == self.pow_down_spec(exp),
    ;

    fn pow_up(self, exp: Self) -> (result: Result<Self, MiniStabbleError>)
        ensures
            result == self.pow_up_spec(exp),
    ;
}

impl FixedPow for u128 {
    open spec fn pow_down_spec(self, exp: u128) -> Result<u128, MiniStabbleError> {
        pow_rounded(self, exp, false)
    }

    open spec fn pow_up_spec(self, exp: u128) -> Result<u128, MiniStabbleError> {
        pow_rounded(self, exp, true)
    }

    /// `self^exp`, rounded down: never above the exact power, and for a
    /// base from one quarter to one at most `POW_TOLERANCE` units of the
    /// last place below it where the exponent is below one, and at most
    /// `WIDE_POW_TOLERANCE` units where it is below sixteen.
    fn pow_down(self, exp: u128) -> (result: Result<u128, MiniStabbleError>)
        ensures
            result == self.pow_down_spec(exp),
            result.is_ok() ==> dominated(
                result.unwrap() as int,
                self as int,
                exp as nat,
                SCALE as nat,
            ),
            QUARTER <= self <= ONE && 0 < exp < ONE ==> result.is_ok() && dominates(
                result.unwrap() + POW_TOLERANCE,
                self as int,
                exp as nat,
                SCALE as nat,
            ),
            QUARTER <= self <= ONE && 0 < exp < SIXTEEN ==> result.is_ok() && dominates(
                result.unwrap() + WIDE_POW_TOLERANCE,
                self as int,
                exp as nat,
                SCALE as nat,
            ),
    {
        proof {
            if pow_rounded(self, exp, false).is_ok() {
                lemma_pow_down_dominated(self, exp);
            }
            if QUARTER <= self <= ONE && 0 < exp < ONE {
                lemma_pow_down_within_tolerance(self, exp);
            }
            if QUARTER <= self <= ONE && 0 < exp < SIXTEEN {
                lemma_pow_down_within_wide_tolerance(self, exp);
            }
        }
        pow_fixed(self, exp, false)
    }

    /// `self^exp`, rounded up: never below the exact power, and for a base
    /// from one quarter to one at most `POW_TOLERANCE` units of the last
    /// place above it where the exponent is below one, and at most
    /// `WIDE_POW_TOLERANCE` units where it is below sixteen.
    fn pow_up(self, exp: u128) -> (result: Result<u128, MiniStabbleError>)
        ensures
            result == self.pow_up_spec(exp),
            result.is_ok() ==> dominates(
                result.unwrap() as int,
                self as int,
                exp as nat,
                SCALE as nat,
            ),
            QUARTER <= self <= ONE && 0 < exp < ONE ==> result.is_ok() && dominated(
                result.unwrap() - POW_TOLERANCE,
                self as int,
                exp as nat,
                SCALE as nat,
            ),
            QUARTER <= self <= ONE && 0 < exp < SIXTEEN ==> result.is_ok() && dominated(
                less_by(result.unwrap() as int, WIDE_POW_TOLERANCE as int),
                self as int,
                exp as nat,
                SCALE as nat,
            ),
    {
        proof {
            if pow_rounded(self, exp, true).is_ok() {
                lemma_pow_up_dominates(self, exp);
            }
            if QUARTER <= self <= ONE && 0 < exp < ONE {
                lemma_pow_up_within_tolerance(self, exp);
            }
            if QUARTER <= self <= ONE && 0 < exp < SIXTEEN {
                lemma_pow_up_within_wide_tolerance(self, exp);
            }
        }
        pow_fixed(self, exp, true)
    }
}

/// The product of two 64-bit values fits the 128-bit width.
pub proof fn lemma_u64_product_fits(a: u64, b: u64)
    ensures
        a * b <= 0xFFFF_FFFF_FFFF_FFFE_0000_0000_0000_0001,
{
    assert(a * b <= 0xFFFF_FFFF_FFFF_FFFF * 0xFFFF_FFFF_FFFF_FFFF) by (nonlinear_arith)
        requires
            0 <= a <= 0xFFFF_FFFF_FFFF_FFFF,
            0 <= b <= 0xFFFF_FFFF_FFFF_FFFF,
    ;
}

impl FixedMul for u64 {
    open spec fn mul_down_spec(self, other: u64) -> Result<u64, MiniStabbleError> {
        if mul_down_int(self as int, other as int) <= u64::MAX {
            Ok(mul_down_int(self as int, other as int) as u64)
        } else {
            Err(MiniStabbleError::MathOverflow)
        }
    }

    open spec fn mul_up_spec(self, other: u64) -> Result<u64, MiniStabbleError> {
        if mul_up_int(self as int, other as int) <= u64::MAX {
            Ok(mul_up_int(self as int, other as int) as u64)
        } else {
            Err(MiniStabbleError::MathOverflow)
        }
    }

    fn mul_down(self, other: u64) -> (result: Result<u64, MiniStabbleError>)
        ensures
            result == self.mul_down_spec(other),
    {
        proof {
            lemma_u64_product_fits(self, other);
        }
        let product: u128 = (self as u128) * (other as u128);
        let quotient: u128 = product / (ONE_U64 as u128);
        if quotient <= u64::MAX as u128 {
            Ok(quotient as u64)
        } else {
            Err(MiniStabbleError::MathOverflow)
        }
    }

    fn mul_up(self, other: u64) -> (result: Result<u64, MiniStabbleError>)
        ensures
            result == self.mul_up_spec(other),
    {
        proof {
            lemma_u64_product_fits(self, other);
        }
        let product: u128 = (self as u128) * (other as u128);
        let quotient: u128 = (product + (ONE_U64 as u128 - 1)) / (ONE_U64 as u128);
        if quotient <= u64::MAX as u128 {
            Ok(quotient as u64)
        } else {
            Err(MiniStabbleError::MathOverflow)
        }
    }
}

impl FixedDiv for u64 {
    open spec fn div_down_spec(self, other: u64) -> Result<u64, MiniStabbleError> {
        if other == 0 {
            Err(MiniStabbleError::DivideByZero)
        } else if div_down_int(self as int, other as int) <= u64::MAX {
            Ok(div_down_int(self as int, other as int) as u64)
        } else {
            Err(MiniStabbleError::MathOverflow)
        }
    }

    open spec fn div_up_spec(self, other: u64) -> Result<u64, MiniStabbleError> {
        if other == 0 {
            Err(MiniStabbleError::DivideByZero)
        } else if div_up_int(self as int, other as int) <= u64::MAX {
            Ok(div_up_int(self as int, other as int) as u64)
        } else {
            Err(MiniStabbleError::MathOverflow)
        }
    }

    fn div_down(self, other: u64) -> (result: Result<u64, MiniStabbleError>)
        ensures
            result == self.div_down_spec(other),
    {
        if other == 0 {
            return Err(MiniStabbleError::DivideByZero);
        }
        proof {
            lemma_u64_product_fits(self, ONE_U64);
        }
        let numerator: u128 = (self as u128) * (ONE_U64 as u128);
        let quotient: u128 = numerator / (other as u128);
        if quotient <= u64::MAX as u128 {
            Ok(quotient as u64)
        } else {
            Err(MiniStabbleError::MathOverflow)
        }
    }

    fn div_up(self, other: u64) -> (result: Result<u64, MiniStabbleError>)
        ensures
            result == self.div_up_spec(other),
    {
        if other == 0 {
            return Err(MiniStabbleError::DivideByZero);
        }
        proof {
            lemma_u64_product_fits(self, ONE_U64);
        }
        let numerator: u128 = (self as u128) * (ONE_U64 as u128);
        let quotient: u128 = (numerator + (other as u128 - 1)) / (other as u128);
        if quotient <= u64::MAX as u128 {
            Ok(quotient as u64)
        } else {
            Err(MiniStabbleError::MathOverflow)
        }
    }
}

impl FixedComplement for u64 {
    open spec fn complement_spec(self) -> u64 {
        complement_int(self as int) as u64
    }

    fn complement(self) -> (result: u64)
        ensures
            result == self.complement_spec(),
    {
        if self < ONE_U64 {
            ONE_U64 - self
        } else {
            0
        }
    }
}

/// A quotient rounded down lies at or below the exact ratio `a * SCALE / b`,
/// and the quotient rounded up at or above it; the two differ by at most one.
pub proof fn lemma_div_brackets_exact(a: int, b: int)
    requires
        0 <= a,
        0 < b,
    ensures
        div_down_int(a, b) * b <= a * SCALE <= div_up_int(a, b) * b,
        div_down_int(a, b) <= div_up_int(a, b) <= div_down_int(a, b) + 1,
        0 <= div_down_int(a, b),
{
    let n = a * SCALE;
    assert(0 <= n) by (nonlinear_arith)
        requires
            0 <= a,
            n == a * 1_000_000_000,
    ;
    lemma_floor_ceil(n, b);
}

/// A product rounded down lies at or below the exact product `a * b / SCALE`,
/// and the product rounded up at or above it; the two differ by at most one.
pub proof fn lemma_mul_brackets_exact(a: int, b: int)
    requires
        0 <= a,
        0 <= b,
    ensures
        mul_down_int(a, b) * SCALE <= a * b <= mul_up_int(a, b) * SCALE,
        mul_down_int(a, b) <= mul_up_int(a, b) <= mul_down_int(a, b) + 1,
        0 <= mul_down_int(a, b),
{
    let n = a * b;
    assert(0 <= n) by (nonlinear_arith)
        requires
            0 <= a,
            0 <= b,
            n == a * b,
    ;
    lemma_floor_ceil(n, SCALE as int);
}

/// For a non-negative `n` and a positive `d`: `floor(n / d)` and
/// `ceil(n / d)`, the latter written as `(n + d - 1) / d`, enclose `n / d`.
pub proof fn lemma_floor_ceil(n: int, d: int)
    requires
        0 <= n,
        0 < d,
    ensures
        0 <= n / d,
        (n / d) * d <= n <= ((n + d - 1) / d) * d,
        n / d <= (n + d - 1) / d <= n / d + 1,
        n % d == 0 ==> (n + d - 1) / d == n / d,
        n % d != 0 ==> (n + d - 1) / d == n / d + 1,
{
    let q = n / d;
    let r = n % d;
    vstd::arithmetic::div_mod::lemma_fundamental_div_mod(n, d);
    vstd::arithmetic::div_mod::lemma_mod_bound(n, d);
    vstd::arithmetic::div_mod::lemma_div_pos_is_pos(n, d);
    assert(d * q == q * d) by (nonlinear_arith);
    if r == 0 {
        // n + d - 1 == q * d + (d - 1)
        vstd::arithmetic::div_mod::lemma_fundamental_div_mod_converse(n + d - 1, d, q, d - 1);
    } else {
        // n + d - 1 == (q + 1) * d + (r - 1)
        assert((q + 1) * d == q * d + d) by (nonlinear_arith);
        vstd::arithmetic::div_mod::lemma_fundamental_div_mod_converse(n + d - 1, d, q + 1, r - 1);
    }
}

/// A quotient rounded up does not grow when the divisor grows.
pub proof fn lemma_div_up_antitone(a: int, d1: int, d2: int)
    requires
        0 <= a,
        0 < d1 <= d2,
    ensures
        0 <= div_up_int(a, d2) <= div_up_int(a, d1),
{
    let n = a * SCALE;
    assert(0 <= n) by (nonlinear_arith)
        requires
            0 <= a,
            n == a * 1_000_000_000,
    ;
    lemma_floor_ceil(n, d1);
    lemma_floor_ceil(n, d2);
    let c1 = (n + d1 - 1) / d1;
    assert(c1 * d1 <= c1 * d2) by (nonlinear_arith)
        requires
            0 <= c1,
            0 < d1 <= d2,
    ;
    vstd::arithmetic::div_mod::lemma_div_is_ordered(n + d2 - 1, c1 * d2 + d2 - 1, d2);
    assert(d2 * c1 == c1 * d2) by (nonlinear_arith);
    vstd::arithmetic::div_mod::lemma_fundamental_div_mod_converse(
        c1 * d2 + d2 - 1,
        d2,
        c1,
        d2 - 1,
    );
}

/// On the 128-bit width, wherever both roundings succeed, the quotient
/// rounded down and the quotient rounded up enclose the exact ratio.
pub proof fn lemma_div_down_le_exact_le_div_up(a: u128, b: u128)
    requires
        a.div_down_spec(b).is_ok(),
        a.div_up_spec(b).is_ok(),
    ensures
        a.div_down_spec(b).unwrap() * b <= a * SCALE <= a.div_up_spec(b).unwrap() * b,
        a.div_down_spec(b).unwrap() <= a.div_up_spec(b).unwrap(),
{
    lemma_div_brackets_exact(a as int, b as int);
    lemma_div_fits_u128(a, b);
}

/// On the 128-bit width, wherever both roundings succeed, the product
/// rounded up is the product rounded down or one more.
pub proof fn lemma_mul_down_le_mul_up(a: u128, b: u128)
    requires
        a.mul_down_spec(b).is_ok(),
        a.mul_up_spec(b).is_ok(),
    ensures
        a.mul_down_spec(b).unwrap() <= a.mul_up_spec(b).unwrap() <= a.mul_down_spec(b).unwrap()
            + 1,
        a.mul_down_spec(b).unwrap() * SCALE <= a * b <= a.mul_up_spec(b).unwrap() * SCALE,
{
    lemma_mul_brackets_exact(a as int, b as int);
    lemma_mul_fits_u128(a, b);
}

/// On the 64-bit width, wherever both roundings succeed, the quotient
/// rounded down and the quotient rounded up enclose the exact ratio.
pub proof fn lemma_div_down_le_exact_le_div_up_u64(a: u64, b: u64)
    requires
        a.div_down_spec(b).is_ok(),
        a.div_up_spec(b).is_ok(),
    ensures
        a.div_down_spec(b).unwrap() * b <= a * SCALE <= a.div_up_spec(b).unwrap() * b,
        a.div_down_spec(b).unwrap() <= a.div_up_spec(b).unwrap(),
{
    lemma_div_brackets_exact(a as int, b as int);
}

/// On the 64-bit width, wherever both roundings succeed, the product
/// rounded up is the product rounded down or one more.
pub proof fn lemma_mul_down_le_mul_up_u64(a: u64, b: u64)
    requires
        a.mul_down_spec(b).is_ok(),
        a.mul_up_spec(b).is_ok(),
    ensures
        a.mul_down_spec(b).unwrap() <= a.mul_up_spec(b).unwrap() <= a.mul_down_spec(b).unwrap()
            + 1,
        a.mul_down_spec(b).unwrap() * SCALE <= a * b <= a.mul_up_spec(b).unwrap() * SCALE,
{
    lemma_mul_brackets_exact(a as int, b as int);
}

/// Where the numerators fit the 128-bit width, so do both quotients.
pub proof fn lemma_div_fits_u128(a: u128, b: u128)
    requires
        b > 0,
    ensures
        a * SCALE <= u128::MAX ==> 0 <= div_down_int(a as int, b as int) <= u128::MAX,
        a * SCALE + (b - 1) <= u128::MAX ==> 0 <= div_up_int(a as int, b as int) <= u128::MAX,
{
    let n = a * SCALE;
    assert(0 <= n) by (nonlinear_arith)
        requires
            0 <= a,
            n == a * 1_000_000_000,
    ;
    vstd::arithmetic::div_mod::lemma_div_pos_is_pos(n, b as int);
    vstd::arithmetic::div_mod::lemma_div_pos_is_pos(n + b - 1, b as int);
    vstd::arithmetic::div_mod::lemma_div_is_ordered_by_denominator(n, 1, b as int);
    vstd::arithmetic::div_mod::lemma_div_is_ordered_by_denominator(n + b - 1, 1, b as int);
}

/// Where the products fit the 128-bit width, so do both scaled products.
pub proof fn lemma_mul_fits_u128(a: u128, b: u128)
    ensures
        a * b <= u128::MAX ==> 0 <= mul_down_int(a as int, b as int) <= u128::MAX,
        a * b + (SCALE - 1) <= u128::MAX ==> 0 <= mul_up_int(a as int, b as int) <= u128::MAX,
{
    let n = a * b;
    assert(0 <= n) by (nonlinear_arith)
        requires
            0 <= a,
            0 <= b,
            n == a * b,
    ;
    vstd::arithmetic::div_mod::lemma_div_pos_is_pos(n, SCALE as int);
    vstd::arithmetic::div_mod::lemma_div_pos_is_pos(n + SCALE - 1, SCALE as int);
    vstd::arithmetic::div_mod::lemma_div_is_ordered_by_denominator(n, 1, SCALE as int);
    vstd::arithmetic::div_mod::lemma_div_is_ordered_by_denominator(n + SCALE - 1, 1, SCALE as int);
}

} // verus!
