use mini_stabble::errors::MiniStabbleError;
use mini_stabble::math::fixed::{
    FixedComplement, FixedDiv, FixedMul, FixedPow, FOUR, ONE, ONE_U64, SCALE, THREE, TWO, ZERO,
};
use mini_stabble::math::power_tolerance::{
    POW_TOLERANCE, QUARTER, SIXTEEN, WIDE_POW_TOLERANCE,
};
use mini_stabble::math::power::{
    exponent_steps_of, frac_pow, int_pow, integer_sqrt, mul_fixed, pow_approx, pow_fixed,
    sqrt_fixed, BITS_HALF, BITS_ONE,
};

#[test]
fn constants() {
    assert_eq!(SCALE, 1_000_000_000);
    assert_eq!(ZERO, 0);
    assert_eq!(ONE, SCALE);
    assert_eq!(TWO, 2 * SCALE);
    assert_eq!(THREE, 3 * SCALE);
    assert_eq!(FOUR, 4 * SCALE);
    assert_eq!(ONE_U64 as u128, ONE);
    assert_eq!(BITS_ONE, 1 << 30);
    assert_eq!(BITS_HALF, 1 << 29);
}

#[test]
fn mul_rounds_down_and_up() {
    assert_eq!(3_u128.mul_down(333_333_333), Ok(0));
    assert_eq!(3_u128.mul_up(333_333_333), Ok(1));
    assert_eq!((2 * ONE).mul_down(3 * ONE), Ok(6 * ONE));
    assert_eq!((2 * ONE).mul_up(3 * ONE), Ok(6 * ONE));
    assert_eq!(1_500_000_001_u128.mul_down(1_500_000_001), Ok(2_250_000_003));
    assert_eq!(1_500_000_001_u128.mul_up(1_500_000_001), Ok(2_250_000_004));
    assert_eq!(0_u128.mul_up(0), Ok(0));
}

#[test]
fn mul_reports_overflow() {
    assert_eq!(u128::MAX.mul_down(2), Err(MiniStabbleError::MathOverflow));
    assert_eq!(u128::MAX.mul_up(2), Err(MiniStabbleError::MathOverflow));
    assert_eq!(u128::MAX.mul_down(1), Ok(u128::MAX / SCALE));
    assert_eq!(u128::MAX.mul_up(1), Err(MiniStabbleError::MathOverflow));
}

#[test]
fn div_rounds_down_and_up() {
    assert_eq!(ONE.div_down(3 * ONE), Ok(333_333_333));
    assert_eq!(ONE.div_up(3 * ONE), Ok(333_333_334));
    assert_eq!((6 * ONE).div_down(3 * ONE), Ok(2 * ONE));
    assert_eq!((6 * ONE).div_up(3 * ONE), Ok(2 * ONE));
    assert_eq!(0_u128.div_up(7), Ok(0));
}

#[test]
fn div_reports_zero_divisor_and_overflow() {
    assert_eq!(ONE.div_down(0), Err(MiniStabbleError::DivideByZero));
    assert_eq!(ONE.div_up(0), Err(MiniStabbleError::DivideByZero));
    assert_eq!(u128::MAX.div_down(1), Err(MiniStabbleError::MathOverflow));
    assert_eq!(u128::MAX.div_up(1), Err(MiniStabbleError::MathOverflow));
    assert_eq!(u128::MAX.div_down(0), Err(MiniStabbleError::DivideByZero));
}

#[test]
fn rounding_brackets_the_exact_value() {
    let cases: [(u128, u128); 5] = [
        (1, 3),
        (7 * ONE, 9 * ONE),
        (123_456_789_123, 987_654_321),
        (ONE, ONE),
        (0, 5),
    ];
    for (a, b) in cases {
        let down = a.div_down(b).unwrap();
        let up = a.div_up(b).unwrap();
        assert!(down * b <= a * SCALE && a * SCALE <= up * b);
        assert!(up - down <= 1);
        let down = a.mul_down(b).unwrap();
        let up = a.mul_up(b).unwrap();
        assert!(down * SCALE <= a * b && a * b <= up * SCALE);
        assert!(down <= up && up <= down + 1);
    }
}

#[test]
fn complement_saturates() {
    assert_eq!(0_u128.complement(), ONE);
    assert_eq!(300_000_000_u128.complement(), 700_000_000);
    assert_eq!(ONE.complement(), 0);
    assert_eq!((ONE + 1).complement(), 0);
    assert_eq!(u128::MAX.complement(), 0);
    assert_eq!(0_u64.complement(), ONE_U64);
    assert_eq!(3_000_000_u64.complement(), 997_000_000);
    assert_eq!(u64::MAX.complement(), 0);
}

#[test]
fn narrow_width_operations() {
    assert_eq!(3_u64.mul_down(333_333_333), Ok(0));
    assert_eq!(3_u64.mul_up(333_333_333), Ok(1));
    assert_eq!(ONE_U64.div_down(3 * ONE_U64), Ok(333_333_333));
    assert_eq!(ONE_U64.div_up(3 * ONE_U64), Ok(333_333_334));
    assert_eq!(u64::MAX.mul_down(ONE_U64), Ok(u64::MAX));
    assert_eq!(u64::MAX.mul_up(ONE_U64), Ok(u64::MAX));
    assert_eq!(u64::MAX.mul_down(ONE_U64 + 1), Err(MiniStabbleError::MathOverflow));
    assert_eq!(u64::MAX.mul_up(ONE_U64 + 1), Err(MiniStabbleError::MathOverflow));
    assert_eq!(u64::MAX.div_down(ONE_U64), Ok(u64::MAX));
    assert_eq!(u64::MAX.div_down(ONE_U64 - 1), Err(MiniStabbleError::MathOverflow));
    assert_eq!(u64::MAX.div_up(ONE_U64 - 1), Err(MiniStabbleError::MathOverflow));
    assert_eq!(5_u64.div_down(0), Err(MiniStabbleError::DivideByZero));
    assert_eq!(5_u64.div_up(0), Err(MiniStabbleError::DivideByZero));
}

#[test]
fn pow_fast_paths_are_exact_products() {
    let x = 1_500_000_001_u128;
    assert_eq!(x.pow_down(ZERO), Ok(ONE));
    assert_eq!(x.pow_up(ZERO), Ok(ONE));
    assert_eq!(x.pow_down(ONE), Ok(x));
    assert_eq!(x.pow_up(ONE), Ok(x));
    assert_eq!(x.pow_down(TWO), Ok(2_250_000_003));
    assert_eq!(x.pow_up(TWO), Ok(2_250_000_004));
    assert_eq!(x.pow_down(THREE), Ok(3_375_000_006));
    assert_eq!(x.pow_up(THREE), Ok(3_375_000_009));
    assert_eq!(x.pow_down(FOUR), Ok(5_062_500_013));
    assert_eq!(x.pow_up(FOUR), Ok(5_062_500_019));
    assert_eq!(0_u128.pow_down(ZERO), Ok(ONE));
}

#[test]
fn pow_of_a_fraction_is_a_product_of_square_roots() {
    assert_eq!((4 * ONE).pow_down(ONE / 2), Ok(2 * ONE));
    assert_eq!((4 * ONE).pow_up(ONE / 2), Ok(2 * ONE));
    assert_eq!((2 * ONE).pow_down(ONE / 2), Ok(1_414_213_562));
    assert_eq!((2 * ONE).pow_up(ONE / 2), Ok(1_414_213_563));
    assert_eq!((2 * ONE).pow_down(3 * ONE / 2), Ok(2_828_427_124));
    assert_eq!((2 * ONE).pow_up(3 * ONE / 2), Ok(2_828_427_126));
    assert_eq!((ONE / 2).pow_down(ONE / 4), Ok(840_896_415));
    assert_eq!((ONE / 2).pow_up(ONE / 4), Ok(840_896_416));
}

#[test]
fn pow_brackets_the_exact_power_within_its_tolerance() {
    // 0.9^0.2 = 0.97914836236..., 1.1^0.8 = 1.07923034529..., 3^2.5 = 15.5884572681...
    let cases: [(u128, u128, u128); 3] = [
        (900_000_000, 200_000_000, 979_148_362),
        (1_100_000_000, 800_000_000, 1_079_230_345),
        (3_000_000_000, 2_500_000_000, 15_588_457_268),
    ];
    for (base, exp, exact) in cases {
        let down = base.pow_down(exp).unwrap();
        let up = base.pow_up(exp).unwrap();
        assert!(down <= exact && exact < up, "{} {} {}", down, exact, up);
        assert!(up - down <= 60, "{} {}", down, up);
    }
    assert_eq!(900_000_000_u128.pow_down(200_000_000), Ok(979_148_341));
    assert_eq!(900_000_000_u128.pow_up(200_000_000), Ok(979_148_379));
    assert_eq!(1_100_000_000_u128.pow_down(800_000_000), Ok(1_079_230_322));
    assert_eq!(1_100_000_000_u128.pow_up(800_000_000), Ok(1_079_230_363));
}

#[test]
fn pow_with_a_whole_exponent_above_four() {
    assert_eq!((3 * ONE / 2).pow_down(5 * ONE), Ok(7_593_750_000));
    assert_eq!((3 * ONE / 2).pow_up(5 * ONE), Ok(7_593_750_000));
    assert_eq!(ONE.pow_down(1_000_000 * ONE + 7), Ok(ONE));
    assert_eq!(ONE.pow_up(1_000_000 * ONE + 7), Ok(ONE));
    assert_eq!(0_u128.pow_up(5 * ONE), Ok(0));
    assert_eq!(0_u128.pow_down(ONE / 2), Ok(0));
}

#[test]
fn pow_reports_overflow() {
    assert_eq!(u128::MAX.pow_down(TWO), Err(MiniStabbleError::MathOverflow));
    assert_eq!(u128::MAX.pow_up(ONE / 2), Err(MiniStabbleError::MathOverflow));
    assert_eq!((1_000_000 * ONE).pow_down(100 * ONE), Err(MiniStabbleError::MathOverflow));
    assert_eq!(u128::MAX.pow_down(ONE), Ok(u128::MAX));
}

#[test]
fn pow_does_not_decrease_with_the_base() {
    let exps = [ONE / 2, ONE / 5, 3 * ONE / 2, TWO, 5 * ONE + 1];
    let bases = [0_u128, 1, ONE / 2, ONE - 1, ONE, ONE + 1, 2 * ONE, 1_000 * ONE];
    for exp in exps {
        for pair in bases.windows(2) {
            assert!(pair[0].pow_up(exp).unwrap() <= pair[1].pow_up(exp).unwrap());
            assert!(pair[0].pow_down(exp).unwrap() <= pair[1].pow_down(exp).unwrap());
        }
    }
}

#[test]
fn pow_pieces() {
    assert_eq!(integer_sqrt(0), 0);
    assert_eq!(integer_sqrt(1), 1);
    assert_eq!(integer_sqrt(99), 9);
    assert_eq!(integer_sqrt(100), 10);
    assert_eq!(integer_sqrt(u128::MAX), u64::MAX as u128);
    assert_eq!(sqrt_fixed(2 * ONE, false), Ok(1_414_213_562));
    assert_eq!(sqrt_fixed(2 * ONE, true), Ok(1_414_213_563));
    assert_eq!(sqrt_fixed(u128::MAX, true), Err(MiniStabbleError::MathOverflow));
    assert_eq!(mul_fixed(3, 333_333_333, false), Ok(0));
    assert_eq!(mul_fixed(3, 333_333_333, true), Ok(1));
    assert_eq!(int_pow(2 * ONE, 10, ONE, false), Ok(1_024 * ONE));
    assert_eq!(int_pow(2 * ONE, 0, 7, true), Ok(7));
    assert_eq!(frac_pow(16 * ONE, BITS_HALF / 2, ONE, false), Ok(2 * ONE));
    assert_eq!(frac_pow(16 * ONE, 0, 5, false), Ok(5));
    assert_eq!(exponent_steps_of(2 * ONE, 500_000_000, false), BITS_HALF);
    assert_eq!(exponent_steps_of(2 * ONE, 200_000_000, false), 214_748_364);
    assert_eq!(exponent_steps_of(2 * ONE, 200_000_000, true), 214_748_365);
    assert_eq!(exponent_steps_of(ONE / 2, 200_000_000, true), 214_748_364);
    assert_eq!(exponent_steps_of(ONE / 2, 200_000_000, false), 214_748_365);
    assert_eq!(pow_approx(4 * ONE, ONE / 2, false), Ok(2 * ONE));
    assert_eq!(pow_approx(2 * ONE, TWO, false), Ok(4 * ONE));
    assert_eq!(pow_fixed(2 * ONE, TWO, true), Ok(4 * ONE));
}

#[test]
fn pow_down_is_at_most_pow_up_and_both_are_close() {
    let bases = [1_u128, ONE / 3, ONE - 1, ONE, ONE + 1, 2 * ONE, 17 * ONE, 1_000_000 * ONE];
    let exps = [1_u128, ONE / 7, ONE / 2, ONE - 1, ONE + 1, 3 * ONE / 2, 2 * ONE + 5];
    for base in bases {
        for exp in exps {
            let down = base.pow_down(exp).unwrap();
            let up = base.pow_up(exp).unwrap();
            let exact = (base as f64 / 1e9).powf(exp as f64 / 1e9) * 1e9;
            assert!(down <= up, "{} {} {} {}", base, exp, down, up);
            assert!((down as f64) <= exact * (1.0 + 1e-12) + 1.0);
            assert!((up as f64) >= exact * (1.0 - 1e-12) - 1.0);
        }
    }
}

#[test]
fn pow_roundings_stay_within_the_tolerance() {
    assert_eq!(POW_TOLERANCE, 964);
    assert_eq!(QUARTER, ONE / 4);
    let bases = [QUARTER, QUARTER + 1, ONE / 3, ONE / 2, 900_000_000, ONE - 1, ONE];
    let exps = [1_u128, 3, ONE / 1_000, ONE / 7, ONE / 4, ONE / 3, ONE / 2, 4 * ONE / 5, ONE - 1];
    for base in bases {
        for exp in exps {
            let down = base.pow_down(exp).unwrap();
            let up = base.pow_up(exp).unwrap();
            let exact = (base as f64 / 1e9).powf(exp as f64 / 1e9) * 1e9;
            assert!(down <= up && up <= down + 2 * POW_TOLERANCE, "{} {}", down, up);
            assert!((up as f64) - exact <= POW_TOLERANCE as f64);
            assert!(exact - (down as f64) <= POW_TOLERANCE as f64);
            assert!(base <= up && up <= ONE);
        }
    }
}

#[test]
fn pow_roundings_stay_within_the_wide_tolerance() {
    assert_eq!(WIDE_POW_TOLERANCE, 1_000);
    assert_eq!(SIXTEEN, 16 * ONE);
    let bases = [QUARTER, QUARTER + 1, ONE / 3, ONE / 2, 900_000_000, ONE - 1, ONE];
    let exps = [
        ONE,
        ONE + 1,
        3 * ONE / 2,
        TWO,
        TWO + 1,
        7 * ONE / 3,
        THREE,
        FOUR,
        5 * ONE,
        9 * ONE + 123_456_789,
        SIXTEEN - 1,
    ];
    for base in bases {
        for exp in exps {
            let down = base.pow_down(exp).unwrap();
            let up = base.pow_up(exp).unwrap();
            let exact = (base as f64 / 1e9).powf(exp as f64 / 1e9) * 1e9;
            assert!(down <= up && up <= down + 2 * WIDE_POW_TOLERANCE, "{} {}", down, up);
            assert!((up as f64) - exact <= WIDE_POW_TOLERANCE as f64);
            assert!(exact - (down as f64) <= WIDE_POW_TOLERANCE as f64);
            assert!(up <= ONE);
        }
    }
}
