use mini_stabble::math::wide::U192;

fn wide(hi: u64, mid: u64, lo: u64) -> U192 {
    U192 { lo, mid, hi }
}

fn limbs(x: U192) -> (u64, u64, u64) {
    (x.hi, x.mid, x.lo)
}

#[test]
fn conversions() {
    assert_eq!(limbs(U192::zero()), (0, 0, 0));
    assert_eq!(limbs(U192::from_u64(7)), (0, 0, 7));
    assert_eq!(U192::from_u64(u64::MAX).as_u64(), Some(u64::MAX));
    assert_eq!(wide(0, 1, 0).as_u64(), None);
    assert_eq!(wide(1, 0, 0).as_u64(), None);
    assert!(U192::zero().is_zero());
    assert!(!wide(1, 0, 0).is_zero());
}

#[test]
fn comparisons() {
    assert!(wide(1, 0, 0).ge(&wide(0, u64::MAX, u64::MAX)));
    assert!(wide(1, 0, 0).gt(&wide(0, u64::MAX, u64::MAX)));
    assert!(!wide(0, 1, 0).gt(&wide(0, 1, 0)));
    assert!(wide(0, 1, 0).ge(&wide(0, 1, 0)));
    assert!(!wide(0, 0, 5).ge(&wide(0, 0, 6)));
    assert!(wide(0, 2, 0).gt(&wide(0, 1, u64::MAX)));
}

#[test]
fn addition_carries_and_reports_overflow() {
    let sum = wide(0, 0, u64::MAX).checked_add(&wide(0, 0, 1)).unwrap();
    assert_eq!(limbs(sum), (0, 1, 0));
    let sum = wide(0, u64::MAX, u64::MAX).checked_add(&wide(0, 0, 1)).unwrap();
    assert_eq!(limbs(sum), (1, 0, 0));
    assert!(wide(u64::MAX, u64::MAX, u64::MAX).checked_add(&wide(0, 0, 1)).is_none());
    let twice = wide(1, 2, 3).checked_double().unwrap();
    assert_eq!(limbs(twice), (2, 4, 6));
    assert!(wide(1 << 63, 0, 0).checked_double().is_none());
}

#[test]
fn subtraction_borrows_and_reports_underflow() {
    let difference = wide(1, 0, 0).checked_sub(&wide(0, 0, 1)).unwrap();
    assert_eq!(limbs(difference), (0, u64::MAX, u64::MAX));
    assert!(wide(0, 0, 1).checked_sub(&wide(0, 0, 2)).is_none());
    let difference = wide(5, 5, 5).checked_sub(&wide(5, 5, 5)).unwrap();
    assert!(difference.is_zero());
}

#[test]
fn multiplication_is_exact_and_reports_overflow() {
    let product = U192::from_u64(u64::MAX).checked_mul(&U192::from_u64(u64::MAX)).unwrap();
    assert_eq!(limbs(product), (0, u64::MAX - 1, 1));
    let product = product.checked_mul(&U192::from_u64(u64::MAX)).unwrap();
    // (2^64 - 1)^3 = 2^192 - 3 * 2^128 + 3 * 2^64 - 1
    assert_eq!(limbs(product), (u64::MAX - 2, 2, u64::MAX));
    assert!(product.checked_mul(&U192::from_u64(2)).is_none());
    assert!(wide(0, 1, 0).checked_mul(&wide(1, 0, 0)).is_none());
    assert!(wide(1, 0, 0).checked_mul(&wide(1, 0, 0)).is_none());
    let product = wide(0, 1, 0).checked_mul(&wide(0, 1, 0)).unwrap();
    assert_eq!(limbs(product), (1, 0, 0));
    let product = wide(7, 7, 7).checked_mul(&U192::zero()).unwrap();
    assert!(product.is_zero());
}

#[test]
fn division_gives_quotient_and_remainder() {
    let (quotient, remainder) = U192::from_u64(100).div_rem(&U192::from_u64(7));
    assert_eq!(limbs(quotient), (0, 0, 14));
    assert_eq!(limbs(remainder), (0, 0, 2));
    let (quotient, remainder) = wide(1, 0, 0).div_rem(&wide(0, 1, 0));
    assert_eq!(limbs(quotient), (0, 1, 0));
    assert!(remainder.is_zero());
    let (quotient, remainder) = wide(u64::MAX, u64::MAX, u64::MAX).div_rem(&wide(1 << 63, 0, 0));
    assert_eq!(limbs(quotient), (0, 0, 1));
    assert_eq!(limbs(remainder), ((1 << 63) - 1, u64::MAX, u64::MAX));
    let (quotient, remainder) = wide(u64::MAX, u64::MAX, u64::MAX).div_rem(&U192::from_u64(1));
    assert_eq!(limbs(quotient), (u64::MAX, u64::MAX, u64::MAX));
    assert!(remainder.is_zero());
    let (quotient, remainder) = U192::from_u64(3).div_rem(&wide(1, 0, 0));
    assert!(quotient.is_zero());
    assert_eq!(limbs(remainder), (0, 0, 3));
}

#[test]
fn checked_division_rounds_down_and_up() {
    let ten = U192::from_u64(10);
    let three = U192::from_u64(3);
    assert_eq!(ten.checked_div(&three).unwrap().as_u64(), Some(3));
    assert_eq!(ten.checked_div_up(&three).unwrap().as_u64(), Some(4));
    assert_eq!(ten.checked_div_up(&U192::from_u64(5)).unwrap().as_u64(), Some(2));
    assert!(ten.checked_div(&U192::zero()).is_none());
    assert!(ten.checked_div_up(&U192::zero()).is_none());
    assert_eq!(U192::zero().checked_div_up(&three).unwrap().as_u64(), Some(0));
}

#[test]
fn multiply_then_divide() {
    let big = U192::from_u64(u64::MAX);
    let product = big.checked_mul(&big).unwrap();
    // (2^64 - 1)^3 / (2^64 - 1)^2 = 2^64 - 1
    assert_eq!(
        product.checked_mul_div_down(&big, &product).unwrap().as_u64(),
        Some(u64::MAX)
    );
    assert_eq!(
        U192::from_u64(10)
            .checked_mul_div_down(&U192::from_u64(10), &U192::from_u64(7))
            .unwrap()
            .as_u64(),
        Some(14)
    );
    assert_eq!(
        U192::from_u64(10)
            .checked_mul_div_up(&U192::from_u64(10), &U192::from_u64(7))
            .unwrap()
            .as_u64(),
        Some(15)
    );
    assert!(product.checked_mul_div_down(&product, &big).is_none());
    assert!(product.checked_mul_div_up(&product, &big).is_none());
    assert!(big.checked_mul_div_down(&big, &U192::zero()).is_none());
    assert!(big.checked_mul_div_up(&big, &U192::zero()).is_none());
}
