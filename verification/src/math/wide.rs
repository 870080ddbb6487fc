//! The wide working width: unsigned integers of 192 bits.
//!
//! The stable pool's intermediate products do not fit 128 bits. They are
//! carried in three 64-bit limbs, and every operation reports what does not
//! fit instead of wrapping.
use vstd::arithmetic::div_mod::lemma_fundamental_div_mod_converse;
use vstd::arithmetic::power2::{lemma2_to64, lemma_pow2_adds, lemma_pow2_strictly_increases, pow2};
use vstd::prelude::*;

verus! {

/// Two to the power of 64: the weight of the second limb.
pub open spec fn limb_base() -> int {
    0x1_0000_0000_0000_0000
}

/// Two to the power of 128: the weight of the third limb.
pub open spec fn limb_base_squared() -> int {
    0x1_0000_0000_0000_0000_0000_0000_0000_0000int
}

/// Two to the power of 192: the first number that the wide width cannot hold.
pub open spec fn wide_limit() -> int {
    0x1_0000_0000_0000_0000_0000_0000_0000_0000_0000_0000_0000_0000int
}

/// Whether `x` is a number that the wide width can hold.
pub open spec fn fits_wide(x: int) -> bool {
    0 <= x < wide_limit()
}

/// An unsigned integer of 192 bits, least significant limb first.
#[derive(Clone, Copy, Debug, PartialEq, Eq, Structural)]
pub struct U192 {
    pub lo: u64,
    pub mid: u64,
    pub hi: u64,
}

impl View for U192 {
    type V = int;

    /// The number that the three limbs hold.
    open spec fn view(&self) -> int {
        self.lo + self.mid * limb_base() + self.hi * limb_base_squared()
    }
}

/// The sum of two limbs and a carry, as a limb and the carry out of it.
fn limb_add(a: u64, b: u64, carry: bool) -> (r: (u64, bool))
    ensures
        r.0 + (if r.1 {
            limb_base()
        } else {
            0
        }) == a + b + (if carry {
            1int
        } else {
            0
        }),
{
    let bit: u128 = if carry {
        1
    } else {
        0
    };
    let total: u128 = a as u128 + b as u128 + bit;
    if total >= 0x1_0000_0000_0000_0000 {
        ((total - 0x1_0000_0000_0000_0000) as u64, true)
    } else {
        (total as u64, false)
    }
}

/// The difference of two limbs less a borrow, as a limb and the borrow out of it.
fn limb_sub(a: u64, b: u64, borrow: bool) -> (r: (u64, bool))
    ensures
        r.0 - (if r.1 {
            limb_base()
        } else {
            0
        }) == a - b - (if borrow {
            1int
        } else {
            0
        }),
{
    let bit: u128 = if borrow {
        1
    } else {
        0
    };
    let taken: u128 = b as u128 + bit;
    if a as u128 >= taken {
        ((a as u128 - taken) as u64, false)
    } else {
        ((a as u128 + 0x1_0000_0000_0000_0000 - taken) as u64, true)
    }
}

/// The product of two limbs plus a carry, as a limb and the carry out of it.
fn limb_mul(a: u64, b: u64, carry: u64) -> (r: (u64, u64))
    ensures
        r.0 + r.1 * limb_base() == a * b + carry,
{
    assert(a * b <= 0xFFFF_FFFF_FFFF_FFFF * 0xFFFF_FFFF_FFFF_FFFF) by (nonlinear_arith)
        requires
            0 <= a <= 0xFFFF_FFFF_FFFF_FFFF,
            0 <= b <= 0xFFFF_FFFF_FFFF_FFFF,
    ;
    let total: u128 = (a as u128) * (b as u128) + (carry as u128);
    ((total % 0x1_0000_0000_0000_0000) as u64, (total / 0x1_0000_0000_0000_0000) as u64)
}

impl U192 {
    /// The number zero.
    pub fn zero() -> (r: U192)
        ensures
            r@ == 0,
    {
        U192 { lo: 0, mid: 0, hi: 0 }
    }

    /// A 64-bit number in the wide width.
    pub fn from_u64(x: u64) -> (r: U192)
        ensures
            r@ == x,
    {
        U192 { lo: x, mid: 0, hi: 0 }
    }

    /// The number in the 64-bit width, where it fits.
    pub fn as_u64(&self) -> (r: Option<u64>)
        ensures
            r == if self@ <= u64::MAX {
                Some(self@ as u64)
            } else {
                None
            },
    {
        if self.mid == 0 && self.hi == 0 {
            Some(self.lo)
        } else {
            None
        }
    }

    /// Every wide number is below two to the power of 192.
    pub proof fn lemma_bounds(self)
        ensures
            fits_wide(self@),
    {
    }

    /// Whether `self` is at least `other`.
    pub fn ge(&self, other: &U192) -> (r: bool)
        ensures
            r == (self@ >= other@),
    {
        if self.hi != other.hi {
            self.hi > other.hi
        } else if self.mid != other.mid {
            self.mid > other.mid
        } else {
            self.lo >= other.lo
        }
    }

    /// Whether `self` is greater than `other`.
    pub fn gt(&self, other: &U192) -> (r: bool)
        ensures
            r == (self@ > other@),
    {
        !other.ge(self)
    }

    /// Whether `self` is zero.
    pub fn is_zero(&self) -> (r: bool)
        ensures
            r == (self@ == 0),
    {
        self.lo == 0 && self.mid == 0 && self.hi == 0
    }

    /// `self + other + carry` modulo two to the power of 192, and whether
    /// the sum reached that power.
    fn add_carry(&self, other: &U192, carry: bool) -> (r: (U192, bool))
        ensures
            r.0@ + (if r.1 {
                wide_limit()
            } else {
                0
            }) == self@ + other@ + (if carry {
                1int
            } else {
                0
            }),
    {
        let (lo, c0) = limb_add(self.lo, other.lo, carry);
        let (mid, c1) = limb_add(self.mid, other.mid, c0);
        let (hi, c2) = limb_add(self.hi, other.hi, c1);
        (U192 { lo, mid, hi }, c2)
    }

    /// `self - other` modulo two to the power of 192, and whether `other`
    /// was the larger.
    fn sub_borrow(&self, other: &U192) -> (r: (U192, bool))
        ensures
            r.0@ - (if r.1 {
                wide_limit()
            } else {
                0
            }) == self@ - other@,
    {
        let (lo, b0) = limb_sub(self.lo, other.lo, false);
        let (mid, b1) = limb_sub(self.mid, other.mid, b0);
        let (hi, b2) = limb_sub(self.hi, other.hi, b1);
        (U192 { lo, mid, hi }, b2)
    }

    /// `self * m` modulo two to the power of 192, and what lies above it.
    fn mul_limb(&self, m: u64) -> (r: (U192, u64))
        ensures
            r.0@ + r.1 * wide_limit() == self@ * m,
    {
        let (lo, c0) = limb_mul(self.lo, m, 0);
        let (mid, c1) = limb_mul(self.mid, m, c0);
        let (hi, c2) = limb_mul(self.hi, m, c1);
        assert(self@ * m == self.lo * m + (self.mid * m) * limb_base() + (self.hi * m)
            * limb_base_squared()) by (nonlinear_arith)
            requires
                self@ == self.lo + self.mid * limb_base() + self.hi * limb_base_squared(),
        ;
        assert(c0 * limb_base() + c1 * limb_base_squared() == (c0 + c1 * limb_base())
            * limb_base()) by (nonlinear_arith)
            requires
                limb_base_squared() == limb_base() * limb_base(),
        ;
        assert((mid + c1 * limb_base()) * limb_base() == mid * limb_base() + c1
            * limb_base_squared()) by (nonlinear_arith)
            requires
                limb_base_squared() == limb_base() * limb_base(),
        ;
        assert((hi + c2 * limb_base()) * limb_base_squared() == hi * limb_base_squared() + c2
            * wide_limit()) by (nonlinear_arith)
            requires
                wide_limit() == limb_base() * limb_base_squared(),
        ;
        (U192 { lo, mid, hi }, c2)
    }

    /// The sum, where it fits the wide width.
    pub fn checked_add(&self, other: &U192) -> (r: Option<U192>)
        ensures
            fits_wide(self@ + other@) ==> r.is_some() && r.unwrap()@ == self@ + other@,
            !fits_wide(self@ + other@) ==> r.is_none(),
    {
        let (sum, carry) = self.add_carry(other, false);
        if carry {
            None
        } else {
            Some(sum)
        }
    }

    /// The difference, where it is not negative.
    pub fn checked_sub(&self, other: &U192) -> (r: Option<U192>)
        ensures
            self@ >= other@ ==> r.is_some() && r.unwrap()@ == self@ - other@,
            self@ < other@ ==> r.is_none(),
    {
        let (difference, borrow) = self.sub_borrow(other);
        if borrow {
            None
        } else {
            Some(difference)
        }
    }

    /// The product, where it fits the wide width.
    pub fn checked_mul(&self, other: &U192) -> (r: Option<U192>)
        ensures
            fits_wide(self@ * other@) ==> r.is_some() && r.unwrap()@ == self@ * other@,
            !fits_wide(self@ * other@) ==> r.is_none(),
    {
        let (part_lo, c0) = self.mul_limb(other.lo);
        let (part_mid, c1) = self.mul_limb(other.mid);
        let (part_hi, c2) = self.mul_limb(other.hi);
        proof {
            assert(self@ * other@ == self@ * other.lo + (self@ * other.mid) * limb_base() + (self@
                * other.hi) * limb_base_squared()) by (nonlinear_arith)
                requires
                    other@ == other.lo + other.mid * limb_base() + other.hi * limb_base_squared(),
            ;
            assert((part_mid@ + c1 * wide_limit()) * limb_base() == part_mid.lo * limb_base() + part_mid.mid
                * limb_base_squared() + (part_mid.hi + c1 * limb_base()) * wide_limit())
                by (nonlinear_arith)
                requires
                    part_mid@ == part_mid.lo + part_mid.mid * limb_base() + part_mid.hi * limb_base_squared(),
                    limb_base_squared() == limb_base() * limb_base(),
                    wide_limit() == limb_base() * limb_base_squared(),
            ;
            assert((part_hi@ + c2 * wide_limit()) * limb_base_squared() == part_hi.lo * limb_base_squared()
                + (part_hi.mid + part_hi.hi * limb_base() + c2 * limb_base_squared()) * wide_limit())
                by (nonlinear_arith)
                requires
                    part_hi@ == part_hi.lo + part_hi.mid * limb_base() + part_hi.hi * limb_base_squared(),
                    limb_base_squared() == limb_base() * limb_base(),
                    wide_limit() == limb_base() * limb_base_squared(),
            ;
        }
        let ghost above = c0 + part_mid.hi + c1 * limb_base() + part_hi.mid + part_hi.hi * limb_base() + c2
            * limb_base_squared();
        let shifted1 = U192 { lo: 0, mid: part_mid.lo, hi: part_mid.mid };
        let shifted2 = U192 { lo: 0, mid: 0, hi: part_hi.lo };
        assert(self@ * other@ == part_lo@ + shifted1@ + shifted2@ + above * wide_limit())
            by (nonlinear_arith)
            requires
                self@ * other@ == self@ * other.lo + (self@ * other.mid) * limb_base() + (self@
                    * other.hi) * limb_base_squared(),
                part_lo@ + c0 * wide_limit() == self@ * other.lo,
                part_mid@ + c1 * wide_limit() == self@ * other.mid,
                part_hi@ + c2 * wide_limit() == self@ * other.hi,
                (part_mid@ + c1 * wide_limit()) * limb_base() == part_mid.lo * limb_base() + part_mid.mid
                    * limb_base_squared() + (part_mid.hi + c1 * limb_base()) * wide_limit(),
                (part_hi@ + c2 * wide_limit()) * limb_base_squared() == part_hi.lo * limb_base_squared() + (
                part_hi.mid + part_hi.hi * limb_base() + c2 * limb_base_squared()) * wide_limit(),
                shifted1@ == part_mid.lo * limb_base() + part_mid.mid * limb_base_squared(),
                shifted2@ == part_hi.lo * limb_base_squared(),
                above == c0 + part_mid.hi + c1 * limb_base() + part_hi.mid + part_hi.hi * limb_base() + c2
                    * limb_base_squared(),
        ;
        if c0 != 0 || c1 != 0 || c2 != 0 || part_mid.hi != 0 || part_hi.mid != 0 || part_hi.hi != 0 {
            assert(above >= 1);
            assert(above * wide_limit() >= wide_limit()) by (nonlinear_arith)
                requires
                    above >= 1,
                    wide_limit() > 0,
            ;
            return None;
        }
        assert(above == 0);
        match part_lo.checked_add(&shifted1) {
            None => None,
            Some(partial) => partial.checked_add(&shifted2),
        }
    }

    /// Twice the number, where it fits the wide width.
    pub fn checked_double(&self) -> (r: Option<U192>)
        ensures
            fits_wide(2 * self@) ==> r.is_some() && r.unwrap()@ == 2 * self@,
            !fits_wide(2 * self@) ==> r.is_none(),
    {
        self.checked_add(self)
    }

    /// The quotient and the remainder of `self` by a divisor that is not zero.
    pub fn div_rem(&self, divisor: &U192) -> (r: (U192, U192))
        requires
            divisor@ != 0,
        ensures
            r.0@ == self@ / divisor@,
            r.1@ == self@ % divisor@,
            self@ == r.0@ * divisor@ + r.1@,
            r.1@ < divisor@,
    {
        let mut shifted: U192 = *self;
        let mut quotient: U192 = U192::zero();
        let mut remainder: U192 = U192::zero();
        let ghost mut above: int = 0;
        let ghost mut weight: int = 1;
        let mut i: u32 = 0;
        proof {
            lemma2_to64();
            assert(self@ * 1 == self@) by (nonlinear_arith);
            assert(0 * divisor@ == 0) by (nonlinear_arith);
        }
        while i < 192
            invariant
                i <= 192,
                divisor@ > 0,
                weight == pow2(i as nat),
                weight >= 1,
                self@ * weight == above * wide_limit() + shifted@,
                0 <= above < weight,
                above == quotient@ * divisor@ + remainder@,
                remainder@ < divisor@,
            decreases 192 - i,
        {
            let ghost old_above = above;
            let ghost old_weight = weight;
            let ghost old_quotient = quotient@;
            let ghost old_remainder = remainder@;
            let ghost old_shifted = shifted@;
            let (next_shifted, bit) = shifted.add_carry(&shifted, false);
            let (doubled, carry) = remainder.add_carry(&remainder, bit);
            let takes = carry || doubled.ge(divisor);
            let (reduced, _borrow) = doubled.sub_borrow(divisor);
            let (next_quotient, overflow) = quotient.add_carry(&quotient, takes);
            proof {
                let b = if bit {
                    1int
                } else {
                    0
                };
                let t = if takes {
                    1int
                } else {
                    0
                };
                above = 2 * old_above + b;
                weight = 2 * old_weight;
                vstd::arithmetic::power2::lemma_pow2_unfold((i + 1) as nat);
                assert(self@ * weight == 2 * (self@ * old_weight)) by (nonlinear_arith)
                    requires
                        weight == 2 * old_weight,
                ;
                pow2_192();
                if i + 1 < 192 {
                    lemma_pow2_strictly_increases((i + 1) as nat, 192);
                }
                assert(weight <= wide_limit());
                // The part above doubles and takes the bit shifted out.
                let x = 2 * old_remainder + b;
                assert(x < 2 * divisor@);
                let next_remainder = if takes {
                    x - divisor@
                } else {
                    x
                };
                assert(0 <= next_remainder < divisor@);
                assert((if takes {
                    reduced@
                } else {
                    doubled@
                }) == next_remainder);
                assert(above == (2 * old_quotient + t) * divisor@ + next_remainder)
                    by (nonlinear_arith)
                    requires
                        above == 2 * old_above + b,
                        old_above == old_quotient * divisor@ + old_remainder,
                        x == 2 * old_remainder + b,
                        next_remainder == x - t * divisor@,
                ;
                assert(2 * old_quotient + t <= above) by (nonlinear_arith)
                    requires
                        above == (2 * old_quotient + t) * divisor@ + next_remainder,
                        0 <= next_remainder,
                        divisor@ >= 1,
                        0 <= 2 * old_quotient + t,
                ;
                assert(!overflow);
            }
            shifted = next_shifted;
            quotient = next_quotient;
            if takes {
                remainder = reduced;
            } else {
                remainder = doubled;
            }
            i = i + 1;
        }
        proof {
            pow2_192();
            assert(above == self@) by (nonlinear_arith)
                requires
                    self@ * wide_limit() == above * wide_limit() + shifted@,
                    0 <= shifted@ < wide_limit(),
            ;
            assert(self@ == divisor@ * quotient@ + remainder@) by (nonlinear_arith)
                requires
                    self@ == quotient@ * divisor@ + remainder@,
            ;
            lemma_fundamental_div_mod_converse(self@, divisor@, quotient@, remainder@);
        }
        (quotient, remainder)
    }

    /// The quotient rounded down, where the divisor is not zero.
    pub fn checked_div(&self, divisor: &U192) -> (r: Option<U192>)
        ensures
            divisor@ != 0 ==> r.is_some() && r.unwrap()@ == self@ / divisor@,
            divisor@ == 0 ==> r.is_none(),
    {
        if divisor.is_zero() {
            None
        } else {
            let (quotient, _remainder) = self.div_rem(divisor);
            Some(quotient)
        }
    }

    /// The quotient rounded up, where the divisor is not zero.
    pub fn checked_div_up(&self, divisor: &U192) -> (r: Option<U192>)
        ensures
            divisor@ != 0 ==> r.is_some() && r.unwrap()@ == (self@ + divisor@ - 1) / divisor@,
            divisor@ == 0 ==> r.is_none(),
    {
        if divisor.is_zero() {
            None
        } else {
            let (quotient, remainder) = self.div_rem(divisor);
            proof {
                crate::math::fixed::lemma_floor_ceil(self@, divisor@);
            }
            if remainder.is_zero() {
                Some(quotient)
            } else {
                let one = U192::from_u64(1);
                proof {
                    // The quotient of a division by two or more is below the dividend.
                    assert(quotient@ + 1 <= self@) by (nonlinear_arith)
                        requires
                            self@ == quotient@ * divisor@ + remainder@,
                            0 < remainder@ < divisor@,
                            0 <= quotient@,
                    ;
                }
                quotient.checked_add(&one)
            }
        }
    }

    /// `self * factor / divisor`, rounded down, where the product fits the
    /// wide width and the divisor is not zero.
    pub fn checked_mul_div_down(&self, factor: &U192, divisor: &U192) -> (r: Option<U192>)
        ensures
            fits_wide(self@ * factor@) && divisor@ != 0 ==> r.is_some() && r.unwrap()@ == (self@
                * factor@) / divisor@,
            !fits_wide(self@ * factor@) || divisor@ == 0 ==> r.is_none(),
    {
        match self.checked_mul(factor) {
            None => None,
            Some(product) => product.checked_div(divisor),
        }
    }

    /// `self * factor / divisor`, rounded up, where the product fits the
    /// wide width and the divisor is not zero.
    pub fn checked_mul_div_up(&self, factor: &U192, divisor: &U192) -> (r: Option<U192>)
        ensures
            fits_wide(self@ * factor@) && divisor@ != 0 ==> r.is_some() && r.unwrap()@ == (self@
                * factor@ + divisor@ - 1) / divisor@,
            !fits_wide(self@ * factor@) || divisor@ == 0 ==> r.is_none(),
    {
        match self.checked_mul(factor) {
            None => None,
            Some(product) => product.checked_div_up(divisor),
        }
    }
}

/// Two to the power of 192, as a power of two.
pub proof fn pow2_192()
    ensures
        pow2(192) == wide_limit(),
        pow2(64) == limb_base(),
        pow2(128) == limb_base_squared(),
{
    lemma2_to64();
    lemma_pow2_adds(64, 64);
    lemma_pow2_adds(128, 64);
    assert(0x1_0000_0000_0000_0000int * 0x1_0000_0000_0000_0000int
        == 0x1_0000_0000_0000_0000_0000_0000_0000_0000int) by (nonlinear_arith);
    assert(0x1_0000_0000_0000_0000_0000_0000_0000_0000int * 0x1_0000_0000_0000_0000int
        == 0x1_0000_0000_0000_0000_0000_0000_0000_0000_0000_0000_0000_0000int)
        by (nonlinear_arith);
}

} // verus!
