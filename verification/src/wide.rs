//! Unsigned integers of up to 256 bits.
//!
//! The areas that are compared during selection are products of a 128-bit sum
//! and a 64-bit difference, which outgrow every built-in integer type. They are
//! held here as two halves of 128 bits each.

use vstd::prelude::*;

verus! {

/// An unsigned integer held as two halves: `hi * 2^128 + lo`.
#[derive(Debug, Clone, Copy)]
pub struct Wide {
    pub hi: u128,
    pub lo: u128,
}

impl View for Wide {
    type V = int;

    open spec fn view(&self) -> int {
        self.hi * 0x1_0000_0000_0000_0000_0000_0000_0000_0000int + self.lo
    }
}

impl Wide {
    /// The product of `a` and `b`, which always fits.
    pub fn product(a: u128, b: u64) -> (r: Wide)
        ensures
            r@ == a * b,
            r.hi <= 0x1_0000_0000_0000_0000,
    {
        let a_hi: u128 = a / 0x1_0000_0000_0000_0000u128;
        let a_lo: u128 = a % 0x1_0000_0000_0000_0000u128;
        let b_wide: u128 = b as u128;
        proof {
            assert(0 <= a_hi * b_wide <= 0xFFFF_FFFF_FFFF_FFFF * 0xFFFF_FFFF_FFFF_FFFF)
                by (nonlinear_arith)
                requires
                    0 <= a_hi <= 0xFFFF_FFFF_FFFF_FFFF,
                    0 <= b_wide <= 0xFFFF_FFFF_FFFF_FFFF,
            ;
            assert(0 <= a_lo * b_wide <= 0xFFFF_FFFF_FFFF_FFFF * 0xFFFF_FFFF_FFFF_FFFF)
                by (nonlinear_arith)
                requires
                    0 <= a_lo <= 0xFFFF_FFFF_FFFF_FFFF,
                    0 <= b_wide <= 0xFFFF_FFFF_FFFF_FFFF,
            ;
            assert(a * b == (a_hi * b_wide) * 0x1_0000_0000_0000_0000 + a_lo * b_wide)
                by (nonlinear_arith)
                requires
                    a == a_hi * 0x1_0000_0000_0000_0000 + a_lo,
                    b == b_wide,
            ;
        }
        let upper: u128 = a_hi * b_wide;
        let lower: u128 = a_lo * b_wide;
        let upper_hi: u128 = upper / 0x1_0000_0000_0000_0000u128;
        let upper_lo: u128 = upper % 0x1_0000_0000_0000_0000u128;
        let middle: u128 = upper_lo * 0x1_0000_0000_0000_0000u128;
        if lower > u128::MAX - middle {
            Wide { hi: upper_hi + 1, lo: lower - (u128::MAX - middle) - 1 }
        } else {
            Wide { hi: upper_hi, lo: middle + lower }
        }
    }

    /// The sum of two values whose upper halves leave room for a carry.
    pub fn sum(self, other: Wide) -> (r: Wide)
        requires
            self.hi + other.hi < u128::MAX,
        ensures
            r@ == self@ + other@,
    {
        if other.lo > u128::MAX - self.lo {
            Wide { hi: self.hi + other.hi + 1, lo: other.lo - (u128::MAX - self.lo) - 1 }
        } else {
            Wide { hi: self.hi + other.hi, lo: self.lo + other.lo }
        }
    }

    /// Whether `self` is strictly greater than `other`.
    pub fn exceeds(self, other: Wide) -> (b: bool)
        ensures
            b == (self@ > other@),
    {
        self.hi > other.hi || (self.hi == other.hi && self.lo > other.lo)
    }

    /// The distance between two values: the greater less the smaller.
    pub fn distance(self, other: Wide) -> (r: Wide)
        ensures
            r@ == if self@ >= other@ {
                self@ - other@
            } else {
                other@ - self@
            },
    {
        if other.exceeds(self) {
            other.less(self)
        } else {
            self.less(other)
        }
    }

    /// `self - other`, where `other` is not the greater.
    fn less(self, other: Wide) -> (r: Wide)
        requires
            self@ >= other@,
        ensures
            r@ == self@ - other@,
    {
        if self.lo >= other.lo {
            Wide { hi: self.hi - other.hi, lo: self.lo - other.lo }
        } else {
            Wide { hi: self.hi - other.hi - 1, lo: u128::MAX - other.lo + self.lo + 1 }
        }
    }
}

} // verus!
