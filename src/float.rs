//! A totally ordered 64-bit float, held as its IEEE-754 bit pattern.
use std::cmp::Ordering;
use vstd::prelude::*;

verus! {

/// Mask of the exponent field of an IEEE-754 double.
pub const EXP_MASK: u64 = 0x7FF0_0000_0000_0000;

/// Mask of the fraction field of an IEEE-754 double.
pub const FRAC_MASK: u64 = 0x000F_FFFF_FFFF_FFFF;

/// Mask of everything but the sign bit.
pub const MAG_MASK: u64 = 0x7FFF_FFFF_FFFF_FFFF;

/// The single bit pattern that every NaN is collapsed to when encoded.
pub const CANONICAL_NAN: u64 = 0x7FF8_0000_0000_0000;

/// Whether a bit pattern is a NaN: all exponent bits set and a nonzero fraction.
pub open spec fn is_nan_bits(b: u64) -> bool {
    (b & EXP_MASK) == EXP_MASK && (b & FRAC_MASK) != 0
}

/// The position of a non-NaN value on the number line, as an integer:
/// the magnitude bits, negated when the sign bit is set (so both zeros are 0).
pub open spec fn order_key(b: u64) -> int {
    if b >> 63u64 == 1 {
        -((b & MAG_MASK) as int)
    } else {
        (b & MAG_MASK) as int
    }
}

/// Three-way comparison of two integers.
pub open spec fn compare_int(a: int, b: int) -> Ordering {
    if a < b {
        Ordering::Less
    } else if a == b {
        Ordering::Equal
    } else {
        Ordering::Greater
    }
}

/// A 64-bit float whose NaNs are all equal to each other and below every other value.
#[derive(Clone, Copy, Debug)]
pub struct CmpFloat {
    pub bits: u64,
}

impl CmpFloat {
    pub open spec fn is_nan(self) -> bool {
        is_nan_bits(self.bits)
    }

    /// The order the type promises: NaN equals NaN, NaN is below everything else,
    /// and other values compare as numbers.
    pub open spec fn compare_spec(self, other: CmpFloat) -> Ordering {
        if self.is_nan() && other.is_nan() {
            Ordering::Equal
        } else if self.is_nan() {
            Ordering::Less
        } else if other.is_nan() {
            Ordering::Greater
        } else {
            compare_int(order_key(self.bits), order_key(other.bits))
        }
    }

    pub open spec fn equal_spec(self, other: CmpFloat) -> bool {
        self.compare_spec(other) == Ordering::Equal
    }

    /// The bits written when this value is encoded: every NaN becomes one pattern.
    pub open spec fn canonical_bits(self) -> u64 {
        if self.is_nan() {
            CANONICAL_NAN
        } else {
            self.bits
        }
    }

    /// Makes a value from an IEEE-754 bit pattern.
    pub fn from_bits(bits: u64) -> (r: CmpFloat)
        ensures
            r.bits == bits,
    {
        CmpFloat { bits }
    }

    pub fn is_nan_exec(&self) -> (r: bool)
        ensures
            r == self.is_nan(),
    {
        (self.bits & EXP_MASK) == EXP_MASK && (self.bits & FRAC_MASK) != 0
    }

    fn order_key_exec(&self) -> (r: i128)
        ensures
            r as int == order_key(self.bits),
    {
        let mag = self.bits & MAG_MASK;
        if self.bits >> 63u64 == 1 {
            -(mag as i128)
        } else {
            mag as i128
        }
    }

    /// Total-order comparison.
    pub fn cmp(&self, other: &CmpFloat) -> (r: Ordering)
        ensures
            r == self.compare_spec(*other),
    {
        let a = self.is_nan_exec();
        let b = other.is_nan_exec();
        if a && b {
            Ordering::Equal
        } else if a {
            Ordering::Less
        } else if b {
            Ordering::Greater
        } else {
            let x = self.order_key_exec();
            let y = other.order_key_exec();
            if x < y {
                Ordering::Less
            } else if x == y {
                Ordering::Equal
            } else {
                Ordering::Greater
            }
        }
    }

    /// The bits that the canonical encoding writes for this value.
    pub fn canonical_bits_exec(&self) -> (r: u64)
        ensures
            r == self.canonical_bits(),
    {
        if self.is_nan_exec() {
            CANONICAL_NAN
        } else {
            self.bits
        }
    }
}

impl PartialEq for CmpFloat {
    fn eq(&self, other: &CmpFloat) -> (r: bool)
        ensures
            r == self.equal_spec(*other),
    {
        match self.cmp(other) {
            Ordering::Equal => true,
            _ => false,
        }
    }
}

impl vstd::std_specs::cmp::PartialEqSpecImpl for CmpFloat {
    open spec fn obeys_eq_spec() -> bool {
        true
    }

    open spec fn eq_spec(&self, other: &CmpFloat) -> bool {
        self.equal_spec(*other)
    }
}

impl Eq for CmpFloat {}

/// Every NaN equals every other NaN, and any NaN sorts below every value that is not NaN.
pub proof fn lemma_nan_order(a: CmpFloat, b: CmpFloat, c: CmpFloat)
    requires
        a.is_nan(),
        b.is_nan(),
        !c.is_nan(),
    ensures
        a.equal_spec(b),
        a.compare_spec(b) == Ordering::Equal,
        a.compare_spec(c) == Ordering::Less,
        c.compare_spec(a) == Ordering::Greater,
        !a.equal_spec(c),
{
}

} // verus!
