//! Planar coordinates.
//!
//! An ordinate is kept as the bit pattern of an IEEE-754 binary64 number, so that
//! coordinates travel through the library exactly as they were read, and two
//! coordinates compare the way binary64 numbers compare: `NaN` equals nothing and
//! `+0.0` equals `-0.0`.
use vstd::prelude::*;

verus! {

/// Mask of the exponent field of a binary64 bit pattern.
pub const EXPONENT_MASK: u64 = 0x7ff0_0000_0000_0000u64;

/// Mask of the fraction field of a binary64 bit pattern.
pub const FRACTION_MASK: u64 = 0x000f_ffff_ffff_ffffu64;

/// Mask of everything but the sign bit of a binary64 bit pattern.
pub const MAGNITUDE_MASK: u64 = 0x7fff_ffff_ffff_ffffu64;

/// The bit pattern encodes a NaN: all exponent bits set and a non-zero fraction.
pub open spec fn f64_is_nan(b: u64) -> bool {
    (b & EXPONENT_MASK) == EXPONENT_MASK && (b & FRACTION_MASK) != 0
}

/// The bit pattern encodes `+0.0` or `-0.0`.
pub open spec fn f64_is_zero(b: u64) -> bool {
    (b & MAGNITUDE_MASK) == 0
}

/// Equality of two binary64 numbers given by their bit patterns, as IEEE-754 defines it.
pub open spec fn f64_eq(a: u64, b: u64) -> bool {
    &&& !f64_is_nan(a)
    &&& !f64_is_nan(b)
    &&& (a == b || (f64_is_zero(a) && f64_is_zero(b)))
}

/// Compares two binary64 numbers given by their bit patterns.
pub fn f64_bits_eq(a: u64, b: u64) -> (r: bool)
    ensures
        r == f64_eq(a, b),
{
    let a_nan = (a & EXPONENT_MASK) == EXPONENT_MASK && (a & FRACTION_MASK) != 0;
    let b_nan = (b & EXPONENT_MASK) == EXPONENT_MASK && (b & FRACTION_MASK) != 0;
    if a_nan || b_nan {
        false
    } else {
        a == b || ((a & MAGNITUDE_MASK) == 0 && (b & MAGNITUDE_MASK) == 0)
    }
}

/// A point of the plane; `x_bits` and `y_bits` are the binary64 bit patterns of `x` and `y`.
#[derive(Debug, Clone, Copy)]
pub struct Coord {
    pub x_bits: u64,
    pub y_bits: u64,
}

/// Two coordinates are the same point when both ordinates compare equal.
pub open spec fn coord_eq(a: Coord, b: Coord) -> bool {
    f64_eq(a.x_bits, b.x_bits) && f64_eq(a.y_bits, b.y_bits)
}

impl PartialEq for Coord {
    fn eq(&self, other: &Coord) -> (r: bool) {
        f64_bits_eq(self.x_bits, other.x_bits) && f64_bits_eq(self.y_bits, other.y_bits)
    }
}

impl vstd::std_specs::cmp::PartialEqSpecImpl for Coord {
    open spec fn obeys_eq_spec() -> bool {
        true
    }

    open spec fn eq_spec(&self, other: &Coord) -> bool {
        coord_eq(*self, *other)
    }
}

} // verus!
