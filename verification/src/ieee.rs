//! Comparison of IEEE-754 binary64 numbers held by their bit patterns, as
//! `f64`'s `==` and `partial_cmp` compare them.
use std::cmp::Ordering;
use vstd::prelude::*;

verus! {

/// The bits of the magnitude (everything but the sign bit).
pub open spec fn magnitude(b: u64) -> u64 {
    b & 0x7fff_ffff_ffff_ffffu64
}

/// The sign bit is set.
pub open spec fn is_negative(b: u64) -> bool {
    b & 0x8000_0000_0000_0000u64 != 0
}

/// The exponent bits are all set and the fraction is not zero.
pub open spec fn is_nan(b: u64) -> bool {
    &&& b & 0x7ff0_0000_0000_0000u64 == 0x7ff0_0000_0000_0000u64
    &&& b & 0x000f_ffff_ffff_ffffu64 != 0
}

/// For a number that is not NaN, an integer that orders numbers as their
/// values do: both zeros have rank 0, and the magnitude bits of a double grow
/// with its absolute value.
pub open spec fn rank(b: u64) -> int {
    if is_negative(b) {
        -(magnitude(b) as int)
    } else {
        magnitude(b) as int
    }
}

/// `f64`'s `==`: false when either side is NaN, and `0.0 == -0.0`.
pub open spec fn float_eq(a: u64, b: u64) -> bool {
    !is_nan(a) && !is_nan(b) && rank(a) == rank(b)
}

/// `f64`'s `partial_cmp`: `None` when either side is NaN.
pub open spec fn float_order(a: u64, b: u64) -> Option<Ordering> {
    if is_nan(a) || is_nan(b) {
        None
    } else if rank(a) < rank(b) {
        Some(Ordering::Less)
    } else if rank(a) == rank(b) {
        Some(Ordering::Equal)
    } else {
        Some(Ordering::Greater)
    }
}

pub(crate) proof fn lemma_bits_split(a: u64, b: u64)
    ensures
        a == b <==> (is_negative(a) == is_negative(b) && magnitude(a) == magnitude(b)),
{
    assert(a == b <==> ((a & 0x8000_0000_0000_0000u64 != 0) == (b & 0x8000_0000_0000_0000u64 != 0)
        && a & 0x7fff_ffff_ffff_ffffu64 == b & 0x7fff_ffff_ffff_ffffu64)) by (bit_vector);
}

/// Whether `b` is the bit pattern of a NaN.
pub fn bits_is_nan(b: u64) -> (r: bool)
    ensures
        r == is_nan(b),
{
    b & 0x7ff0_0000_0000_0000u64 == 0x7ff0_0000_0000_0000u64 && b & 0x000f_ffff_ffff_ffffu64 != 0
}

/// `f64`'s `==` on bit patterns.
pub fn bits_eq(a: u64, b: u64) -> (r: bool)
    ensures
        r == float_eq(a, b),
{
    proof {
        lemma_bits_split(a, b);
    }
    if bits_is_nan(a) || bits_is_nan(b) {
        false
    } else {
        a == b || (a & 0x7fff_ffff_ffff_ffffu64 == 0 && b & 0x7fff_ffff_ffff_ffffu64 == 0)
    }
}

/// `f64`'s `partial_cmp` on bit patterns.
pub fn bits_partial_cmp(a: u64, b: u64) -> (r: Option<Ordering>)
    ensures
        r == float_order(a, b),
{
    if bits_is_nan(a) || bits_is_nan(b) {
        return None;
    }
    let ma = a & 0x7fff_ffff_ffff_ffffu64;
    let mb = b & 0x7fff_ffff_ffff_ffffu64;
    let na = a & 0x8000_0000_0000_0000u64 != 0;
    let nb = b & 0x8000_0000_0000_0000u64 != 0;
    if ma == 0 && mb == 0 {
        Some(Ordering::Equal)
    } else if !na && !nb {
        if ma < mb {
            Some(Ordering::Less)
        } else if ma == mb {
            Some(Ordering::Equal)
        } else {
            Some(Ordering::Greater)
        }
    } else if na && nb {
        if mb < ma {
            Some(Ordering::Less)
        } else if ma == mb {
            Some(Ordering::Equal)
        } else {
            Some(Ordering::Greater)
        }
    } else if na {
        Some(Ordering::Less)
    } else {
        Some(Ordering::Greater)
    }
}

} // verus!
