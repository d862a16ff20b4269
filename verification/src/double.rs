//! A double-precision scalar carried by its bit pattern, with NaN
//! ruled out at construction.

use vstd::prelude::*;
use crate::error::Error;

verus! {

/// The bit pattern is a NaN: all exponent bits set and a non-zero
/// mantissa.
pub open spec fn is_nan_bits(b: u64) -> bool {
    &&& (b >> 52) & 0x7ff == 0x7ff
    &&& b & 0xf_ffff_ffff_ffff != 0
}

/// A double-precision value, stored as its IEEE 754 bit pattern; a NaN
/// pattern is rejected at construction.
#[derive(Debug, Clone, Copy, PartialEq, Eq, Hash)]
pub struct Double {
    bits: u64,
}

impl View for Double {
    type V = u64;

    closed spec fn view(&self) -> u64 {
        self.bits
    }
}

impl Double {
    /// Wrap a bit pattern; a NaN is refused.
    pub fn new(bits: u64) -> (r: Result<Double, Error>)
        ensures
            match r {
                Ok(d) => !is_nan_bits(bits) && d@ == bits,
                Err(e) => is_nan_bits(bits) && e == Error::FloatIsNaN,
            },
    {
        if (bits >> 52) & 0x7ff == 0x7ff && bits & 0xf_ffff_ffff_ffff != 0 {
            Err(Error::FloatIsNaN)
        } else {
            Ok(Double { bits })
        }
    }

    /// The stored bit pattern.
    pub fn bits(&self) -> (r: u64)
        ensures
            r == self@,
    {
        self.bits
    }
}

} // verus!
