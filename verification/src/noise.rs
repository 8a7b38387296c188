//! The standard deviation of the noise. The noise itself is drawn outside
//! this library, which holds no floating-point number: a standard deviation
//! comes in as the bit pattern of its IEEE 754 double.

use vstd::prelude::*;
use crate::errors::NoiseError;

verus! {

/// The bit pattern of positive infinity. The patterns of the positive
/// finite doubles are the numbers between 0 and this one.
pub const INFINITY_BITS: u64 = 0x7ff0_0000_0000_0000;

/// The double with this bit pattern is positive and finite: it is neither a
/// zero, nor negative, nor an infinity, nor a NaN.
pub open spec fn is_positive_finite(bits: u64) -> bool {
    0 < bits < INFINITY_BITS
}

/// Accepts the standard deviations that noise can be drawn with: the
/// positive, finite ones.
pub fn check_standard_deviation(bits: u64) -> (out: Result<(), NoiseError>)
    ensures
        out is Ok <==> is_positive_finite(bits),
        out matches Err(e) ==> e == NoiseError::InvalidStdDev,
{
    if bits == 0 || bits >= INFINITY_BITS {
        Err(NoiseError::InvalidStdDev)
    } else {
        Ok(())
    }
}

} // verus!
