//! The source of randomness.

use vstd::prelude::*;
use crate::scalar::Scalar;

verus! {

/// Draws an integer from `lo` up to, but not including, `hi`.
///
/// This calls `rand::random_range` on the half-open range `lo..hi`, which
/// samples the thread-local generator. Of the outcome the contract claims
/// only that it lies in the range; an empty range, on which the call
/// panics, is left out.
#[verifier::external_body]
fn random_raw(lo: i64, hi: i64) -> (r: i64)
    requires
        lo < hi,
    ensures
        lo <= r < hi,
{
    rand::random_range(lo..hi)
}

/// Draws a scalar from `lo` up to, but not including, `hi`, each raw value
/// in the range being as likely as any other.
pub fn random_scalar(lo: Scalar, hi: Scalar) -> (r: Scalar)
    requires
        lo.raw < hi.raw,
    ensures
        lo.raw <= r.raw < hi.raw,
{
    Scalar { raw: random_raw(lo.raw, hi.raw) }
}

} // verus!
