//! Lane-wise operations on batches of `SIMD_WIDTH` scalars.

use simba::simd::{AutoBoolx4, AutoI64x4, SimdBool, SimdPartialOrd, SimdValue};
use vstd::prelude::*;

use crate::math::Real;

verus! {

/// Number of sibling bounding volumes that one node of a hierarchy packs, and
/// that one visit scores together.
pub const SIMD_WIDTH: usize = 4;

/// Whether the bit of `lane` is set in `bits`.
pub open spec fn lane_bit(bits: u64, lane: int) -> bool {
    bits & (1u64 << (lane as u64)) != 0
}

/// Whether the bit of `lane` is set in `bits`.
pub fn lane_is_set(bits: u64, lane: usize) -> (b: bool)
    requires
        lane < SIMD_WIDTH,
    ensures
        b == lane_bit(bits, lane as int),
{
    (bits & (1u64 << (lane as u64))) != 0
}

/// `simba::simd::SimdValue::splat` on four `i64` lanes: every lane of the
/// batch holds `val`.
#[verifier::external_body]
pub(crate) fn simd_splat(val: Real) -> (r: [Real; 4])
    ensures
        forall|i: int| 0 <= i < 4 ==> r[i] == val,
{
    AutoI64x4::splat(val).0
}

/// `simba::simd::SimdPartialOrd::simd_lt` on four `i64` lanes: each lane of
/// the result tells whether that lane of `a` is less than that lane of `b`.
#[verifier::external_body]
pub(crate) fn simd_lt(a: &[Real; 4], b: &[Real; 4]) -> (r: [bool; 4])
    ensures
        forall|i: int| 0 <= i < 4 ==> r[i] == (a[i] < b[i]),
{
    AutoI64x4::from(*a).simd_lt(AutoI64x4::from(*b)).0
}

/// `simba::simd::SimdBool::bitmask` on four lanes: bit `i` of the result, for
/// `i` below four, is set exactly when lane `i` holds `true`, and no higher
/// bit is set.
#[verifier::external_body]
pub(crate) fn simd_bitmask(mask: &[bool; 4]) -> (bits: u64)
    ensures
        forall|i: int| 0 <= i < 4 ==> lane_bit(bits, i) == mask[i],
        bits < 16,
{
    AutoBoolx4::from(*mask).bitmask()
}

} // verus!
