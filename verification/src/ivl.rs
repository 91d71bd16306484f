//! The closed-interval primitive and the bound conventions.
//!
//! Bounds live in `[BOUND_MIN, BOUND_MAX]`, one step inside the full `i32`
//! range.  The two extremes act as saturating sentinels for minus and plus
//! infinity: the whole representable domain then holds `u32::MAX` values, so
//! a cached cardinality of type `u32` can never overflow.

use vstd::prelude::*;

verus! {

/// Smallest admissible bound; the sentinel standing in for minus infinity.
pub const BOUND_MIN: i32 = -2147483647;

/// Largest admissible bound; the sentinel standing in for plus infinity.
pub const BOUND_MAX: i32 = 2147483647;

/// A non-empty closed interval `[lo, hi]` of `i32` values.
#[derive(Clone, Copy, PartialEq, Eq, Structural, Debug)]
#[verifier::ext_equal]
pub struct Ivl {
    pub lo: i32,
    pub hi: i32,
}

/// A well-formed interval: non-empty, with both bounds inside the sentinel
/// range.
pub open spec fn ivl_wf(iv: Ivl) -> bool {
    BOUND_MIN <= iv.lo && iv.lo <= iv.hi && iv.hi <= BOUND_MAX
}

/// Whether the value `v` lies inside the interval.
pub open spec fn ivl_has(iv: Ivl, v: int) -> bool {
    iv.lo as int <= v && v <= iv.hi as int
}

/// The number of values the interval holds.
pub open spec fn ivl_count(iv: Ivl) -> int {
    iv.hi as int - iv.lo as int + 1
}

} // verus!
