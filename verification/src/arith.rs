//! The arithmetic extension: elementwise addition, subtraction and
//! multiplication, by cross product of the operands' intervals, and the
//! scalar variants.
//!
//! Addition and subtraction of two intervals are exact: every value of the
//! result interval is a sum (difference) of members.  Multiplication is an
//! over-approximation, as in the underlying single-interval convention: each
//! pair contributes the convex hull of its corner products.

use vstd::prelude::*;

use crate::canon::in_seq;
use crate::canon::lemma_in_take_full;
use crate::canon::lemma_in_take_succ;
use crate::ivl::BOUND_MAX;
use crate::ivl::BOUND_MIN;
use crate::ivl::Ivl;
use crate::ivl::ivl_has;
use crate::ivl::ivl_wf;
use crate::set::IntervalSet;

verus! {

/// The smaller of two integers.
pub open spec fn imin(a: int, b: int) -> int {
    if a <= b {
        a
    } else {
        b
    }
}

/// The larger of two integers.
pub open spec fn imax(a: int, b: int) -> int {
    if a >= b {
        a
    } else {
        b
    }
}

/// The convex span of a non-empty canonical sequence, from its lowest to
/// its highest value.
pub open spec fn span_of(s: Seq<Ivl>) -> Ivl
    recommends
        s.len() > 0,
{
    Ivl { lo: s[0].lo, hi: s.last().hi }
}

/// The smallest corner product of two intervals.
pub open spec fn mul_lo(x: Ivl, y: Ivl) -> int {
    imin(
        imin(x.lo as int * y.lo as int, x.lo as int * y.hi as int),
        imin(x.hi as int * y.lo as int, x.hi as int * y.hi as int),
    )
}

/// The largest corner product of two intervals.
pub open spec fn mul_hi(x: Ivl, y: Ivl) -> int {
    imax(
        imax(x.lo as int * y.lo as int, x.lo as int * y.hi as int),
        imax(x.hi as int * y.lo as int, x.hi as int * y.hi as int),
    )
}

/// Whether `v` is the sum of a value of `x` and a value of `y`.
pub open spec fn pair_sum(x: Ivl, y: Ivl, v: int) -> bool {
    exists|p: int, q: int|
        #![trigger ivl_has(x, p), ivl_has(y, q)]
        ivl_has(x, p) && ivl_has(y, q) && v == p + q
}

/// Whether `v` is a value of `x` minus a value of `y`.
pub open spec fn pair_diff(x: Ivl, y: Ivl, v: int) -> bool {
    exists|p: int, q: int|
        #![trigger ivl_has(x, p), ivl_has(y, q)]
        ivl_has(x, p) && ivl_has(y, q) && v == p - q
}

/// Whether `v` lies in the corner-product hull of `x` and `y`.
pub open spec fn pair_mul(x: Ivl, y: Ivl, v: int) -> bool {
    mul_lo(x, y) <= v && v <= mul_hi(x, y)
}

/// Whether `v` is the sum of a value of `x` and a value covered by `b`.
pub open spec fn sum_one(x: Ivl, b: Seq<Ivl>, v: int) -> bool {
    exists|j: int| 0 <= j < b.len() && pair_sum(x, #[trigger] b[j], v)
}

/// Whether `v` is a value of `x` minus a value covered by `b`.
pub open spec fn diff_one(x: Ivl, b: Seq<Ivl>, v: int) -> bool {
    exists|j: int| 0 <= j < b.len() && pair_diff(x, #[trigger] b[j], v)
}

/// Whether `v` lies in the corner-product hull of `x` and some interval
/// of `b`.
pub open spec fn mul_one(x: Ivl, b: Seq<Ivl>, v: int) -> bool {
    exists|j: int| 0 <= j < b.len() && pair_mul(x, #[trigger] b[j], v)
}

/// Whether `v` is a sum of a value of `a` and a value of `b`.
pub open spec fn sum_covered(a: Seq<Ivl>, b: Seq<Ivl>, v: int) -> bool {
    exists|i: int| 0 <= i < a.len() && sum_one(#[trigger] a[i], b, v)
}

/// Whether `v` is a value of `a` minus a value of `b`.
pub open spec fn diff_covered(a: Seq<Ivl>, b: Seq<Ivl>, v: int) -> bool {
    exists|i: int| 0 <= i < a.len() && diff_one(#[trigger] a[i], b, v)
}

/// Whether `v` lies in the corner-product hull of some pair of intervals,
/// one from each sequence.
pub open spec fn mul_covered(a: Seq<Ivl>, b: Seq<Ivl>, v: int) -> bool {
    exists|i: int| 0 <= i < a.len() && mul_one(#[trigger] a[i], b, v)
}

/// A sum of covered values is a covered sum.
pub proof fn lemma_sum_witness(a: Seq<Ivl>, b: Seq<Ivl>, p: int, q: int)
    requires
        in_seq(a, p),
        in_seq(b, q),
    ensures
        sum_covered(a, b, p + q),
{
    let i = choose|i: int| 0 <= i < a.len() && ivl_has(#[trigger] a[i], p);
    let j = choose|j: int| 0 <= j < b.len() && ivl_has(#[trigger] b[j], q);
    assert(ivl_has(a[i], p) && ivl_has(b[j], q) && p + q == p + q);
    assert(pair_sum(a[i], b[j], p + q));
    assert(sum_one(a[i], b, p + q));
}

/// A difference of covered values is a covered difference.
pub proof fn lemma_diff_witness(a: Seq<Ivl>, b: Seq<Ivl>, p: int, q: int)
    requires
        in_seq(a, p),
        in_seq(b, q),
    ensures
        diff_covered(a, b, p - q),
{
    let i = choose|i: int| 0 <= i < a.len() && ivl_has(#[trigger] a[i], p);
    let j = choose|j: int| 0 <= j < b.len() && ivl_has(#[trigger] b[j], q);
    assert(ivl_has(a[i], p) && ivl_has(b[j], q));
    assert(pair_diff(a[i], b[j], p - q));
    assert(diff_one(a[i], b, p - q));
}

/// A product of covered values lies in a covered product hull.
pub proof fn lemma_mul_witness(a: Seq<Ivl>, b: Seq<Ivl>, p: int, q: int)
    requires
        in_seq(a, p),
        in_seq(b, q),
    ensures
        mul_covered(a, b, p * q),
{
    let i = choose|i: int| 0 <= i < a.len() && ivl_has(#[trigger] a[i], p);
    let j = choose|j: int| 0 <= j < b.len() && ivl_has(#[trigger] b[j], q);
    lemma_prod_in_hull(a[i], b[j], p, q);
    assert(pair_mul(a[i], b[j], p * q));
    assert(mul_one(a[i], b, p * q));
}

/// Whether `v` lies in the hull of some interval of `s` scaled by `k`.
pub open spec fn scale_covered(s: Seq<Ivl>, k: int, v: int) -> bool {
    exists|i: int|
        0 <= i < s.len() && imin((#[trigger] s[i]).lo as int * k, s[i].hi as int * k) <= v && v
            <= imax(s[i].lo as int * k, s[i].hi as int * k)
}

/// A product of box members lies between the box's corner products.
pub proof fn lemma_prod_corners(xlo: int, xhi: int, ylo: int, yhi: int, p: int, q: int)
    by (nonlinear_arith)
    requires
        xlo <= p <= xhi,
        ylo <= q <= yhi,
    ensures
        p * q >= xlo * ylo || p * q >= xlo * yhi || p * q >= xhi * ylo || p * q >= xhi * yhi,
        p * q <= xlo * ylo || p * q <= xlo * yhi || p * q <= xhi * ylo || p * q <= xhi * yhi,
{
}

/// A product of members of two intervals lies in their corner-product
/// hull.
pub proof fn lemma_prod_in_hull(x: Ivl, y: Ivl, p: int, q: int)
    requires
        ivl_has(x, p),
        ivl_has(y, q),
    ensures
        mul_lo(x, y) <= p * q <= mul_hi(x, y),
{
    lemma_prod_corners(x.lo as int, x.hi as int, y.lo as int, y.hi as int, p, q);
}

/// Exact interval addition: the sums of members of `x` and `y` form
/// exactly the interval from `x.lo + y.lo` to `x.hi + y.hi`.
fn ivl_add(x: Ivl, y: Ivl) -> (r: Ivl)
    requires
        ivl_wf(x),
        ivl_wf(y),
        BOUND_MIN <= x.lo as int + y.lo as int,
        x.hi as int + y.hi as int <= BOUND_MAX,
    ensures
        ivl_wf(r),
        forall|v: int| #[trigger] ivl_has(r, v) <==> pair_sum(x, y, v),
{
    let r = Ivl { lo: x.lo + y.lo, hi: x.hi + y.hi };
    proof {
        assert forall|v: int| #[trigger] ivl_has(r, v) implies pair_sum(x, y, v) by {
            let p: int = if x.lo as int >= v - y.hi as int {
                x.lo as int
            } else {
                v - y.hi as int
            };
            let q: int = v - p;
            assert(ivl_has(x, p) && ivl_has(y, q) && v == p + q);
        }
    }
    r
}

/// Exact interval subtraction: the differences of members form exactly
/// the interval from `x.lo - y.hi` to `x.hi - y.lo`.
fn ivl_sub(x: Ivl, y: Ivl) -> (r: Ivl)
    requires
        ivl_wf(x),
        ivl_wf(y),
        BOUND_MIN <= x.lo as int - y.hi as int,
        x.hi as int - y.lo as int <= BOUND_MAX,
    ensures
        ivl_wf(r),
        forall|v: int| #[trigger] ivl_has(r, v) <==> pair_diff(x, y, v),
{
    let r = Ivl { lo: x.lo - y.hi, hi: x.hi - y.lo };
    proof {
        assert forall|v: int| #[trigger] ivl_has(r, v) implies pair_diff(x, y, v) by {
            let p: int = if x.hi as int <= v + y.hi as int {
                x.hi as int
            } else {
                v + y.hi as int
            };
            let q: int = p - v;
            assert(ivl_has(x, p) && ivl_has(y, q) && v == p - q);
        }
    }
    r
}

/// Interval multiplication: the convex hull of the four corner products.
fn ivl_mul(x: Ivl, y: Ivl) -> (r: Ivl)
    requires
        ivl_wf(x),
        ivl_wf(y),
        BOUND_MIN <= mul_lo(x, y),
        mul_hi(x, y) <= BOUND_MAX,
    ensures
        ivl_wf(r),
        r.lo as int == mul_lo(x, y),
        r.hi as int == mul_hi(x, y),
        forall|v: int| #[trigger] ivl_has(r, v) <==> pair_mul(x, y, v),
{
    let c1 = (x.lo as i64) * (y.lo as i64);
    let c2 = (x.lo as i64) * (y.hi as i64);
    let c3 = (x.hi as i64) * (y.lo as i64);
    let c4 = (x.hi as i64) * (y.hi as i64);
    let mut lo = c1;
    if c2 < lo {
        lo = c2;
    }
    if c3 < lo {
        lo = c3;
    }
    if c4 < lo {
        lo = c4;
    }
    let mut hi = c1;
    if c2 > hi {
        hi = c2;
    }
    if c3 > hi {
        hi = c3;
    }
    if c4 > hi {
        hi = c4;
    }
    proof {
        assert(lo as int == mul_lo(x, y));
        assert(hi as int == mul_hi(x, y));
    }
    Ivl { lo: lo as i32, hi: hi as i32 }
}

/// Accumulates one interval into a result set by union.
fn accumulate(r: IntervalSet, e: Ivl) -> (r2: IntervalSet)
    requires
        r.wf(),
        ivl_wf(e),
    ensures
        r2.wf(),
        forall|v: int| #[trigger] r2.contains_val(v) <==> r.contains_val(v) || ivl_has(e, v),
{
    let single = IntervalSet::from_interval(e);
    r.union(&single)
}

/// Splitting a one-interval-longer prefix of the second operand.
proof fn lemma_sum_one_take(x: Ivl, b: Seq<Ivl>, j: int)
    requires
        0 <= j < b.len(),
    ensures
        forall|v: int|
            #![trigger sum_one(x, b.take(j + 1), v)]
            #![trigger sum_one(x, b.take(j), v)]
            sum_one(x, b.take(j + 1), v) <==> sum_one(x, b.take(j), v) || pair_sum(x, b[j], v),
{
    assert forall|v: int|
        sum_one(x, b.take(j + 1), v) <==> sum_one(x, b.take(j), v) || pair_sum(x, b[j], v) by {
        if sum_one(x, b.take(j + 1), v) {
            let k = choose|k: int| 0 <= k < b.take(j + 1).len() && pair_sum(x, #[trigger] b.take(j + 1)[k], v);
            if k < j {
                assert(b.take(j)[k] == b[k] && b.take(j + 1)[k] == b[k]);
                assert(pair_sum(x, b.take(j)[k], v));
            } else {
                assert(b.take(j + 1)[k] == b[j]);
            }
        }
        if sum_one(x, b.take(j), v) {
            let k = choose|k: int| 0 <= k < b.take(j).len() && pair_sum(x, #[trigger] b.take(j)[k], v);
            assert(b.take(j + 1)[k] == b.take(j)[k]);
            assert(pair_sum(x, b.take(j + 1)[k], v));
        }
        if pair_sum(x, b[j], v) {
            assert(b.take(j + 1)[j] == b[j]);
            assert(pair_sum(x, b.take(j + 1)[j], v));
        }
    }
}

/// Splitting a one-interval-longer prefix of the first operand.
proof fn lemma_sum_take(a: Seq<Ivl>, b: Seq<Ivl>, i: int)
    requires
        0 <= i < a.len(),
    ensures
        forall|v: int|
            #![trigger sum_covered(a.take(i + 1), b, v)]
            #![trigger sum_covered(a.take(i), b, v)]
            sum_covered(a.take(i + 1), b, v) <==> sum_covered(a.take(i), b, v) || sum_one(
                a[i],
                b,
                v,
            ),
{
    assert forall|v: int|
        sum_covered(a.take(i + 1), b, v) <==> sum_covered(a.take(i), b, v) || sum_one(
            a[i],
            b,
            v,
        ) by {
        if sum_covered(a.take(i + 1), b, v) {
            let k = choose|k: int| 0 <= k < a.take(i + 1).len() && sum_one(#[trigger] a.take(i + 1)[k], b, v);
            if k < i {
                assert(a.take(i)[k] == a[k] && a.take(i + 1)[k] == a[k]);
                assert(sum_one(a.take(i)[k], b, v));
            } else {
                assert(a.take(i + 1)[k] == a[i]);
            }
        }
        if sum_covered(a.take(i), b, v) {
            let k = choose|k: int| 0 <= k < a.take(i).len() && sum_one(#[trigger] a.take(i)[k], b, v);
            assert(a.take(i + 1)[k] == a.take(i)[k]);
            assert(sum_one(a.take(i + 1)[k], b, v));
        }
        if sum_one(a[i], b, v) {
            assert(a.take(i + 1)[i] == a[i]);
            assert(sum_one(a.take(i + 1)[i], b, v));
        }
    }
}

proof fn lemma_diff_one_take(x: Ivl, b: Seq<Ivl>, j: int)
    requires
        0 <= j < b.len(),
    ensures
        forall|v: int|
            #![trigger diff_one(x, b.take(j + 1), v)]
            #![trigger diff_one(x, b.take(j), v)]
            diff_one(x, b.take(j + 1), v) <==> diff_one(x, b.take(j), v) || pair_diff(x, b[j], v),
{
    assert forall|v: int|
        diff_one(x, b.take(j + 1), v) <==> diff_one(x, b.take(j), v) || pair_diff(x, b[j], v) by {
        if diff_one(x, b.take(j + 1), v) {
            let k = choose|k: int| 0 <= k < b.take(j + 1).len() && pair_diff(x, #[trigger] b.take(j + 1)[k], v);
            if k < j {
                assert(b.take(j)[k] == b[k] && b.take(j + 1)[k] == b[k]);
                assert(pair_diff(x, b.take(j)[k], v));
            } else {
                assert(b.take(j + 1)[k] == b[j]);
            }
        }
        if diff_one(x, b.take(j), v) {
            let k = choose|k: int| 0 <= k < b.take(j).len() && pair_diff(x, #[trigger] b.take(j)[k], v);
            assert(b.take(j + 1)[k] == b.take(j)[k]);
            assert(pair_diff(x, b.take(j + 1)[k], v));
        }
        if pair_diff(x, b[j], v) {
            assert(b.take(j + 1)[j] == b[j]);
            assert(pair_diff(x, b.take(j + 1)[j], v));
        }
    }
}

proof fn lemma_diff_take(a: Seq<Ivl>, b: Seq<Ivl>, i: int)
    requires
        0 <= i < a.len(),
    ensures
        forall|v: int|
            #![trigger diff_covered(a.take(i + 1), b, v)]
            #![trigger diff_covered(a.take(i), b, v)]
            diff_covered(a.take(i + 1), b, v) <==> diff_covered(a.take(i), b, v) || diff_one(
                a[i],
                b,
                v,
            ),
{
    assert forall|v: int|
        diff_covered(a.take(i + 1), b, v) <==> diff_covered(a.take(i), b, v) || diff_one(
            a[i],
            b,
            v,
        ) by {
        if diff_covered(a.take(i + 1), b, v) {
            let k = choose|k: int| 0 <= k < a.take(i + 1).len() && diff_one(#[trigger] a.take(i + 1)[k], b, v);
            if k < i {
                assert(a.take(i)[k] == a[k] && a.take(i + 1)[k] == a[k]);
                assert(diff_one(a.take(i)[k], b, v));
            } else {
                assert(a.take(i + 1)[k] == a[i]);
            }
        }
        if diff_covered(a.take(i), b, v) {
            let k = choose|k: int| 0 <= k < a.take(i).len() && diff_one(#[trigger] a.take(i)[k], b, v);
            assert(a.take(i + 1)[k] == a.take(i)[k]);
            assert(diff_one(a.take(i + 1)[k], b, v));
        }
        if diff_one(a[i], b, v) {
            assert(a.take(i + 1)[i] == a[i]);
            assert(diff_one(a.take(i + 1)[i], b, v));
        }
    }
}

proof fn lemma_mul_one_take(x: Ivl, b: Seq<Ivl>, j: int)
    requires
        0 <= j < b.len(),
    ensures
        forall|v: int|
            #![trigger mul_one(x, b.take(j + 1), v)]
            #![trigger mul_one(x, b.take(j), v)]
            mul_one(x, b.take(j + 1), v) <==> mul_one(x, b.take(j), v) || pair_mul(x, b[j], v),
{
    assert forall|v: int|
        mul_one(x, b.take(j + 1), v) <==> mul_one(x, b.take(j), v) || pair_mul(x, b[j], v) by {
        if mul_one(x, b.take(j + 1), v) {
            let k = choose|k: int| 0 <= k < b.take(j + 1).len() && pair_mul(x, #[trigger] b.take(j + 1)[k], v);
            if k < j {
                assert(b.take(j)[k] == b[k] && b.take(j + 1)[k] == b[k]);
                assert(pair_mul(x, b.take(j)[k], v));
            } else {
                assert(b.take(j + 1)[k] == b[j]);
            }
        }
        if mul_one(x, b.take(j), v) {
            let k = choose|k: int| 0 <= k < b.take(j).len() && pair_mul(x, #[trigger] b.take(j)[k], v);
            assert(b.take(j + 1)[k] == b.take(j)[k]);
            assert(pair_mul(x, b.take(j + 1)[k], v));
        }
        if pair_mul(x, b[j], v) {
            assert(b.take(j + 1)[j] == b[j]);
            assert(pair_mul(x, b.take(j + 1)[j], v));
        }
    }
}

proof fn lemma_mul_take(a: Seq<Ivl>, b: Seq<Ivl>, i: int)
    requires
        0 <= i < a.len(),
    ensures
        forall|v: int|
            #![trigger mul_covered(a.take(i + 1), b, v)]
            #![trigger mul_covered(a.take(i), b, v)]
            mul_covered(a.take(i + 1), b, v) <==> mul_covered(a.take(i), b, v) || mul_one(
                a[i],
                b,
                v,
            ),
{
    assert forall|v: int|
        mul_covered(a.take(i + 1), b, v) <==> mul_covered(a.take(i), b, v) || mul_one(
            a[i],
            b,
            v,
        ) by {
        if mul_covered(a.take(i + 1), b, v) {
            let k = choose|k: int| 0 <= k < a.take(i + 1).len() && mul_one(#[trigger] a.take(i + 1)[k], b, v);
            if k < i {
                assert(a.take(i)[k] == a[k] && a.take(i + 1)[k] == a[k]);
                assert(mul_one(a.take(i)[k], b, v));
            } else {
                assert(a.take(i + 1)[k] == a[i]);
            }
        }
        if mul_covered(a.take(i), b, v) {
            let k = choose|k: int| 0 <= k < a.take(i).len() && mul_one(#[trigger] a.take(i)[k], b, v);
            assert(a.take(i + 1)[k] == a.take(i)[k]);
            assert(mul_one(a.take(i + 1)[k], b, v));
        }
        if mul_one(a[i], b, v) {
            assert(a.take(i + 1)[i] == a[i]);
            assert(mul_one(a.take(i + 1)[i], b, v));
        }
    }
}

impl IntervalSet {
    /// One row of the addition cross product: folds `x + b[j]` for every
    /// `j` into the accumulator.
    fn add_row(acc: IntervalSet, x: Ivl, rhs: &IntervalSet) -> (r: IntervalSet)
        requires
            acc.wf(),
            rhs.wf(),
            ivl_wf(x),
            rhs@.len() > 0 ==> BOUND_MIN <= x.lo as int + rhs@[0].lo as int && x.hi as int
                + rhs@.last().hi as int <= BOUND_MAX,
        ensures
            r.wf(),
            forall|v: int| #[trigger] r.contains_val(v) <==> acc.contains_val(v) || sum_one(x, rhs@, v),
    {
        let mut r = acc;
        let m = rhs.ivs.len();
        let mut j: usize = 0;
        while j < m
            invariant
                r.wf(),
                rhs.wf(),
                ivl_wf(x),
                m == rhs@.len(),
                0 <= j <= m,
                m > 0 ==> BOUND_MIN <= x.lo as int + rhs@[0].lo as int && x.hi as int
                    + rhs@.last().hi as int <= BOUND_MAX,
                forall|v: int|
                    #[trigger] r.contains_val(v) <==> acc.contains_val(v) || sum_one(
                        x,
                        rhs@.take(j as int),
                        v,
                    ),
            decreases m - j,
        {
            let y = rhs.ivs[j];
            proof {
                if j > 0 {
                    assert(rhs@[0].hi as int + 1 < rhs@[j as int].lo as int);
                }
                if j < m - 1 {
                    assert(rhs@[j as int].hi as int + 1 < rhs@[m - 1].lo as int);
                }
            }
            let e = ivl_add(x, y);
            let ghost r_old = r;
            r = accumulate(r, e);
            proof {
                lemma_sum_one_take(x, rhs@, j as int);
                assert forall|v: int|
                    #[trigger] r.contains_val(v) <==> acc.contains_val(v) || sum_one(
                        x,
                        rhs@.take(j as int + 1),
                        v,
                    ) by {
                    assert(r.contains_val(v) <==> r_old.contains_val(v) || ivl_has(e, v));
                    assert(ivl_has(e, v) <==> pair_sum(x, y, v));
                    assert(sum_one(x, rhs@.take(j as int + 1), v) <==> sum_one(
                        x,
                        rhs@.take(j as int),
                        v,
                    ) || pair_sum(x, rhs@[j as int], v));
                }
            }
            j = j + 1;
        }
        proof {
            assert(rhs@.take(m as int) =~= rhs@);
        }
        r
    }

    /// Elementwise addition: every sum of a value of `self` and a value of
    /// `rhs`, and nothing else.
    pub fn add(&self, rhs: &IntervalSet) -> (r: IntervalSet)
        requires
            self.wf(),
            rhs.wf(),
            self@.len() > 0 && rhs@.len() > 0 ==> BOUND_MIN <= self@[0].lo as int
                + rhs@[0].lo as int && self@.last().hi as int + rhs@.last().hi as int <= BOUND_MAX,
        ensures
            r.wf(),
            forall|v: int| #[trigger] r.contains_val(v) <==> sum_covered(self@, rhs@, v),
            forall|p: int, q: int|
                self.contains_val(p) && rhs.contains_val(q) ==> #[trigger] r.contains_val(p + q),
    {
        let mut r = IntervalSet::empty();
        let n = self.ivs.len();
        let mut i: usize = 0;
        while i < n
            invariant
                self.wf(),
                rhs.wf(),
                r.wf(),
                n == self@.len(),
                0 <= i <= n,
                n > 0 && rhs@.len() > 0 ==> BOUND_MIN <= self@[0].lo as int + rhs@[0].lo as int
                    && self@.last().hi as int + rhs@.last().hi as int <= BOUND_MAX,
                forall|v: int|
                    #[trigger] r.contains_val(v) <==> sum_covered(self@.take(i as int), rhs@, v),
            decreases n - i,
        {
            let x = self.ivs[i];
            proof {
                if i > 0 {
                    assert(self@[0].hi as int + 1 < self@[i as int].lo as int);
                }
                if i < n - 1 {
                    assert(self@[i as int].hi as int + 1 < self@[n - 1].lo as int);
                }
            }
            let ghost r_old = r;
            r = Self::add_row(r, x, rhs);
            proof {
                lemma_sum_take(self@, rhs@, i as int);
                assert forall|v: int|
                    #[trigger] r.contains_val(v) <==> sum_covered(
                        self@.take(i as int + 1),
                        rhs@,
                        v,
                    ) by {
                    assert(r.contains_val(v) <==> r_old.contains_val(v) || sum_one(x, rhs@, v));
                }
            }
            i = i + 1;
        }
        proof {
            assert(self@.take(n as int) =~= self@);
            assert forall|p: int, q: int|
                self.contains_val(p) && rhs.contains_val(q) implies #[trigger] r.contains_val(
                p + q,
            ) by {
                lemma_sum_witness(self@, rhs@, p, q);
            }
        }
        r
    }

    /// One row of the subtraction cross product.
    fn sub_row(acc: IntervalSet, x: Ivl, rhs: &IntervalSet) -> (r: IntervalSet)
        requires
            acc.wf(),
            rhs.wf(),
            ivl_wf(x),
            rhs@.len() > 0 ==> BOUND_MIN <= x.lo as int - rhs@.last().hi as int && x.hi as int
                - rhs@[0].lo as int <= BOUND_MAX,
        ensures
            r.wf(),
            forall|v: int| #[trigger] r.contains_val(v) <==> acc.contains_val(v) || diff_one(x, rhs@, v),
    {
        let mut r = acc;
        let m = rhs.ivs.len();
        let mut j: usize = 0;
        while j < m
            invariant
                r.wf(),
                rhs.wf(),
                ivl_wf(x),
                m == rhs@.len(),
                0 <= j <= m,
                m > 0 ==> BOUND_MIN <= x.lo as int - rhs@.last().hi as int && x.hi as int
                    - rhs@[0].lo as int <= BOUND_MAX,
                forall|v: int|
                    #[trigger] r.contains_val(v) <==> acc.contains_val(v) || diff_one(
                        x,
                        rhs@.take(j as int),
                        v,
                    ),
            decreases m - j,
        {
            let y = rhs.ivs[j];
            proof {
                if j > 0 {
                    assert(rhs@[0].hi as int + 1 < rhs@[j as int].lo as int);
                }
                if j < m - 1 {
                    assert(rhs@[j as int].hi as int + 1 < rhs@[m - 1].lo as int);
                }
            }
            let e = ivl_sub(x, y);
            let ghost r_old = r;
            r = accumulate(r, e);
            proof {
                lemma_diff_one_take(x, rhs@, j as int);
                assert forall|v: int|
                    #[trigger] r.contains_val(v) <==> acc.contains_val(v) || diff_one(
                        x,
                        rhs@.take(j as int + 1),
                        v,
                    ) by {
                    assert(r.contains_val(v) <==> r_old.contains_val(v) || ivl_has(e, v));
                    assert(ivl_has(e, v) <==> pair_diff(x, y, v));
                    assert(diff_one(x, rhs@.take(j as int + 1), v) <==> diff_one(
                        x,
                        rhs@.take(j as int),
                        v,
                    ) || pair_diff(x, rhs@[j as int], v));
                }
            }
            j = j + 1;
        }
        proof {
            assert(rhs@.take(m as int) =~= rhs@);
        }
        r
    }

    /// Elementwise subtraction: every value of `self` minus a value of
    /// `rhs`, and nothing else.
    pub fn sub(&self, rhs: &IntervalSet) -> (r: IntervalSet)
        requires
            self.wf(),
            rhs.wf(),
            self@.len() > 0 && rhs@.len() > 0 ==> BOUND_MIN <= self@[0].lo as int
                - rhs@.last().hi as int && self@.last().hi as int - rhs@[0].lo as int <= BOUND_MAX,
        ensures
            r.wf(),
            forall|v: int| #[trigger] r.contains_val(v) <==> diff_covered(self@, rhs@, v),
            forall|p: int, q: int|
                self.contains_val(p) && rhs.contains_val(q) ==> #[trigger] r.contains_val(p - q),
    {
        let mut r = IntervalSet::empty();
        let n = self.ivs.len();
        let mut i: usize = 0;
        while i < n
            invariant
                self.wf(),
                rhs.wf(),
                r.wf(),
                n == self@.len(),
                0 <= i <= n,
                n > 0 && rhs@.len() > 0 ==> BOUND_MIN <= self@[0].lo as int
                    - rhs@.last().hi as int && self@.last().hi as int - rhs@[0].lo as int
                    <= BOUND_MAX,
                forall|v: int|
                    #[trigger] r.contains_val(v) <==> diff_covered(self@.take(i as int), rhs@, v),
            decreases n - i,
        {
            let x = self.ivs[i];
            proof {
                if i > 0 {
                    assert(self@[0].hi as int + 1 < self@[i as int].lo as int);
                }
                if i < n - 1 {
                    assert(self@[i as int].hi as int + 1 < self@[n - 1].lo as int);
                }
            }
            let ghost r_old = r;
            r = Self::sub_row(r, x, rhs);
            proof {
                lemma_diff_take(self@, rhs@, i as int);
                assert forall|v: int|
                    #[trigger] r.contains_val(v) <==> diff_covered(
                        self@.take(i as int + 1),
                        rhs@,
                        v,
                    ) by {
                    assert(r.contains_val(v) <==> r_old.contains_val(v) || diff_one(x, rhs@, v));
                }
            }
            i = i + 1;
        }
        proof {
            assert(self@.take(n as int) =~= self@);
            assert forall|p: int, q: int|
                self.contains_val(p) && rhs.contains_val(q) implies #[trigger] r.contains_val(
                p - q,
            ) by {
                lemma_diff_witness(self@, rhs@, p, q);
            }
        }
        r
    }

    /// One row of the multiplication cross product.
    fn mul_row(acc: IntervalSet, x: Ivl, rhs: &IntervalSet) -> (r: IntervalSet)
        requires
            acc.wf(),
            rhs.wf(),
            ivl_wf(x),
            forall|j: int|
                0 <= j < rhs@.len() ==> BOUND_MIN <= mul_lo(x, #[trigger] rhs@[j]) && mul_hi(
                    x,
                    rhs@[j],
                ) <= BOUND_MAX,
        ensures
            r.wf(),
            forall|v: int| #[trigger] r.contains_val(v) <==> acc.contains_val(v) || mul_one(x, rhs@, v),
    {
        let mut r = acc;
        let m = rhs.ivs.len();
        let mut j: usize = 0;
        while j < m
            invariant
                r.wf(),
                rhs.wf(),
                ivl_wf(x),
                m == rhs@.len(),
                0 <= j <= m,
                forall|jj: int|
                    0 <= jj < rhs@.len() ==> BOUND_MIN <= mul_lo(x, #[trigger] rhs@[jj]) && mul_hi(
                        x,
                        rhs@[jj],
                    ) <= BOUND_MAX,
                forall|v: int|
                    #[trigger] r.contains_val(v) <==> acc.contains_val(v) || mul_one(
                        x,
                        rhs@.take(j as int),
                        v,
                    ),
            decreases m - j,
        {
            let y = rhs.ivs[j];
            let e = ivl_mul(x, y);
            let ghost r_old = r;
            r = accumulate(r, e);
            proof {
                lemma_mul_one_take(x, rhs@, j as int);
                assert forall|v: int|
                    #[trigger] r.contains_val(v) <==> acc.contains_val(v) || mul_one(
                        x,
                        rhs@.take(j as int + 1),
                        v,
                    ) by {
                    assert(r.contains_val(v) <==> r_old.contains_val(v) || ivl_has(e, v));
                    assert(ivl_has(e, v) <==> pair_mul(x, y, v));
                    assert(mul_one(x, rhs@.take(j as int + 1), v) <==> mul_one(
                        x,
                        rhs@.take(j as int),
                        v,
                    ) || pair_mul(x, rhs@[j as int], v));
                }
            }
            j = j + 1;
        }
        proof {
            assert(rhs@.take(m as int) =~= rhs@);
        }
        r
    }

    /// Elementwise multiplication, by corner-product hulls: the result
    /// covers every product of members, and may cover more (it is the
    /// union of the per-pair convex hulls).
    pub fn mul(&self, rhs: &IntervalSet) -> (r: IntervalSet)
        requires
            self.wf(),
            rhs.wf(),
            self@.len() > 0 && rhs@.len() > 0 ==> BOUND_MIN <= mul_lo(
                span_of(self@),
                span_of(rhs@),
            ) && mul_hi(span_of(self@), span_of(rhs@)) <= BOUND_MAX,
        ensures
            r.wf(),
            forall|v: int| #[trigger] r.contains_val(v) <==> mul_covered(self@, rhs@, v),
            forall|p: int, q: int|
                self.contains_val(p) && rhs.contains_val(q) ==> #[trigger] r.contains_val(p * q),
    {
        let mut r = IntervalSet::empty();
        let n = self.ivs.len();
        let mut i: usize = 0;
        while i < n
            invariant
                self.wf(),
                rhs.wf(),
                r.wf(),
                n == self@.len(),
                0 <= i <= n,
                n > 0 && rhs@.len() > 0 ==> BOUND_MIN <= mul_lo(span_of(self@), span_of(rhs@))
                    && mul_hi(span_of(self@), span_of(rhs@)) <= BOUND_MAX,
                forall|v: int|
                    #[trigger] r.contains_val(v) <==> mul_covered(self@.take(i as int), rhs@, v),
            decreases n - i,
        {
            let x = self.ivs[i];
            proof {
                let sa = span_of(self@);
                let sb = span_of(rhs@);
                if i > 0 {
                    assert(self@[0].hi as int + 1 < self@[i as int].lo as int);
                }
                if i < n - 1 {
                    assert(self@[i as int].hi as int + 1 < self@[n - 1].lo as int);
                }
                assert forall|j: int|
                    0 <= j < rhs@.len() implies BOUND_MIN <= mul_lo(x, #[trigger] rhs@[j])
                    && mul_hi(x, rhs@[j]) <= BOUND_MAX by {
                    if j > 0 {
                        assert(rhs@[0].hi as int + 1 < rhs@[j].lo as int);
                    }
                    if j < rhs@.len() - 1 {
                        assert(rhs@[j].hi as int + 1 < rhs@[rhs@.len() - 1].lo as int);
                    }
                    // Each corner of the pair is a product of span members,
                    // so it lies inside the span corner hull.
                    lemma_prod_in_hull(sa, sb, x.lo as int, rhs@[j].lo as int);
                    lemma_prod_in_hull(sa, sb, x.lo as int, rhs@[j].hi as int);
                    lemma_prod_in_hull(sa, sb, x.hi as int, rhs@[j].lo as int);
                    lemma_prod_in_hull(sa, sb, x.hi as int, rhs@[j].hi as int);
                }
            }
            let ghost r_old = r;
            r = Self::mul_row(r, x, rhs);
            proof {
                lemma_mul_take(self@, rhs@, i as int);
                assert forall|v: int|
                    #[trigger] r.contains_val(v) <==> mul_covered(
                        self@.take(i as int + 1),
                        rhs@,
                        v,
                    ) by {
                    assert(r.contains_val(v) <==> r_old.contains_val(v) || mul_one(x, rhs@, v));
                }
            }
            i = i + 1;
        }
        proof {
            assert(self@.take(n as int) =~= self@);
            assert forall|p: int, q: int|
                self.contains_val(p) && rhs.contains_val(q) implies #[trigger] r.contains_val(
                p * q,
            ) by {
                lemma_mul_witness(self@, rhs@, p, q);
            }
        }
        r
    }

    /// Adds the constant `k` to every value: a cardinality-preserving
    /// shift of each interval.
    pub fn add_value(&self, k: i32) -> (r: IntervalSet)
        requires
            self.wf(),
            self@.len() > 0 ==> BOUND_MIN <= self@[0].lo as int + k as int
                && self@.last().hi as int + k as int <= BOUND_MAX,
        ensures
            r.wf(),
            r@.len() == self@.len(),
            forall|v: int| #[trigger] r.contains_val(v) <==> self.contains_val(v - k as int),
    {
        let mut r = IntervalSet::empty();
        let n = self.ivs.len();
        let mut i: usize = 0;
        while i < n
            invariant
                self.wf(),
                r.wf(),
                n == self@.len(),
                0 <= i <= n,
                n > 0 ==> BOUND_MIN <= self@[0].lo as int + k as int && self@.last().hi as int
                    + k as int <= BOUND_MAX,
                r@.len() == i,
                r@.len() > 0 ==> r@.last().hi as int == self@[i as int - 1].hi as int + k as int,
                forall|v: int|
                    #[trigger] r.contains_val(v) <==> in_seq(self@.take(i as int), v - k as int),
            decreases n - i,
        {
            let x = self.ivs[i];
            proof {
                if i > 0 {
                    assert(self@[0].hi as int + 1 < self@[i as int].lo as int);
                    assert(self@[i as int - 1].hi as int + 1 < self@[i as int].lo as int);
                }
                if i < n - 1 {
                    assert(self@[i as int].hi as int + 1 < self@[n - 1].lo as int);
                }
            }
            let g = Ivl { lo: x.lo + k, hi: x.hi + k };
            let ghost r_old = r;
            r.push_back(g);
            proof {
                lemma_in_take_succ(self@, i as int);
                assert forall|v: int|
                    #[trigger] r.contains_val(v) <==> in_seq(self@.take(i as int + 1), v - k as int)
                    by {
                    assert(r.contains_val(v) <==> r_old.contains_val(v) || ivl_has(g, v));
                    assert(ivl_has(g, v) <==> ivl_has(self@[i as int], v - k as int));
                    assert(in_seq(self@.take(i as int + 1), v - k as int) <==> in_seq(
                        self@.take(i as int),
                        v - k as int,
                    ) || ivl_has(self@[i as int], v - k as int));
                }
            }
            i = i + 1;
        }
        proof {
            assert(self@.take(n as int) =~= self@);
        }
        r
    }

    /// Subtracts the constant `k` from every value.
    pub fn sub_value(&self, k: i32) -> (r: IntervalSet)
        requires
            self.wf(),
            self@.len() > 0 ==> BOUND_MIN <= self@[0].lo as int - k as int
                && self@.last().hi as int - k as int <= BOUND_MAX,
        ensures
            r.wf(),
            r@.len() == self@.len(),
            forall|v: int| #[trigger] r.contains_val(v) <==> self.contains_val(v + k as int),
    {
        let mut r = IntervalSet::empty();
        let n = self.ivs.len();
        let mut i: usize = 0;
        while i < n
            invariant
                self.wf(),
                r.wf(),
                n == self@.len(),
                0 <= i <= n,
                n > 0 ==> BOUND_MIN <= self@[0].lo as int - k as int && self@.last().hi as int
                    - k as int <= BOUND_MAX,
                r@.len() == i,
                r@.len() > 0 ==> r@.last().hi as int == self@[i as int - 1].hi as int - k as int,
                forall|v: int|
                    #[trigger] r.contains_val(v) <==> in_seq(self@.take(i as int), v + k as int),
            decreases n - i,
        {
            let x = self.ivs[i];
            proof {
                if i > 0 {
                    assert(self@[0].hi as int + 1 < self@[i as int].lo as int);
                    assert(self@[i as int - 1].hi as int + 1 < self@[i as int].lo as int);
                }
                if i < n - 1 {
                    assert(self@[i as int].hi as int + 1 < self@[n - 1].lo as int);
                }
            }
            let g = Ivl { lo: x.lo - k, hi: x.hi - k };
            let ghost r_old = r;
            r.push_back(g);
            proof {
                lemma_in_take_succ(self@, i as int);
                assert forall|v: int|
                    #[trigger] r.contains_val(v) <==> in_seq(self@.take(i as int + 1), v + k as int)
                    by {
                    assert(r.contains_val(v) <==> r_old.contains_val(v) || ivl_has(g, v));
                    assert(ivl_has(g, v) <==> ivl_has(self@[i as int], v + k as int));
                    assert(in_seq(self@.take(i as int + 1), v + k as int) <==> in_seq(
                        self@.take(i as int),
                        v + k as int,
                    ) || ivl_has(self@[i as int], v + k as int));
                }
            }
            i = i + 1;
        }
        proof {
            assert(self@.take(n as int) =~= self@);
        }
        r
    }

    /// Multiplies every interval by the constant `k`, taking per-interval
    /// hulls; multiplying by zero collapses a non-empty set to the zero
    /// singleton, multiplying by one is the identity, and a negative
    /// constant reverses the interval order.
    pub fn mul_value(&self, k: i32) -> (r: IntervalSet)
        requires
            self.wf(),
            self@.len() > 0 ==> BOUND_MIN <= imin(
                self@[0].lo as int * k as int,
                self@.last().hi as int * k as int,
            ) && imax(self@[0].lo as int * k as int, self@.last().hi as int * k as int)
                <= BOUND_MAX,
        ensures
            r.wf(),
            forall|v: int| #[trigger] r.contains_val(v) <==> scale_covered(self@, k as int, v),
            forall|p: int| self.contains_val(p) ==> #[trigger] r.contains_val(p * k as int),
    {
        let n = self.ivs.len();
        let ghost kk = k as int;
        if n == 0 {
            let r = IntervalSet::empty();
            return r;
        }
        let r: IntervalSet;
        if k == 0 {
            r = IntervalSet::singleton(0);
            proof {
                assert forall|v: int| #[trigger] r.contains_val(v) <==> scale_covered(self@, kk, v)
                    by {
                    assert(self@[0].lo as int * 0 == 0) by (nonlinear_arith);
                    assert(self@[0].hi as int * 0 == 0) by (nonlinear_arith);
                    if scale_covered(self@, kk, v) {
                        let i = choose|i: int|
                            0 <= i < self@.len() && imin(
                                (#[trigger] self@[i]).lo as int * kk,
                                self@[i].hi as int * kk,
                            ) <= v && v <= imax(self@[i].lo as int * kk, self@[i].hi as int * kk);
                        assert(self@[i].lo as int * 0 == 0) by (nonlinear_arith);
                        assert(self@[i].hi as int * 0 == 0) by (nonlinear_arith);
                    }
                }
            }
        } else if k == 1 {
            r = self.duplicate();
            proof {
                assert forall|v: int| #[trigger] r.contains_val(v) <==> scale_covered(self@, kk, v)
                    by {
                    if in_seq(self@, v) {
                        let i = choose|i: int| 0 <= i < self@.len() && ivl_has(#[trigger] self@[i], v);
                        assert(self@[i].lo as int * 1 == self@[i].lo as int) by (nonlinear_arith);
                        assert(self@[i].hi as int * 1 == self@[i].hi as int) by (nonlinear_arith);
                    }
                    if scale_covered(self@, kk, v) {
                        let i = choose|i: int|
                            0 <= i < self@.len() && imin(
                                (#[trigger] self@[i]).lo as int * kk,
                                self@[i].hi as int * kk,
                            ) <= v && v <= imax(self@[i].lo as int * kk, self@[i].hi as int * kk);
                        assert(self@[i].lo as int * 1 == self@[i].lo as int) by (nonlinear_arith);
                        assert(self@[i].hi as int * 1 == self@[i].hi as int) by (nonlinear_arith);
                        assert(ivl_has(self@[i], v));
                    }
                }
            }
        } else if k > 1 {
            let mut acc = IntervalSet::empty();
            let mut i: usize = 0;
            while i < n
                invariant
                    self.wf(),
                    acc.wf(),
                    n == self@.len(),
                    n > 0,
                    0 <= i <= n,
                    k > 1,
                    BOUND_MIN <= imin(self@[0].lo as int * kk, self@.last().hi as int * kk),
                    imax(self@[0].lo as int * kk, self@.last().hi as int * kk) <= BOUND_MAX,
                    kk == k as int,
                    acc@.len() == i,
                    acc@.len() > 0 ==> acc@.last().hi as int == self@[i as int - 1].hi as int * kk,
                    forall|v: int|
                        #[trigger] acc.contains_val(v) <==> scale_covered(
                            self@.take(i as int),
                            kk,
                            v,
                        ),
                decreases n - i,
            {
                let x = self.ivs[i];
                proof {
                    if i > 0 {
                        assert(self@[0].hi as int + 1 < self@[i as int].lo as int);
                        assert(self@[i as int - 1].hi as int + 1 < self@[i as int].lo as int);
                    }
                    if i < n - 1 {
                        assert(self@[i as int].hi as int + 1 < self@[n - 1].lo as int);
                    }
                    lemma_scale_mono(self@[0].lo as int, x.lo as int, kk);
                    lemma_scale_mono(x.lo as int, x.hi as int, kk);
                    lemma_scale_mono(x.hi as int, self@.last().hi as int, kk);
                    lemma_scale_mono(self@[0].lo as int, self@.last().hi as int, kk);
                    if i > 0 {
                        lemma_scale_gap(self@[i as int - 1].hi as int, x.lo as int, kk);
                    }
                }
                let lo64 = (x.lo as i64) * (k as i64);
                let hi64 = (x.hi as i64) * (k as i64);
                let g = Ivl { lo: lo64 as i32, hi: hi64 as i32 };
                let ghost acc_old = acc;
                acc.push_back(g);
                proof {
                    assert forall|v: int|
                        #[trigger] acc.contains_val(v) <==> scale_covered(
                            self@.take(i as int + 1),
                            kk,
                            v,
                        ) by {
                        assert(acc.contains_val(v) <==> acc_old.contains_val(v) || ivl_has(g, v));
                        lemma_scale_take_succ(self@, kk, i as int);
                        assert(ivl_has(g, v) <==> imin(x.lo as int * kk, x.hi as int * kk) <= v
                            && v <= imax(x.lo as int * kk, x.hi as int * kk));
                    }
                }
                i = i + 1;
            }
            proof {
                assert(self@.take(n as int) =~= self@);
            }
            r = acc;
        } else {
            // A negative constant reverses the interval order: walk the
            // intervals from the back.
            let mut acc = IntervalSet::empty();
            let mut j: usize = n;
            while j > 0
                invariant
                    self.wf(),
                    acc.wf(),
                    n == self@.len(),
                    n > 0,
                    0 <= j <= n,
                    k < 0,
                    BOUND_MIN <= imin(self@[0].lo as int * kk, self@.last().hi as int * kk),
                    imax(self@[0].lo as int * kk, self@.last().hi as int * kk) <= BOUND_MAX,
                    kk == k as int,
                    acc@.len() == n - j,
                    acc@.len() > 0 ==> acc@.last().hi as int == self@[j as int].lo as int * kk,
                    forall|v: int|
                        #[trigger] acc.contains_val(v) <==> scale_covered(
                            self@.skip(j as int),
                            kk,
                            v,
                        ),
                decreases j,
            {
                let idx = j - 1;
                let x = self.ivs[idx];
                proof {
                    if idx > 0 {
                        assert(self@[0].hi as int + 1 < self@[idx as int].lo as int);
                    }
                    if (idx as int) < n - 1 {
                        assert(self@[idx as int].hi as int + 1 < self@[n - 1].lo as int);
                        assert(self@[idx as int].hi as int + 1 < self@[idx as int + 1].lo as int);
                    }
                    lemma_scale_mono(self@[0].lo as int, x.lo as int, kk);
                    lemma_scale_mono(x.lo as int, x.hi as int, kk);
                    lemma_scale_mono(x.hi as int, self@.last().hi as int, kk);
                    lemma_scale_mono(self@[0].lo as int, self@.last().hi as int, kk);
                    if (idx as int) < n - 1 {
                        lemma_scale_gap(self@[idx as int].hi as int, self@[idx as int + 1].lo as int, kk);
                    }
                }
                let lo64 = (x.hi as i64) * (k as i64);
                let hi64 = (x.lo as i64) * (k as i64);
                let g = Ivl { lo: lo64 as i32, hi: hi64 as i32 };
                let ghost acc_old = acc;
                acc.push_back(g);
                proof {
                    assert forall|v: int|
                        #[trigger] acc.contains_val(v) <==> scale_covered(
                            self@.skip(idx as int),
                            kk,
                            v,
                        ) by {
                        assert(acc.contains_val(v) <==> acc_old.contains_val(v) || ivl_has(g, v));
                        lemma_scale_skip_pred(self@, kk, idx as int);
                        assert(ivl_has(g, v) <==> imin(x.lo as int * kk, x.hi as int * kk) <= v
                            && v <= imax(x.lo as int * kk, x.hi as int * kk));
                    }
                }
                j = idx;
            }
            proof {
                assert(self@.skip(0) =~= self@);
            }
            r = acc;
        }
        proof {
            assert forall|p: int| self.contains_val(p) implies #[trigger] r.contains_val(
                p * kk,
            ) by {
                let i = choose|i: int| 0 <= i < self@.len() && ivl_has(#[trigger] self@[i], p);
                lemma_prod_in_hull(self@[i], Ivl { lo: k, hi: k }, p, kk);
                assert(imin(self@[i].lo as int * kk, self@[i].hi as int * kk) <= p * kk && p * kk
                    <= imax(self@[i].lo as int * kk, self@[i].hi as int * kk));
                assert(scale_covered(self@, kk, p * kk));
            }
        }
        r
    }
}

/// Scaling preserves or reverses order with the sign of the factor.
proof fn lemma_scale_mono(a: int, b: int, k: int)
    by (nonlinear_arith)
    requires
        a <= b,
    ensures
        k >= 0 ==> a * k <= b * k,
        k <= 0 ==> b * k <= a * k,
{
}

/// Scaling a gap of at least one value by a factor of magnitude at least
/// one keeps a gap of at least one value.
proof fn lemma_scale_gap(h: int, l: int, k: int)
    by (nonlinear_arith)
    requires
        h + 1 < l,
    ensures
        k >= 1 ==> h * k + 1 < l * k,
        k <= -1 ==> l * k + 1 < h * k,
{
}

/// Splitting a one-interval-longer prefix for the scaled coverage.
proof fn lemma_scale_take_succ(s: Seq<Ivl>, k: int, i: int)
    requires
        0 <= i < s.len(),
    ensures
        forall|v: int|
            #![trigger scale_covered(s.take(i + 1), k, v)]
            #![trigger scale_covered(s.take(i), k, v)]
            scale_covered(s.take(i + 1), k, v) <==> scale_covered(s.take(i), k, v) || (imin(
                s[i].lo as int * k,
                s[i].hi as int * k,
            ) <= v && v <= imax(s[i].lo as int * k, s[i].hi as int * k)),
{
    assert forall|v: int|
        scale_covered(s.take(i + 1), k, v) <==> scale_covered(s.take(i), k, v) || (imin(
            s[i].lo as int * k,
            s[i].hi as int * k,
        ) <= v && v <= imax(s[i].lo as int * k, s[i].hi as int * k)) by {
        if scale_covered(s.take(i + 1), k, v) {
            let t = choose|t: int|
                0 <= t < s.take(i + 1).len() && imin(
                    (#[trigger] s.take(i + 1)[t]).lo as int * k,
                    s.take(i + 1)[t].hi as int * k,
                ) <= v && v <= imax(s.take(i + 1)[t].lo as int * k, s.take(i + 1)[t].hi as int * k);
            if t < i {
                assert(s.take(i)[t] == s[t] && s.take(i + 1)[t] == s[t]);
                assert(imin((s.take(i)[t]).lo as int * k, s.take(i)[t].hi as int * k) <= v && v
                    <= imax(s.take(i)[t].lo as int * k, s.take(i)[t].hi as int * k));
            } else {
                assert(s.take(i + 1)[t] == s[i]);
            }
        }
        if scale_covered(s.take(i), k, v) {
            let t = choose|t: int|
                0 <= t < s.take(i).len() && imin(
                    (#[trigger] s.take(i)[t]).lo as int * k,
                    s.take(i)[t].hi as int * k,
                ) <= v && v <= imax(s.take(i)[t].lo as int * k, s.take(i)[t].hi as int * k);
            assert(s.take(i + 1)[t] == s.take(i)[t]);
            assert(imin((s.take(i + 1)[t]).lo as int * k, s.take(i + 1)[t].hi as int * k) <= v && v
                <= imax(s.take(i + 1)[t].lo as int * k, s.take(i + 1)[t].hi as int * k));
        }
        if imin(s[i].lo as int * k, s[i].hi as int * k) <= v && v <= imax(
            s[i].lo as int * k,
            s[i].hi as int * k,
        ) {
            assert(s.take(i + 1)[i] == s[i]);
            assert(imin((s.take(i + 1)[i]).lo as int * k, s.take(i + 1)[i].hi as int * k) <= v && v
                <= imax(s.take(i + 1)[i].lo as int * k, s.take(i + 1)[i].hi as int * k));
        }
    }
}

/// Splitting a one-interval-longer suffix for the scaled coverage.
proof fn lemma_scale_skip_pred(s: Seq<Ivl>, k: int, i: int)
    requires
        0 <= i < s.len(),
    ensures
        forall|v: int|
            #![trigger scale_covered(s.skip(i), k, v)]
            #![trigger scale_covered(s.skip(i + 1), k, v)]
            scale_covered(s.skip(i), k, v) <==> scale_covered(s.skip(i + 1), k, v) || (imin(
                s[i].lo as int * k,
                s[i].hi as int * k,
            ) <= v && v <= imax(s[i].lo as int * k, s[i].hi as int * k)),
{
    assert forall|v: int|
        scale_covered(s.skip(i), k, v) <==> scale_covered(s.skip(i + 1), k, v) || (imin(
            s[i].lo as int * k,
            s[i].hi as int * k,
        ) <= v && v <= imax(s[i].lo as int * k, s[i].hi as int * k)) by {
        if scale_covered(s.skip(i), k, v) {
            let t = choose|t: int|
                0 <= t < s.skip(i).len() && imin(
                    (#[trigger] s.skip(i)[t]).lo as int * k,
                    s.skip(i)[t].hi as int * k,
                ) <= v && v <= imax(s.skip(i)[t].lo as int * k, s.skip(i)[t].hi as int * k);
            if t > 0 {
                assert(s.skip(i)[t] == s[i + t]);
                assert(s.skip(i + 1)[t - 1] == s[i + t]);
                assert(imin((s.skip(i + 1)[t - 1]).lo as int * k, s.skip(i + 1)[t - 1].hi as int
                    * k) <= v && v <= imax(
                    s.skip(i + 1)[t - 1].lo as int * k,
                    s.skip(i + 1)[t - 1].hi as int * k,
                ));
            } else {
                assert(s.skip(i)[0] == s[i]);
            }
        }
        if scale_covered(s.skip(i + 1), k, v) {
            let t = choose|t: int|
                0 <= t < s.skip(i + 1).len() && imin(
                    (#[trigger] s.skip(i + 1)[t]).lo as int * k,
                    s.skip(i + 1)[t].hi as int * k,
                ) <= v && v <= imax(
                    s.skip(i + 1)[t].lo as int * k,
                    s.skip(i + 1)[t].hi as int * k,
                );
            assert(s.skip(i + 1)[t] == s[i + 1 + t]);
            assert(s.skip(i)[t + 1] == s[i + 1 + t]);
            assert(imin((s.skip(i)[t + 1]).lo as int * k, s.skip(i)[t + 1].hi as int * k) <= v && v
                <= imax(s.skip(i)[t + 1].lo as int * k, s.skip(i)[t + 1].hi as int * k));
        }
        if imin(s[i].lo as int * k, s[i].hi as int * k) <= v && v <= imax(
            s[i].lo as int * k,
            s[i].hi as int * k,
        ) {
            assert(s.skip(i)[0] == s[i]);
            assert(imin((s.skip(i)[0]).lo as int * k, s.skip(i)[0].hi as int * k) <= v && v <= imax(
                s.skip(i)[0].lo as int * k,
                s.skip(i)[0].hi as int * k,
            ));
        }
    }
}

} // verus!
