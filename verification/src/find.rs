//! The locator: a binary search from a value to the covering interval
//! index or to the straddling pair of indices, and its clients — the
//! membership test, the scalar overlap tests and the two shrink
//! operations.

use vstd::prelude::*;

use crate::canon::in_seq;
use crate::canon::lemma_in_seq_bounds;
use crate::ivl::BOUND_MAX;
use crate::ivl::Ivl;
use crate::ivl::ivl_has;
use crate::set::IntervalSet;

verus! {

impl IntervalSet {
    /// Binary search inside the window `[left0, right0]` of interval
    /// indices, whose span must contain `value`.  Returns `(l, l)` when
    /// interval `l` contains the value, and the straddling pair
    /// `(l, l + 1)` when the value falls in the gap after interval `l`.
    pub(crate) fn find_interval_between(&self, value: i32, left0: usize, right0: usize) -> (r: (
        usize,
        usize,
    ))
        requires
            self.wf(),
            left0 <= right0 < self@.len(),
            self@[left0 as int].lo as int <= value as int,
            value as int <= self@[right0 as int].hi as int,
        ensures
            left0 <= r.0 <= r.1 <= right0,
            r.1 <= r.0 + 1,
            r.0 == r.1 ==> ivl_has(self@[r.0 as int], value as int),
            r.0 != r.1 ==> (self@[r.0 as int].hi as int) < value as int && (value as int)
                < self@[r.1 as int].lo as int,
    {
        let mut left = left0;
        let mut right = right0;
        while left <= right
            invariant
                self.wf(),
                left0 <= left,
                right <= right0 < self@.len(),
                left as int <= right as int + 1,
                self@[left0 as int].lo as int <= value as int,
                value as int <= self@[right0 as int].hi as int,
                left > left0 ==> (self@[left as int - 1].hi as int) < value as int,
                right < right0 ==> (value as int) < self@[right as int + 1].lo as int,
            decreases right as int + 1 - left as int,
        {
            let mid = left + (right - left) / 2;
            let ivm = self.ivs[mid];
            if ivm.lo > value {
                proof {
                    assert(mid != left0);
                }
                right = mid - 1;
            } else if ivm.hi < value {
                left = mid + 1;
            } else {
                return (mid, mid);
            }
        }
        proof {
            if left == left0 {
                assert((value as int) < self@[left0 as int].lo as int);
                assert(false);
            }
            if right == right0 {
                assert((self@[right0 as int].hi as int) < value as int);
                assert(false);
            }
        }
        (right, left)
    }

    /// Locates `value` in the whole sequence: `None` when it lies outside
    /// the set's span, otherwise the pair described by
    /// [`Self::find_interval_between`] for the full window.
    pub(crate) fn find_interval(&self, value: i32) -> (r: Option<(usize, usize)>)
        requires
            self.wf(),
        ensures
            (r is None) <==> (self@.len() == 0 || (value as int) < self@[0].lo as int || (
            self@.last().hi as int) < value as int),
            (match r {
                Option::None => true,
                Option::Some((l, rr)) => l <= rr <= l + 1 && rr < self@.len() && (l == rr
                    ==> ivl_has(self@[l as int], value as int)) && (l != rr ==> (
                self@[l as int].hi as int) < value as int && (value as int)
                    < self@[rr as int].lo as int),
            }),
    {
        if self.ivs.len() == 0 {
            return None;
        }
        let n = self.ivs.len();
        if value < self.ivs[0].lo || self.ivs[n - 1].hi < value {
            return None;
        }
        Some(self.find_interval_between(value, 0, n - 1))
    }

    /// Whether the set contains `value`.
    pub fn contains(&self, value: i32) -> (r: bool)
        requires
            self.wf(),
        ensures
            r == self.contains_val(value as int),
    {
        let v = value;
        match self.find_interval(value) {
            Some((l, rr)) => {
                if l == rr {
                    proof {
                        assert(in_seq(self@, v as int));
                    }
                    true
                } else {
                    proof {
                        if in_seq(self@, v as int) {
                            let k = choose|k: int|
                                0 <= k < self@.len() && ivl_has(#[trigger] self@[k], v as int);
                            if k < l {
                                assert(self@[k].hi as int + 1 < self@[l as int].lo as int);
                                assert(false);
                            }
                            if k > rr {
                                assert(self@[rr as int].hi as int + 1 < self@[k].lo as int);
                                assert(false);
                            }
                            assert(false);
                        }
                    }
                    false
                }
            },
            None => {
                proof {
                    if in_seq(self@, v as int) {
                        lemma_in_seq_bounds(self@, v as int);
                    }
                }
                false
            },
        }
    }

    /// Whether the single value overlaps the set; the same judgment as
    /// [`Self::contains`].
    pub fn overlap_value(&self, value: i32) -> (r: bool)
        requires
            self.wf(),
        ensures
            r == self.contains_val(value as int),
    {
        self.contains(value)
    }

    /// Whether an optional value overlaps the set; an absent value never
    /// overlaps.
    pub fn overlap_option(&self, value: Option<i32>) -> (r: bool)
        requires
            self.wf(),
        ensures
            (match value {
                Option::Some(v) => r == self.contains_val(v as int),
                Option::None => r == false,
            }),
    {
        match value {
            Some(v) => self.contains(v),
            None => false,
        }
    }

    /// The set of values of `self` at or above `lb`.
    pub fn shrink_left(&self, lb: i32) -> (r: IntervalSet)
        requires
            self.wf(),
        ensures
            r.wf(),
            forall|v: int|
                #[trigger] r.contains_val(v) <==> self.contains_val(v) && lb as int <= v,
    {
        let n = self.ivs.len();
        match self.find_interval(lb) {
            Some((l, rr)) => {
                let mut r = IntervalSet::empty();
                let li = self.ivs[l];
                if li.hi >= lb {
                    r.push_back(Ivl { lo: lb, hi: li.hi });
                }
                proof {
                    assert forall|v: int|
                        #[trigger] r.contains_val(v) <==> in_seq(self@, v) && lb as int <= v && v
                            <= self@[l as int].hi as int by {
                        if r.contains_val(v) {
                            assert(ivl_has(self@[l as int], v));
                        }
                        if in_seq(self@, v) && lb as int <= v && v <= self@[l as int].hi as int {
                            let k = choose|k: int|
                                0 <= k < self@.len() && ivl_has(#[trigger] self@[k], v);
                            if k < l {
                                assert(self@[k].hi as int + 1 < self@[l as int].lo as int);
                                assert(v < self@[l as int].lo as int);
                                if l == rr {
                                    assert(ivl_has(self@[l as int], lb as int));
                                    assert(false);
                                } else {
                                    assert(lb as int > self@[l as int].hi as int);
                                    assert(false);
                                }
                            }
                            if k > l {
                                assert(self@[l as int].hi as int + 1 < self@[k].lo as int);
                                assert(false);
                            }
                            assert(ivl_has(Ivl { lo: lb, hi: self@[l as int].hi }, v));
                        }
                    }
                }
                let mut k: usize = l + 1;
                while k < n
                    invariant
                        self.wf(),
                        r.wf(),
                        n == self@.len(),
                        l < k <= n,
                        l < n,
                        l as int + 1 < n ==> (lb as int) < self@[l as int + 1].lo as int,
                        r@.len() > 0 ==> (r@.last().hi as int) <= self@[k as int - 1].hi as int,
                        forall|v: int|
                            #[trigger] r.contains_val(v) <==> in_seq(self@, v) && lb as int <= v
                                && v <= self@[k as int - 1].hi as int,
                    decreases n - k,
                {
                    let iv = self.ivs[k];
                    let ghost r_old = r;
                    proof {
                        assert(self@[k as int - 1].hi as int + 1 < self@[k as int].lo as int);
                    }
                    r.push_back(iv);
                    proof {
                        assert forall|v: int|
                            #[trigger] r.contains_val(v) <==> in_seq(self@, v) && lb as int <= v
                                && v <= self@[k as int].hi as int by {
                            assert(r.contains_val(v) <==> r_old.contains_val(v) || ivl_has(iv, v));
                            if ivl_has(iv, v) {
                                assert(ivl_has(self@[k as int], v));
                                if k > l + 1 {
                                    assert(self@[l as int + 1].hi as int + 1
                                        < self@[k as int].lo as int);
                                }
                                assert(v >= self@[l as int + 1].lo as int);
                            }
                            if in_seq(self@, v) && lb as int <= v && v <= self@[k as int].hi as int
                                && v > self@[k as int - 1].hi as int {
                                let m = choose|m: int|
                                    0 <= m < self@.len() && ivl_has(#[trigger] self@[m], v);
                                if m < k {
                                    if m < k - 1 {
                                        assert(self@[m].hi as int + 1
                                            < self@[k as int - 1].lo as int);
                                    }
                                    assert(false);
                                }
                                if m > k {
                                    assert(self@[k as int].hi as int + 1 < self@[m].lo as int);
                                    assert(false);
                                }
                                assert(ivl_has(iv, v));
                            }
                        }
                    }
                    k = k + 1;
                }
                proof {
                    assert forall|v: int|
                        #[trigger] r.contains_val(v) <==> in_seq(self@, v) && lb as int <= v by {
                        if in_seq(self@, v) {
                            lemma_in_seq_bounds(self@, v);
                        }
                    }
                }
                r
            },
            None => {
                if n == 0 {
                    IntervalSet::empty()
                } else if lb > self.ivs[n - 1].hi {
                    let r = IntervalSet::empty();
                    proof {
                        assert forall|v: int| in_seq(self@, v) implies v <= lb as int by {
                            lemma_in_seq_bounds(self@, v);
                        }
                    }
                    r
                } else {
                    let r = self.duplicate();
                    proof {
                        assert forall|v: int| #[trigger] in_seq(self@, v) implies lb as int <= v by {
                            lemma_in_seq_bounds(self@, v);
                        }
                    }
                    r
                }
            },
        }
    }

    /// The set of values of `self` at or below `ub`.
    pub fn shrink_right(&self, ub: i32) -> (r: IntervalSet)
        requires
            self.wf(),
        ensures
            r.wf(),
            forall|v: int|
                #[trigger] r.contains_val(v) <==> self.contains_val(v) && v <= ub as int,
    {
        let n = self.ivs.len();
        match self.find_interval(ub) {
            Some((l, rr)) => {
                let mut r = IntervalSet::empty();
                let mut k: usize = 0;
                while k < rr
                    invariant
                        self.wf(),
                        r.wf(),
                        n == self@.len(),
                        0 <= k <= rr < n,
                        r@.len() == k,
                        r@.len() > 0 ==> r@.last() == self@[k as int - 1],
                        forall|v: int|
                            #[trigger] r.contains_val(v) <==> k > 0 && in_seq(self@, v) && v
                                <= self@[k as int - 1].hi as int,
                    decreases rr - k,
                {
                    let iv = self.ivs[k];
                    let ghost r_old = r;
                    proof {
                        if k > 0 {
                            assert(self@[k as int - 1].hi as int + 1 < self@[k as int].lo as int);
                        }
                    }
                    r.push_back(iv);
                    proof {
                        assert forall|v: int|
                            #[trigger] r.contains_val(v) <==> in_seq(self@, v) && v
                                <= self@[k as int].hi as int by {
                            assert(r.contains_val(v) <==> r_old.contains_val(v) || ivl_has(iv, v));
                            if ivl_has(iv, v) {
                                assert(ivl_has(self@[k as int], v));
                            }
                            if in_seq(self@, v) && v <= self@[k as int].hi as int && (k == 0 || v
                                > self@[k as int - 1].hi as int) {
                                let m = choose|m: int|
                                    0 <= m < self@.len() && ivl_has(#[trigger] self@[m], v);
                                if m < k {
                                    if m < k - 1 {
                                        assert(self@[m].hi as int + 1
                                            < self@[k as int - 1].lo as int);
                                    }
                                    assert(false);
                                }
                                if m > k {
                                    assert(self@[k as int].hi as int + 1 < self@[m].lo as int);
                                    assert(false);
                                }
                                assert(ivl_has(iv, v));
                            }
                        }
                    }
                    k = k + 1;
                }
                let ri = self.ivs[rr];
                if ri.lo <= ub {
                    let ghost r_old = r;
                    proof {
                        if rr > 0 {
                            assert(self@[rr as int - 1].hi as int + 1 < self@[rr as int].lo as int);
                        }
                    }
                    r.push_back(Ivl { lo: ri.lo, hi: ub });
                    proof {
                        let g = Ivl { lo: self@[rr as int].lo, hi: ub };
                        assert forall|v: int|
                            #[trigger] r.contains_val(v) <==> in_seq(self@, v) && v <= ub as int by {
                            assert(r.contains_val(v) <==> r_old.contains_val(v) || ivl_has(g, v));
                            assert(l == rr ==> ivl_has(self@[rr as int], ub as int));
                            if ivl_has(g, v) {
                                assert(ivl_has(self@[rr as int], v));
                            }
                            if r_old.contains_val(v) {
                                assert(rr > 0 && v <= self@[rr as int - 1].hi as int);
                                assert(v < self@[rr as int].lo as int);
                                assert(v <= ub as int);
                            }
                            if in_seq(self@, v) && v <= ub as int && !ivl_has(g, v) {
                                let m = choose|m: int|
                                    0 <= m < self@.len() && ivl_has(#[trigger] self@[m], v);
                                if m > rr {
                                    assert(self@[rr as int].hi as int + 1 < self@[m].lo as int);
                                    assert(ivl_has(self@[rr as int], ub as int));
                                    assert(false);
                                }
                                if m == rr {
                                    assert(false);
                                }
                                assert(m < rr);
                                if m < rr - 1 {
                                    assert(self@[m].hi as int + 1 < self@[rr as int - 1].lo as int);
                                }
                                assert(rr > 0 && v <= self@[rr as int - 1].hi as int);
                                assert(r_old.contains_val(v));
                            }
                        }
                    }
                } else {
                    proof {
                        assert(l != rr || !ivl_has(self@[rr as int], ub as int));
                        assert forall|v: int|
                            #[trigger] r.contains_val(v) <==> in_seq(self@, v) && v <= ub as int by {
                            if r.contains_val(v) {
                                assert(rr > 0 && v <= self@[rr as int - 1].hi as int);
                                assert((self@[rr as int - 1].hi as int)
                                    < self@[rr as int].lo as int);
                                assert(v <= ub as int);
                            }
                            if in_seq(self@, v) && v <= ub as int {
                                let m = choose|m: int|
                                    0 <= m < self@.len() && ivl_has(#[trigger] self@[m], v);
                                if m >= rr {
                                    if m > rr {
                                        assert(self@[rr as int].hi as int + 1
                                            < self@[m].lo as int);
                                    }
                                    assert(v >= self@[rr as int].lo as int);
                                    assert(false);
                                }
                                if m < rr - 1 {
                                    assert(self@[m].hi as int + 1 < self@[rr as int - 1].lo as int);
                                }
                                assert(rr > 0 && v <= self@[rr as int - 1].hi as int);
                            }
                        }
                    }
                }
                r
            },
            None => {
                if n == 0 {
                    IntervalSet::empty()
                } else if ub < self.ivs[0].lo {
                    let r = IntervalSet::empty();
                    proof {
                        assert forall|v: int| in_seq(self@, v) implies ub as int <= v by {
                            lemma_in_seq_bounds(self@, v);
                        }
                    }
                    r
                } else {
                    let r = self.duplicate();
                    proof {
                        assert forall|v: int| #[trigger] in_seq(self@, v) implies v <= ub as int by {
                            lemma_in_seq_bounds(self@, v);
                        }
                    }
                    r
                }
            },
        }
    }
}

} // verus!
