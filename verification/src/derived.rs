//! The derived algebra: complement via sentinel gap-filling, and the two
//! difference operations expressed through union, intersection and
//! complement.

use vstd::prelude::*;

use crate::canon::in_seq;
use crate::canon::lemma_in_seq_bounds;
use crate::ivl::BOUND_MAX;
use crate::ivl::BOUND_MIN;
use crate::ivl::Ivl;
use crate::ivl::ivl_has;
use crate::set::IntervalSet;

verus! {

impl IntervalSet {
    /// The complement with respect to the whole representable range
    /// `[BOUND_MIN, BOUND_MAX]`.
    pub fn complement(&self) -> (r: IntervalSet)
        requires
            self.wf(),
        ensures
            r.wf(),
            forall|v: int|
                #[trigger] r.contains_val(v) <==> BOUND_MIN <= v <= BOUND_MAX
                    && !self.contains_val(v),
    {
        let mut r = IntervalSet::empty();
        let n = self.ivs.len();
        if n == 0 {
            r.push_back(Ivl { lo: BOUND_MIN, hi: BOUND_MAX });
            return r;
        }
        let first = self.ivs[0];
        if first.lo > BOUND_MIN {
            r.push_back(Ivl { lo: BOUND_MIN, hi: first.lo - 1 });
        }
        proof {
            assert forall|v: int|
                #[trigger] r.contains_val(v) <==> BOUND_MIN <= v <= self@[0].hi as int && !in_seq(
                    self@,
                    v,
                ) by {
                if BOUND_MIN <= v <= self@[0].hi as int && !in_seq(self@, v) {
                    assert(!ivl_has(self@[0], v));
                }
                if r.contains_val(v) {
                    if in_seq(self@, v) {
                        lemma_in_seq_bounds(self@, v);
                    }
                }
            }
        }
        let mut i: usize = 1;
        while i < n
            invariant
                self.wf(),
                r.wf(),
                n == self@.len(),
                1 <= i <= n,
                forall|v: int|
                    #[trigger] r.contains_val(v) <==> BOUND_MIN <= v <= self@[i as int - 1].hi as int
                        && !in_seq(self@, v),
                r@.len() > 0 ==> (r@.last().hi as int) < self@[i as int - 1].lo as int,
            decreases n - i,
        {
            let prev = self.ivs[i - 1];
            let cur = self.ivs[i];
            let ghost r_old = r;
            proof {
                assert(prev.hi as int + 1 < cur.lo as int);
            }
            r.push_back(Ivl { lo: prev.hi + 1, hi: cur.lo - 1 });
            proof {
                let g = Ivl { lo: (prev.hi + 1) as i32, hi: (cur.lo - 1) as i32 };
                assert forall|v: int|
                    #[trigger] r.contains_val(v) <==> BOUND_MIN <= v <= self@[i as int].hi as int
                        && !in_seq(self@, v) by {
                    assert(r.contains_val(v) <==> r_old.contains_val(v) || ivl_has(g, v));
                    if ivl_has(g, v) {
                        // A value in the gap lies in no interval: those
                        // before end at or before `prev.hi`, those after
                        // start at or after `cur.lo`.
                        if in_seq(self@, v) {
                            let k = choose|k: int|
                                0 <= k < self@.len() && ivl_has(#[trigger] self@[k], v);
                            if k <= i - 1 {
                                if k < i - 1 {
                                    assert(self@[k].hi as int + 1
                                        < self@[i as int - 1].lo as int);
                                }
                                assert(false);
                            } else {
                                if k > i {
                                    assert(self@[i as int].hi as int + 1 < self@[k].lo as int);
                                }
                                assert(false);
                            }
                        }
                    }
                    if BOUND_MIN <= v <= self@[i as int].hi as int && !in_seq(self@, v) {
                        if v > self@[i as int - 1].hi as int {
                            assert(!ivl_has(self@[i as int], v));
                            assert(ivl_has(g, v));
                        }
                    }
                }
            }
            i = i + 1;
        }
        let last = self.ivs[n - 1];
        if last.hi < BOUND_MAX {
            let ghost r_old = r;
            r.push_back(Ivl { lo: last.hi + 1, hi: BOUND_MAX });
            proof {
                let g = Ivl { lo: (last.hi + 1) as i32, hi: BOUND_MAX };
                assert forall|v: int|
                    #[trigger] r.contains_val(v) <==> BOUND_MIN <= v <= BOUND_MAX && !in_seq(
                        self@,
                        v,
                    ) by {
                    assert(r.contains_val(v) <==> r_old.contains_val(v) || ivl_has(g, v));
                    if ivl_has(g, v) {
                        if in_seq(self@, v) {
                            lemma_in_seq_bounds(self@, v);
                        }
                    }
                    if BOUND_MIN <= v <= BOUND_MAX && !in_seq(self@, v) {
                        if v > self@[n - 1].hi as int {
                            assert(ivl_has(g, v));
                        }
                    }
                }
            }
        } else {
            proof {
                assert forall|v: int|
                    #[trigger] r.contains_val(v) <==> BOUND_MIN <= v <= BOUND_MAX && !in_seq(
                        self@,
                        v,
                    ) by {
                    if BOUND_MIN <= v <= BOUND_MAX && !in_seq(self@, v) {
                        assert(!ivl_has(self@[n - 1], v));
                        assert(v <= self@[n - 1].hi as int);
                    }
                }
            }
        }
        r
    }

    /// The difference: the values of `self` that are not in `rhs`.
    pub fn difference(&self, rhs: &IntervalSet) -> (r: IntervalSet)
        requires
            self.wf(),
            rhs.wf(),
        ensures
            r.wf(),
            forall|v: int| r.contains_val(v) <==> self.contains_val(v) && !rhs.contains_val(v),
    {
        let r = self.intersection(&rhs.complement());
        proof {
            assert forall|v: int| r.contains_val(v) <==> self.contains_val(v)
                && !rhs.contains_val(v) by {
                if self.contains_val(v) {
                    lemma_in_seq_bounds(self@, v);
                }
            }
        }
        r
    }

    /// The difference with the single value `v`.
    pub fn difference_value(&self, v: i32) -> (r: IntervalSet)
        requires
            self.wf(),
            BOUND_MIN <= v <= BOUND_MAX,
        ensures
            r.wf(),
            forall|w: int| r.contains_val(w) <==> self.contains_val(w) && w != v as int,
    {
        self.difference(&IntervalSet::singleton(v))
    }

    /// The symmetric difference: the values in exactly one of the two sets.
    pub fn symmetric_difference(&self, rhs: &IntervalSet) -> (r: IntervalSet)
        requires
            self.wf(),
            rhs.wf(),
        ensures
            r.wf(),
            forall|v: int|
                r.contains_val(v) <==> (self.contains_val(v) != rhs.contains_val(v)),
    {
        let u = self.union(rhs);
        let x = self.intersection(rhs);
        u.difference(&x)
    }

    /// The symmetric difference with the single value `v`: removes it when
    /// present, inserts it when absent.
    pub fn symmetric_difference_value(&self, v: i32) -> (r: IntervalSet)
        requires
            self.wf(),
            BOUND_MIN <= v <= BOUND_MAX,
        ensures
            r.wf(),
            forall|w: int|
                r.contains_val(w) <==> (self.contains_val(w) != (w == v as int)),
    {
        self.symmetric_difference(&IntervalSet::singleton(v))
    }
}

} // verus!
