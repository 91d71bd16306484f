//! The order relations: subset and proper subset, the three-valued
//! entailment judgment, and the constraint-domain lattice operations.
//!
//! The subset walk reuses the locator with an ever-advancing left window
//! bound, so the whole test is linear in the number of intervals.  The
//! cardinality fast path is justified by the proved fact that coverage
//! inclusion bounds the cached sizes.

use vstd::prelude::*;

use crate::canon::in_seq;
use crate::canon::lemma_in_seq_bounds;
use crate::canon::lemma_in_take_full;
use crate::canon::lemma_in_take_succ;
use crate::canon::lemma_subset_count;
use crate::canon::lemma_subset_equal_count;
use crate::ivl::BOUND_MAX;
use crate::ivl::BOUND_MIN;
use crate::ivl::Ivl;
use crate::ivl::ivl_has;
use crate::set::IntervalSet;

verus! {

/// Coverage inclusion: every value of `a` is a value of `b`.
pub open spec fn subset_val(a: Seq<Ivl>, b: Seq<Ivl>) -> bool {
    forall|v: int| in_seq(a, v) ==> in_seq(b, v)
}

/// A three-valued truth judgment, as used in constraint propagation.
#[derive(Clone, Copy, PartialEq, Eq, Structural, Debug)]
pub enum Kleene {
    True,
    False,
    Unknown,
}

impl IntervalSet {
    /// Whether every value of `self` is a value of `other`.
    pub fn is_subset(&self, other: &IntervalSet) -> (r: bool)
        requires
            self.wf(),
            other.wf(),
        ensures
            r == subset_val(self@, other@),
    {
        let n = self.ivs.len();
        let m = other.ivs.len();
        if n == 0 {
            return true;
        }
        if m == 0 {
            proof {
                assert(ivl_has(self@[0], self@[0].lo as int));
                assert(in_seq(self@, self@[0].lo as int));
            }
            return false;
        }
        if self.size > other.size {
            proof {
                if subset_val(self@, other@) {
                    lemma_subset_count(self@, other@);
                    assert(false);
                }
            }
            return false;
        }
        // Span fast path: a set reaching below or beyond the other cannot
        // be a subset.
        if self.ivs[0].lo < other.ivs[0].lo {
            proof {
                let w = self@[0].lo as int;
                assert(ivl_has(self@[0], w));
                assert(in_seq(self@, w));
                if in_seq(other@, w) {
                    lemma_in_seq_bounds(other@, w);
                    assert(false);
                }
            }
            return false;
        }
        if self.ivs[n - 1].hi > other.ivs[m - 1].hi {
            proof {
                let w = self@[n - 1].hi as int;
                assert(ivl_has(self@[n - 1], w));
                assert(in_seq(self@, w));
                if in_seq(other@, w) {
                    lemma_in_seq_bounds(other@, w);
                    assert(false);
                }
            }
            return false;
        }
        let mut left: usize = 0;
        let mut k: usize = 0;
        while k < n
            invariant
                self.wf(),
                other.wf(),
                n == self@.len(),
                m == other@.len(),
                n > 0,
                m > 0,
                0 <= k <= n,
                left < m,
                other@[0].lo as int <= self@[0].lo as int,
                self@[n - 1].hi as int <= other@[m - 1].hi as int,
                k == 0 ==> left == 0,
                k > 0 ==> other@[left as int].lo as int <= self@[k as int - 1].lo as int
                    && self@[k as int - 1].hi as int <= other@[left as int].hi as int,
                forall|v: int| in_seq(self@.take(k as int), v) ==> in_seq(other@, v),
            decreases n - k,
        {
            let iv = self.ivs[k];
            proof {
                if k > 0 {
                    assert(self@[k as int - 1].hi as int + 1 < self@[k as int].lo as int);
                }
                if k < n - 1 {
                    assert(self@[k as int].hi as int + 1 < self@[n - 1].lo as int);
                }
            }
            let (l2, r2) = other.find_interval_between(iv.lo, left, m - 1);
            if l2 == r2 && iv.hi <= other.ivs[l2].hi {
                proof {
                    lemma_in_take_succ(self@, k as int);
                    assert forall|v: int| in_seq(self@.take(k as int + 1), v) implies in_seq(
                        other@,
                        v,
                    ) by {
                        if !in_seq(self@.take(k as int), v) {
                            assert(ivl_has(iv, v));
                            assert(ivl_has(other@[l2 as int], v));
                        }
                    }
                }
                left = l2;
                k = k + 1;
            } else {
                proof {
                    let w: int = if l2 == r2 {
                        other@[l2 as int].hi as int + 1
                    } else {
                        iv.lo as int
                    };
                    assert(ivl_has(iv, w));
                    assert(in_seq(self@, w));
                    assert(w > other@[l2 as int].hi as int);
                    assert(l2 as int + 1 < m ==> w < other@[l2 as int + 1].lo as int) by {
                        if l2 == r2 {
                            if l2 as int + 1 < m {
                                assert(other@[l2 as int].hi as int + 1
                                    < other@[l2 as int + 1].lo as int);
                            }
                        }
                    }
                    if in_seq(other@, w) {
                        let q = choose|q: int|
                            0 <= q < other@.len() && ivl_has(#[trigger] other@[q], w);
                        if q < l2 {
                            assert(other@[q].hi as int + 1 < other@[l2 as int].lo as int);
                            assert(false);
                        } else if q == l2 {
                            assert(false);
                        } else {
                            if q > l2 as int + 1 {
                                assert(other@[l2 as int + 1].hi as int + 1
                                    < other@[q].lo as int);
                                assert(other@[l2 as int + 1].lo as int <= other@[q].lo as int);
                            }
                            assert(w >= other@[q].lo as int);
                            assert(w >= other@[l2 as int + 1].lo as int);
                            assert(false);
                        }
                    }
                    assert(!subset_val(self@, other@));
                }
                return false;
            }
        }
        proof {
            lemma_in_take_full(self@);
        }
        true
    }

    /// Whether `self` is a subset of `other` and the two differ.
    pub fn is_proper_subset(&self, other: &IntervalSet) -> (r: bool)
        requires
            self.wf(),
            other.wf(),
        ensures
            r == (subset_val(self@, other@) && !subset_val(other@, self@)),
    {
        if !self.is_subset(other) {
            return false;
        }
        proof {
            if self.size == other.size {
                lemma_subset_equal_count(self@, other@);
                assert(subset_val(other@, self@));
            } else {
                if subset_val(other@, self@) {
                    lemma_subset_count(other@, self@);
                    lemma_subset_count(self@, other@);
                    assert(false);
                }
            }
        }
        self.size != other.size
    }

    /// The three-valued entailment judgment: `True` when `self` is a
    /// subset of `other`, `False` when only the converse holds, `Unknown`
    /// when neither set contains the other.
    pub fn entail(&self, other: &IntervalSet) -> (r: Kleene)
        requires
            self.wf(),
            other.wf(),
        ensures
            (r == Kleene::True) == subset_val(self@, other@),
            (r == Kleene::False) == (!subset_val(self@, other@) && subset_val(other@, self@)),
            (r == Kleene::Unknown) == (!subset_val(self@, other@) && !subset_val(other@, self@)),
    {
        if self.is_subset(other) {
            Kleene::True
        } else if other.is_subset(self) {
            Kleene::False
        } else {
            Kleene::Unknown
        }
    }

    /// The lattice join of constraint domains: intersection, which gains
    /// information.
    pub fn join(self, other: IntervalSet) -> (r: IntervalSet)
        requires
            self.wf(),
            other.wf(),
        ensures
            r.wf(),
            forall|v: int| r.contains_val(v) <==> self.contains_val(v) && other.contains_val(v),
    {
        self.intersection(&other)
    }

    /// The lattice meet of constraint domains: union, which loses
    /// information.
    pub fn meet(self, other: IntervalSet) -> (r: IntervalSet)
        requires
            self.wf(),
            other.wf(),
        ensures
            r.wf(),
            forall|v: int| r.contains_val(v) <==> self.contains_val(v) || other.contains_val(v),
    {
        self.union(&other)
    }

    /// The lattice top: the empty, most constrained domain.
    pub fn top() -> (r: IntervalSet)
        ensures
            r.wf(),
            r@.len() == 0,
            forall|v: int| !r.contains_val(v),
    {
        IntervalSet::empty()
    }

    /// The lattice bottom: the whole range, the least constrained domain.
    pub fn bot() -> (r: IntervalSet)
        ensures
            r.wf(),
            forall|v: int| r.contains_val(v) <==> BOUND_MIN <= v <= BOUND_MAX,
    {
        IntervalSet::whole()
    }
}

} // verus!
