//! The canonical store: the `IntervalSet` type, its invariant, its
//! invariant-preserving mutators and its basic accessors.
//!
//! The store holds a sorted vector of pairwise non-adjacent intervals and a
//! cached total cardinality.  The cache is adjusted incrementally by the two
//! primitive mutators (`push_back`, `pop_back`); it is never recomputed by
//! re-summing.

use vstd::prelude::*;

use crate::canon::in_seq;
use crate::canon::lemma_count_bounds;
use crate::canon::lemma_in_seq_bounds;
use crate::canon::lemma_wf_drop_last;
use crate::canon::seq_count;
use crate::canon::wf_seq;
use crate::ivl::BOUND_MAX;
use crate::ivl::BOUND_MIN;
use crate::ivl::Ivl;
use crate::ivl::ivl_count;
use crate::ivl::ivl_has;
use crate::ivl::ivl_wf;

verus! {

/// A finite union of disjoint, non-adjacent closed `i32` intervals in
/// canonical form, with a cached total cardinality.
#[derive(Debug)]
pub struct IntervalSet {
    pub ivs: Vec<Ivl>,
    pub size: u32,
}

impl View for IntervalSet {
    type V = Seq<Ivl>;

    open spec fn view(&self) -> Seq<Ivl> {
        self.ivs@
    }
}

/// The exact cardinality of an interval, as a `u32`.
pub(crate) fn ivl_size(iv: Ivl) -> (n: u32)
    requires
        ivl_wf(iv),
    ensures
        n as int == ivl_count(iv),
{
    ((iv.hi as i64) - (iv.lo as i64) + 1) as u32
}

impl IntervalSet {
    /// Well-formedness: the intervals are canonical and the cached size is
    /// the summed cardinality.
    pub open spec fn wf(&self) -> bool {
        wf_seq(self@) && self.size as int == seq_count(self@)
    }

    /// Whether the set contains the value `v`.
    pub open spec fn contains_val(&self, v: int) -> bool {
        in_seq(self@, v)
    }

    /// The empty set.
    pub fn empty() -> (r: IntervalSet)
        ensures
            r.wf(),
            r@.len() == 0,
            forall|v: int| !r.contains_val(v),
    {
        IntervalSet { ivs: Vec::new(), size: 0 }
    }

    /// The set holding exactly the interval `iv`.
    pub(crate) fn from_interval(iv: Ivl) -> (r: IntervalSet)
        requires
            ivl_wf(iv),
        ensures
            r.wf(),
            r@ =~= seq![iv],
            forall|v: int| r.contains_val(v) <==> ivl_has(iv, v),
    {
        let n = ivl_size(iv);
        let mut ivs: Vec<Ivl> = Vec::new();
        ivs.push(iv);
        let r = IntervalSet { ivs, size: n };
        proof {
            assert(r@.len() == 1);
            assert(r@[0] == iv);
            assert(r@.last() == iv);
            assert(r@.drop_last() =~= Seq::<Ivl>::empty());
            assert(seq_count(r@.drop_last()) == 0);
            assert(seq_count(r@) == seq_count(r@.drop_last()) + ivl_count(iv));
            assert forall|v: int| r.contains_val(v) implies ivl_has(iv, v) by {
                let i = choose|i: int| 0 <= i < r@.len() && ivl_has(#[trigger] r@[i], v);
            }
            assert forall|v: int| ivl_has(iv, v) implies r.contains_val(v) by {
                assert(ivl_has(r@[0], v));
            }
        }
        r
    }

    /// The set of all values from `lb` to `ub` inclusive.
    pub fn new(lb: i32, ub: i32) -> (r: IntervalSet)
        requires
            BOUND_MIN <= lb <= ub <= BOUND_MAX,
        ensures
            r.wf(),
            r@ =~= seq![Ivl { lo: lb, hi: ub }],
            forall|v: int| r.contains_val(v) <==> lb as int <= v <= ub as int,
    {
        Self::from_interval(Ivl { lo: lb, hi: ub })
    }

    /// The set holding the single value `x`.
    pub fn singleton(x: i32) -> (r: IntervalSet)
        requires
            BOUND_MIN <= x <= BOUND_MAX,
        ensures
            r.wf(),
            forall|v: int| r.contains_val(v) <==> v == x as int,
    {
        Self::new(x, x)
    }

    /// The whole representable range, from the minus-infinity sentinel to
    /// the plus-infinity sentinel.
    pub fn whole() -> (r: IntervalSet)
        ensures
            r.wf(),
            forall|v: int| r.contains_val(v) <==> BOUND_MIN <= v <= BOUND_MAX,
    {
        Self::new(BOUND_MIN, BOUND_MAX)
    }

    /// Appends an interval known to lie wholly beyond the current back,
    /// adjusting the cached size; for callers that have already resolved
    /// merging.
    pub(crate) fn push_back(&mut self, iv: Ivl)
        requires
            old(self).wf(),
            ivl_wf(iv),
            old(self)@.len() > 0 ==> old(self)@.last().hi as int + 1 < iv.lo as int,
        ensures
            final(self).wf(),
            final(self)@ == old(self)@.push(iv),
            forall|v: int|
                (#[trigger] final(self).contains_val(v)) <==> old(self).contains_val(v) || ivl_has(
                    iv,
                    v,
                ),
    {
        let ghost s0 = self@;
        let ghost s1 = self@.push(iv);
        proof {
            assert forall|i: int, j: int| 0 <= i < j < s1.len() implies (#[trigger] s1[i]).hi as int
                + 1 < (#[trigger] s1[j]).lo as int by {
                if j < s1.len() - 1 {
                    assert(s1[i] == s0[i] && s1[j] == s0[j]);
                } else {
                    assert(s1[j] == iv);
                    if i < s0.len() - 1 {
                        assert(s1[i] == s0[i]);
                        assert(s0[i].hi as int + 1 < s0[s0.len() - 1].lo as int);
                        assert(ivl_wf(s0[s0.len() - 1]));
                    }
                }
            }
            assert forall|i: int| 0 <= i < s1.len() implies ivl_wf(#[trigger] s1[i]) by {
                if i < s0.len() {
                    assert(s1[i] == s0[i]);
                }
            }
            assert(wf_seq(s1));
            assert(s1.drop_last() =~= s0);
            assert(s1.last() == iv);
            assert(seq_count(s1) == seq_count(s0) + ivl_count(iv));
            lemma_count_bounds(s1);
            assert(s1[0].lo >= BOUND_MIN && s1.last().hi <= BOUND_MAX);
        }
        let n = ivl_size(iv);
        self.size = self.size + n;
        self.ivs.push(iv);
        proof {
            assert forall|v: int|
                final(self).contains_val(v) <==> old(self).contains_val(v) || ivl_has(iv, v) by {
                if self.contains_val(v) {
                    let i = choose|i: int| 0 <= i < s1.len() && ivl_has(#[trigger] s1[i], v);
                    if i < s0.len() {
                        assert(ivl_has(s0[i], v));
                    }
                } else {
                    if in_seq(s0, v) {
                        let i = choose|i: int| 0 <= i < s0.len() && ivl_has(#[trigger] s0[i], v);
                        assert(ivl_has(s1[i], v));
                    }
                    if ivl_has(iv, v) {
                        assert(ivl_has(s1[s1.len() - 1], v));
                    }
                }
            }
        }
    }

    /// Removes and returns the last interval, adjusting the cached size.
    pub(crate) fn pop_back(&mut self) -> (iv: Ivl)
        requires
            old(self).wf(),
            old(self)@.len() > 0,
        ensures
            final(self).wf(),
            iv == old(self)@.last(),
            final(self)@ == old(self)@.drop_last(),
    {
        proof {
            lemma_wf_drop_last(self@);
            lemma_count_bounds(self@.drop_last());
            assert(self@.drop_last().push(self@.last()) =~= self@);
            assert(self@.drop_last() =~= self@.drop_last().push(self@.last()).drop_last());
            assert(seq_count(self@) == seq_count(self@.drop_last()) + ivl_count(self@.last()));
        }
        let iv = self.ivs.pop().unwrap();
        let n = ivl_size(iv);
        self.size = self.size - n;
        iv
    }

    /// Appends an interval that may overlap or touch the current back: the
    /// two are replaced by their hull in that case.  Append-only: the new
    /// interval must not start before the current back does.
    pub(crate) fn join_or_push(&mut self, iv: Ivl)
        requires
            old(self).wf(),
            ivl_wf(iv),
            old(self)@.len() > 0 ==> old(self)@.last().lo as int <= iv.lo as int,
        ensures
            final(self).wf(),
            final(self)@.len() > 0,
            final(self)@.last().lo as int <= iv.lo as int,
            forall|v: int|
                (#[trigger] final(self).contains_val(v)) <==> old(self).contains_val(v) || ivl_has(
                    iv,
                    v,
                ),
    {
        if self.ivs.len() == 0 {
            self.push_back(iv);
        } else {
            let last = self.ivs[self.ivs.len() - 1];
            proof {
                assert(last == self@.last());
            }
            if last.hi == BOUND_MAX || last.hi + 1 >= iv.lo {
                let popped = self.pop_back();
                let hull = Ivl { lo: popped.lo, hi: if popped.hi >= iv.hi { popped.hi } else { iv.hi } };
                proof {
                    let t = self@;
                    if t.len() > 0 {
                        assert(t[t.len() - 1] == old(self)@[old(self)@.len() - 2]);
                        assert(t[t.len() - 1].hi as int + 1 < popped.lo as int);
                    }
                }
                self.push_back(hull);
                proof {
                    let s0 = old(self)@;
                    assert(s0.drop_last().push(hull) == final(self)@);
                    assert forall|v: int|
                        final(self).contains_val(v) <==> old(self).contains_val(v) || ivl_has(
                            iv,
                            v,
                        ) by {
                        // The hull of two joinable intervals covers exactly
                        // their union of values.
                        assert(ivl_has(hull, v) <==> ivl_has(popped, v) || ivl_has(iv, v));
                        assert(in_seq(s0, v) <==> in_seq(s0.drop_last(), v) || ivl_has(popped, v))
                            by {
                            if in_seq(s0, v) {
                                let i = choose|i: int|
                                    0 <= i < s0.len() && ivl_has(#[trigger] s0[i], v);
                                if i < s0.len() - 1 {
                                    assert(ivl_has(s0.drop_last()[i], v));
                                }
                            } else {
                                if in_seq(s0.drop_last(), v) {
                                    let i = choose|i: int|
                                        0 <= i < s0.drop_last().len() && ivl_has(
                                            #[trigger] s0.drop_last()[i],
                                            v,
                                        );
                                    assert(ivl_has(s0[i], v));
                                }
                                assert(!ivl_has(s0[s0.len() - 1], v));
                            }
                        }
                    }
                }
            } else {
                self.push_back(iv);
            }
        }
    }

    /// The number of values the set contains.
    pub fn size(&self) -> (n: u32)
        requires
            self.wf(),
        ensures
            n as int == seq_count(self@),
    {
        self.size
    }

    /// Whether the set contains no value.
    pub fn is_empty(&self) -> (r: bool)
        requires
            self.wf(),
        ensures
            r == (self@.len() == 0),
            r == !(exists|v: int| self.contains_val(v)),
    {
        proof {
            if self@.len() > 0 {
                assert(ivl_has(self@[0], self@[0].lo as int));
                assert(self.contains_val(self@[0].lo as int));
            }
        }
        self.ivs.len() == 0
    }

    /// The number of intervals of the canonical form.
    pub fn interval_count(&self) -> (n: usize)
        ensures
            n == self@.len(),
    {
        self.ivs.len()
    }

    /// The smallest value of a non-empty set.
    pub fn lower(&self) -> (r: i32)
        requires
            self.wf(),
            self@.len() > 0,
        ensures
            r == self@[0].lo,
            self.contains_val(r as int),
            forall|v: int| self.contains_val(v) ==> r as int <= v,
    {
        proof {
            assert(ivl_has(self@[0], self@[0].lo as int));
            assert forall|v: int| self.contains_val(v) implies self@[0].lo as int <= v by {
                lemma_in_seq_bounds(self@, v);
            }
        }
        self.ivs[0].lo
    }

    /// The largest value of a non-empty set.
    pub fn upper(&self) -> (r: i32)
        requires
            self.wf(),
            self@.len() > 0,
        ensures
            r == self@.last().hi,
            self.contains_val(r as int),
            forall|v: int| self.contains_val(v) ==> v <= r as int,
    {
        proof {
            assert(ivl_has(self@[self@.len() - 1], self@.last().hi as int));
            assert forall|v: int| self.contains_val(v) implies v <= self@.last().hi as int by {
                lemma_in_seq_bounds(self@, v);
            }
        }
        self.ivs[self.ivs.len() - 1].hi
    }

    /// The intervals of the canonical form, in ascending order, as
    /// `(lower, upper)` pairs.
    pub fn iter(&self) -> (r: Vec<(i32, i32)>)
        ensures
            r@.len() == self@.len(),
            forall|i: int|
                0 <= i < self@.len() ==> (#[trigger] r@[i]).0 == self@[i].lo && r@[i].1
                    == self@[i].hi,
    {
        let mut r: Vec<(i32, i32)> = Vec::new();
        let mut k: usize = 0;
        while k < self.ivs.len()
            invariant
                0 <= k <= self@.len(),
                r@.len() == k,
                forall|i: int|
                    0 <= i < k ==> (#[trigger] r@[i]).0 == self@[i].lo && r@[i].1 == self@[i].hi,
            decreases self@.len() - k,
        {
            let iv = self.ivs[k];
            r.push((iv.lo, iv.hi));
            k = k + 1;
        }
        r
    }

    /// An exact copy of the set.
    pub fn duplicate(&self) -> (r: IntervalSet)
        ensures
            r@ == self@,
            r.size == self.size,
    {
        let mut ivs: Vec<Ivl> = Vec::new();
        let mut k: usize = 0;
        while k < self.ivs.len()
            invariant
                0 <= k <= self@.len(),
                ivs@ =~= self@.take(k as int),
            decreases self@.len() - k,
        {
            ivs.push(self.ivs[k]);
            k = k + 1;
        }
        proof {
            assert(ivs@ =~= self@);
        }
        IntervalSet { ivs, size: self.size }
    }
}

impl PartialEq for IntervalSet {
    /// Two sets are equal when the cached sizes and the canonical interval
    /// sequences agree.
    fn eq(&self, other: &IntervalSet) -> (r: bool) {
        if self.size != other.size {
            return false;
        }
        if self.ivs.len() != other.ivs.len() {
            proof {
                assert(self@ !~= other@);
            }
            return false;
        }
        let mut k: usize = 0;
        while k < self.ivs.len()
            invariant
                0 <= k <= self@.len(),
                self@.len() == other@.len(),
                self.size == other.size,
                forall|i: int| 0 <= i < k ==> self@[i] == other@[i],
            decreases self@.len() - k,
        {
            let a = self.ivs[k];
            let b = other.ivs[k];
            if a.lo != b.lo || a.hi != b.hi {
                proof {
                    assert(self@[k as int] !~= other@[k as int]);
                }
                return false;
            }
            proof {
                assert(self@[k as int] =~= other@[k as int]);
            }
            k = k + 1;
        }
        proof {
            assert(self@ =~= other@);
        }
        true
    }
}

impl Eq for IntervalSet {

}

impl vstd::std_specs::cmp::PartialEqSpecImpl for IntervalSet {
    open spec fn obeys_eq_spec() -> bool {
        true
    }

    open spec fn eq_spec(&self, other: &IntervalSet) -> bool {
        self@ == other@ && self.size == other.size
    }
}

} // verus!
