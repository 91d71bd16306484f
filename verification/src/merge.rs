//! The merge algebra: union, overlap test and intersection, each a
//! lock-step two-cursor merge of two canonical sequences.

use vstd::prelude::*;

use crate::canon::in_seq;
use crate::canon::lemma_in_take_full;
use crate::canon::lemma_in_take_succ;
use crate::ivl::BOUND_MAX;
use crate::ivl::BOUND_MIN;
use crate::ivl::Ivl;
use crate::ivl::ivl_has;
use crate::ivl::ivl_wf;
use crate::set::IntervalSet;

verus! {

/// Whether the two canonical sequences share a covered value.
pub open spec fn sets_overlap(a: Seq<Ivl>, b: Seq<Ivl>) -> bool {
    exists|v: int| in_seq(a, v) && in_seq(b, v)
}

impl IntervalSet {
    /// The union: the set of values contained in `self` or in `rhs`.
    pub fn union(&self, rhs: &IntervalSet) -> (r: IntervalSet)
        requires
            self.wf(),
            rhs.wf(),
        ensures
            r.wf(),
            forall|v: int| r.contains_val(v) <==> self.contains_val(v) || rhs.contains_val(v),
    {
        let mut r = IntervalSet::empty();
        let mut i: usize = 0;
        let mut j: usize = 0;
        while i < self.ivs.len() && j < rhs.ivs.len()
            invariant
                self.wf(),
                rhs.wf(),
                r.wf(),
                0 <= i <= self@.len(),
                0 <= j <= rhs@.len(),
                forall|v: int|
                    r.contains_val(v) <==> in_seq(self@.take(i as int), v) || in_seq(
                        rhs@.take(j as int),
                        v,
                    ),
                r@.len() > 0 && i < self@.len() ==> r@.last().lo as int
                    <= self@[i as int].lo as int,
                r@.len() > 0 && j < rhs@.len() ==> r@.last().lo as int <= rhs@[j as int].lo as int,
            decreases self@.len() - i + rhs@.len() - j,
        {
            let x = self.ivs[i];
            let y = rhs.ivs[j];
            if x.lo <= y.lo {
                let ghost r_old = r;
                r.join_or_push(x);
                proof {
                    lemma_in_take_succ(self@, i as int);
                    if i + 1 < self@.len() {
                        assert(self@[i as int].hi as int + 1 < self@[i as int + 1].lo as int);
                    }
                    assert forall|v: int|
                        #[trigger] r.contains_val(v) <==> in_seq(self@.take(i as int + 1), v)
                            || in_seq(rhs@.take(j as int), v) by {
                        assert(r.contains_val(v) <==> r_old.contains_val(v) || ivl_has(x, v));
                        assert(in_seq(self@.take(i as int + 1), v) <==> in_seq(
                            self@.take(i as int),
                            v,
                        ) || ivl_has(x, v));
                    }
                }
                i = i + 1;
            } else {
                let ghost r_old = r;
                r.join_or_push(y);
                proof {
                    lemma_in_take_succ(rhs@, j as int);
                    if j + 1 < rhs@.len() {
                        assert(rhs@[j as int].hi as int + 1 < rhs@[j as int + 1].lo as int);
                    }
                    assert forall|v: int|
                        #[trigger] r.contains_val(v) <==> in_seq(self@.take(i as int), v)
                            || in_seq(rhs@.take(j as int + 1), v) by {
                        assert(r.contains_val(v) <==> r_old.contains_val(v) || ivl_has(y, v));
                        assert(in_seq(rhs@.take(j as int + 1), v) <==> in_seq(
                            rhs@.take(j as int),
                            v,
                        ) || ivl_has(y, v));
                    }
                }
                j = j + 1;
            }
        }
        while i < self.ivs.len()
            invariant
                self.wf(),
                rhs.wf(),
                r.wf(),
                0 <= i <= self@.len(),
                0 <= j <= rhs@.len(),
                i < self@.len() ==> j == rhs@.len(),
                forall|v: int|
                    r.contains_val(v) <==> in_seq(self@.take(i as int), v) || in_seq(
                        rhs@.take(j as int),
                        v,
                    ),
                r@.len() > 0 && i < self@.len() ==> r@.last().lo as int
                    <= self@[i as int].lo as int,
                r@.len() > 0 && j < rhs@.len() ==> r@.last().lo as int <= rhs@[j as int].lo as int,
            decreases self@.len() - i,
        {
            let x = self.ivs[i];
            let ghost r_old = r;
            r.join_or_push(x);
            proof {
                lemma_in_take_succ(self@, i as int);
                if i + 1 < self@.len() {
                    assert(self@[i as int].hi as int + 1 < self@[i as int + 1].lo as int);
                }
                assert forall|v: int|
                    #[trigger] r.contains_val(v) <==> in_seq(self@.take(i as int + 1), v)
                        || in_seq(rhs@.take(j as int), v) by {
                    assert(r.contains_val(v) <==> r_old.contains_val(v) || ivl_has(x, v));
                    assert(in_seq(self@.take(i as int + 1), v) <==> in_seq(self@.take(i as int), v)
                        || ivl_has(x, v));
                }
            }
            i = i + 1;
        }
        while j < rhs.ivs.len()
            invariant
                self.wf(),
                rhs.wf(),
                r.wf(),
                0 <= i <= self@.len(),
                0 <= j <= rhs@.len(),
                i == self@.len(),
                forall|v: int|
                    r.contains_val(v) <==> in_seq(self@.take(i as int), v) || in_seq(
                        rhs@.take(j as int),
                        v,
                    ),
                r@.len() > 0 && j < rhs@.len() ==> r@.last().lo as int <= rhs@[j as int].lo as int,
            decreases rhs@.len() - j,
        {
            let y = rhs.ivs[j];
            let ghost r_old = r;
            r.join_or_push(y);
            proof {
                lemma_in_take_succ(rhs@, j as int);
                if j + 1 < rhs@.len() {
                    assert(rhs@[j as int].hi as int + 1 < rhs@[j as int + 1].lo as int);
                }
                assert forall|v: int|
                    #[trigger] r.contains_val(v) <==> in_seq(self@.take(i as int), v) || in_seq(
                        rhs@.take(j as int + 1),
                        v,
                    ) by {
                    assert(r.contains_val(v) <==> r_old.contains_val(v) || ivl_has(y, v));
                    assert(in_seq(rhs@.take(j as int + 1), v) <==> in_seq(rhs@.take(j as int), v)
                        || ivl_has(y, v));
                }
            }
            j = j + 1;
        }
        proof {
            lemma_in_take_full(self@);
            lemma_in_take_full(rhs@);
        }
        r
    }

    /// The union with the single value `v`.
    pub fn union_value(&self, v: i32) -> (r: IntervalSet)
        requires
            self.wf(),
            BOUND_MIN <= v <= BOUND_MAX,
        ensures
            r.wf(),
            forall|w: int| r.contains_val(w) <==> self.contains_val(w) || w == v as int,
    {
        self.union(&IntervalSet::singleton(v))
    }

    /// Whether the two sets share at least one value.
    pub fn overlap(&self, rhs: &IntervalSet) -> (r: bool)
        requires
            self.wf(),
            rhs.wf(),
        ensures
            r == sets_overlap(self@, rhs@),
    {
        let mut i: usize = 0;
        let mut j: usize = 0;
        proof {
            assert(self@.skip(0) =~= self@);
            assert(rhs@.skip(0) =~= rhs@);
        }
        while i < self.ivs.len() && j < rhs.ivs.len()
            invariant
                self.wf(),
                rhs.wf(),
                0 <= i <= self@.len(),
                0 <= j <= rhs@.len(),
                forall|v: int|
                    in_seq(self@, v) && in_seq(rhs@, v) ==> in_seq(self@.skip(i as int), v)
                        && in_seq(rhs@.skip(j as int), v),
            decreases self@.len() - i + rhs@.len() - j,
        {
            let x = self.ivs[i];
            let y = rhs.ivs[j];
            if x.hi < y.lo {
                proof {
                    let sk = self@.skip(i as int);
                    let rk = rhs@.skip(j as int);
                    let sk1 = self@.skip(i as int + 1);
                    assert forall|v: int| in_seq(self@, v) && in_seq(rhs@, v) implies in_seq(
                        sk1,
                        v,
                    ) && in_seq(rk, v) by {
                        assert(in_seq(sk, v) && in_seq(rk, v));
                        let k = choose|k: int| 0 <= k < sk.len() && ivl_has(#[trigger] sk[k], v);
                        let m = choose|m: int| 0 <= m < rk.len() && ivl_has(#[trigger] rk[m], v);
                        assert(rk[m] == rhs@[j + m]);
                        if m > 0 {
                            assert(rhs@[j as int].hi as int + 1 < rhs@[j + m].lo as int);
                        }
                        assert(v >= y.lo as int);
                        assert(sk[k] == self@[i + k]);
                        if k == 0 {
                            assert(v <= x.hi as int);
                            assert(false);
                        }
                        assert(sk1[k - 1] == self@[i + k]);
                        assert(ivl_has(sk1[k - 1], v));
                    }
                }
                i = i + 1;
            } else if y.hi < x.lo {
                proof {
                    let sk = self@.skip(i as int);
                    let rk = rhs@.skip(j as int);
                    let rk1 = rhs@.skip(j as int + 1);
                    assert forall|v: int| in_seq(self@, v) && in_seq(rhs@, v) implies in_seq(
                        sk,
                        v,
                    ) && in_seq(rk1, v) by {
                        assert(in_seq(sk, v) && in_seq(rk, v));
                        let k = choose|k: int| 0 <= k < sk.len() && ivl_has(#[trigger] sk[k], v);
                        let m = choose|m: int| 0 <= m < rk.len() && ivl_has(#[trigger] rk[m], v);
                        assert(sk[k] == self@[i + k]);
                        if k > 0 {
                            assert(self@[i as int].hi as int + 1 < self@[i + k].lo as int);
                        }
                        assert(v >= x.lo as int);
                        assert(rk[m] == rhs@[j + m]);
                        if m == 0 {
                            assert(v <= y.hi as int);
                            assert(false);
                        }
                        assert(rk1[m - 1] == rhs@[j + m]);
                        assert(ivl_has(rk1[m - 1], v));
                    }
                }
                j = j + 1;
            } else {
                proof {
                    let w: int = if x.lo >= y.lo {
                        x.lo as int
                    } else {
                        y.lo as int
                    };
                    assert(ivl_has(x, w) && ivl_has(y, w));
                    assert(ivl_has(self@[i as int], w));
                    assert(ivl_has(rhs@[j as int], w));
                    assert(in_seq(self@, w) && in_seq(rhs@, w));
                }
                return true;
            }
        }
        proof {
            if sets_overlap(self@, rhs@) {
                let v = choose|v: int| in_seq(self@, v) && in_seq(rhs@, v);
                assert(in_seq(self@.skip(i as int), v) && in_seq(rhs@.skip(j as int), v));
                assert(false);
            }
        }
        false
    }

    /// Whether the two sets share no value.
    pub fn is_disjoint(&self, rhs: &IntervalSet) -> (r: bool)
        requires
            self.wf(),
            rhs.wf(),
        ensures
            r == !sets_overlap(self@, rhs@),
    {
        !self.overlap(rhs)
    }

    /// The intersection: the set of values contained in both operands.
    pub fn intersection(&self, rhs: &IntervalSet) -> (r: IntervalSet)
        requires
            self.wf(),
            rhs.wf(),
        ensures
            r.wf(),
            forall|v: int| r.contains_val(v) <==> self.contains_val(v) && rhs.contains_val(v),
    {
        let mut r = IntervalSet::empty();
        let mut i: usize = 0;
        let mut j: usize = 0;
        while i < self.ivs.len() && j < rhs.ivs.len()
            invariant
                self.wf(),
                rhs.wf(),
                r.wf(),
                0 <= i <= self@.len(),
                0 <= j <= rhs@.len(),
                forall|v: int|
                    r.contains_val(v) <==> (in_seq(self@.take(i as int), v) && in_seq(rhs@, v)) || (
                    in_seq(self@, v) && in_seq(rhs@.take(j as int), v)),
                r@.len() > 0 && i < self@.len() && j < rhs@.len() ==> (self@[i as int].lo as int
                    > r@.last().hi as int + 1 || rhs@[j as int].lo as int > r@.last().hi as int
                    + 1),
            decreases self@.len() - i + rhs@.len() - j,
        {
            let x = self.ivs[i];
            let y = rhs.ivs[j];
            let ghost r_old = r;
            if x.hi < y.lo {
                proof {
                    lemma_in_take_succ(self@, i as int);
                    assert forall|v: int| ivl_has(x, v) && in_seq(rhs@, v) implies in_seq(
                        rhs@.take(j as int),
                        v,
                    ) by {
                        let m = choose|m: int| 0 <= m < rhs@.len() && ivl_has(#[trigger] rhs@[m], v);
                        if m >= j {
                            if m > j {
                                assert(rhs@[j as int].hi as int + 1 < rhs@[m].lo as int);
                            }
                            assert(v >= y.lo as int);
                            assert(false);
                        }
                        assert(rhs@.take(j as int)[m] == rhs@[m]);
                        assert(ivl_has(rhs@.take(j as int)[m], v));
                    }
                    assert forall|v: int| in_seq(self@.take(i as int + 1), v) && in_seq(rhs@, v)
                        implies r.contains_val(v) by {
                        if in_seq(self@.take(i as int), v) {
                        } else {
                            assert(ivl_has(self@[i as int], v));
                        }
                    }
                    if i + 1 < self@.len() && r@.len() > 0 {
                        assert(self@[i as int].hi as int + 1 < self@[i as int + 1].lo as int);
                    }
                }
                i = i + 1;
            } else if y.hi < x.lo {
                proof {
                    lemma_in_take_succ(rhs@, j as int);
                    assert forall|v: int| ivl_has(y, v) && in_seq(self@, v) implies in_seq(
                        self@.take(i as int),
                        v,
                    ) by {
                        let m = choose|m: int|
                            0 <= m < self@.len() && ivl_has(#[trigger] self@[m], v);
                        if m >= i {
                            if m > i {
                                assert(self@[i as int].hi as int + 1 < self@[m].lo as int);
                            }
                            assert(v >= x.lo as int);
                            assert(false);
                        }
                        assert(self@.take(i as int)[m] == self@[m]);
                        assert(ivl_has(self@.take(i as int)[m], v));
                    }
                    if j + 1 < rhs@.len() && r@.len() > 0 {
                        assert(rhs@[j as int].hi as int + 1 < rhs@[j as int + 1].lo as int);
                    }
                }
                j = j + 1;
            } else {
                // The current intervals overlap: emit their exact overlap,
                // then advance the one that ends first.
                let e = Ivl {
                    lo: if x.lo >= y.lo { x.lo } else { y.lo },
                    hi: if x.hi <= y.hi { x.hi } else { y.hi },
                };
                r.push_back(e);
                proof {
                    assert forall|v: int| ivl_has(e, v) implies ivl_has(x, v) && ivl_has(y, v) by {}
                    lemma_in_take_succ(self@, i as int);
                    lemma_in_take_succ(rhs@, j as int);
                }
                if x.hi <= y.hi {
                    proof {
                        assert forall|v: int|
                            in_seq(self@.take(i as int + 1), v) && in_seq(rhs@, v) implies
                            r.contains_val(v) by {
                            if in_seq(self@.take(i as int), v) {
                                assert(r_old.contains_val(v));
                            } else {
                                assert(ivl_has(self@[i as int], v));
                                let m = choose|m: int|
                                    0 <= m < rhs@.len() && ivl_has(#[trigger] rhs@[m], v);
                                if m < j {
                                    assert(rhs@.take(j as int)[m] == rhs@[m]);
                                    assert(in_seq(rhs@.take(j as int), v));
                                    assert(r_old.contains_val(v));
                                } else if m == j {
                                    assert(ivl_has(e, v));
                                } else {
                                    assert(rhs@[j as int].hi as int + 1 < rhs@[m].lo as int);
                                    assert(v > y.hi as int);
                                    assert(v <= x.hi as int);
                                    assert(false);
                                }
                            }
                        }
                        assert forall|v: int| r.contains_val(v) implies (in_seq(
                            self@.take(i as int + 1),
                            v,
                        ) && in_seq(rhs@, v)) || (in_seq(self@, v) && in_seq(
                            rhs@.take(j as int),
                            v,
                        )) by {
                            if r_old.contains_val(v) {
                                if in_seq(self@.take(i as int), v) && in_seq(rhs@, v) {
                                    assert(in_seq(self@.take(i as int + 1), v));
                                }
                            } else {
                                assert(ivl_has(e, v));
                                assert(ivl_has(self@[i as int], v));
                                assert(in_seq(self@.take(i as int + 1), v));
                                assert(ivl_has(rhs@[j as int], v));
                                assert(in_seq(rhs@, v));
                            }
                        }
                        if i + 1 < self@.len() {
                            assert(self@[i as int].hi as int + 1 < self@[i as int + 1].lo as int);
                        }
                    }
                    i = i + 1;
                } else {
                    proof {
                        assert forall|v: int|
                            in_seq(rhs@.take(j as int + 1), v) && in_seq(self@, v) implies
                            r.contains_val(v) by {
                            if in_seq(rhs@.take(j as int), v) {
                                assert(r_old.contains_val(v));
                            } else {
                                assert(ivl_has(rhs@[j as int], v));
                                let m = choose|m: int|
                                    0 <= m < self@.len() && ivl_has(#[trigger] self@[m], v);
                                if m < i {
                                    assert(self@.take(i as int)[m] == self@[m]);
                                    assert(in_seq(self@.take(i as int), v));
                                    assert(r_old.contains_val(v));
                                } else if m == i {
                                    assert(ivl_has(e, v));
                                } else {
                                    assert(self@[i as int].hi as int + 1 < self@[m].lo as int);
                                    assert(v > x.hi as int);
                                    assert(v <= y.hi as int);
                                    assert(false);
                                }
                            }
                        }
                        assert forall|v: int| r.contains_val(v) implies (in_seq(
                            self@.take(i as int),
                            v,
                        ) && in_seq(rhs@, v)) || (in_seq(self@, v) && in_seq(
                            rhs@.take(j as int + 1),
                            v,
                        )) by {
                            if r_old.contains_val(v) {
                                if in_seq(self@, v) && in_seq(rhs@.take(j as int), v) {
                                    assert(in_seq(rhs@.take(j as int + 1), v));
                                }
                            } else {
                                assert(ivl_has(e, v));
                                assert(ivl_has(rhs@[j as int], v));
                                assert(in_seq(rhs@.take(j as int + 1), v));
                                assert(ivl_has(self@[i as int], v));
                                assert(in_seq(self@, v));
                            }
                        }
                        if j + 1 < rhs@.len() {
                            assert(rhs@[j as int].hi as int + 1 < rhs@[j as int + 1].lo as int);
                        }
                    }
                    j = j + 1;
                }
            }
        }
        proof {
            lemma_in_take_full(self@);
            lemma_in_take_full(rhs@);
            assert forall|v: int| in_seq(self@.take(i as int), v) implies in_seq(self@, v) by {
                let k = choose|k: int|
                    0 <= k < self@.take(i as int).len() && ivl_has(#[trigger] self@.take(i as int)[k], v);
                assert(self@.take(i as int)[k] == self@[k]);
                assert(ivl_has(self@[k], v));
            }
            assert forall|v: int| in_seq(rhs@.take(j as int), v) implies in_seq(rhs@, v) by {
                let k = choose|k: int|
                    0 <= k < rhs@.take(j as int).len() && ivl_has(#[trigger] rhs@.take(j as int)[k], v);
                assert(rhs@.take(j as int)[k] == rhs@[k]);
                assert(ivl_has(rhs@[k], v));
            }
        }
        r
    }

    /// The intersection with the single value `v`: the singleton of `v` if
    /// the set contains it, the empty set otherwise.
    pub fn intersection_value(&self, v: i32) -> (r: IntervalSet)
        requires
            self.wf(),
            BOUND_MIN <= v <= BOUND_MAX,
        ensures
            r.wf(),
            forall|w: int| r.contains_val(w) <==> self.contains_val(w) && w == v as int,
    {
        self.intersection(&IntervalSet::singleton(v))
    }
}

} // verus!
