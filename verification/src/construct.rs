//! Construction from raw bound pairs: sort by lower bound, then fold
//! left-to-right into the canonical store, merging overlapping or adjacent
//! ranges.  Out-of-order or overlapping input is normalized, never
//! rejected.

use vstd::prelude::*;

use crate::canon::in_seq;
use crate::canon::lemma_in_take_full;
use crate::canon::lemma_in_take_succ;
use crate::ivl::BOUND_MAX;
use crate::ivl::BOUND_MIN;
use crate::ivl::Ivl;
use crate::ivl::ivl_has;
use crate::ivl::ivl_wf;
use crate::set::IntervalSet;

verus! {

/// A bound pair that denotes a non-empty interval inside the sentinel
/// range.
pub open spec fn pair_ok(p: (i32, i32)) -> bool {
    BOUND_MIN <= p.0 <= p.1 <= BOUND_MAX
}

/// All pairs of the sequence are admissible.
pub open spec fn pairs_ok(ps: Seq<(i32, i32)>) -> bool {
    forall|k: int| 0 <= k < ps.len() ==> pair_ok(#[trigger] ps[k])
}

/// Whether some pair of the sequence covers the value `v`.
pub open spec fn pairs_cover(ps: Seq<(i32, i32)>, v: int) -> bool {
    exists|k: int| 0 <= k < ps.len() && ((#[trigger] ps[k]).0 as int) <= v && v <= ps[k].1 as int
}

/// Non-decreasing lower bounds.
pub open spec fn sorted_by_lo(s: Seq<Ivl>) -> bool {
    forall|i: int, j: int|
        0 <= i <= j < s.len() ==> ((#[trigger] s[i]).lo as int) <= ((#[trigger] s[j]).lo as int)
}

/// Sorts intervals by lower bound, by repeatedly extracting a minimal
/// element; keeps exactly the elements of the input.
fn sort_ivls(input: Vec<Ivl>) -> (out: Vec<Ivl>)
    ensures
        out@.len() == input@.len(),
        sorted_by_lo(out@),
        forall|x: Ivl|
            #![trigger out@.contains(x)]
            #![trigger input@.contains(x)]
            out@.contains(x) <==> input@.contains(x),
{
    let ghost orig = input@;
    let mut rest = input;
    let mut out: Vec<Ivl> = Vec::new();
    while rest.len() > 0
        invariant
            out@.len() + rest@.len() == orig.len(),
            sorted_by_lo(out@),
            forall|p: int, q: int|
                0 <= p < out@.len() && 0 <= q < rest@.len() ==> ((#[trigger] out@[p]).lo as int)
                    <= ((#[trigger] rest@[q]).lo as int),
            forall|x: Ivl|
                #![trigger out@.contains(x)]
                #![trigger rest@.contains(x)]
                #![trigger orig.contains(x)]
                (out@.contains(x) || rest@.contains(x)) <==> orig.contains(x),
        decreases rest@.len(),
    {
        let mut mi: usize = 0;
        let mut t: usize = 1;
        while t < rest.len()
            invariant
                rest@.len() > 0,
                0 <= mi < rest@.len(),
                1 <= t <= rest@.len(),
                mi < t,
                forall|q: int|
                    0 <= q < t ==> (rest@[mi as int].lo as int) <= ((#[trigger] rest@[q]).lo as int),
            decreases rest@.len() - t,
        {
            if rest[t].lo < rest[mi].lo {
                mi = t;
            }
            t = t + 1;
        }
        let ghost rest_old = rest@;
        let ghost out_old = out@;
        let x = rest.remove(mi);
        out.push(x);
        proof {
            rest_old.remove_ensures(mi as int);
            assert forall|y: Ivl|
                #![trigger out@.contains(y)]
                #![trigger rest@.contains(y)]
                #![trigger orig.contains(y)]
                (out@.contains(y) || rest@.contains(y)) <==> orig.contains(y) by {
                if out@.contains(y) {
                    let j = choose|j: int| 0 <= j < out@.len() && out@[j] == y;
                    if j < out@.len() - 1 {
                        assert(out_old[j] == y);
                        assert(out_old.contains(y));
                    } else {
                        assert(y == x);
                        assert(rest_old[mi as int] == y);
                        assert(rest_old.contains(y));
                    }
                    assert(orig.contains(y));
                } else if rest@.contains(y) {
                    let j = choose|j: int| 0 <= j < rest@.len() && rest@[j] == y;
                    if j < mi {
                        assert(rest_old[j] == y);
                    } else {
                        assert(rest_old[j + 1] == y);
                    }
                    assert(rest_old.contains(y));
                    assert(orig.contains(y));
                }
                if orig.contains(y) {
                    if out_old.contains(y) {
                        let j = choose|j: int| 0 <= j < out_old.len() && out_old[j] == y;
                        assert(out@[j] == y);
                        assert(out@.contains(y));
                    } else {
                        assert(rest_old.contains(y));
                        let j = choose|j: int| 0 <= j < rest_old.len() && rest_old[j] == y;
                        if j == mi {
                            assert(out@[out@.len() - 1] == y);
                            assert(out@.contains(y));
                        } else if j < mi {
                            assert(rest@[j] == y);
                            assert(rest@.contains(y));
                        } else {
                            assert(rest@[j - 1] == y);
                            assert(rest@.contains(y));
                        }
                    }
                }
            }
            assert forall|p: int, q: int|
                0 <= p < out@.len() && 0 <= q < rest@.len() implies ((#[trigger] out@[p]).lo as int)
                <= ((#[trigger] rest@[q]).lo as int) by {
                if q < mi {
                    assert(rest@[q] == rest_old[q]);
                } else {
                    assert(rest@[q] == rest_old[q + 1]);
                }
                if p < out@.len() - 1 {
                    assert(out@[p] == out_old[p]);
                } else {
                    assert(out@[p] == x);
                    assert(rest_old.contains(rest@[q]));
                }
            }
            assert forall|i: int, j: int| 0 <= i <= j < out@.len() implies ((
            #[trigger] out@[i]).lo as int) <= ((#[trigger] out@[j]).lo as int) by {
                if j < out@.len() - 1 {
                    assert(out@[i] == out_old[i] && out@[j] == out_old[j]);
                } else if i < j {
                    assert(out@[i] == out_old[i]);
                    assert(out@[j] == x);
                    assert(rest_old[mi as int] == x);
                }
            }
        }
    }
    out
}

impl IntervalSet {
    /// Folds the intervals, given in non-decreasing order of lower bound
    /// and each starting no earlier than the current back, onto the back
    /// of the store, merging where they overlap or touch.
    pub(crate) fn extend_at_back(&mut self, ivs: &Vec<Ivl>)
        requires
            old(self).wf(),
            forall|i: int| 0 <= i < ivs@.len() ==> ivl_wf(#[trigger] ivs@[i]),
            sorted_by_lo(ivs@),
            old(self)@.len() > 0 && ivs@.len() > 0 ==> old(self)@.last().lo as int
                <= ivs@[0].lo as int,
        ensures
            final(self).wf(),
            forall|v: int|
                (#[trigger] final(self).contains_val(v)) <==> old(self).contains_val(v) || in_seq(
                    ivs@,
                    v,
                ),
    {
        let ghost s0 = self@;
        let mut k: usize = 0;
        while k < ivs.len()
            invariant
                self.wf(),
                0 <= k <= ivs@.len(),
                forall|i: int| 0 <= i < ivs@.len() ==> ivl_wf(#[trigger] ivs@[i]),
                sorted_by_lo(ivs@),
                self@.len() > 0 && k < ivs@.len() ==> self@.last().lo as int
                    <= ivs@[k as int].lo as int,
                self@.len() == 0 ==> s0.len() == 0 && k == 0,
                forall|v: int|
                    (#[trigger] self.contains_val(v)) <==> in_seq(s0, v) || in_seq(
                        ivs@.take(k as int),
                        v,
                    ),
            decreases ivs@.len() - k,
        {
            let iv = ivs[k];
            let ghost selfold = *self;
            self.join_or_push(iv);
            proof {
                lemma_in_take_succ(ivs@, k as int);
                assert forall|v: int|
                    (#[trigger] self.contains_val(v)) <==> in_seq(s0, v) || in_seq(
                        ivs@.take(k as int + 1),
                        v,
                    ) by {
                    assert(self.contains_val(v) <==> selfold.contains_val(v) || ivl_has(iv, v));
                    assert(in_seq(ivs@.take(k as int + 1), v) <==> in_seq(ivs@.take(k as int), v)
                        || ivl_has(ivs@[k as int], v));
                }
            }
            k = k + 1;
        }
        proof {
            lemma_in_take_full(ivs@);
        }
    }

    /// Builds the canonical set covering exactly the values covered by the
    /// given bound pairs, in any order and with any overlaps.
    pub fn from_pairs(pairs: &Vec<(i32, i32)>) -> (r: IntervalSet)
        requires
            pairs_ok(pairs@),
        ensures
            r.wf(),
            forall|v: int| #[trigger] r.contains_val(v) <==> pairs_cover(pairs@, v),
    {
        let mut raw: Vec<Ivl> = Vec::new();
        let mut k: usize = 0;
        while k < pairs.len()
            invariant
                0 <= k <= pairs@.len(),
                raw@.len() == k,
                forall|i: int|
                    0 <= i < k ==> (#[trigger] raw@[i]) == (Ivl {
                        lo: pairs@[i].0,
                        hi: pairs@[i].1,
                    }),
            decreases pairs@.len() - k,
        {
            let p = pairs[k];
            raw.push(Ivl { lo: p.0, hi: p.1 });
            k = k + 1;
        }
        let ghost raw0 = raw@;
        proof {
            assert forall|i: int| 0 <= i < raw@.len() implies ivl_wf(#[trigger] raw@[i]) by {
                assert(pair_ok(pairs@[i]));
            }
        }
        let sorted = sort_ivls(raw);
        proof {
            assert forall|i: int| 0 <= i < sorted@.len() implies ivl_wf(#[trigger] sorted@[i]) by {
                assert(sorted@.contains(sorted@[i]));
                assert(raw0.contains(sorted@[i]));
                let j = choose|j: int| 0 <= j < raw0.len() && raw0[j] == sorted@[i];
                assert(pair_ok(pairs@[j]));
            }
        }
        let mut r = IntervalSet::empty();
        r.extend_at_back(&sorted);
        proof {
            assert forall|v: int| #[trigger] r.contains_val(v) <==> pairs_cover(pairs@, v) by {
                if in_seq(sorted@, v) {
                    let i = choose|i: int|
                        0 <= i < sorted@.len() && ivl_has(#[trigger] sorted@[i], v);
                    assert(sorted@.contains(sorted@[i]));
                    assert(raw0.contains(sorted@[i]));
                    let j = choose|j: int| 0 <= j < raw0.len() && raw0[j] == sorted@[i];
                    assert((pairs@[j].0 as int) <= v && v <= pairs@[j].1 as int);
                    assert(pairs_cover(pairs@, v));
                }
                if pairs_cover(pairs@, v) {
                    let j = choose|j: int|
                        0 <= j < pairs@.len() && ((#[trigger] pairs@[j]).0 as int) <= v && v
                            <= pairs@[j].1 as int;
                    assert(raw0[j] == (Ivl { lo: pairs@[j].0, hi: pairs@[j].1 }));
                    assert(raw0.contains(raw0[j]));
                    assert(sorted@.contains(raw0[j]));
                    let i = choose|i: int| 0 <= i < sorted@.len() && sorted@[i] == raw0[j];
                    assert(ivl_has(sorted@[i], v));
                    assert(in_seq(sorted@, v));
                }
            }
        }
        r
    }

    /// Inserts additional ranges: the set is replaced by the union of
    /// itself and the canonical set built from the given pairs.
    pub fn extend(&mut self, pairs: Vec<(i32, i32)>)
        requires
            old(self).wf(),
            pairs_ok(pairs@),
        ensures
            final(self).wf(),
            forall|v: int|
                (#[trigger] final(self).contains_val(v)) <==> old(self).contains_val(v)
                    || pairs_cover(pairs@, v),
    {
        let other = IntervalSet::from_pairs(&pairs);
        let u = self.union(&other);
        *self = u;
    }
}

/// Conversion of raw range descriptions into canonical interval sets.
pub trait ToIntervalSet: Sized {
    /// The bound pairs this value denotes.
    spec fn pair_seq(&self) -> Seq<(i32, i32)>;

    /// Converts to the canonical set covering exactly the values the
    /// denoted pairs cover.
    fn to_interval_set(self) -> (r: IntervalSet)
        requires
            pairs_ok(self.pair_seq()),
        ensures
            r.wf(),
            forall|v: int| #[trigger] r.contains_val(v) <==> pairs_cover(self.pair_seq(), v),
    ;
}

impl ToIntervalSet for (i32, i32) {
    open spec fn pair_seq(&self) -> Seq<(i32, i32)> {
        seq![(self.0, self.1)]
    }

    fn to_interval_set(self) -> (r: IntervalSet) {
        let mut pairs: Vec<(i32, i32)> = Vec::new();
        pairs.push(self);
        proof {
            assert(pairs@ =~= self.pair_seq());
        }
        IntervalSet::from_pairs(&pairs)
    }
}

impl ToIntervalSet for Vec<(i32, i32)> {
    open spec fn pair_seq(&self) -> Seq<(i32, i32)> {
        self@
    }

    fn to_interval_set(self) -> (r: IntervalSet) {
        IntervalSet::from_pairs(&self)
    }
}

impl ToIntervalSet for &[(i32, i32)] {
    open spec fn pair_seq(&self) -> Seq<(i32, i32)> {
        self@
    }

    fn to_interval_set(self) -> (r: IntervalSet) {
        let mut pairs: Vec<(i32, i32)> = Vec::new();
        let mut k: usize = 0;
        while k < self.len()
            invariant
                0 <= k <= self@.len(),
                pairs@.len() == k,
                forall|i: int| 0 <= i < k ==> #[trigger] pairs@[i] == self@[i],
            decreases self@.len() - k,
        {
            pairs.push(self[k]);
            k = k + 1;
        }
        proof {
            assert(pairs@ =~= self@);
        }
        IntervalSet::from_pairs(&pairs)
    }
}

impl<const N: usize> ToIntervalSet for [(i32, i32); N] {
    open spec fn pair_seq(&self) -> Seq<(i32, i32)> {
        self@
    }

    fn to_interval_set(self) -> (r: IntervalSet) {
        let mut pairs: Vec<(i32, i32)> = Vec::new();
        let mut k: usize = 0;
        while k < N
            invariant
                0 <= k <= self@.len(),
                self@.len() == N,
                pairs@.len() == k,
                forall|i: int| 0 <= i < k ==> #[trigger] pairs@[i] == self@[i],
            decreases self@.len() - k,
        {
            pairs.push(self[k]);
            k = k + 1;
        }
        proof {
            assert(pairs@ =~= self@);
        }
        IntervalSet::from_pairs(&pairs)
    }
}

} // verus!
