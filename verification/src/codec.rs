//! The wire form of a set: an explicit absent marker for the empty set,
//! otherwise the ordered list of `(lower, upper)` pairs, one per interval.
//!
//! The empty set is kept distinct from an empty pair list so that the
//! encoding is a genuine round trip.  Decoding re-derives canonical form by
//! the same fold as construction, so a valid but non-canonical pair list
//! still decodes to the correct canonical value.

use vstd::prelude::*;

use crate::canon::in_seq;
use crate::canon::lemma_canonical_unique;
use crate::canon::seq_count;
use crate::construct::pairs_cover;
use crate::construct::pairs_ok;
use crate::ivl::Ivl;
use crate::ivl::ivl_has;
use crate::set::IntervalSet;

verus! {

impl IntervalSet {
    /// Encodes the set: `None` for the empty set, otherwise its interval
    /// bound pairs in ascending order.
    pub fn encode(&self) -> (r: Option<Vec<(i32, i32)>>)
        requires
            self.wf(),
        ensures
            (r is None) <==> self@.len() == 0,
            (match r {
                Option::None => true,
                Option::Some(ps) => ps@.len() == self@.len() && pairs_ok(ps@) && (forall|i: int|
                    0 <= i < self@.len() ==> (#[trigger] ps@[i]).0 == self@[i].lo && ps@[i].1
                        == self@[i].hi) && (forall|v: int|
                    #[trigger] pairs_cover(ps@, v) <==> self.contains_val(v)),
            }),
    {
        if self.ivs.len() == 0 {
            return None;
        }
        let ps = self.iter();
        proof {
            assert forall|v: int| #[trigger] pairs_cover(ps@, v) <==> in_seq(self@, v) by {
                if pairs_cover(ps@, v) {
                    let k = choose|k: int|
                        0 <= k < ps@.len() && ((#[trigger] ps@[k]).0 as int) <= v && v
                            <= ps@[k].1 as int;
                    assert(ivl_has(self@[k], v));
                }
                if in_seq(self@, v) {
                    let k = choose|k: int| 0 <= k < self@.len() && ivl_has(#[trigger] self@[k], v);
                    assert((ps@[k].0 as int) <= v && v <= ps@[k].1 as int);
                }
            }
        }
        Some(ps)
    }

    /// Decodes a wire value: the absent marker yields the empty set, a pair
    /// list is re-canonicalized by the construction fold.
    pub fn decode(w: &Option<Vec<(i32, i32)>>) -> (r: IntervalSet)
        requires
            (match w {
                Option::None => true,
                Option::Some(ps) => pairs_ok(ps@),
            }),
        ensures
            r.wf(),
            (match w {
                Option::None => r@.len() == 0,
                Option::Some(ps) => forall|v: int|
                    #[trigger] r.contains_val(v) <==> pairs_cover(ps@, v),
            }),
    {
        match w {
            None => IntervalSet::empty(),
            Some(ps) => IntervalSet::from_pairs(ps),
        }
    }
}

/// Round trip: a canonical set, encoded to its wire pairs and decoded
/// back, yields an equal set.  The pairs of `a` cover exactly the values
/// of `a`, so any canonical decode of them covers the same values and is,
/// by canonical uniqueness, `a` itself.
pub proof fn lemma_round_trip(a: IntervalSet, ps: Seq<(i32, i32)>, b: IntervalSet)
    requires
        a.wf(),
        b.wf(),
        ps.len() == a@.len(),
        forall|i: int|
            0 <= i < a@.len() ==> (#[trigger] ps[i]).0 == a@[i].lo && ps[i].1 == a@[i].hi,
        forall|v: int| #[trigger] b.contains_val(v) <==> pairs_cover(ps, v),
    ensures
        a@ == b@,
        a.size == b.size,
{
    assert forall|v: int| in_seq(a@, v) <==> in_seq(b@, v) by {
        assert(b.contains_val(v) <==> pairs_cover(ps, v));
        if in_seq(a@, v) {
            let k = choose|k: int| 0 <= k < a@.len() && ivl_has(#[trigger] a@[k], v);
            assert((ps[k].0 as int) <= v && v <= ps[k].1 as int);
            assert(pairs_cover(ps, v));
        }
        if pairs_cover(ps, v) {
            let k = choose|k: int|
                0 <= k < ps.len() && ((#[trigger] ps[k]).0 as int) <= v && v <= ps[k].1 as int;
            assert(ivl_has(a@[k], v));
        }
    }
    lemma_canonical_unique(a@, b@);
    assert(seq_count(a@) == seq_count(b@));
}

} // verus!
