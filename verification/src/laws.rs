//! The algebraic laws of the interval-set operations.
//!
//! Every operation's contract characterizes its result by the values it
//! contains, and canonical form is unique, so each law is stated over sets
//! characterized that way: the parameters are the operands and results, the
//! premises are exactly the operations' postconditions, and the conclusion
//! is equality of the canonical representations.

use vstd::prelude::*;

use crate::canon::in_seq;
use crate::canon::lemma_canonical_unique;
use crate::canon::lemma_in_seq_bounds;
use crate::canon::seq_count;
use crate::construct::pairs_cover;
use crate::ivl::BOUND_MAX;
use crate::ivl::BOUND_MIN;
use crate::ivl::ivl_has;
use crate::merge::sets_overlap;
use crate::order::subset_val;
use crate::set::IntervalSet;

verus! {

/// The two sets contain exactly the same values.
pub open spec fn same_values(a: IntervalSet, b: IntervalSet) -> bool {
    forall|v: int| a.contains_val(v) <==> b.contains_val(v)
}

/// Canonical form is unique: two well-formed sets with the same values are
/// equal, representation and cached size included.
pub proof fn lemma_canonical_sets_equal(a: IntervalSet, b: IntervalSet)
    requires
        a.wf(),
        b.wf(),
        same_values(a, b),
    ensures
        a@ == b@,
        a.size == b.size,
{
    assert forall|v: int| in_seq(a@, v) <==> in_seq(b@, v) by {
        assert(a.contains_val(v) <==> b.contains_val(v));
    }
    lemma_canonical_unique(a@, b@);
    assert(seq_count(a@) == seq_count(b@));
}

/// A well-formed set with no values is the empty representation.
pub proof fn lemma_no_values_empty(a: IntervalSet)
    requires
        a.wf(),
        forall|v: int| !a.contains_val(v),
    ensures
        a@.len() == 0,
        a.size == 0,
{
    if a@.len() > 0 {
        assert(ivl_has(a@[0], a@[0].lo as int));
        assert(a.contains_val(a@[0].lo as int));
        assert(false);
    }
}

/// Union is commutative: results of uniting `a` with `b` and `b` with `a`
/// are equal.
pub proof fn lemma_union_commutative(a: IntervalSet, b: IntervalSet, ab: IntervalSet, ba: IntervalSet)
    requires
        a.wf(),
        b.wf(),
        ab.wf(),
        ba.wf(),
        forall|v: int| ab.contains_val(v) <==> a.contains_val(v) || b.contains_val(v),
        forall|v: int| ba.contains_val(v) <==> b.contains_val(v) || a.contains_val(v),
    ensures
        ab@ == ba@,
        ab.size == ba.size,
{
    lemma_canonical_sets_equal(ab, ba);
}

/// The empty set is the identity element of union.
pub proof fn lemma_union_empty_identity(a: IntervalSet, e: IntervalSet, r: IntervalSet)
    requires
        a.wf(),
        e.wf(),
        r.wf(),
        forall|v: int| !e.contains_val(v),
        forall|v: int| r.contains_val(v) <==> a.contains_val(v) || e.contains_val(v),
    ensures
        r@ == a@,
        r.size == a.size,
{
    lemma_canonical_sets_equal(r, a);
}

/// Union is idempotent: `a` united with itself is `a`.
pub proof fn lemma_union_idempotent(a: IntervalSet, r: IntervalSet)
    requires
        a.wf(),
        r.wf(),
        forall|v: int| r.contains_val(v) <==> a.contains_val(v) || a.contains_val(v),
    ensures
        r@ == a@,
        r.size == a.size,
{
    lemma_canonical_sets_equal(r, a);
}

/// Intersection is commutative.
pub proof fn lemma_intersection_commutative(
    a: IntervalSet,
    b: IntervalSet,
    ab: IntervalSet,
    ba: IntervalSet,
)
    requires
        a.wf(),
        b.wf(),
        ab.wf(),
        ba.wf(),
        forall|v: int| ab.contains_val(v) <==> a.contains_val(v) && b.contains_val(v),
        forall|v: int| ba.contains_val(v) <==> b.contains_val(v) && a.contains_val(v),
    ensures
        ab@ == ba@,
        ab.size == ba.size,
{
    lemma_canonical_sets_equal(ab, ba);
}

/// The empty set annihilates intersection.
pub proof fn lemma_intersection_empty_annihilates(a: IntervalSet, e: IntervalSet, r: IntervalSet)
    requires
        a.wf(),
        e.wf(),
        r.wf(),
        forall|v: int| !e.contains_val(v),
        forall|v: int| r.contains_val(v) <==> a.contains_val(v) && e.contains_val(v),
    ensures
        r@.len() == 0,
        r.size == 0,
{
    lemma_no_values_empty(r);
}

/// Complement is involutive: complementing twice restores the set.
pub proof fn lemma_complement_involutive(a: IntervalSet, c: IntervalSet, cc: IntervalSet)
    requires
        a.wf(),
        c.wf(),
        cc.wf(),
        forall|v: int| c.contains_val(v) <==> BOUND_MIN <= v <= BOUND_MAX && !a.contains_val(v),
        forall|v: int| cc.contains_val(v) <==> BOUND_MIN <= v <= BOUND_MAX && !c.contains_val(v),
    ensures
        cc@ == a@,
        cc.size == a.size,
{
    assert forall|v: int| cc.contains_val(v) <==> a.contains_val(v) by {
        if a.contains_val(v) {
            lemma_in_seq_bounds(a@, v);
        }
    }
    lemma_canonical_sets_equal(cc, a);
}

/// The complement of the empty set is the whole representable range.
pub proof fn lemma_complement_of_empty(e: IntervalSet, c: IntervalSet)
    requires
        e.wf(),
        c.wf(),
        forall|v: int| !e.contains_val(v),
        forall|v: int| c.contains_val(v) <==> BOUND_MIN <= v <= BOUND_MAX && !e.contains_val(v),
    ensures
        forall|v: int| c.contains_val(v) <==> BOUND_MIN <= v <= BOUND_MAX,
{
}

/// The complement of the whole representable range is the empty set.
pub proof fn lemma_complement_of_whole(w: IntervalSet, c: IntervalSet)
    requires
        w.wf(),
        c.wf(),
        forall|v: int| w.contains_val(v) <==> BOUND_MIN <= v <= BOUND_MAX,
        forall|v: int| c.contains_val(v) <==> BOUND_MIN <= v <= BOUND_MAX && !w.contains_val(v),
    ensures
        c@.len() == 0,
        c.size == 0,
{
    lemma_no_values_empty(c);
}

/// Difference is intersection with the complement: the two results agree.
pub proof fn lemma_difference_via_complement(
    a: IntervalSet,
    b: IntervalSet,
    d: IntervalSet,
    bc: IntervalSet,
    x: IntervalSet,
)
    requires
        a.wf(),
        b.wf(),
        d.wf(),
        bc.wf(),
        x.wf(),
        forall|v: int| d.contains_val(v) <==> a.contains_val(v) && !b.contains_val(v),
        forall|v: int| bc.contains_val(v) <==> BOUND_MIN <= v <= BOUND_MAX && !b.contains_val(v),
        forall|v: int| x.contains_val(v) <==> a.contains_val(v) && bc.contains_val(v),
    ensures
        d@ == x@,
        d.size == x.size,
{
    assert forall|v: int| d.contains_val(v) <==> x.contains_val(v) by {
        if a.contains_val(v) {
            lemma_in_seq_bounds(a@, v);
        }
    }
    lemma_canonical_sets_equal(d, x);
}

/// Symmetric difference is the union of the two one-sided differences.
pub proof fn lemma_symmetric_difference_via_differences(
    a: IntervalSet,
    b: IntervalSet,
    sd: IntervalSet,
    ab: IntervalSet,
    ba: IntervalSet,
    u: IntervalSet,
)
    requires
        a.wf(),
        b.wf(),
        sd.wf(),
        ab.wf(),
        ba.wf(),
        u.wf(),
        forall|v: int| sd.contains_val(v) <==> (a.contains_val(v) != b.contains_val(v)),
        forall|v: int| ab.contains_val(v) <==> a.contains_val(v) && !b.contains_val(v),
        forall|v: int| ba.contains_val(v) <==> b.contains_val(v) && !a.contains_val(v),
        forall|v: int| u.contains_val(v) <==> ab.contains_val(v) || ba.contains_val(v),
    ensures
        sd@ == u@,
        sd.size == u.size,
{
    lemma_canonical_sets_equal(sd, u);
}

/// Subset is reflexive.
pub proof fn lemma_subset_reflexive(a: IntervalSet)
    ensures
        subset_val(a@, a@),
{
}

/// Subset is transitive.
pub proof fn lemma_subset_transitive(a: IntervalSet, b: IntervalSet, c: IntervalSet)
    requires
        subset_val(a@, b@),
        subset_val(b@, c@),
    ensures
        subset_val(a@, c@),
{
    assert forall|v: int| in_seq(a@, v) implies in_seq(c@, v) by {
        assert(in_seq(b@, v));
    }
}

/// Subset is antisymmetric up to equality of the canonical forms.
pub proof fn lemma_subset_antisymmetric(a: IntervalSet, b: IntervalSet)
    requires
        a.wf(),
        b.wf(),
        subset_val(a@, b@),
        subset_val(b@, a@),
    ensures
        a@ == b@,
        a.size == b.size,
{
    lemma_canonical_sets_equal(a, b);
}

/// The empty set is a subset of every set.
pub proof fn lemma_empty_subset(e: IntervalSet, a: IntervalSet)
    requires
        e@.len() == 0,
    ensures
        subset_val(e@, a@),
{
}

/// Containing a value is the same judgment as overlapping its singleton
/// set.
pub proof fn lemma_contains_is_singleton_overlap(s: IntervalSet, w: IntervalSet, x: i32)
    requires
        s.wf(),
        w.wf(),
        forall|v: int| w.contains_val(v) <==> v == x as int,
    ensures
        sets_overlap(s@, w@) <==> s.contains_val(x as int),
{
    if sets_overlap(s@, w@) {
        let v = choose|v: int| in_seq(s@, v) && in_seq(w@, v);
        assert(w.contains_val(v));
        assert(v == x as int);
    }
    if s.contains_val(x as int) {
        assert(w.contains_val(x as int));
        assert(in_seq(s@, x as int) && in_seq(w@, x as int));
    }
}

/// Coverage by pairs depends only on which pairs occur, not on their
/// order or multiplicity.
pub proof fn lemma_pairs_cover_permuted(ps1: Seq<(i32, i32)>, ps2: Seq<(i32, i32)>)
    requires
        forall|p: (i32, i32)|
            #![trigger ps1.contains(p)]
            #![trigger ps2.contains(p)]
            ps1.contains(p) <==> ps2.contains(p),
    ensures
        forall|v: int| #[trigger] pairs_cover(ps1, v) <==> pairs_cover(ps2, v),
{
    assert forall|v: int| #[trigger] pairs_cover(ps1, v) <==> pairs_cover(ps2, v) by {
        if pairs_cover(ps1, v) {
            let k = choose|k: int|
                0 <= k < ps1.len() && ((#[trigger] ps1[k]).0 as int) <= v && v <= ps1[k].1 as int;
            assert(ps1.contains(ps1[k]));
            assert(ps2.contains(ps1[k]));
            let m = choose|m: int| 0 <= m < ps2.len() && ps2[m] == ps1[k];
            assert((ps2[m].0 as int) <= v && v <= ps2[m].1 as int);
        }
        if pairs_cover(ps2, v) {
            let k = choose|k: int|
                0 <= k < ps2.len() && ((#[trigger] ps2[k]).0 as int) <= v && v <= ps2[k].1 as int;
            assert(ps2.contains(ps2[k]));
            assert(ps1.contains(ps2[k]));
            let m = choose|m: int| 0 <= m < ps1.len() && ps1[m] == ps2[k];
            assert((ps1[m].0 as int) <= v && v <= ps1[m].1 as int);
        }
    }
}

/// Extending is order-independent: extending sets with the same values by
/// pair lists covering the same values yields equal results.
pub proof fn lemma_extend_order_independent(
    a1: IntervalSet,
    a2: IntervalSet,
    ps1: Seq<(i32, i32)>,
    ps2: Seq<(i32, i32)>,
    r1: IntervalSet,
    r2: IntervalSet,
)
    requires
        a1.wf(),
        a2.wf(),
        r1.wf(),
        r2.wf(),
        same_values(a1, a2),
        forall|v: int| #[trigger] pairs_cover(ps1, v) <==> pairs_cover(ps2, v),
        forall|v: int| r1.contains_val(v) <==> a1.contains_val(v) || pairs_cover(ps1, v),
        forall|v: int| r2.contains_val(v) <==> a2.contains_val(v) || pairs_cover(ps2, v),
    ensures
        r1@ == r2@,
        r1.size == r2.size,
{
    lemma_canonical_sets_equal(r1, r2);
}

/// Multiplying any set by the empty set yields the empty set.
pub proof fn lemma_mul_empty_annihilates(a: IntervalSet, e: IntervalSet, r: IntervalSet)
    requires
        a.wf(),
        e.wf(),
        r.wf(),
        e@.len() == 0,
        forall|v: int| #[trigger] r.contains_val(v) <==> crate::arith::mul_covered(a@, e@, v),
    ensures
        r@.len() == 0,
        r.size == 0,
{
    assert forall|v: int| !r.contains_val(v) by {
        if crate::arith::mul_covered(a@, e@, v) {
            let i = choose|i: int| 0 <= i < a@.len() && crate::arith::mul_one(#[trigger] a@[i], e@, v);
            let j = choose|j: int| 0 <= j < e@.len() && crate::arith::pair_mul(a@[i], #[trigger] e@[j], v);
            assert(false);
        }
    }
    lemma_no_values_empty(r);
}

} // verus!
