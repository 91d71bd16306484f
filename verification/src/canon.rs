//! The theory of canonical interval sequences.
//!
//! A sequence of intervals is canonical when every interval is well formed
//! and consecutive intervals are separated by a gap of at least one value.
//! This module defines the membership and cardinality specifications over
//! such sequences and proves the two facts everything else rests on: a
//! canonical sequence is determined by the set of values it covers, and its
//! summed cardinality equals the cardinality of that set of values.

use vstd::prelude::*;
use vstd::set_lib::lemma_int_range;
use vstd::set_lib::lemma_len_subset;
use vstd::set_lib::lemma_set_disjoint_lens;
use vstd::set_lib::lemma_subset_equality;
use vstd::set_lib::set_int_range;

use crate::ivl::BOUND_MAX;
use crate::ivl::BOUND_MIN;
use crate::ivl::Ivl;
use crate::ivl::ivl_count;
use crate::ivl::ivl_has;
use crate::ivl::ivl_wf;

verus! {

/// Canonical form: all intervals well formed, strictly ordered and
/// pairwise non-adjacent (a gap of at least one value between any two).
pub open spec fn wf_seq(s: Seq<Ivl>) -> bool {
    &&& forall|i: int| 0 <= i < s.len() ==> ivl_wf(#[trigger] s[i])
    &&& forall|i: int, j: int|
        0 <= i < j < s.len() ==> (#[trigger] s[i]).hi as int + 1 < (#[trigger] s[j]).lo as int
}

/// Whether the value `v` is covered by some interval of the sequence.
pub open spec fn in_seq(s: Seq<Ivl>, v: int) -> bool {
    exists|i: int| 0 <= i < s.len() && ivl_has(#[trigger] s[i], v)
}

/// The summed cardinality of the intervals of the sequence.
pub open spec fn seq_count(s: Seq<Ivl>) -> int
    decreases s.len(),
{
    if s.len() == 0 {
        0
    } else {
        seq_count(s.drop_last()) + ivl_count(s.last())
    }
}

/// The set of values covered by the sequence.
pub open spec fn val_set(s: Seq<Ivl>) -> Set<int> {
    Set::new(|v: int| in_seq(s, v))
}

/// Dropping the last interval of a canonical sequence keeps it canonical.
pub proof fn lemma_wf_drop_last(s: Seq<Ivl>)
    requires
        wf_seq(s),
        s.len() > 0,
    ensures
        wf_seq(s.drop_last()),
{
    let t = s.drop_last();
    assert forall|i: int| 0 <= i < t.len() implies ivl_wf(#[trigger] t[i]) by {
        assert(t[i] == s[i]);
    }
    assert forall|i: int, j: int| 0 <= i < j < t.len() implies (#[trigger] t[i]).hi as int + 1
        < (#[trigger] t[j]).lo as int by {
        assert(t[i] == s[i] && t[j] == s[j]);
    }
}

/// Dropping the first interval of a canonical sequence keeps it canonical.
pub proof fn lemma_wf_drop_first(s: Seq<Ivl>)
    requires
        wf_seq(s),
        s.len() > 0,
    ensures
        wf_seq(s.drop_first()),
{
    let t = s.drop_first();
    assert forall|i: int| 0 <= i < t.len() implies ivl_wf(#[trigger] t[i]) by {
        assert(t[i] == s[i + 1]);
    }
    assert forall|i: int, j: int| 0 <= i < j < t.len() implies (#[trigger] t[i]).hi as int + 1
        < (#[trigger] t[j]).lo as int by {
        assert(t[i] == s[i + 1] && t[j] == s[j + 1]);
    }
}

/// A canonical sequence holds at least one value per interval and no more
/// values than its span holds; in particular the count is never negative.
pub proof fn lemma_count_bounds(s: Seq<Ivl>)
    requires
        wf_seq(s),
    ensures
        seq_count(s) >= 0,
        s.len() > 0 ==> ivl_count(s.last()) <= seq_count(s) <= s.last().hi as int - s[0].lo as int
            + 1,
    decreases s.len(),
{
    if s.len() > 0 {
        let t = s.drop_last();
        lemma_wf_drop_last(s);
        lemma_count_bounds(t);
        if t.len() > 0 {
            assert(t[0] == s[0]);
            assert(t.last() == s[s.len() - 2]);
            assert(s[s.len() - 2].hi as int + 1 < s.last().lo as int);
        }
    }
}

/// Every covered value lies between the first lower bound and the last
/// upper bound, and hence inside the sentinel range.
pub proof fn lemma_in_seq_bounds(s: Seq<Ivl>, v: int)
    requires
        wf_seq(s),
        in_seq(s, v),
    ensures
        s.len() > 0,
        s[0].lo as int <= v,
        v <= s.last().hi as int,
        BOUND_MIN <= v <= BOUND_MAX,
{
    let i = choose|i: int| 0 <= i < s.len() && ivl_has(#[trigger] s[i], v);
    if i > 0 {
        assert(s[0].hi as int + 1 < s[i].lo as int);
    }
    if i < s.len() - 1 {
        assert(s[i].hi as int + 1 < s[s.len() - 1].lo as int);
    }
}

/// Membership in a prefix one interval longer splits into membership in the
/// shorter prefix or membership in the added interval.
pub proof fn lemma_in_take_succ(s: Seq<Ivl>, n: int)
    requires
        0 <= n < s.len(),
    ensures
        forall|v: int|
            #![trigger in_seq(s.take(n + 1), v)]
            #![trigger in_seq(s.take(n), v)]
            in_seq(s.take(n + 1), v) <==> in_seq(s.take(n), v) || ivl_has(s[n], v),
{
    assert forall|v: int| in_seq(s.take(n + 1), v) implies in_seq(s.take(n), v) || ivl_has(
        s[n],
        v,
    ) by {
        let i = choose|i: int| 0 <= i < s.take(n + 1).len() && ivl_has(#[trigger] s.take(n + 1)[i], v);
        if i < n {
            assert(s.take(n)[i] == s[i]);
            assert(ivl_has(s.take(n)[i], v));
        }
    }
    assert forall|v: int| in_seq(s.take(n), v) || ivl_has(s[n], v) implies in_seq(
        s.take(n + 1),
        v,
    ) by {
        if in_seq(s.take(n), v) {
            let i = choose|i: int| 0 <= i < s.take(n).len() && ivl_has(#[trigger] s.take(n)[i], v);
            assert(s.take(n + 1)[i] == s[i]);
            assert(ivl_has(s.take(n + 1)[i], v));
        } else {
            assert(s.take(n + 1)[n] == s[n]);
            assert(ivl_has(s.take(n + 1)[n], v));
        }
    }
}

/// Membership in a full sequence is membership in its full-length prefix.
pub proof fn lemma_in_take_full(s: Seq<Ivl>)
    ensures
        forall|v: int|
            #![trigger in_seq(s.take(s.len() as int), v)]
            #![trigger in_seq(s, v)]
            in_seq(s.take(s.len() as int), v) <==> in_seq(s, v),
{
    assert(s.take(s.len() as int) =~= s);
}

/// A canonical sequence is determined by the values it covers: two
/// canonical sequences covering the same values are equal.
pub proof fn lemma_canonical_unique(a: Seq<Ivl>, b: Seq<Ivl>)
    requires
        wf_seq(a),
        wf_seq(b),
        forall|v: int| in_seq(a, v) <==> in_seq(b, v),
    ensures
        a == b,
    decreases a.len(),
{
    if a.len() == 0 {
        if b.len() > 0 {
            assert(ivl_has(b[0], b[0].lo as int));
            assert(in_seq(b, b[0].lo as int));
            assert(in_seq(a, b[0].lo as int));
            assert(false);
        }
        assert(a =~= b);
    } else if b.len() == 0 {
        assert(ivl_has(a[0], a[0].lo as int));
        assert(in_seq(a, a[0].lo as int));
        assert(false);
    } else {
        // The first lower bounds agree: each is a covered value, and every
        // covered value is at least the first lower bound.
        assert(ivl_has(a[0], a[0].lo as int));
        assert(in_seq(a, a[0].lo as int));
        lemma_in_seq_bounds(b, a[0].lo as int);
        assert(ivl_has(b[0], b[0].lo as int));
        assert(in_seq(b, b[0].lo as int));
        lemma_in_seq_bounds(a, b[0].lo as int);
        assert(a[0].lo == b[0].lo);
        // The first upper bounds agree: were one smaller, the value just
        // above it would be covered by the other sequence's first interval
        // but fall in the first gap of this one.
        if a[0].hi < b[0].hi {
            let v = a[0].hi as int + 1;
            assert(ivl_has(b[0], v));
            assert(in_seq(b, v));
            assert(in_seq(a, v));
            let i = choose|i: int| 0 <= i < a.len() && ivl_has(#[trigger] a[i], v);
            assert(i > 0);
            assert(a[0].hi as int + 1 < a[i].lo as int);
            assert(false);
        }
        if b[0].hi < a[0].hi {
            let v = b[0].hi as int + 1;
            assert(ivl_has(a[0], v));
            assert(in_seq(a, v));
            assert(in_seq(b, v));
            let i = choose|i: int| 0 <= i < b.len() && ivl_has(#[trigger] b[i], v);
            assert(i > 0);
            assert(b[0].hi as int + 1 < b[i].lo as int);
            assert(false);
        }
        assert(a[0] =~= b[0]);
        // The tails cover the same values: exactly those above the shared
        // first interval.
        let ta = a.drop_first();
        let tb = b.drop_first();
        lemma_wf_drop_first(a);
        lemma_wf_drop_first(b);
        assert forall|v: int| in_seq(ta, v) implies in_seq(tb, v) by {
            let i = choose|i: int| 0 <= i < ta.len() && ivl_has(#[trigger] ta[i], v);
            assert(ta[i] == a[i + 1]);
            assert(in_seq(a, v));
            assert(a[0].hi as int + 1 < a[i + 1].lo as int);
            assert(in_seq(b, v));
            let j = choose|j: int| 0 <= j < b.len() && ivl_has(#[trigger] b[j], v);
            assert(j > 0);
            assert(tb[j - 1] == b[j]);
            assert(ivl_has(tb[j - 1], v));
        }
        assert forall|v: int| in_seq(tb, v) implies in_seq(ta, v) by {
            let i = choose|i: int| 0 <= i < tb.len() && ivl_has(#[trigger] tb[i], v);
            assert(tb[i] == b[i + 1]);
            assert(in_seq(b, v));
            assert(b[0].hi as int + 1 < b[i + 1].lo as int);
            assert(in_seq(a, v));
            let j = choose|j: int| 0 <= j < a.len() && ivl_has(#[trigger] a[j], v);
            assert(j > 0);
            assert(ta[j - 1] == a[j]);
            assert(ivl_has(ta[j - 1], v));
        }
        lemma_canonical_unique(ta, tb);
        assert forall|i: int| 0 <= i < a.len() implies a[i] == b[i] by {
            if i > 0 {
                assert(ta[i - 1] == a[i]);
                assert(tb[i - 1] == b[i]);
            }
        }
        assert(a =~= b);
    }
}

/// The summed interval cardinality of a canonical sequence is exactly the
/// cardinality of the set of values it covers.
pub proof fn lemma_val_set_card(s: Seq<Ivl>)
    requires
        wf_seq(s),
    ensures
        val_set(s).finite(),
        val_set(s).len() == seq_count(s),
    decreases s.len(),
{
    if s.len() == 0 {
        assert(val_set(s) =~= Set::<int>::empty());
    } else {
        let t = s.drop_last();
        lemma_wf_drop_last(s);
        lemma_val_set_card(t);
        let last = s.last();
        let r = set_int_range(last.lo as int, last.hi as int + 1);
        lemma_int_range(last.lo as int, last.hi as int + 1);
        assert forall|v: int| in_seq(s, v) implies val_set(t).union(r).contains(v) by {
            let i = choose|i: int| 0 <= i < s.len() && ivl_has(#[trigger] s[i], v);
            if i < s.len() - 1 {
                assert(t[i] == s[i]);
                assert(ivl_has(t[i], v));
                assert(in_seq(t, v));
            }
        }
        assert forall|v: int| val_set(t).union(r).contains(v) implies in_seq(s, v) by {
            if in_seq(t, v) {
                let i = choose|i: int| 0 <= i < t.len() && ivl_has(#[trigger] t[i], v);
                assert(s[i] == t[i]);
                assert(ivl_has(s[i], v));
            } else {
                assert(ivl_has(s[s.len() - 1], v));
            }
        }
        assert(val_set(s) =~= val_set(t).union(r));
        assert(val_set(t).disjoint(r)) by {
            assert forall|v: int| val_set(t).contains(v) implies !r.contains(v) by {
                let i = choose|i: int| 0 <= i < t.len() && ivl_has(#[trigger] t[i], v);
                assert(s[i] == t[i]);
                assert(s[i].hi as int + 1 < last.lo as int);
            }
        }
        lemma_set_disjoint_lens(val_set(t), r);
        assert(val_set(t).union(r) == val_set(t) + r);
    }
}

/// Coverage inclusion between canonical sequences bounds the counts.
pub proof fn lemma_subset_count(a: Seq<Ivl>, b: Seq<Ivl>)
    requires
        wf_seq(a),
        wf_seq(b),
        forall|v: int| in_seq(a, v) ==> in_seq(b, v),
    ensures
        seq_count(a) <= seq_count(b),
{
    lemma_val_set_card(a);
    lemma_val_set_card(b);
    assert(val_set(a).subset_of(val_set(b)));
    lemma_len_subset(val_set(a), val_set(b));
}

/// Coverage inclusion with equal counts forces equality.
pub proof fn lemma_subset_equal_count(a: Seq<Ivl>, b: Seq<Ivl>)
    requires
        wf_seq(a),
        wf_seq(b),
        forall|v: int| in_seq(a, v) ==> in_seq(b, v),
        seq_count(a) == seq_count(b),
    ensures
        a == b,
{
    lemma_val_set_card(a);
    lemma_val_set_card(b);
    assert(val_set(a).subset_of(val_set(b)));
    lemma_subset_equality(val_set(a), val_set(b));
    assert forall|v: int| in_seq(a, v) <==> in_seq(b, v) by {
        assert(val_set(a).contains(v) == val_set(b).contains(v));
    }
    lemma_canonical_unique(a, b);
}

} // verus!
