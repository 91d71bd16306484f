use interval_set::construct::ToIntervalSet;
use interval_set::ivl::BOUND_MAX;
use interval_set::ivl::BOUND_MIN;
use interval_set::set::IntervalSet;

// Checks the canonical-form invariant directly on the representation: the
// intervals are non-empty, strictly ordered, pairwise non-adjacent, and
// the cached size is the sum of the interval cardinalities.
fn assert_canonical(s: &IntervalSet) {
    let pairs = s.iter();
    let mut total: u64 = 0;
    for k in 0..pairs.len() {
        let (lo, hi) = pairs[k];
        assert!(lo <= hi, "interval {} of {:?} is empty", k, s);
        assert!(lo >= BOUND_MIN && hi <= BOUND_MAX);
        if k + 1 < pairs.len() {
            let (lo2, _) = pairs[k + 1];
            assert!(
                (hi as i64) + 1 < lo2 as i64,
                "intervals {} and {} of {:?} are adjacent or out of order",
                k,
                k + 1,
                s
            );
        }
        total += (hi as i64 - lo as i64 + 1) as u64;
    }
    assert_eq!(total, s.size() as u64, "cached size of {:?} is stale", s);
}

#[test]
fn test_canonical_form_after_operations() {
    let a = vec![(1, 4), (6, 7)].to_interval_set();
    let b = vec![(-3, 1), (3, 7), (9, 11)].to_interval_set();
    assert_canonical(&a);
    assert_canonical(&b);
    assert_canonical(&a.union(&b));
    assert_canonical(&a.intersection(&b));
    assert_canonical(&a.complement());
    assert_canonical(&a.difference(&b));
    assert_canonical(&a.symmetric_difference(&b));
    assert_canonical(&a.add(&b));
    assert_canonical(&a.sub(&b));
    assert_canonical(&a.mul(&b));
    assert_canonical(&a.mul_value(-3));
    assert_canonical(&a.shrink_left(2));
    assert_canonical(&a.shrink_right(6));
    assert_canonical(&IntervalSet::whole());
    assert_canonical(&IntervalSet::empty());
}

#[test]
fn test_union_laws() {
    let a = vec![(1, 4), (6, 7)].to_interval_set();
    let b = vec![(5, 5)].to_interval_set();
    let empty = IntervalSet::empty();
    // Commutative.
    assert_eq!(a.union(&b), b.union(&a));
    // Identity element.
    assert_eq!(a.union(&empty), a);
    assert_eq!(empty.union(&a), a);
    // Idempotent.
    assert_eq!(a.union(&a), a);
    // The gap is filled exactly.
    assert_eq!(a.union(&b), vec![(1, 7)].to_interval_set());
}

#[test]
fn test_intersection_laws() {
    let a = vec![(1, 3), (8, 8), (10, 11)].to_interval_set();
    let b = vec![(2, 5), (7, 8), (12, 15)].to_interval_set();
    let empty = IntervalSet::empty();
    // Commutative.
    assert_eq!(a.intersection(&b), b.intersection(&a));
    // Annihilated by the empty set.
    assert_eq!(a.intersection(&empty), empty);
    assert_eq!(empty.intersection(&a), empty);
    assert_eq!(a.intersection(&b), vec![(2, 3), (8, 8)].to_interval_set());
}

#[test]
fn test_complement_laws() {
    let cases = vec![
        vec![],
        vec![(0, 0)],
        vec![(-5, 5)],
        vec![(BOUND_MIN, -1), (1, BOUND_MAX)],
        vec![(-5, -3), (0, 1), (3, 5)],
    ];
    for pairs in cases {
        let a = pairs.to_interval_set();
        assert_eq!(a.complement().complement(), a);
    }
    assert_eq!(IntervalSet::empty().complement(), IntervalSet::whole());
    assert_eq!(IntervalSet::whole().complement(), IntervalSet::empty());
}

#[test]
fn test_difference_laws() {
    let a = vec![(1, 3), (8, 8), (10, 11)].to_interval_set();
    let b = vec![(2, 5), (7, 8), (12, 15)].to_interval_set();
    assert_eq!(a.difference(&b), a.intersection(&b.complement()));
    assert_eq!(
        a.symmetric_difference(&b),
        a.difference(&b).union(&b.difference(&a))
    );
}

#[test]
fn test_subset_laws() {
    let a = vec![(3, 3), (7, 8)].to_interval_set();
    let b = vec![(3, 8)].to_interval_set();
    let c = vec![(0, 10)].to_interval_set();
    let empty = IntervalSet::empty();
    // Reflexive.
    assert!(a.is_subset(&a));
    // Transitive on a witness chain.
    assert!(a.is_subset(&b) && b.is_subset(&c) && a.is_subset(&c));
    // Antisymmetric up to equality.
    let a2 = vec![(3, 3), (7, 8)].to_interval_set();
    assert!(a.is_subset(&a2) && a2.is_subset(&a) && a == a2);
    // The empty set is a subset of every set, itself included.
    assert!(empty.is_subset(&empty));
    assert!(empty.is_subset(&a));
    // A set split over two intervals sits inside their hull but not
    // inside either part alone.
    assert!(a.is_subset(&vec![(3, 8)].to_interval_set()));
    assert!(!a.is_subset(&vec![(3, 3)].to_interval_set()));
}

#[test]
fn test_contains_agrees_with_overlap() {
    let sets = vec![
        vec![],
        vec![(1, 2)],
        vec![(1, 3), (5, 7)],
        vec![(-5, -1), (1, 5)],
    ];
    for pairs in sets {
        let s = pairs.to_interval_set();
        for v in -10..10 {
            assert_eq!(s.contains(v), s.overlap_value(v), "value {} of {:?}", v, s);
        }
    }
}

#[test]
fn test_round_trip_all_shapes() {
    let cases = vec![
        vec![],
        vec![(0, 0)],
        vec![(1, 2), (7, 9)],
        vec![(BOUND_MIN, -1), (1, BOUND_MAX)],
        vec![(-5, -3), (0, 1), (3, 5)],
    ];
    for pairs in cases {
        let a = pairs.to_interval_set();
        let back = IntervalSet::decode(&a.encode());
        assert_eq!(back, a);
    }
}

#[test]
fn test_extend_order_independence() {
    let mut one_way = IntervalSet::empty();
    one_way.extend(vec![(11, 33), (-55, -44)]);
    let mut other_way = IntervalSet::empty();
    other_way.extend(vec![(-55, -44), (11, 33)]);
    assert_eq!(one_way, other_way);
    assert_eq!(one_way.interval_count(), 2);

    let mut set = vec![(10, 15), (20, 30)].to_interval_set();
    set.extend(vec![(0, 5)]);
    set.extend(vec![(17, 18)]);
    assert_eq!(
        set,
        vec![(0, 5), (10, 15), (17, 18), (20, 30)].to_interval_set()
    );
}

#[test]
fn test_arithmetic_laws() {
    let a = vec![(1, 2), (5, 6)].to_interval_set();
    let b = vec![(1, 1), (4, 5)].to_interval_set();
    assert_eq!(a.add(&b), vec![(2, 3), (5, 7), (9, 11)].to_interval_set());
    // Multiplying any set by the empty set yields the empty set.
    let empty = IntervalSet::empty();
    assert!(a.mul(&empty).is_empty());
    assert!(empty.mul(&a).is_empty());
    assert!(empty.mul(&empty).is_empty());
    // Scalar multiplication: zero collapses, one is the identity, a
    // negative constant reverses the interval order.
    assert_eq!(a.mul_value(0), IntervalSet::singleton(0));
    assert_eq!(a.mul_value(1), a);
    assert_eq!(a.mul_value(2), vec![(2, 4), (10, 12)].to_interval_set());
    assert_eq!(a.mul_value(-1), vec![(-6, -5), (-2, -1)].to_interval_set());
}

#[test]
fn test_bounds_and_size() {
    let whole = IntervalSet::whole();
    assert_eq!(whole.size(), u32::MAX);
    assert_eq!(whole.lower(), BOUND_MIN);
    assert_eq!(whole.upper(), BOUND_MAX);
    let single = IntervalSet::singleton(5);
    assert_eq!(single.size(), 1);
    assert_eq!(single.lower(), 5);
    assert_eq!(single.upper(), 5);
    assert!(single.contains(5));
    assert!(!single.is_empty());
    assert_eq!(IntervalSet::empty().size(), 0);
    assert!(IntervalSet::empty().is_empty());
    assert_eq!(vec![(3, 5), (8, 9)].to_interval_set().size(), 5);
    // Scalar overloads of union and intersection.
    let is = vec![(1, 4), (6, 7)].to_interval_set();
    assert_eq!(is.union_value(5), vec![(1, 7)].to_interval_set());
    assert_eq!(is.union_value(10), vec![(1, 4), (6, 7), (10, 10)].to_interval_set());
    assert_eq!(is.intersection_value(3), IntervalSet::singleton(3));
    assert_eq!(is.intersection_value(10), IntervalSet::empty());
    assert_eq!(
        is.difference_value(2),
        vec![(1, 1), (3, 4), (6, 7)].to_interval_set()
    );
    assert_eq!(
        is.symmetric_difference_value(5),
        vec![(1, 7)].to_interval_set()
    );
    assert_eq!(
        is.symmetric_difference_value(4),
        vec![(1, 3), (6, 7)].to_interval_set()
    );
}
