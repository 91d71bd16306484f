use interval_set::construct::ToIntervalSet;
use interval_set::set::IntervalSet;

const EXTEND_EXAMPLE: [(i32, i32); 2] = [(11, 33), (-55, -44)];

#[test]
fn test_to_interval_set() {
    // This example should not panic, and should yield the correct result.
    let intervals = vec![(3, 8), (2, 5)].to_interval_set();
    assert_eq!(intervals.interval_count(), 1);
    assert_eq!(intervals.lower(), 2);
    assert_eq!(intervals.upper(), 8);
}

#[test]
fn test_extend_empty() {
    // Calling extend with unordered input should not panic.
    let mut set = IntervalSet::empty();
    set.extend(EXTEND_EXAMPLE.to_vec());
    assert_eq!(set.interval_count(), 2);
}

#[test]
fn test_extend_non_empty() {
    // Extending an IntervalSet with intervals that belong at the start or
    // the middle of the set should not panic.
    let mut intervals = vec![(10, 15), (20, 30)].to_interval_set();
    let at_start = vec![(0, 5)];
    intervals.extend(at_start);
    let in_middle = vec![(17, 18)];
    intervals.extend(in_middle);

    assert_eq!(intervals.interval_count(), 4);
    assert_eq!(intervals.lower(), 0);
    assert_eq!(intervals.upper(), 30);
}

#[test]
fn test_iterator() {
    let empty = IntervalSet::empty();
    let a = [(0, 5), (10, 15)].to_interval_set();
    let pairs = a.iter();
    assert_eq!(pairs.len(), 2, "test 1 of test_iterator");
    assert_eq!(pairs[0], (0, 5), "test 2 of test_iterator");
    assert_eq!(pairs[1], (10, 15), "test 3 of test_iterator");
    for _x in empty.iter() {
        assert!(
            false,
            "test 4 of test_iterator: empty interval must not yield an element."
        );
    }
}

#[test]
fn test_ser_de_single_interval_set() {
    let a = IntervalSet::new(8, 12);
    let wire = a.encode();
    assert_eq!(wire, Some(vec![(8, 12)]));
    let back = IntervalSet::decode(&wire);
    assert_eq!(back, a);
}

#[test]
fn test_ser_de_multiple_interval_set() {
    let a = [(20, 21), (3, 5), (-10, -5)].to_interval_set();
    let wire = a.encode();
    assert_eq!(wire, Some(vec![(-10, -5), (3, 5), (20, 21)]));
    let back = IntervalSet::decode(&wire);
    assert_eq!(back, a);
}

#[test]
fn test_ser_de_empty_interval_set() {
    let a = IntervalSet::empty();
    let wire = a.encode();
    assert_eq!(wire, None);
    let back = IntervalSet::decode(&wire);
    assert_eq!(back, a);
}

#[test]
fn test_decode_non_canonical_pairs() {
    // Touching intervals that were not pre-merged still decode to the
    // correct canonical value.
    let wire = Some(vec![(1, 2), (2, 5), (7, 8)]);
    let set = IntervalSet::decode(&wire);
    assert_eq!(set, vec![(1, 5), (7, 8)].to_interval_set());
    assert_eq!(set.interval_count(), 2);
}

#[test]
fn test_to_interval_set_shapes() {
    // Every conversion shape yields the same canonical set: a single pair,
    // a vector, a slice and a fixed-size array.
    let single = (3, 4).to_interval_set();
    assert_eq!(single, IntervalSet::new(3, 4));
    let from_vec = vec![(2, 5), (7, 8)].to_interval_set();
    let from_slice = (&[(2, 5), (7, 8)][..]).to_interval_set();
    let from_array = [(7, 8), (2, 5)].to_interval_set();
    assert_eq!(from_vec, from_slice);
    assert_eq!(from_vec, from_array);
    assert_eq!(from_vec.interval_count(), 2);
    assert!(Vec::new().to_interval_set().is_empty());
}
