use interval_set::construct::ToIntervalSet;
use interval_set::ivl::BOUND_MAX;
use interval_set::ivl::BOUND_MIN;
use interval_set::set::IntervalSet;

fn make_interval_set(intervals: Vec<(i32, i32)>) -> IntervalSet {
    intervals.to_interval_set()
}

fn test_result(test_id: String, result: &IntervalSet, expected: &IntervalSet) {
    assert!(
        result == expected,
        "{} | {:?} is different from the expected value: {:?}.",
        test_id,
        result,
        expected
    );
}

fn test_binary_value_op<F>(
    test_id: String,
    a: Vec<(i32, i32)>,
    b: i32,
    op: F,
    expected: Vec<(i32, i32)>,
) where
    F: Fn(&IntervalSet, i32) -> IntervalSet,
{
    println!("Info: {}.", test_id);
    let a = make_interval_set(a);
    let expected = make_interval_set(expected);
    test_result(test_id, &op(&a, b), &expected);
}

fn test_binary_value_bool_op<V, F>(test_id: String, a: Vec<(i32, i32)>, b: V, op: F, expected: bool)
where
    F: Fn(&IntervalSet, &V) -> bool,
{
    println!("Info: {}.", test_id);
    let a = make_interval_set(a);
    assert_eq!(op(&a, &b), expected);
}

fn overlap_cases() -> Vec<(u32, Vec<(i32, i32)>, i32, bool)> {
    vec![
        (1, vec![], 0, false),
        (2, vec![(1, 2)], 0, false),
        (3, vec![(1, 2)], 1, true),
        (4, vec![(1, 2)], 2, true),
        (5, vec![(1, 2)], 3, false),
        (6, vec![(1, 3), (5, 7)], 2, true),
        (7, vec![(1, 3), (5, 7)], 6, true),
        (8, vec![(1, 3), (5, 7)], 4, false),
        (9, vec![(1, 3), (5, 7)], 0, false),
        (10, vec![(1, 3), (5, 7)], 8, false),
    ]
}

#[test]
fn test_overlap_bound() {
    let cases = overlap_cases();

    for (id, a, b, expected) in cases {
        test_binary_value_bool_op(
            format!("test #{} of overlap_bound", id),
            a.clone(),
            b,
            |x, y| x.overlap_value(*y),
            expected,
        );
        test_binary_value_bool_op(
            format!("test #{} of overlap_bound", id),
            a,
            b,
            |x, y| x.contains(*y),
            expected,
        );
    }
}

#[test]
fn test_overlap_option() {
    let mut cases: Vec<(u32, Vec<(i32, i32)>, Option<i32>, bool)> = overlap_cases()
        .into_iter()
        .map(|(id, a, b, e)| (id, a, Some(b), e))
        .collect();
    cases.extend(
        vec![
            (11, vec![], None, false),
            (12, vec![(1, 2)], None, false),
            (13, vec![(1, 3), (5, 7)], None, false),
        ]
        .into_iter(),
    );

    for (id, a, b, expected) in cases {
        test_binary_value_bool_op(
            format!("test #{} of overlap_option", id),
            a.clone(),
            b,
            |x, y| x.overlap_option(*y),
            expected,
        );
    }
}

#[test]
fn test_shrink() {
    let min = BOUND_MIN;
    let max = BOUND_MAX;

    // Second and third args are the test value.
    // The fourth is the result of a shrink_left and the fifth of a shrink_right.
    let cases = vec![
        (1, vec![], 0, vec![], vec![]),
        (2, vec![(min, max)], 0, vec![(0, max)], vec![(min, 0)]),
        (3, vec![(0, 0)], 0, vec![(0, 0)], vec![(0, 0)]),
        (4, vec![(0, 0)], -1, vec![(0, 0)], vec![]),
        (5, vec![(0, 0)], 1, vec![], vec![(0, 0)]),
        (6, vec![(-5, 5)], 0, vec![(0, 5)], vec![(-5, 0)]),
        (7, vec![(-5, 5)], -5, vec![(-5, 5)], vec![(-5, -5)]),
        (8, vec![(-5, 5)], 5, vec![(5, 5)], vec![(-5, 5)]),
        (9, vec![(-5, -1), (1, 5)], 0, vec![(1, 5)], vec![(-5, -1)]),
        (
            10,
            vec![(-5, -1), (1, 5)],
            1,
            vec![(1, 5)],
            vec![(-5, -1), (1, 1)],
        ),
        (
            11,
            vec![(-5, -1), (1, 5)],
            -1,
            vec![(-1, -1), (1, 5)],
            vec![(-5, -1)],
        ),
        (
            12,
            vec![(min, -1), (1, 5)],
            min,
            vec![(min, -1), (1, 5)],
            vec![(min, min)],
        ),
        (
            13,
            vec![(min, -1), (1, 5)],
            max,
            vec![],
            vec![(min, -1), (1, 5)],
        ),
        (
            14,
            vec![(-5, -1), (1, max)],
            max,
            vec![(max, max)],
            vec![(-5, -1), (1, max)],
        ),
        (
            15,
            vec![(min, -1), (1, max)],
            0,
            vec![(1, max)],
            vec![(min, -1)],
        ),
        (
            16,
            vec![(-5, -3), (0, 1), (3, 5)],
            1,
            vec![(1, 1), (3, 5)],
            vec![(-5, -3), (0, 1)],
        ),
    ];

    for (id, a, v, expected_left, expected_right) in cases {
        test_binary_value_op(
            format!("test #{} of shrink_left", id),
            a.clone(),
            v,
            |x, v| x.shrink_left(v),
            expected_left,
        );
        test_binary_value_op(
            format!("test #{} of shrink_right", id),
            a,
            v,
            |x, v| x.shrink_right(v),
            expected_right,
        );
    }
}
