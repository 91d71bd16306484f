use interval_set::construct::ToIntervalSet;
use interval_set::ivl::BOUND_MAX;
use interval_set::ivl::BOUND_MIN;
use interval_set::set::IntervalSet;

fn make_interval_set(intervals: Vec<(i32, i32)>) -> IntervalSet {
    intervals.to_interval_set()
}

fn test_inside_outside(is: IntervalSet, inside: Vec<i32>, outside: Vec<i32>) {
    for i in &inside {
        assert!(
            is.contains(*i),
            "{} is not contained inside {:?}, but it should.",
            i,
            is
        );
    }
    for i in &outside {
        assert!(
            !is.contains(*i),
            "{} is contained inside {:?}, but it should not.",
            i,
            is
        );
    }
}

fn test_result(test_id: String, result: &IntervalSet, expected: &IntervalSet) {
    assert!(
        result == expected,
        "{} | {:?} is different from the expected value: {:?}.",
        test_id,
        result,
        expected
    );
}

fn test_binary_op_sym<F>(
    test_id: String,
    a: Vec<(i32, i32)>,
    b: Vec<(i32, i32)>,
    op: F,
    expected: Vec<(i32, i32)>,
) where
    F: Fn(&IntervalSet, &IntervalSet) -> IntervalSet,
{
    test_binary_op(
        test_id.clone(),
        a.clone(),
        b.clone(),
        |i, j| op(i, j),
        expected.clone(),
    );
    test_binary_op(test_id, b, a, op, expected);
}

fn test_binary_op<F>(
    test_id: String,
    a: Vec<(i32, i32)>,
    b: Vec<(i32, i32)>,
    op: F,
    expected: Vec<(i32, i32)>,
) where
    F: Fn(&IntervalSet, &IntervalSet) -> IntervalSet,
{
    println!("Info: {}.", test_id);
    let a = make_interval_set(a);
    let b = make_interval_set(b);
    let expected = make_interval_set(expected);
    test_result(test_id, &op(&a, &b), &expected);
}

fn test_binary_bool_op_sym<F>(
    test_id: String,
    a: Vec<(i32, i32)>,
    b: Vec<(i32, i32)>,
    op: F,
    expected: bool,
) where
    F: Fn(&IntervalSet, &IntervalSet) -> bool,
{
    test_binary_bool_op(
        test_id.clone(),
        a.clone(),
        b.clone(),
        |i, j| op(i, j),
        expected,
    );
    test_binary_bool_op(test_id, b, a, op, expected);
}

fn test_binary_bool_op<F>(
    test_id: String,
    a: Vec<(i32, i32)>,
    b: Vec<(i32, i32)>,
    op: F,
    expected: bool,
) where
    F: Fn(&IntervalSet, &IntervalSet) -> bool,
{
    println!("Info: {}.", test_id);
    let a = make_interval_set(a);
    let b = make_interval_set(b);
    assert_eq!(op(&a, &b), expected);
}

fn test_op<F>(test_id: String, a: Vec<(i32, i32)>, op: F, expected: Vec<(i32, i32)>)
where
    F: Fn(&IntervalSet) -> IntervalSet,
{
    println!("Info: {}.", test_id);
    let a = make_interval_set(a);
    let expected = make_interval_set(expected);
    let result = op(&a);
    test_result(test_id, &result, &expected);
}

#[test]
fn test_contains() {
    let cases = vec![
        (vec![], vec![], vec![-2, -1, 0, 1, 2]),
        (vec![(1, 2)], vec![1, 2], vec![-1, 0, 3, 4]),
        (
            vec![(1, 2), (7, 9)],
            vec![1, 2, 7, 8, 9],
            vec![-1, 0, 3, 4, 5, 6, 10, 11],
        ),
        (
            vec![(1, 2), (4, 5), (7, 9)],
            vec![1, 2, 4, 5, 7, 8, 9],
            vec![-1, 0, 3, 6, 10, 11],
        ),
    ];

    for (is, inside, outside) in cases {
        let is = make_interval_set(is);
        test_inside_outside(is, inside, outside);
    }
}

#[test]
fn test_complement() {
    let min = BOUND_MIN;
    let max = BOUND_MAX;

    let cases = vec![
        (1, vec![], vec![(min, max)]),
        (2, vec![(min, max)], vec![]),
        (3, vec![(0, 0)], vec![(min, -1), (1, max)]),
        (4, vec![(-5, 5)], vec![(min, -6), (6, max)]),
        (5, vec![(-5, -1), (1, 5)], vec![(min, -6), (0, 0), (6, max)]),
        (6, vec![(min, -1), (1, 5)], vec![(0, 0), (6, max)]),
        (7, vec![(-5, -1), (1, max)], vec![(min, -6), (0, 0)]),
        (8, vec![(min, -1), (1, max)], vec![(0, 0)]),
        (
            9,
            vec![(-5, -3), (0, 1), (3, 5)],
            vec![(min, -6), (-2, -1), (2, 2), (6, max)],
        ),
    ];

    for (id, a, expected) in cases {
        test_op(
            format!("test #{} of complement", id),
            a.clone(),
            |x| x.complement(),
            expected,
        );
        test_op(
            format!("test #{} of complement(complement)", id),
            a.clone(),
            |x| x.complement().complement(),
            a,
        );
    }
}

#[test]
fn test_union() {
    // Note: the first number is the test id, so it should be easy to identify which test has failed.
    // The two first vectors are the operands and the expected result is last.
    let sym_cases = vec![
        // identity tests
        (1, vec![], vec![], vec![]),
        (2, vec![], vec![(1, 2)], vec![(1, 2)]),
        (3, vec![], vec![(1, 2), (7, 9)], vec![(1, 2), (7, 9)]),
        (4, vec![(1, 2), (7, 9)], vec![(1, 2)], vec![(1, 2), (7, 9)]),
        (
            5,
            vec![(1, 2), (7, 9)],
            vec![(1, 2), (7, 9)],
            vec![(1, 2), (7, 9)],
        ),
        // front tests
        (
            6,
            vec![(-3, -1)],
            vec![(1, 2), (7, 9)],
            vec![(-3, -1), (1, 2), (7, 9)],
        ),
        (
            7,
            vec![(-3, 0)],
            vec![(1, 2), (7, 9)],
            vec![(-3, 2), (7, 9)],
        ),
        (
            8,
            vec![(-3, 1)],
            vec![(1, 2), (7, 9)],
            vec![(-3, 2), (7, 9)],
        ),
        // middle tests
        (9, vec![(2, 7)], vec![(1, 2), (7, 9)], vec![(1, 9)]),
        (10, vec![(3, 7)], vec![(1, 2), (7, 9)], vec![(1, 9)]),
        (
            11,
            vec![(4, 5)],
            vec![(1, 2), (7, 9)],
            vec![(1, 2), (4, 5), (7, 9)],
        ),
        (12, vec![(2, 8)], vec![(1, 2), (7, 9)], vec![(1, 9)]),
        (13, vec![(2, 6)], vec![(1, 2), (7, 9)], vec![(1, 9)]),
        (14, vec![(3, 6)], vec![(1, 2), (7, 9)], vec![(1, 9)]),
        // back tests
        (15, vec![(8, 9)], vec![(1, 2), (7, 9)], vec![(1, 2), (7, 9)]),
        (
            16,
            vec![(8, 10)],
            vec![(1, 2), (7, 9)],
            vec![(1, 2), (7, 10)],
        ),
        (
            17,
            vec![(9, 10)],
            vec![(1, 2), (7, 9)],
            vec![(1, 2), (7, 10)],
        ),
        (
            18,
            vec![(6, 10)],
            vec![(1, 2), (7, 9)],
            vec![(1, 2), (6, 10)],
        ),
        (
            19,
            vec![(10, 11)],
            vec![(1, 2), (7, 9)],
            vec![(1, 2), (7, 11)],
        ),
        (
            20,
            vec![(11, 12)],
            vec![(1, 2), (7, 9)],
            vec![(1, 2), (7, 9), (11, 12)],
        ),
        // mixed tests
        (
            21,
            vec![(-3, -1), (4, 5), (11, 12)],
            vec![(1, 2), (7, 9)],
            vec![(-3, -1), (1, 2), (4, 5), (7, 9), (11, 12)],
        ),
        (
            22,
            vec![(-3, 0), (3, 6), (10, 11)],
            vec![(1, 2), (7, 9)],
            vec![(-3, 11)],
        ),
        (
            23,
            vec![(-3, 1), (3, 7), (9, 11)],
            vec![(1, 2), (7, 9)],
            vec![(-3, 11)],
        ),
        (
            24,
            vec![(-3, 5), (7, 11)],
            vec![(1, 2), (7, 9)],
            vec![(-3, 5), (7, 11)],
        ),
        (
            25,
            vec![(-3, 5), (7, 8), (12, 12)],
            vec![(1, 2), (7, 9)],
            vec![(-3, 5), (7, 9), (12, 12)],
        ),
        // englobing tests
        (26, vec![(-1, 11)], vec![(1, 2), (7, 9)], vec![(-1, 11)]),
    ];

    for (id, a, b, expected) in sym_cases {
        test_binary_op_sym(
            format!("test #{} of union", id),
            a,
            b,
            |x, y| x.union(y),
            expected,
        );
    }
}

#[test]
fn test_intersection() {
    // Note: the first number is the test id, so it should be easy to identify which test has failed.
    // The two first vectors are the operands and the expected result is last.
    let sym_cases = vec![
        // identity tests
        (1, vec![], vec![], vec![]),
        (2, vec![], vec![(1, 2)], vec![]),
        (3, vec![], vec![(1, 2), (7, 9)], vec![]),
        (4, vec![(1, 2), (7, 9)], vec![(1, 2)], vec![(1, 2)]),
        (
            5,
            vec![(1, 2), (7, 9)],
            vec![(1, 2), (7, 9)],
            vec![(1, 2), (7, 9)],
        ),
        // front tests
        (6, vec![(-3, -1)], vec![(1, 2), (7, 9)], vec![]),
        (7, vec![(-3, 0)], vec![(1, 2), (7, 9)], vec![]),
        (8, vec![(-3, 1)], vec![(1, 2), (7, 9)], vec![(1, 1)]),
        // middle tests
        (9, vec![(2, 7)], vec![(1, 2), (7, 9)], vec![(2, 2), (7, 7)]),
        (10, vec![(3, 7)], vec![(1, 2), (7, 9)], vec![(7, 7)]),
        (11, vec![(4, 5)], vec![(1, 2), (7, 9)], vec![]),
        (12, vec![(2, 8)], vec![(1, 2), (7, 9)], vec![(2, 2), (7, 8)]),
        (13, vec![(2, 6)], vec![(1, 2), (7, 9)], vec![(2, 2)]),
        (14, vec![(3, 6)], vec![(1, 2), (7, 9)], vec![]),
        // back tests
        (15, vec![(8, 9)], vec![(1, 2), (7, 9)], vec![(8, 9)]),
        (16, vec![(8, 10)], vec![(1, 2), (7, 9)], vec![(8, 9)]),
        (17, vec![(9, 10)], vec![(1, 2), (7, 9)], vec![(9, 9)]),
        (18, vec![(6, 10)], vec![(1, 2), (7, 9)], vec![(7, 9)]),
        (19, vec![(10, 11)], vec![(1, 2), (7, 9)], vec![]),
        (20, vec![(11, 12)], vec![(1, 2), (7, 9)], vec![]),
        // mixed tests
        (
            21,
            vec![(-3, -1), (4, 5), (11, 12)],
            vec![(1, 2), (7, 9)],
            vec![],
        ),
        (
            22,
            vec![(-3, 0), (3, 6), (10, 11)],
            vec![(1, 2), (7, 9)],
            vec![],
        ),
        (
            23,
            vec![(-3, 1), (3, 7), (9, 11)],
            vec![(1, 2), (7, 9)],
            vec![(1, 1), (7, 7), (9, 9)],
        ),
        (
            24,
            vec![(-3, 5), (7, 11)],
            vec![(1, 2), (7, 9)],
            vec![(1, 2), (7, 9)],
        ),
        (
            25,
            vec![(-3, 5), (7, 8), (12, 12)],
            vec![(1, 2), (7, 9)],
            vec![(1, 2), (7, 8)],
        ),
        // englobing tests
        (
            26,
            vec![(-1, 11)],
            vec![(1, 2), (7, 9)],
            vec![(1, 2), (7, 9)],
        ),
    ];

    for (id, a, b, expected) in sym_cases {
        test_binary_op_sym(
            format!("test #{} of intersection", id),
            a,
            b,
            |x, y| x.intersection(y),
            expected,
        );
    }
}

#[test]
fn test_overlap_and_is_disjoint() {
    // Note: the first number is the test id, so it should be easy to identify which test has failed.
    // The two first vectors are the operands and the expected result is last.
    let sym_cases = vec![
        // identity tests
        (1, vec![], vec![], false),
        (2, vec![], vec![(1, 2)], false),
        (3, vec![], vec![(1, 2), (7, 9)], false),
        (4, vec![(1, 2), (7, 9)], vec![(1, 2)], true),
        (5, vec![(1, 2), (7, 9)], vec![(1, 2), (7, 9)], true),
        // front tests
        (6, vec![(-3, -1)], vec![(1, 2), (7, 9)], false),
        (7, vec![(-3, 0)], vec![(1, 2), (7, 9)], false),
        (8, vec![(-3, 1)], vec![(1, 2), (7, 9)], true),
        // middle tests
        (9, vec![(2, 7)], vec![(1, 2), (7, 9)], true),
        (10, vec![(3, 7)], vec![(1, 2), (7, 9)], true),
        (11, vec![(4, 5)], vec![(1, 2), (7, 9)], false),
        (12, vec![(2, 8)], vec![(1, 2), (7, 9)], true),
        (13, vec![(2, 6)], vec![(1, 2), (7, 9)], true),
        (14, vec![(3, 6)], vec![(1, 2), (7, 9)], false),
        // back tests
        (15, vec![(8, 9)], vec![(1, 2), (7, 9)], true),
        (16, vec![(8, 10)], vec![(1, 2), (7, 9)], true),
        (17, vec![(9, 10)], vec![(1, 2), (7, 9)], true),
        (18, vec![(6, 10)], vec![(1, 2), (7, 9)], true),
        (19, vec![(10, 11)], vec![(1, 2), (7, 9)], false),
        (20, vec![(11, 12)], vec![(1, 2), (7, 9)], false),
        // mixed tests
        (
            21,
            vec![(-3, -1), (4, 5), (11, 12)],
            vec![(1, 2), (7, 9)],
            false,
        ),
        (
            22,
            vec![(-3, 0), (3, 6), (10, 11)],
            vec![(1, 2), (7, 9)],
            false,
        ),
        (
            23,
            vec![(-3, 1), (3, 7), (9, 11)],
            vec![(1, 2), (7, 9)],
            true,
        ),
        (24, vec![(-3, 5), (7, 11)], vec![(1, 2), (7, 9)], true),
        (
            25,
            vec![(-3, 5), (7, 8), (12, 12)],
            vec![(1, 2), (7, 9)],
            true,
        ),
        // englobing tests
        (26, vec![(-1, 11)], vec![(1, 2), (7, 9)], true),
    ];

    for (id, a, b, expected) in sym_cases {
        test_binary_bool_op_sym(
            format!("test #{} of overlap", id),
            a.clone(),
            b.clone(),
            |x, y| x.overlap(y),
            expected,
        );
        test_binary_bool_op_sym(
            format!("test #{} of is_disjoint", id),
            a,
            b,
            |x, y| x.is_disjoint(y),
            !expected,
        );
    }
}
