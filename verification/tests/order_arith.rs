use interval_set::construct::ToIntervalSet;
use interval_set::order::Kleene;
use interval_set::set::IntervalSet;

fn make_interval_set(intervals: Vec<(i32, i32)>) -> IntervalSet {
    intervals.to_interval_set()
}

fn test_result(test_id: String, result: &IntervalSet, expected: &IntervalSet) {
    assert!(
        result == expected,
        "{} | {:?} is different from the expected value: {:?}.",
        test_id,
        result,
        expected
    );
}

fn test_binary_op_sym<F>(
    test_id: String,
    a: Vec<(i32, i32)>,
    b: Vec<(i32, i32)>,
    op: F,
    expected: Vec<(i32, i32)>,
) where
    F: Fn(&IntervalSet, &IntervalSet) -> IntervalSet,
{
    test_binary_op(
        test_id.clone(),
        a.clone(),
        b.clone(),
        |i, j| op(i, j),
        expected.clone(),
    );
    test_binary_op(test_id, b, a, op, expected);
}

fn test_binary_op<F>(
    test_id: String,
    a: Vec<(i32, i32)>,
    b: Vec<(i32, i32)>,
    op: F,
    expected: Vec<(i32, i32)>,
) where
    F: Fn(&IntervalSet, &IntervalSet) -> IntervalSet,
{
    println!("Info: {}.", test_id);
    let a = make_interval_set(a);
    let b = make_interval_set(b);
    let expected = make_interval_set(expected);
    test_result(test_id, &op(&a, &b), &expected);
}

fn test_binary_bool_op<F>(
    test_id: String,
    a: Vec<(i32, i32)>,
    b: Vec<(i32, i32)>,
    op: F,
    expected: bool,
) where
    F: Fn(&IntervalSet, &IntervalSet) -> bool,
{
    println!("Info: {}.", test_id);
    let a = make_interval_set(a);
    let b = make_interval_set(b);
    assert_eq!(op(&a, &b), expected);
}

fn test_binary_value_op<F>(
    test_id: String,
    a: Vec<(i32, i32)>,
    b: i32,
    op: F,
    expected: Vec<(i32, i32)>,
) where
    F: Fn(&IntervalSet, i32) -> IntervalSet,
{
    println!("Info: {}.", test_id);
    let a = make_interval_set(a);
    let expected = make_interval_set(expected);
    test_result(test_id, &op(&a, b), &expected);
}

#[test]
fn test_subset() {
    // Note: the first number is the test id, so it should be easy to identify which test has failed.
    // The two first vectors are the operands and the four last are expected results (resp.
    // `a.is_subset(b)`, `b.is_subset(a)`, `a.is_proper_subset(b)` and `b.is_proper_subset(a)`.
    let cases = vec![
        // identity tests
        (1, vec![], vec![], true, true, false, false),
        (2, vec![], vec![(1, 2)], true, false, true, false),
        (3, vec![], vec![(1, 2), (7, 9)], true, false, true, false),
        (
            4,
            vec![(1, 2), (7, 9)],
            vec![(1, 2)],
            false,
            true,
            false,
            true,
        ),
        (
            5,
            vec![(1, 2), (7, 9)],
            vec![(1, 2), (7, 9)],
            true,
            true,
            false,
            false,
        ),
        // middle tests
        (
            6,
            vec![(2, 7)],
            vec![(1, 2), (7, 9)],
            false,
            false,
            false,
            false,
        ),
        (
            7,
            vec![(3, 7)],
            vec![(1, 2), (7, 9)],
            false,
            false,
            false,
            false,
        ),
        (
            8,
            vec![(4, 5)],
            vec![(1, 2), (7, 9)],
            false,
            false,
            false,
            false,
        ),
        (
            9,
            vec![(2, 8)],
            vec![(1, 2), (7, 9)],
            false,
            false,
            false,
            false,
        ),
        // mixed tests
        (
            10,
            vec![(-3, -1), (4, 5), (11, 12)],
            vec![(-2, -1), (7, 9)],
            false,
            false,
            false,
            false,
        ),
        (
            11,
            vec![(-3, 0), (3, 6), (10, 11)],
            vec![(-2, -1), (4, 4), (10, 10)],
            false,
            true,
            false,
            true,
        ),
        (
            12,
            vec![(-3, 0), (3, 6), (10, 11)],
            vec![(-3, 0), (3, 6), (10, 11)],
            true,
            true,
            false,
            false,
        ),
        // englobing tests
        (
            13,
            vec![(-1, 11)],
            vec![(1, 2), (7, 9)],
            false,
            true,
            false,
            true,
        ),
    ];

    for (id, a, b, expected, expected_sym, expected_proper, expected_proper_sym) in cases {
        test_binary_bool_op(
            format!("test #{} of subset", id),
            a.clone(),
            b.clone(),
            |x, y| x.is_subset(y),
            expected,
        );
        test_binary_bool_op(
            format!("test #{} of subset", id),
            b.clone(),
            a.clone(),
            |x, y| x.is_subset(y),
            expected_sym,
        );
        test_binary_bool_op(
            format!("test #{} of proper subset", id),
            a.clone(),
            b.clone(),
            |x, y| x.is_proper_subset(y),
            expected_proper,
        );
        test_binary_bool_op(
            format!("test #{} of proper subset", id),
            b.clone(),
            a.clone(),
            |x, y| x.is_proper_subset(y),
            expected_proper_sym,
        );
    }
}

#[test]
fn test_arithmetics() {
    // Second and third args are the test values.
    // 4, 5, 6 and 7 are the results of `a + b`, `a - b`, `b - a` and `a * b`
    let cases = vec![
        (1, vec![], vec![], vec![], vec![], vec![], vec![]),
        (
            2,
            vec![],
            vec![(1, 1), (3, 5)],
            vec![],
            vec![],
            vec![],
            vec![],
        ),
        (
            3,
            vec![(1, 1), (3, 5)],
            vec![(0, 0)],
            vec![(1, 1), (3, 5)],
            vec![(1, 1), (3, 5)],
            vec![(-5, -3), (-1, -1)],
            vec![(0, 0)],
        ),
        (
            4,
            vec![(1, 1), (3, 5)],
            vec![(1, 1)],
            vec![(2, 2), (4, 6)],
            vec![(0, 0), (2, 4)],
            vec![(-4, -2), (0, 0)],
            vec![(1, 1), (3, 5)],
        ),
        (
            5,
            vec![(1, 1), (3, 5)],
            vec![(0, 1), (4, 5)],
            vec![(1, 10)],
            vec![(-4, 5)],
            vec![(-5, 4)],
            vec![(0, 5), (12, 25)],
        ),
    ];

    for (id, a, b, e_add, e_sub, e_sub_sym, e_mul) in cases {
        test_binary_op_sym(
            format!("test #{} of `a+b`", id),
            a.clone(),
            b.clone(),
            |x, y| x.add(y),
            e_add,
        );
        test_binary_op(
            format!("test #{} of `a-b`", id),
            a.clone(),
            b.clone(),
            |x, y| x.sub(y),
            e_sub,
        );
        test_binary_op(
            format!("test #{} of `b-a`", id),
            b.clone(),
            a.clone(),
            |x, y| x.sub(y),
            e_sub_sym,
        );
        test_binary_op_sym(
            format!("test #{} of `a*b`", id),
            a.clone(),
            b.clone(),
            |x, y| x.mul(y),
            e_mul,
        );
    }
}

#[test]
fn test_arithmetics_bound() {
    let i1_35 = vec![(1, 1), (3, 5)];
    // Second and third args are the test value.
    // 4, 5 and 6 are the results of `a + b`, `a - b` and `a * b`
    let cases = vec![
        (1, vec![], 0, vec![], vec![], vec![]),
        (2, vec![(0, 0)], 0, vec![(0, 0)], vec![(0, 0)], vec![(0, 0)]),
        (
            3,
            i1_35.clone(),
            0,
            i1_35.clone(),
            i1_35.clone(),
            vec![(0, 0)],
        ),
        (4, vec![], 1, vec![], vec![], vec![]),
        (
            5,
            vec![(0, 0)],
            1,
            vec![(1, 1)],
            vec![(-1, -1)],
            vec![(0, 0)],
        ),
        (
            6,
            i1_35.clone(),
            1,
            vec![(2, 2), (4, 6)],
            vec![(0, 0), (2, 4)],
            i1_35.clone(),
        ),
        (7, vec![], 3, vec![], vec![], vec![]),
        (
            8,
            vec![(0, 0)],
            3,
            vec![(3, 3)],
            vec![(-3, -3)],
            vec![(0, 0)],
        ),
        (
            9,
            i1_35.clone(),
            3,
            vec![(4, 4), (6, 8)],
            vec![(-2, -2), (0, 2)],
            vec![(3, 3), (9, 15)],
        ),
    ];

    for (id, a, b, e_add, e_sub, e_mul) in cases {
        test_binary_value_op(
            format!("test #{} of `a+b`", id),
            a.clone(),
            b,
            |x, y| x.add_value(y),
            e_add,
        );
        test_binary_value_op(
            format!("test #{} of `a-b`", id),
            a.clone(),
            b,
            |x, y| x.sub_value(y),
            e_sub,
        );
        test_binary_value_op(
            format!("test #{} of `a*b`", id),
            a.clone(),
            b,
            |x, y| x.mul_value(y),
            e_mul,
        );
    }
}

#[test]
fn test_lattice() {
    let whole = IntervalSet::whole();
    let empty = IntervalSet::empty();
    let a = vec![(0, 5), (10, 15)].to_interval_set();
    let b = vec![(5, 10)].to_interval_set();
    let c = vec![(6, 9)].to_interval_set();
    let d = vec![(4, 6), (8, 10)].to_interval_set();
    let e = vec![(5, 5), (10, 10)].to_interval_set();
    let f = vec![(6, 6), (8, 9)].to_interval_set();
    let g = vec![(0, 15)].to_interval_set();
    let h = vec![(4, 10)].to_interval_set();
    let data_a = vec![
        empty.duplicate(),
        empty.duplicate(),
        whole.duplicate(),
        a.duplicate(),
        b.duplicate(),
        c.duplicate(),
    ];
    let data_b = vec![
        whole.duplicate(),
        a.duplicate(),
        a.duplicate(),
        b.duplicate(),
        c.duplicate(),
        d.duplicate(),
    ];
    let expected_entailment = vec![
        Kleene::True,
        Kleene::True,
        Kleene::False,
        Kleene::Unknown,
        Kleene::False,
        Kleene::Unknown,
    ];
    let expected_join = vec![
        empty.duplicate(),
        empty.duplicate(),
        a.duplicate(),
        e.duplicate(),
        c.duplicate(),
        f.duplicate(),
    ];
    let expected_meet = vec![
        whole.duplicate(),
        a.duplicate(),
        whole.duplicate(),
        g.duplicate(),
        b.duplicate(),
        h.duplicate(),
    ];
    for i in 0..data_a.len() {
        let x = &data_a[i];
        let y = &data_b[i];
        assert_eq!(
            x.entail(y),
            expected_entailment[i],
            "entailment case {} failed",
            i
        );
        assert_eq!(
            x.duplicate().join(y.duplicate()),
            expected_join[i],
            "join case {} failed",
            i
        );
        assert_eq!(
            x.duplicate().meet(y.duplicate()),
            expected_meet[i],
            "meet case {} failed",
            i
        );
    }
    // The lattice extremes: top is the empty set, bottom the whole range.
    assert_eq!(IntervalSet::top(), empty);
    assert_eq!(IntervalSet::bot(), whole);
}
