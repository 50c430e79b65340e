use knapsack::format::write_decimal;
use knapsack::Solution;

fn decimal(n: u128) -> String {
    let mut out = String::from("<");
    write_decimal(&mut out, n);
    out
}

#[test]
fn decimal_digits() {
    assert_eq!(decimal(0), "<0");
    assert_eq!(decimal(7), "<7");
    assert_eq!(decimal(10), "<10");
    assert_eq!(decimal(1234567890), "<1234567890");
    assert_eq!(decimal(u128::MAX), format!("<{}", u128::MAX));
    for n in 0..2000u128 {
        assert_eq!(decimal(n), format!("<{}", n));
    }
}

#[test]
fn solution_without_marks() {
    let solution = Solution {
        value: 0,
        is_optimal: true,
        included: vec![],
    };
    assert_eq!(solution.to_string(), "0 1\n");
}

#[test]
fn solution_with_one_mark() {
    let solution = Solution {
        value: 5,
        is_optimal: false,
        included: vec![true],
    };
    assert_eq!(solution.to_string(), "5 0\n1");
}

#[test]
fn solution_with_a_large_value() {
    let solution = Solution {
        value: 12884901885,
        is_optimal: true,
        included: vec![true, true, false, true],
    };
    assert_eq!(solution.to_string(), "12884901885 1\n1 1 0 1");
}
