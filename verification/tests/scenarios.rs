use knapsack::{solve, FormatError, Item, Problem, Solution, SolveError};

#[test]
fn test_solve() {
    let input = "4 11\n8 4\n10 5\n15 8\n4 3\n";
    let output = solve(input).unwrap();
    let expected = "19 1
0 0 1 1";
    assert_eq!(output, expected);
}

#[test]
fn test_parse() {
    let input = "4 11
8 4
10 5
15 8
4 3";
    let result: Problem = Problem::from_str(input).unwrap();
    let expected = Problem {
        capacity: 11,
        items: vec![
            Item {
                index: 0,
                value: 8,
                weight: 4,
            },
            Item {
                index: 1,
                value: 10,
                weight: 5,
            },
            Item {
                index: 2,
                value: 15,
                weight: 8,
            },
            Item {
                index: 3,
                value: 4,
                weight: 3,
            },
        ],
    };
    assert_eq!(result, expected);
}

#[test]
fn test_display_solution() {
    let solution = Solution {
        value: 19,
        is_optimal: true,
        included: vec![false, false, true, true],
    };
    assert_eq!(
        solution.to_string(),
        "19 1
0 0 1 1"
    );
}

#[test]
fn four_items_without_final_line_feed() {
    assert_eq!(
        solve("4 11\n8 4\n10 5\n15 8\n4 3"),
        Ok("19 1\n0 0 1 1".to_string())
    );
}

#[test]
fn header_that_is_no_number_is_a_format_error() {
    assert_eq!(
        solve("abc 11\n8 4\n10 5"),
        Err(SolveError::Format(FormatError::MalformedHeader))
    );
}

#[test]
fn fewer_item_lines_than_declared_is_a_format_error() {
    assert_eq!(
        solve("3 11\n8 4\n10 5"),
        Err(SolveError::Format(FormatError::CountMismatch {
            declared: 3,
            found: 2
        }))
    );
}

#[test]
fn more_item_lines_than_declared_is_a_format_error() {
    assert_eq!(
        solve("1 11\n8 4\n10 5"),
        Err(SolveError::Format(FormatError::CountMismatch {
            declared: 1,
            found: 2
        }))
    );
}

#[test]
fn single_item_that_is_too_heavy_stays_out() {
    let problem = Problem {
        capacity: 5,
        items: vec![Item {
            index: 0,
            value: 7,
            weight: 6,
        }],
    };
    let solution = problem.solve().unwrap();
    assert_eq!(solution.value, 0);
    assert_eq!(solution.included, vec![false]);
    assert!(solution.is_optimal);
    assert_eq!(solve("1 5\n7 6"), Ok("0 1\n0".to_string()));
}

#[test]
fn no_items_no_solution() {
    let problem = Problem {
        capacity: 5,
        items: vec![],
    };
    assert_eq!(problem.solve(), Err(SolveError::NoSolution));
    assert_eq!(solve("0 5"), Err(SolveError::NoSolution));
    assert_eq!(solve("0 5\n"), Err(SolveError::NoSolution));
}

#[test]
fn empty_text_has_no_header() {
    assert_eq!(
        solve(""),
        Err(SolveError::Format(FormatError::MissingHeader))
    );
    assert_eq!(
        Problem::from_str(""),
        Err(FormatError::MissingHeader)
    );
}

#[test]
fn messages_of_the_errors() {
    assert_eq!(SolveError::NoSolution.message(), "No solutions found");
    assert_eq!(FormatError::MissingHeader.message(), "No first line");
    assert_eq!(
        FormatError::MalformedHeader.message(),
        "Can't parse first line"
    );
    assert_eq!(
        FormatError::MalformedItem { line: 3 }.message(),
        "Can't create Item from line 3"
    );
    assert_eq!(
        FormatError::MalformedItem { line: 120 }.message(),
        "Can't create Item from line 120"
    );
    assert_eq!(
        FormatError::CountMismatch {
            declared: 3,
            found: 2
        }
        .message(),
        "Mismatch between item count and collected items: 3, 2"
    );
    assert_eq!(
        FormatError::CountMismatch {
            declared: 0,
            found: 1024
        }
        .message(),
        "Mismatch between item count and collected items: 0, 1024"
    );
    assert_eq!(
        SolveError::Format(FormatError::MalformedItem { line: 0 }).message(),
        "Can't create Item from line 0"
    );
    assert_eq!(
        SolveError::Format(FormatError::MissingHeader).message(),
        "No first line"
    );
}
