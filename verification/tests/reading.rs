use knapsack::parse::split_lines;
use knapsack::text::{chars_of, read_number, read_pair, white_space};
use knapsack::{FormatError, Item, Problem};

fn chars(s: &str) -> Vec<char> {
    s.chars().collect()
}

fn lines(s: &str) -> Vec<String> {
    split_lines(&chars(s))
        .into_iter()
        .map(|line| line.into_iter().collect())
        .collect()
}

#[test]
fn characters_of_a_text() {
    assert_eq!(chars_of("4 é\n"), vec!['4', ' ', 'é', '\n']);
    assert_eq!(chars_of(""), Vec::<char>::new());
}

#[test]
fn white_space_is_what_the_standard_library_says() {
    for u in 0..=0x11_0000u32 {
        if let Some(c) = char::from_u32(u) {
            assert_eq!(white_space(c), c.is_whitespace());
        }
    }
}

#[test]
fn lines_are_what_the_standard_library_says() {
    let samples = [
        "",
        "\n",
        "a",
        "a\n",
        "a\nb",
        "a\nb\n",
        "a\n\nb",
        "\n\n",
        "a\r\nb\r\n",
        "4 11\n8 4\n\n",
    ];
    for s in samples {
        let own = lines(s);
        let std_lines: Vec<String> = s.split('\n').map(|l| l.to_string()).collect();
        let mut expected = std_lines;
        if expected.last().map(|l| l.is_empty()).unwrap_or(false) {
            expected.pop();
        }
        assert_eq!(own, expected);
        // Up to a carriage return before the line feed, which is white space.
        let trimmed: Vec<String> = own
            .iter()
            .map(|l| l.strip_suffix('\r').unwrap_or(l).to_string())
            .collect();
        let by_std: Vec<String> = s.lines().map(|l| l.to_string()).collect();
        assert_eq!(trimmed, by_std);
    }
    assert_eq!(lines("a\n\nb"), vec!["a", "", "b"]);
    assert_eq!(lines("a\nb\n"), vec!["a", "b"]);
    assert_eq!(lines("\n"), vec![""]);
    assert_eq!(lines(""), Vec::<String>::new());
}

#[test]
fn numbers() {
    let max = u32::MAX as u64;
    let read = |s: &str| read_number(&chars(s), 0, s.chars().count(), max);
    assert_eq!(read("0"), Some(0));
    assert_eq!(read("19"), Some(19));
    assert_eq!(read("+19"), Some(19));
    assert_eq!(read("007"), Some(7));
    assert_eq!(read("4294967295"), Some(4294967295));
    assert_eq!(read("4294967296"), None);
    assert_eq!(read("00000000000000000000000000000000000000004294967295"), Some(4294967295));
    assert_eq!(read("99999999999999999999999999999999999999999999999999"), None);
    assert_eq!(read(""), None);
    assert_eq!(read("+"), None);
    assert_eq!(read("-"), None);
    assert_eq!(read("-1"), None);
    assert_eq!(read("++1"), None);
    assert_eq!(read("1+"), None);
    assert_eq!(read("12a"), None);
    assert_eq!(read("a12"), None);
    assert_eq!(read("1.5"), None);
    assert_eq!(read("٣"), None);
    assert_eq!(read_number(&chars("ab123cd"), 2, 5, max), Some(123));
    assert_eq!(read_number(&chars("ab123cd"), 2, 2, max), None);
    assert_eq!(read_number(&chars("18446744073709551615"), 0, 20, u64::MAX), Some(u64::MAX));
    assert_eq!(read_number(&chars("18446744073709551616"), 0, 20, u64::MAX), None);
    assert_eq!(read_number(&chars("11"), 0, 2, 10), None);
    assert_eq!(read_number(&chars("10"), 0, 2, 10), Some(10));
}

#[test]
fn numbers_are_what_the_standard_library_says() {
    let samples = [
        "0", "1", "+1", "-1", "-0", "+", "-", "", "00", "+00012", "4294967295", "4294967296",
        "42949672950", "1 ", " 1", "1_000", "0x10", "1e3", "٣", "１２",
    ];
    for s in samples {
        let own = read_number(&chars(s), 0, s.chars().count(), u32::MAX as u64);
        let by_std = s.parse::<u32>().ok().map(|v| v as u64);
        assert_eq!(own, by_std);
    }
}

#[test]
fn pairs() {
    let max = u32::MAX as u64;
    let read = |s: &str| read_pair(&chars(s), max, max);
    assert_eq!(read("8 4"), Some((8, 4)));
    assert_eq!(read("  8\t\t4  "), Some((8, 4)));
    assert_eq!(read("8 4 and more"), Some((8, 4)));
    assert_eq!(read("8\u{a0}4\r"), Some((8, 4)));
    assert_eq!(read("8\u{3000}4"), Some((8, 4)));
    assert_eq!(read("8"), None);
    assert_eq!(read(""), None);
    assert_eq!(read("   "), None);
    assert_eq!(read("8 x"), None);
    assert_eq!(read("x 4"), None);
    assert_eq!(read("8,4"), None);
    assert_eq!(read_pair(&chars("300 4"), 255, 255), None);
    assert_eq!(read_pair(&chars("4 300"), 255, 255), None);
    assert_eq!(read_pair(&chars("255 300"), 255, 300), Some((255, 300)));
}

#[test]
fn item_from_a_line() {
    assert_eq!(
        Item::from_str("8 4"),
        Ok(Item {
            index: 0,
            value: 8,
            weight: 4
        })
    );
    assert_eq!(
        Item::from_str(" 4294967295\t0 rest"),
        Ok(Item {
            index: 0,
            value: 4294967295,
            weight: 0
        })
    );
    assert_eq!(
        Item::from_str("8"),
        Err(FormatError::MalformedItem { line: 0 })
    );
    assert_eq!(
        Item::from_str("8 -4"),
        Err(FormatError::MalformedItem { line: 0 })
    );
    assert_eq!(
        Item::from_str("4294967296 1"),
        Err(FormatError::MalformedItem { line: 0 })
    );
}

#[test]
fn problem_with_carriage_returns_and_final_line_feed() {
    let problem = Problem::from_str("2 11\r\n8 4\r\n10 5\r\n").unwrap();
    assert_eq!(problem.capacity, 11);
    assert_eq!(
        problem.items,
        vec![Item { index: 0, value: 8, weight: 4 }, Item { index: 1, value: 10, weight: 5 }]
    );
    assert!(problem.is_well_formed());
}

#[test]
fn problem_with_the_largest_capacity() {
    let problem = Problem::from_str("1 4294967295\n1 1").unwrap();
    assert_eq!(problem.capacity, u32::MAX);
    assert_eq!(
        Problem::from_str("1 4294967296\n1 1"),
        Err(FormatError::MalformedHeader)
    );
}

#[test]
fn header_errors() {
    assert_eq!(Problem::from_str(""), Err(FormatError::MissingHeader));
    assert_eq!(Problem::from_str("\n"), Err(FormatError::MalformedHeader));
    assert_eq!(Problem::from_str("4"), Err(FormatError::MalformedHeader));
    assert_eq!(
        Problem::from_str("abc 11\n8 4"),
        Err(FormatError::MalformedHeader)
    );
    assert_eq!(
        Problem::from_str("4 abc\n8 4"),
        Err(FormatError::MalformedHeader)
    );
    assert_eq!(
        Problem::from_str("-1 11\n8 4"),
        Err(FormatError::MalformedHeader)
    );
    assert_eq!(
        Problem::from_str("\n4 11\n8 4"),
        Err(FormatError::MalformedHeader)
    );
}

#[test]
fn item_errors_name_the_first_bad_line() {
    assert_eq!(
        Problem::from_str("3 11\n8 4\nten 5\n15 x"),
        Err(FormatError::MalformedItem { line: 1 })
    );
    assert_eq!(
        Problem::from_str("1 11\n8"),
        Err(FormatError::MalformedItem { line: 0 })
    );
    // An empty line among the items is a line that describes no item.
    assert_eq!(
        Problem::from_str("2 11\n8 4\n\n10 5"),
        Err(FormatError::MalformedItem { line: 1 })
    );
    assert_eq!(
        Problem::from_str("1 11\n8 4\n\n"),
        Err(FormatError::MalformedItem { line: 1 })
    );
}

#[test]
fn a_bad_item_line_comes_before_a_wrong_count() {
    assert_eq!(
        Problem::from_str("5 11\n8 4\nx"),
        Err(FormatError::MalformedItem { line: 1 })
    );
    assert_eq!(
        Problem::from_str("5 11\n8 4"),
        Err(FormatError::CountMismatch {
            declared: 5,
            found: 1
        })
    );
    assert_eq!(
        Problem::from_str("0 11\n8 4"),
        Err(FormatError::CountMismatch {
            declared: 0,
            found: 1
        })
    );
}

#[test]
fn problem_without_items() {
    let problem = Problem::from_str("0 11").unwrap();
    assert_eq!(problem.capacity, 11);
    assert!(problem.items.is_empty());
}
