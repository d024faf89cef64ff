use advent::year2025::day05::{
    cafeteria_part1, cafeteria_part2, classify, CafeteriaError, Entry, Range,
};

fn lines_of(input: &str) -> Vec<String> {
    input.split("\n").map(str::to_string).collect()
}

#[test]
fn day05_input_example() {
    let input = r#"3-5
10-14
16-20
12-18

1
5
8
11
17
32"#;

    let lines = input.split("\n").into_iter().map(str::to_string);

    let fresh = cafeteria_part1(&lines.collect());

    assert_eq!(fresh, Ok(3));

    let lines = input.split("\n").into_iter().map(str::to_string);

    let fresh = cafeteria_part2(&lines.collect());

    assert_eq!(fresh, Ok(14));
}

#[test]
fn classifies_lines() {
    assert_eq!(classify("3-5"), Entry::Span(3, 5));
    assert_eq!(classify("ab 12-7 cd 8-9"), Entry::Span(12, 7));
    assert_eq!(classify("1-2-3"), Entry::Span(1, 2));
    assert_eq!(classify("1a23-45"), Entry::Span(23, 45));
    assert_eq!(classify("0-18446744073709551615"), Entry::Span(0, u64::MAX));
    assert_eq!(classify("0-18446744073709551616"), Entry::Huge);
    assert_eq!(classify("18446744073709551616-0"), Entry::Huge);
    assert_eq!(classify("17"), Entry::Id(17));
    assert_eq!(classify("+17"), Entry::Id(17));
    assert_eq!(classify("0017"), Entry::Id(17));
    assert_eq!(classify("18446744073709551615"), Entry::Id(u64::MAX));
    assert_eq!(classify("18446744073709551616"), Entry::Junk);
    assert_eq!(classify(""), Entry::Blank);
    assert_eq!(classify(" "), Entry::Junk);
    assert_eq!(classify("-17"), Entry::Junk);
    assert_eq!(classify("17-"), Entry::Junk);
    assert_eq!(classify("1 7"), Entry::Junk);
}

#[test]
fn ranges_count_wherever_they_stand() {
    let lines = lines_of("4\n3-5\n\n20\n19-30");
    assert_eq!(cafeteria_part1(&lines), Ok(2));
    assert_eq!(cafeteria_part2(&lines), Ok(0));
    assert_eq!(cafeteria_part1(&Vec::new()), Ok(0));
    assert_eq!(cafeteria_part2(&Vec::new()), Ok(0));
}

#[test]
fn a_number_in_two_ranges_is_fresh_once() {
    let lines = lines_of("1-10\n5-15\n7\n7");
    assert_eq!(cafeteria_part1(&lines), Ok(2));
    assert_eq!(cafeteria_part2(&lines), Ok(15));
}

#[test]
fn ranges_that_touch_or_nest() {
    assert_eq!(cafeteria_part2(&lines_of("1-3\n4-6")), Ok(6));
    assert_eq!(cafeteria_part2(&lines_of("1-3\n3-6")), Ok(6));
    assert_eq!(cafeteria_part2(&lines_of("1-100\n5-6\n7-8")), Ok(100));
    assert_eq!(cafeteria_part2(&lines_of("5-6\n7-8\n1-100")), Ok(100));
    assert_eq!(cafeteria_part2(&lines_of("1-2\n9-10\n2-9")), Ok(10));
    assert_eq!(cafeteria_part2(&lines_of("9-10\n5-6\n1-2\n6-9\n2-5")), Ok(10));
    assert_eq!(cafeteria_part2(&lines_of("7-7")), Ok(1));
}

#[test]
fn range_ends() {
    let r = Range::new(4, 9);
    assert_eq!((r.lower(), r.upper()), (4, 9));
}

#[test]
fn cafeteria_errors() {
    assert_eq!(cafeteria_part1(&lines_of("3-5\nx")), Err(CafeteriaError::BadLine { line: 1 }));
    assert_eq!(cafeteria_part1(&lines_of("3-5\n \n4")), Err(CafeteriaError::BadLine { line: 1 }));
    assert_eq!(
        cafeteria_part1(&lines_of("3-99999999999999999999")),
        Err(CafeteriaError::BadLine { line: 0 })
    );
    assert_eq!(
        cafeteria_part2(&lines_of("3-5\n3-99999999999999999999")),
        Err(CafeteriaError::BadLine { line: 1 })
    );
    assert_eq!(cafeteria_part2(&lines_of("3-5\nx\n3-99999999999999999999")), Ok(3));
    assert_eq!(
        cafeteria_part2(&lines_of("3-5\n9-7\n8-2")),
        Err(CafeteriaError::ReversedRange { index: 1 })
    );
    assert_eq!(cafeteria_part1(&lines_of("9-7\n8")), Ok(0));
    assert_eq!(
        cafeteria_part2(&lines_of("0-18446744073709551615")),
        Err(CafeteriaError::Overflow)
    );
    assert_eq!(cafeteria_part2(&lines_of("1-18446744073709551615")), Ok(u64::MAX));
    assert_eq!(
        cafeteria_part2(&lines_of("1-18446744073709551615\n0-0")),
        Err(CafeteriaError::Overflow)
    );
}
