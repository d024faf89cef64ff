use advent::year2025::day03::{find_joltage, joltage_lobby, BankFault, JoltageError};

fn lines_of(input: &str) -> Vec<String> {
    input.split("\n").map(String::from).collect()
}

#[test]
fn day03_input_example() {
    let input = r#"987654321111111
811111111111119
234234234234278
818181911112111"#;

    let lines = input.split("\n");

    let sum = joltage_lobby(&lines.map(String::from).collect(), 2);
    assert_eq!(sum, Ok(357));

    let lines = input.split("\n");
    let sum = joltage_lobby(&lines.map(String::from).collect(), 12);
    assert_eq!(sum, Ok(3121910778619));
}

#[test]
fn joltage_of_each_bank() {
    assert_eq!(find_joltage("987654321111111", 2), Ok(98));
    assert_eq!(find_joltage("811111111111119", 2), Ok(89));
    assert_eq!(find_joltage("234234234234278", 2), Ok(78));
    assert_eq!(find_joltage("818181911112111", 2), Ok(92));
    assert_eq!(find_joltage("987654321111111", 12), Ok(987654321111));
    assert_eq!(find_joltage("811111111111119", 12), Ok(811111111119));
    assert_eq!(find_joltage("234234234234278", 12), Ok(434234234278));
    assert_eq!(find_joltage("818181911112111", 12), Ok(888911112111));
}

#[test]
fn joltage_edges() {
    assert_eq!(find_joltage("", 0), Ok(0));
    assert_eq!(find_joltage("12345", 0), Ok(0));
    assert_eq!(find_joltage("12345", 5), Ok(12345));
    assert_eq!(find_joltage("00100", 2), Ok(10));
    assert_eq!(find_joltage("9999999999999999999", 19), Ok(9999999999999999999));
    assert_eq!(find_joltage("12345", 6), Err(BankFault::TooShort));
    assert_eq!(find_joltage("12a45", 2), Err(BankFault::BadDigit));
    assert_eq!(find_joltage("12/45", 2), Err(BankFault::BadDigit));
    assert_eq!(find_joltage("12a45", 6), Err(BankFault::TooShort));
    assert_eq!(find_joltage("11111111111111111111", 20), Err(BankFault::TooManyBatteries));
}

#[test]
fn joltage_is_the_best_of_all_choices() {
    let bank = "4938271605";
    let digits: Vec<u64> = bank.bytes().map(|b| (b - b'0') as u64).collect();
    for n in 0..=digits.len() {
        let mut best = 0u64;
        for subset in 0u32..(1 << digits.len()) {
            if subset.count_ones() as usize != n {
                continue;
            }
            let mut value = 0u64;
            for (i, d) in digits.iter().enumerate() {
                if subset >> i & 1 == 1 {
                    value = value * 10 + d;
                }
            }
            best = best.max(value);
        }
        assert_eq!(find_joltage(bank, n), Ok(best));
    }
}

#[test]
fn joltage_lobby_errors() {
    let lines = lines_of("12\n3\n4x");
    assert_eq!(
        joltage_lobby(&lines, 2),
        Err(JoltageError::Bank { line: 1, fault: BankFault::TooShort })
    );
    assert_eq!(
        joltage_lobby(&lines, 1),
        Err(JoltageError::Bank { line: 2, fault: BankFault::BadDigit })
    );
    let lines = lines_of("9999999999999999999\n9999999999999999999");
    assert_eq!(joltage_lobby(&lines, 19), Err(JoltageError::Overflow));
    assert_eq!(joltage_lobby(&Vec::new(), 3), Ok(0));
}
