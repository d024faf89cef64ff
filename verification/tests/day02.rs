use advent::year2025::day02::{
    check_gift_shop, invalid_part1, invalid_part2, is_invalid, GiftShopError, Rule,
};

#[test]
fn day02_input_example() {
    let input = r#"11-22,95-115,998-1012,1188511880-1188511890,222220-222224,
1698522-1698528,446443-446449,38593856-38593862,565653-565659,
824824821-824824827,2121212118-2121212124"#;

    let invalid_ids = check_gift_shop(input, Rule::Twice);
    assert_eq!(invalid_ids, Ok(1227775554));

    let invalid_ids = check_gift_shop(input, Rule::Repeated);
    assert_eq!(invalid_ids, Ok(4174379265));
}

#[test]
fn numbers_written_twice() {
    for id in [11, 22, 99, 1010, 6464, 123123, 222222, 1188511885, 38593859] {
        assert!(invalid_part1(id), "{}", id);
    }
    for id in [0, 1, 101, 111, 1001, 123124, 1212121, 12341235, -11, -1010, i64::MAX, i64::MIN] {
        assert!(!invalid_part1(id), "{}", id);
    }
}

#[test]
fn numbers_written_over_and_over() {
    for id in [11, 111, 1010, 999, 565656, 824824824, 2121212121, 12341234, 1212121212, 1111111] {
        assert!(invalid_part2(id), "{}", id);
    }
    for id in [0, 7, 12, 101, 1001, 12312, 1231231, 121212121, -11, -111, i64::MAX, i64::MIN] {
        assert!(!invalid_part2(id), "{}", id);
    }
    assert!(is_invalid(Rule::Twice, 1212) && is_invalid(Rule::Repeated, 1212));
    assert!(!is_invalid(Rule::Twice, 121212) && is_invalid(Rule::Repeated, 121212));
}

#[test]
fn each_number_counts_once() {
    assert_eq!(check_gift_shop("11-22,11-22,20-30", Rule::Twice), Ok(33));
    assert_eq!(check_gift_shop("10-12,5-11,11-11", Rule::Twice), Ok(11));
    assert_eq!(check_gift_shop("95-115", Rule::Twice), Ok(99));
    assert_eq!(check_gift_shop("95-115", Rule::Repeated), Ok(99 + 111));
}

#[test]
fn a_range_that_ends_before_it_starts_holds_nothing() {
    assert_eq!(check_gift_shop("22-11", Rule::Twice), Ok(0));
    assert_eq!(check_gift_shop("22-11,33-33", Rule::Twice), Ok(33));
}

#[test]
fn the_first_range_of_a_piece_decides() {
    assert_eq!(check_gift_shop(" x11-11y ,\n22-22-99", Rule::Twice), Ok(33));
    assert_eq!(check_gift_shop("1a11-11", Rule::Twice), Ok(11));
}

#[test]
fn gift_shop_errors() {
    assert_eq!(check_gift_shop("", Rule::Twice), Err(GiftShopError::BadRange { piece: 0 }));
    assert_eq!(check_gift_shop("11-22,", Rule::Twice), Err(GiftShopError::BadRange { piece: 1 }));
    assert_eq!(check_gift_shop("11-22,5,1-2", Rule::Twice), Err(GiftShopError::BadRange { piece: 1 }));
    assert_eq!(check_gift_shop("11-,1-2", Rule::Twice), Err(GiftShopError::BadRange { piece: 0 }));
    assert_eq!(
        check_gift_shop("1-9223372036854775808", Rule::Twice),
        Err(GiftShopError::BadRange { piece: 0 })
    );
    assert_eq!(
        check_gift_shop("9223372036854775807-9223372036854775807", Rule::Twice),
        Err(GiftShopError::Overflow)
    );
    assert_eq!(check_gift_shop("9223372036854775807-1", Rule::Twice), Ok(0));
    assert_eq!(
        check_gift_shop("5-9223372036854775807", Rule::Twice),
        Err(GiftShopError::Overflow)
    );
    assert_eq!(
        check_gift_shop("11-11,9223372036854775807-9223372036854775807,x", Rule::Twice),
        Err(GiftShopError::BadRange { piece: 2 })
    );
    assert_eq!(
        check_gift_shop("9223372036854775806-9223372036854775806", Rule::Twice),
        Ok(0)
    );
    let twice: Vec<i64> = (0..10).map(|k| (999999999 - k) * 1000000000 + (999999999 - k)).collect();
    let list = |ids: &[i64]| {
        ids.iter().map(|id| format!("{}-{}", id, id)).collect::<Vec<String>>().join(",")
    };
    assert_eq!(
        check_gift_shop(&list(&twice[..9]), Rule::Twice),
        Ok(twice[..9].iter().sum::<i64>())
    );
    assert_eq!(check_gift_shop(&list(&twice), Rule::Twice), Err(GiftShopError::Overflow));
    assert_eq!(check_gift_shop(&list(&twice), Rule::Repeated), Err(GiftShopError::Overflow));
}
