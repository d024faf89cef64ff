use advent::year2025::day06::{
    read_input, trash_compactor_part_one, trash_compactor_part_two, SheetError,
};

fn lines_of(input: &str) -> Vec<String> {
    input.split("\n").map(str::to_string).collect()
}

#[test]
fn day06_input_example() {
    let input = r#"123 328  51 64 
 45 64  387 23 
  6 98  215 314
*   +   *   +  "#;

    let lines = input.split("\n").into_iter().map(str::to_string);

    let result = trash_compactor_part_one(&lines.collect());

    assert_eq!(result, Ok(4277556));

    let lines = input.split("\n").into_iter().map(str::to_string);

    let result = trash_compactor_part_two(&lines.collect());

    assert_eq!(result, Ok(3263827));
}

#[test]
fn reads_rows_and_operations() {
    let (rows, operations) = read_input(&lines_of("1 2\n* +\n 3  +4 \n\n+")).unwrap();
    assert_eq!(rows, vec![vec![1, 2], vec![]]);
    assert_eq!(operations, vec![b"*".to_vec(), b"+".to_vec(), b"3".to_vec(), b"+4".to_vec(), b"+".to_vec()]);
    assert_eq!(read_input(&lines_of("1 2\nx\n3 y")), Err(1));
}

#[test]
fn part_one_by_columns() {
    assert_eq!(trash_compactor_part_one(&lines_of("2 3\n4 5\n* +")), Ok(8 + 8));
    assert_eq!(trash_compactor_part_one(&lines_of("7\n+")), Ok(7));
    assert_eq!(trash_compactor_part_one(&lines_of("7 8 9\n+")), Ok(7));
    assert_eq!(trash_compactor_part_one(&lines_of("1 2\n3 4")), Ok(0));
    assert_eq!(trash_compactor_part_one(&Vec::new()), Ok(0));
}

#[test]
fn part_one_errors() {
    assert_eq!(
        trash_compactor_part_one(&lines_of("1 2\n3 x\n+ +")),
        Err(SheetError::BadNumber { line: 1 })
    );
    assert_eq!(
        trash_compactor_part_one(&lines_of("1 2\n+ -+")),
        Err(SheetError::BadOperation { column: 1 })
    );
    assert_eq!(
        trash_compactor_part_one(&lines_of("1 2\n3\n+ +")),
        Err(SheetError::MissingNumber { column: 1 })
    );
    assert_eq!(trash_compactor_part_one(&lines_of("+")), Err(SheetError::MissingNumber { column: 0 }));
    assert_eq!(
        trash_compactor_part_one(&lines_of("18446744073709551615\n1\n+")),
        Err(SheetError::Overflow)
    );
    assert_eq!(
        trash_compactor_part_one(&lines_of("4294967296\n4294967296\n0\n*")),
        Err(SheetError::Overflow)
    );
    assert_eq!(
        trash_compactor_part_one(&lines_of("18446744073709551615 1\n+ +")),
        Err(SheetError::Overflow)
    );
    assert_eq!(
        trash_compactor_part_one(&lines_of("4294967296 3\n4294967295 3\n* +")),
        Ok(4294967296 * 4294967295 + 6)
    );
}

#[test]
fn part_two_by_columns_from_the_right() {
    assert_eq!(trash_compactor_part_two(&lines_of("12\n34\n+ ")), Ok(24 + 13));
    assert_eq!(trash_compactor_part_two(&lines_of("12\n34\n* ")), Ok(24 * 13));
    assert_eq!(trash_compactor_part_two(&lines_of("5\n*")), Ok(5));
    assert_eq!(trash_compactor_part_two(&lines_of("5 \n+7")), Ok(75));
    assert_eq!(trash_compactor_part_two(&lines_of(" 9\n+ ")), Ok(9));
    assert_eq!(trash_compactor_part_two(&lines_of("9 \n +")), Ok(0));
    assert_eq!(trash_compactor_part_two(&lines_of("57")), Ok(0));
    assert_eq!(trash_compactor_part_two(&lines_of("")), Ok(0));
}

#[test]
fn part_two_errors() {
    assert_eq!(trash_compactor_part_two(&Vec::new()), Err(SheetError::Ragged));
    assert_eq!(trash_compactor_part_two(&lines_of("12\n3\n+ ")), Err(SheetError::Ragged));
    assert_eq!(trash_compactor_part_two(&lines_of("1x\n+ ")), Err(SheetError::BadWord { word: 0 }));
    assert_eq!(trash_compactor_part_two(&lines_of("+")), Err(SheetError::EmptyProblem { word: 0 }));
    assert_eq!(
        trash_compactor_part_two(&lines_of("11\n++")),
        Err(SheetError::EmptyProblem { word: 0 })
    );
    assert_eq!(
        trash_compactor_part_two(&lines_of("7 \n+*")),
        Err(SheetError::EmptyProblem { word: 0 })
    );
    let wide = "9".repeat(20);
    assert_eq!(
        trash_compactor_part_two(&vec![wide, "+".to_string() + &" ".repeat(19)]),
        Ok(9 * 20)
    );
    let most: Vec<String> = "18446744073709551615+".chars().map(|c| c.to_string()).collect();
    assert_eq!(trash_compactor_part_two(&most), Ok(u64::MAX));
    let beyond: Vec<String> = "18446744073709551616+".chars().map(|c| c.to_string()).collect();
    assert_eq!(trash_compactor_part_two(&beyond), Err(SheetError::EmptyProblem { word: 0 }));
    let twice: Vec<String> =
        "18446744073709551615+".chars().map(|c| format!("{} {}", c, c)).collect();
    assert_eq!(trash_compactor_part_two(&twice), Err(SheetError::Overflow));
    let product: Vec<String> = "4294967296*".chars().map(|c| format!("{} {}", c, '4')).collect();
    assert_eq!(trash_compactor_part_two(&product), Err(SheetError::Overflow));
    assert_eq!(
        trash_compactor_part_two(&lines_of("44\n22\n99\n44\n99\n66\n77\n22\n99\n66\n *")),
        Err(SheetError::BadWord { word: 0 })
    );
}
