use advent::utils::point::Point2D;
use advent::year2025::day04::{forklift, part_one, part_two, read_grid};

fn lines_of(input: &str) -> Vec<String> {
    input.split("\n").map(str::to_string).collect()
}

#[test]
fn day04_input_example() {
    let input = r#"..@@.@@@@.
@@@.@.@.@@
@@@@@.@.@@
@.@@@@..@.
@@.@@@@.@@
.@@@@@@@.@
.@.@.@.@@@
@.@@@.@@@@
.@@@@@@@@.
@.@.@@@.@."#;

    let lines = input.split("\n");
    let forklift = part_one(&lines.into_iter().map(str::to_string).collect());

    assert_eq!(forklift, Some(13));

    let lines = input.split("\n");
    let forklift = part_two(&lines.into_iter().map(str::to_string).collect());

    assert_eq!(forklift, Some(43));
}

#[test]
fn forklift_lists_column_by_column() {
    let grid = read_grid(&lines_of("@.@\n.@.\n@.@")).unwrap();
    let rolls = forklift(&grid);
    let expected = vec![
        Point2D::new(0, 0),
        Point2D::new(0, 2),
        Point2D::new(2, 0),
        Point2D::new(2, 2),
    ];
    assert_eq!(rolls, expected);
}

#[test]
fn a_full_block_loses_its_corners_first() {
    let lines = lines_of("@@@\n@@@\n@@@");
    assert_eq!(part_one(&lines), Some(4));
    assert_eq!(part_two(&lines), Some(9));
}

#[test]
fn no_rolls_no_rounds() {
    let lines = lines_of("...\n...");
    assert_eq!(part_one(&lines), Some(0));
    assert_eq!(part_two(&lines), Some(0));
    assert_eq!(part_one(&lines_of("")), Some(0));
}

#[test]
fn not_a_grid() {
    assert_eq!(part_one(&Vec::new()), None);
    assert_eq!(part_two(&Vec::new()), None);
    assert_eq!(part_one(&lines_of("@@\n@")), None);
    assert_eq!(part_two(&lines_of("@\n@@")), None);
}

#[test]
fn rows_below_the_width_do_not_count_as_neighbours() {
    // One column, three rows: only the first row lies within the width.
    let lines = lines_of("@\n@\n@");
    assert_eq!(part_one(&lines), Some(3));
    // Three wide and four high: the last row has no neighbours below it and
    // none beside it that count, so all of it can be reached.
    let lines = lines_of("@@@\n@@@\n@@@\n@@@");
    assert_eq!(part_one(&lines), Some(7));
}

#[test]
fn characters_beyond_ascii_are_cells() {
    let lines = lines_of("é@\n@é");
    assert_eq!(part_one(&lines), Some(2));
}
