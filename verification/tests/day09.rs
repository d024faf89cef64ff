use advent::utils::point::{Point2D, Rectangle};
use advent::year2025::day09::{
    find_egdes, largest_area, max_area_part1, max_area_part2, read_input, read_point, AreaError,
};

fn lines_of(input: &str) -> Vec<String> {
    input.split("\n").map(str::to_string).collect()
}

#[test]
fn day09_input_example() {
    let input = r#"7,1
11,1
11,7
9,7
9,5
2,5
2,3
7,3"#;

    let lines = input.split("\n").into_iter().map(str::to_string);

    let a_max = max_area_part1(&lines.into_iter().collect());
    assert_eq!(a_max, Ok(50));

    let lines = input.split("\n").into_iter().map(str::to_string);

    let a_max = max_area_part2(&lines.into_iter().collect());
    assert_eq!(a_max, Ok(24));
}

#[test]
fn reads_points() {
    assert_eq!(read_point("7,1"), Some(Point2D::new(7, 1)));
    assert_eq!(read_point("-7,+1"), Some(Point2D::new(-7, 1)));
    assert_eq!(read_point("1,2,3"), Some(Point2D::new(1, 2)));
    assert_eq!(
        read_point("-9223372036854775808,9223372036854775807"),
        Some(Point2D::new(i64::MIN, i64::MAX))
    );
    assert_eq!(read_point("9223372036854775808,0"), None);
    assert_eq!(read_point("-9223372036854775809,0"), None);
    assert_eq!(read_point("7"), None);
    assert_eq!(read_point(""), None);
    assert_eq!(read_point("7,"), None);
    assert_eq!(read_point("7, 1"), None);
    assert_eq!(read_point("1,2,x"), None);
    assert_eq!(read_point("+,1"), None);
    assert_eq!(read_point("--1,1"), None);
}

#[test]
fn reports_the_first_bad_line() {
    assert_eq!(read_input(&lines_of("1,2\n3\n4;5")), Err(AreaError::BadLine { line: 1 }));
    assert_eq!(max_area_part1(&lines_of("1,2\n\n")), Err(AreaError::BadLine { line: 1 }));
    assert_eq!(max_area_part2(&lines_of("x")), Err(AreaError::BadLine { line: 0 }));
}

#[test]
fn few_points() {
    assert_eq!(max_area_part1(&Vec::new()), Ok(0));
    assert_eq!(max_area_part2(&Vec::new()), Err(AreaError::NoPoints));
    assert_eq!(max_area_part1(&lines_of("3,4")), Ok(0));
    assert_eq!(max_area_part2(&lines_of("3,4")), Ok(0));
    assert_eq!(max_area_part1(&lines_of("3,4\n3,4")), Ok(1));
    assert_eq!(max_area_part1(&lines_of("3,4\n5,4")), Ok(3));
}

#[test]
fn areas_beyond_64_bits() {
    let lines = lines_of("-9223372036854775808,0\n9223372036854775807,1");
    assert_eq!(max_area_part1(&lines), Err(AreaError::Overflow));
    let lines = lines_of("0,0\n3037000499,3037000498");
    assert_eq!(max_area_part1(&lines), Ok(3037000500 * 3037000499));
    let lines = lines_of("0,0\n3037000499,3037000499");
    assert_eq!(max_area_part1(&lines), Err(AreaError::Overflow));
}

#[test]
fn edges_close_the_outline() {
    let points = vec![Point2D::new(0, 0), Point2D::new(4, 0), Point2D::new(4, 3)];
    let edges = find_egdes(&points);
    assert_eq!(
        edges,
        vec![
            Rectangle::new(0, 4, 0, 0),
            Rectangle::new(4, 4, 0, 3),
            Rectangle::new(0, 4, 0, 3),
        ]
    );
    assert_eq!(largest_area(&points, false), Some(20));
}

#[test]
fn rectangle_measures() {
    let r = Rectangle::from(&Point2D::new(9, 7), &Point2D::new(2, 3));
    assert_eq!(r, Rectangle::new(2, 9, 3, 7));
    assert_eq!(r.area(), 40);
    assert_eq!(r.checked_area(), Some(40));
    assert!(r.overlaps_with(&Rectangle::new(8, 12, 6, 9)));
    assert!(!r.overlaps_with(&Rectangle::new(9, 12, 3, 7)));
    assert!(!r.overlaps_with(&Rectangle::new(2, 9, 7, 7)));
}
