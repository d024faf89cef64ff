use advent::utils::point::{Grid, Point2D, Point3D};
use advent::year2025::day05::Range;

#[test]
fn point_2d() {
    let p = Point2D::new(-3, 4);
    assert_eq!(p.x(), -3);
    assert_eq!(p.y(), 4);
    assert_eq!(p.manhattan(), 7);
    assert_eq!(Point2D::new(0, 0).manhattan(), 0);
    assert_eq!(Point2D::new(i64::MAX, 0).manhattan(), i64::MAX);
}

#[test]
fn point_2d_neighbors_in_order() {
    let around = Point2D::new(5, 9).neighbors();
    let expected = vec![
        Point2D::new(4, 8),
        Point2D::new(5, 8),
        Point2D::new(6, 8),
        Point2D::new(6, 9),
        Point2D::new(4, 9),
        Point2D::new(4, 10),
        Point2D::new(5, 10),
        Point2D::new(6, 10),
    ];
    assert_eq!(around, expected);
}

#[test]
fn point_2d_valid() {
    assert!(Point2D::new(0, 0).valid(1, 1));
    assert!(Point2D::new(2, 4).valid(3, 5));
    assert!(!Point2D::new(3, 4).valid(3, 5));
    assert!(!Point2D::new(2, 5).valid(3, 5));
    assert!(!Point2D::new(-1, 0).valid(3, 5));
    assert!(!Point2D::new(0, -1).valid(3, 5));
    assert!(!Point2D::new(0, 0).valid(0, 0));
}

#[test]
fn point_3d() {
    let p = Point3D::new(1, -2, 3);
    assert_eq!(p.x(), 1);
    assert_eq!(p.y(), -2);
    assert_eq!(p.z(), 3);
    assert_eq!(p, Point3D::new(1, -2, 3));
}

#[test]
fn grid_get_and_set() {
    let mut grid = Grid::new(vec![vec!['a', 'b', 'c'], vec!['d', 'e', 'f']]);
    assert_eq!(grid.x_max(), 3);
    assert_eq!(grid.y_max(), 2);
    assert_eq!(grid.get(&Point2D::new(0, 0)), Some('a'));
    assert_eq!(grid.get(&Point2D::new(2, 1)), Some('f'));
    assert_eq!(grid.get(&Point2D::new(3, 1)), None);
    assert_eq!(grid.get(&Point2D::new(0, 2)), None);
    assert_eq!(grid.get(&Point2D::new(-1, 0)), None);
    grid.set(&Point2D::new(1, 1), ',');
    assert_eq!(grid.get(&Point2D::new(1, 1)), Some(','));
    assert_eq!(grid.get(&Point2D::new(1, 0)), Some('b'));
    assert_eq!(grid.get(&Point2D::new(0, 1)), Some('d'));
    assert_eq!(grid.x_max(), 3);
    assert_eq!(grid.y_max(), 2);
}

#[test]
fn grid_is_as_wide_as_its_longest_row() {
    let grid = Grid::new(vec![vec!['a'], vec!['b', 'c', 'd'], vec![]]);
    assert_eq!(grid.x_max(), 3);
    assert_eq!(grid.y_max(), 3);
    assert_eq!(grid.get(&Point2D::new(2, 1)), Some('d'));
    assert_eq!(grid.get(&Point2D::new(0, 0)), Some('a'));
}

#[test]
fn range_measures() {
    let a = Range::new(3, 5);
    let b = Range::new(5, 9);
    let c = Range::new(6, 7);
    assert!(a.intersect(&b));
    assert!(b.intersect(&a));
    assert!(!a.intersect(&c));
    assert!(b.intersect(&c));
    assert!(a.contains(3) && a.contains(5) && !a.contains(2) && !a.contains(6));
    assert_eq!(a.len(), 3);
    assert_eq!(Range::new(7, 7).len(), 1);
    assert_eq!(Range::new(1, u64::MAX).len(), u64::MAX);
    let u = a.union(&c);
    assert!(u.contains(3) && u.contains(6) && u.contains(7) && !u.contains(8));
    assert_eq!(u.len(), 5);
}
