use crate::utils::point::{Bounds, Point2D, Rectangle};
use crate::utils::text::{bytes_of, fields, parse_signed, signed_spec, split_fields, views};
use vstd::prelude::*;
use vstd::string::StrSliceExecFns;
use vstd::string::StringSliceAdditionalSpecFns;

verus! {

/// Why a list of tiles yields no area.
#[derive(Debug, Clone, Copy, PartialEq, Eq, Structural)]
pub enum AreaError {
    /// Line `line`, counted from zero, is no list of whole numbers with two
    /// entries at least.
    BadLine { line: usize },
    /// The list is empty where its outline is asked for.
    NoPoints,
    /// An area that has to be compared is beyond 64 bits.
    Overflow,
}

/// The coordinates of each point.
pub open spec fn coords(points: Seq<Point2D>) -> Seq<(int, int)> {
    Seq::new(points.len(), |i: int| points[i]@)
}

/// Every field is a whole number.
pub open spec fn all_signed(fs: Seq<Seq<u8>>) -> bool {
    forall|i: int| 0 <= i < fs.len() ==> signed_spec(#[trigger] fs[i]) is Some
}

/// The point that a line stands for: its first two numbers, where it is a
/// list of two whole numbers or more, parted by commas.
pub open spec fn point_spec(line: Seq<u8>) -> Option<(int, int)> {
    let fs = fields(line);
    if fs.len() >= 2 && all_signed(fs) {
        Some((signed_spec(fs[0])->0 as int, signed_spec(fs[1])->0 as int))
    } else {
        None
    }
}

/// The points that the first `k` lines stand for, or the number of the
/// first line that stands for none.
pub open spec fn points_spec(lines: Seq<Seq<u8>>, k: nat) -> Result<Seq<(int, int)>, usize>
    decreases k,
{
    if k == 0 {
        Ok(Seq::empty())
    } else {
        match points_spec(lines, (k - 1) as nat) {
            Err(line) => Err(line),
            Ok(before) => match point_spec(lines[k - 1]) {
                None => Err((k - 1) as usize),
                Some(p) => Ok(before.push(p)),
            },
        }
    }
}

/// The area of the rectangle that has tiles `i` and `j` for corners.
pub open spec fn span_area(ps: Seq<(int, int)>, i: int, j: int) -> int {
    Bounds::spanning(ps[i], ps[j]).area()
}

/// Edge `e` of the outline: the rectangle, one tile wide, from tile `e` to
/// the next, the last edge leading from the last tile back to the first.
pub open spec fn edge(ps: Seq<(int, int)>, e: int) -> Bounds {
    if e + 1 < ps.len() {
        Bounds::spanning(ps[e], ps[e + 1])
    } else {
        Bounds::spanning(ps[0], ps[ps.len() - 1])
    }
}

/// No edge of the outline reaches into the rectangle of tiles `i` and `j`.
pub open spec fn is_clear(ps: Seq<(int, int)>, i: int, j: int) -> bool {
    forall|e: int|
        0 <= e < ps.len() ==> !Bounds::spanning(ps[i], ps[j]).overlaps(#[trigger] edge(ps, e))
}

/// The pair of tiles `i` and `j` is one to compare.
pub open spec fn counts(ps: Seq<(int, int)>, inside_only: bool, i: int, j: int) -> bool {
    0 <= i < j < ps.len() && (inside_only ==> is_clear(ps, i, j))
}

/// `a` is the largest area among the pairs to compare, and zero where
/// there is no such pair.
pub open spec fn is_largest(ps: Seq<(int, int)>, inside_only: bool, a: int) -> bool {
    &&& forall|i: int, j: int| #[trigger] counts(ps, inside_only, i, j) ==> span_area(ps, i, j) <= a
    &&& a == 0 || exists|i: int, j: int| #[trigger]
        counts(ps, inside_only, i, j) && span_area(ps, i, j) == a
}

/// Some pair to compare has an area beyond 64 bits.
pub open spec fn overflows(ps: Seq<(int, int)>, inside_only: bool) -> bool {
    exists|i: int, j: int| #[trigger]
        counts(ps, inside_only, i, j) && span_area(ps, i, j) > i64::MAX
}

/// Reads the tile of a line.
pub fn read_point(line: &str) -> (r: Option<Point2D>)
    ensures
        match r {
            Some(p) => point_spec(line.spec_bytes()) == Some(p@),
            None => point_spec(line.spec_bytes()) is None,
        },
{
    let bytes = line.as_bytes_vec();
    assert(bytes@.subrange(0, bytes.len() as int) =~= bytes@);
    let fs = split_fields(&bytes, 0, bytes.len());
    let ghost all = views(fs@);
    let mut numbers: Vec<i64> = Vec::new();
    let mut i: usize = 0;
    while i < fs.len()
        invariant
            i <= fs.len(),
            all == views(fs@),
            all == fields(line.spec_bytes()),
            numbers.len() == i,
            forall|h: int| 0 <= h < i ==> signed_spec(#[trigger] all[h]) == Some(numbers[h]),
        decreases fs.len() - i,
    {
        assert(all[i as int] == fs[i as int]@);
        match parse_signed(&fs[i]) {
            Some(v) => {
                numbers.push(v);
            },
            None => {
                return None;
            },
        }
        i += 1;
    }
    if numbers.len() < 2 {
        return None;
    }
    assert(signed_spec(all[0]) == Some(numbers[0]));
    assert(signed_spec(all[1]) == Some(numbers[1]));
    Some(Point2D::new(numbers[0], numbers[1]))
}

/// Reads the tiles, one from each line.
pub fn read_input(lines: &Vec<String>) -> (r: Result<Vec<Point2D>, AreaError>)
    ensures
        match r {
            Ok(points) => points_spec(bytes_of(lines@), lines@.len()) == Ok::<
                Seq<(int, int)>,
                usize,
            >(coords(points@)),
            Err(e) => exists|line: usize|
                e == (AreaError::BadLine { line }) && points_spec(bytes_of(lines@), lines@.len())
                    == Err::<Seq<(int, int)>, usize>(line),
        },
{
    let ghost all = bytes_of(lines@);
    let mut boxes: Vec<Point2D> = Vec::new();
    let mut i: usize = 0;
    assert(coords(boxes@) =~= Seq::<(int, int)>::empty());
    while i < lines.len()
        invariant
            i <= lines.len(),
            all == bytes_of(lines@),
            points_spec(all, i as nat) == Ok::<Seq<(int, int)>, usize>(coords(boxes@)),
        decreases lines.len() - i,
    {
        let ghost before = coords(boxes@);
        match read_point(lines[i].as_str()) {
            Some(p) => {
                boxes.push(p);
                assert(coords(boxes@) =~= before.push(p@));
            },
            None => {
                proof {
                    lemma_points_error_stays(all, (i + 1) as nat, lines@.len());
                }
                return Err(AreaError::BadLine { line: i });
            },
        }
        i += 1;
    }
    Ok(boxes)
}

/// A line that is no tile is the error of every longer list.
pub proof fn lemma_points_error_stays(lines: Seq<Seq<u8>>, a: nat, b: nat)
    requires
        a <= b,
        points_spec(lines, a) is Err,
    ensures
        points_spec(lines, b) == points_spec(lines, a),
    decreases b,
{
    if a < b {
        lemma_points_error_stays(lines, a, (b - 1) as nat);
    }
}

/// The edges of the outline, edge `e` in place `e`.
pub fn find_egdes(position: &Vec<Point2D>) -> (edges: Vec<Rectangle>)
    requires
        position.len() >= 1,
    ensures
        edges.len() == position.len(),
        forall|e: int| 0 <= e < edges.len() ==> (#[trigger] edges[e])@ == edge(coords(position@), e),
{
    let mut edges: Vec<Rectangle> = Vec::new();
    let len = position.len();
    let ghost ps = coords(position@);
    let mut i: usize = 1;
    while i < len
        invariant
            1 <= i <= len,
            len == position.len(),
            ps == coords(position@),
            edges.len() == i - 1,
            forall|e: int| 0 <= e < edges.len() ==> (#[trigger] edges[e])@ == edge(ps, e),
        decreases len - i,
    {
        edges.push(Rectangle::from(&position[i - 1], &position[i]));
        i += 1;
    }
    edges.push(Rectangle::from(&position[0], &position[len - 1]));
    edges
}

/// Whether no edge reaches into `rectangle`.
fn clear_of(rectangle: Rectangle, edges: &Vec<Rectangle>) -> (clear: bool)
    ensures
        clear == forall|e: int| 0 <= e < edges.len() ==> !rectangle@.overlaps((#[trigger] edges[e])@),
{
    let mut e: usize = 0;
    while e < edges.len()
        invariant
            e <= edges.len(),
            forall|h: int| 0 <= h < e ==> !rectangle@.overlaps((#[trigger] edges[h])@),
        decreases edges.len() - e,
    {
        if rectangle.overlaps_with(&edges[e]) {
            return false;
        }
        e += 1;
    }
    true
}

/// The pairs up to `(i, j)`, in the order they are compared: those with a
/// lesser first tile, and those with first tile `i` and second below `j`.
pub open spec fn seen(i: int, j: int, a: int, b: int) -> bool {
    a < i || (a == i && b < j)
}

/// The largest area of a rectangle that has two of the tiles for corners,
/// where `inside_only` among the rectangles that no edge of the outline
/// reaches into, or `None` where an area to compare is beyond 64 bits.
pub fn largest_area(points: &Vec<Point2D>, inside_only: bool) -> (r: Option<i64>)
    requires
        inside_only ==> points.len() >= 1,
    ensures
        match r {
            Some(a) => is_largest(coords(points@), inside_only, a as int),
            None => overflows(coords(points@), inside_only),
        },
{
    let ghost ps = coords(points@);
    let edges = if inside_only {
        find_egdes(points)
    } else {
        Vec::new()
    };
    let n = points.len();
    let mut a_max: i64 = 0;
    let ghost mut at: (int, int) = (0, 0);
    let mut i: usize = 0;
    while i < n
        invariant
            i <= n,
            n == points.len(),
            ps == coords(points@),
            inside_only ==> edges.len() == n && forall|e: int|
                0 <= e < edges.len() ==> (#[trigger] edges[e])@ == edge(ps, e),
            forall|a: int, b: int| #[trigger]
                counts(ps, inside_only, a, b) && a < i ==> span_area(ps, a, b) <= a_max,
            a_max == 0 || (counts(ps, inside_only, at.0, at.1) && span_area(ps, at.0, at.1)
                == a_max),
        decreases n - i,
    {
        let mut j: usize = i + 1;
        while j < n
            invariant
                i < j <= n,
                n == points.len(),
                ps == coords(points@),
                inside_only ==> edges.len() == n && forall|e: int|
                    0 <= e < edges.len() ==> (#[trigger] edges[e])@ == edge(ps, e),
                forall|a: int, b: int| #[trigger]
                    counts(ps, inside_only, a, b) && seen(i as int, j as int, a, b) ==> span_area(
                        ps,
                        a,
                        b,
                    ) <= a_max,
                a_max == 0 || (counts(ps, inside_only, at.0, at.1) && span_area(ps, at.0, at.1)
                    == a_max),
            decreases n - j,
        {
            let rectangle = Rectangle::from(&points[i], &points[j]);
            assert(rectangle@ == Bounds::spanning(ps[i as int], ps[j as int]));
            let compared = if inside_only {
                let clear = clear_of(rectangle, &edges);
                proof {
                    if clear {
                        assert forall|e: int| 0 <= e < ps.len() implies !Bounds::spanning(
                            ps[i as int],
                            ps[j as int],
                        ).overlaps(#[trigger] edge(ps, e)) by {
                            assert(edges[e]@ == edge(ps, e));
                        }
                    } else {
                        let e = choose|e: int|
                            0 <= e < edges.len() && rectangle@.overlaps((#[trigger] edges[e])@);
                        assert(edges[e]@ == edge(ps, e));
                    }
                }
                clear
            } else {
                true
            };
            assert(compared == counts(ps, inside_only, i as int, j as int));
            if compared {
                match rectangle.checked_area() {
                    Some(area) => {
                        if area > a_max {
                            a_max = area;
                            proof {
                                at = (i as int, j as int);
                            }
                        }
                    },
                    None => {
                        assert(counts(ps, inside_only, i as int, j as int) && span_area(
                            ps,
                            i as int,
                            j as int,
                        ) > i64::MAX);
                        return None;
                    },
                }
            }
            j += 1;
        }
        i += 1;
    }
    Some(a_max)
}

/// What `r` has to be for the tiles of `lines`: the largest area where the
/// lines are tiles and no area overflows.
pub open spec fn answers(
    lines: Seq<Seq<u8>>,
    inside_only: bool,
    r: Result<i64, AreaError>,
) -> bool {
    match points_spec(lines, lines.len()) {
        Err(line) => r == Err::<i64, AreaError>(AreaError::BadLine { line }),
        Ok(ps) => if inside_only && ps.len() == 0 {
            r == Err::<i64, AreaError>(AreaError::NoPoints)
        } else if overflows(ps, inside_only) {
            r == Err::<i64, AreaError>(AreaError::Overflow)
        } else {
            r matches Ok(a) && is_largest(ps, inside_only, a as int)
        },
    }
}

/// The largest area of a rectangle with two of the tiles for corners.
///
/// Fails with `BadLine` at the first line that is no tile, and with
/// `Overflow` where an area is beyond 64 bits.
pub fn max_area_part1(lines: &Vec<String>) -> (r: Result<i64, AreaError>)
    ensures
        answers(bytes_of(lines@), false, r),
{
    let position = match read_input(lines) {
        Ok(position) => position,
        Err(e) => {
            return Err(e);
        },
    };
    match largest_area(&position, false) {
        Some(a) => {
            proof {
                lemma_largest_fits(coords(position@), false, a as int);
            }
            Ok(a)
        },
        None => Err(AreaError::Overflow),
    }
}

/// The largest area of a rectangle with two of the tiles for corners that
/// no edge of the tiles' outline reaches into.
///
/// Fails with `BadLine` at the first line that is no tile, with `NoPoints`
/// where there is no tile, and with `Overflow` where an area to compare is
/// beyond 64 bits.
pub fn max_area_part2(lines: &Vec<String>) -> (r: Result<i64, AreaError>)
    ensures
        answers(bytes_of(lines@), true, r),
{
    let position = match read_input(lines) {
        Ok(position) => position,
        Err(e) => {
            return Err(e);
        },
    };
    if position.len() == 0 {
        return Err(AreaError::NoPoints);
    }
    match largest_area(&position, true) {
        Some(a) => {
            proof {
                lemma_largest_fits(coords(position@), true, a as int);
            }
            Ok(a)
        },
        None => Err(AreaError::Overflow),
    }
}

/// Where there is a largest area within 64 bits, none is beyond them.
pub proof fn lemma_largest_fits(ps: Seq<(int, int)>, inside_only: bool, a: int)
    requires
        is_largest(ps, inside_only, a),
        a <= i64::MAX,
    ensures
        !overflows(ps, inside_only),
{
}

} // verus!
