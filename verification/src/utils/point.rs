use vstd::prelude::*;

verus! {

/// The absolute value of `v`.
pub open spec fn magnitude(v: int) -> int {
    if v < 0 {
        -v
    } else {
        v
    }
}

/// A point of the plane with whole coordinates.
#[derive(Eq, Hash, PartialEq, Clone, Copy, Debug, Structural)]
pub struct Point2D {
    x: i64,
    y: i64,
}

/// A point of space with whole coordinates.
#[derive(Eq, Hash, PartialEq, Clone, Copy, Debug, Structural)]
pub struct Point3D {
    x: i64,
    y: i64,
    z: i64,
}

/// A grid of characters, row by row.
pub struct Grid {
    map: Vec<Vec<char>>,
    x_max: i64,
    y_max: i64,
}

/// A rectangle with sides along the axes, its corners included.
#[derive(Eq, Hash, PartialEq, Clone, Copy, Debug, Structural)]
pub struct Rectangle {
    x_min: i64,
    x_max: i64,
    y_min: i64,
    y_max: i64,
}

impl View for Point2D {
    type V = (int, int);

    closed spec fn view(&self) -> (int, int) {
        (self.x as int, self.y as int)
    }
}

impl View for Point3D {
    type V = (int, int, int);

    closed spec fn view(&self) -> (int, int, int) {
        (self.x as int, self.y as int, self.z as int)
    }
}

/// A rectangle as its four bounds.
pub struct Bounds {
    pub x_min: int,
    pub x_max: int,
    pub y_min: int,
    pub y_max: int,
}

impl View for Rectangle {
    type V = Bounds;

    closed spec fn view(&self) -> Bounds {
        Bounds {
            x_min: self.x_min as int,
            x_max: self.x_max as int,
            y_min: self.y_min as int,
            y_max: self.y_max as int,
        }
    }
}

impl Bounds {
    /// The least rectangle that holds both points.
    pub open spec fn spanning(p: (int, int), q: (int, int)) -> Bounds {
        Bounds {
            x_min: if p.0 <= q.0 {
                p.0
            } else {
                q.0
            },
            x_max: if p.0 <= q.0 {
                q.0
            } else {
                p.0
            },
            y_min: if p.1 <= q.1 {
                p.1
            } else {
                q.1
            },
            y_max: if p.1 <= q.1 {
                q.1
            } else {
                p.1
            },
        }
    }

    /// The two rectangles share more than a part of their border.
    pub open spec fn overlaps(self, other: Bounds) -> bool {
        self.x_max > other.x_min && other.x_max > self.x_min && self.y_max > other.y_min
            && other.y_max > self.y_min
    }

    /// The number of points with whole coordinates in the rectangle.
    pub open spec fn area(self) -> int {
        (magnitude(self.x_min - self.x_max) + 1) * (magnitude(self.y_min - self.y_max) + 1)
    }

    /// All four bounds are coordinates of 64 bits.
    pub open spec fn fits(self) -> bool {
        &&& i64::MIN <= self.x_min <= i64::MAX
        &&& i64::MIN <= self.x_max <= i64::MAX
        &&& i64::MIN <= self.y_min <= i64::MAX
        &&& i64::MIN <= self.y_max <= i64::MAX
    }
}

impl Rectangle {
    /// The rectangle with these bounds.
    pub fn new(x_min: i64, x_max: i64, y_min: i64, y_max: i64) -> (r: Self)
        ensures
            r@ == (Bounds { x_min: x_min as int, x_max: x_max as int, y_min: y_min as int, y_max: y_max as int }),
    {
        Rectangle { x_min, x_max, y_min, y_max }
    }

    /// The least rectangle that holds both points.
    pub fn from(first: &Point2D, second: &Point2D) -> (r: Rectangle)
        ensures
            r@ == Bounds::spanning(first@, second@),
    {
        let x_min = if first.x <= second.x {
            first.x
        } else {
            second.x
        };
        let x_max = if first.x <= second.x {
            second.x
        } else {
            first.x
        };
        let y_min = if first.y <= second.y {
            first.y
        } else {
            second.y
        };
        let y_max = if first.y <= second.y {
            second.y
        } else {
            first.y
        };
        Rectangle::new(x_min, x_max, y_min, y_max)
    }

    /// Whether the two rectangles share more than a part of their border.
    pub fn overlaps_with(self, other: &Rectangle) -> (b: bool)
        ensures
            b == self@.overlaps(other@),
    {
        self.x_max > other.x_min && other.x_max > self.x_min && self.y_max > other.y_min
            && other.y_max > self.y_min
    }

    /// The number of points with whole coordinates in the rectangle, or
    /// `None` where it is beyond 64 bits.
    pub fn checked_area(self) -> (a: Option<i64>)
        ensures
            match a {
                Some(a) => a == self@.area(),
                None => self@.area() > i64::MAX,
            },
    {
        let dx: u128 = if self.x_min <= self.x_max {
            (self.x_max as i128 - self.x_min as i128) as u128
        } else {
            (self.x_min as i128 - self.x_max as i128) as u128
        };
        let dy: u128 = if self.y_min <= self.y_max {
            (self.y_max as i128 - self.y_min as i128) as u128
        } else {
            (self.y_min as i128 - self.y_max as i128) as u128
        };
        match (dx + 1).checked_mul(dy + 1) {
            Some(a) => if a > i64::MAX as u128 {
                None
            } else {
                Some(a as i64)
            },
            None => None,
        }
    }

    /// The number of points with whole coordinates in the rectangle.
    pub fn area(self) -> (a: i64)
        requires
            self@.area() <= i64::MAX,
        ensures
            a == self@.area(),
    {
        proof {
            let w = magnitude(self.x_min - self.x_max) + 1;
            let h = magnitude(self.y_min - self.y_max) + 1;
            assert(w <= w * h && h <= w * h) by (nonlinear_arith)
                requires
                    w >= 1,
                    h >= 1,
            ;
        }
        let dx = if self.x_min <= self.x_max {
            self.x_max - self.x_min
        } else {
            self.x_min - self.x_max
        };
        let dy = if self.y_min <= self.y_max {
            self.y_max - self.y_min
        } else {
            self.y_min - self.y_max
        };
        (dx + 1) * (dy + 1)
    }
}

impl Point2D {
    /// The point with these coordinates.
    pub fn new(x: i64, y: i64) -> (p: Self)
        ensures
            p@ == (x as int, y as int),
    {
        Point2D { x, y }
    }

    /// The first coordinate.
    pub fn x(&self) -> (x: i64)
        ensures
            x == self@.0,
    {
        self.x
    }

    /// The second coordinate.
    pub fn y(&self) -> (y: i64)
        ensures
            y == self@.1,
    {
        self.y
    }

    /// The distance from the origin along the axes.
    pub fn manhattan(&self) -> (d: i64)
        requires
            magnitude(self@.0) + magnitude(self@.1) <= i64::MAX,
        ensures
            d == magnitude(self@.0) + magnitude(self@.1),
    {
        let ax = if self.x < 0 {
            -self.x
        } else {
            self.x
        };
        let ay = if self.y < 0 {
            -self.y
        } else {
            self.y
        };
        ax + ay
    }

    /// The eight points next to this one: the row above from left to
    /// right, then right and left, then the row below from left to right.
    pub fn neighbors(&self) -> (around: Vec<Point2D>)
        requires
            i64::MIN < self@.0 < i64::MAX,
            i64::MIN < self@.1 < i64::MAX,
        ensures
            around@.map_values(|p: Point2D| p@) == Point2D::around(self@),
    {
        let mut neighbors = Vec::new();
        neighbors.push(Point2D::new(self.x - 1, self.y - 1));
        neighbors.push(Point2D::new(self.x, self.y - 1));
        neighbors.push(Point2D::new(self.x + 1, self.y - 1));
        neighbors.push(Point2D::new(self.x + 1, self.y));
        neighbors.push(Point2D::new(self.x - 1, self.y));
        neighbors.push(Point2D::new(self.x - 1, self.y + 1));
        neighbors.push(Point2D::new(self.x, self.y + 1));
        neighbors.push(Point2D::new(self.x + 1, self.y + 1));
        assert(neighbors@.map_values(|p: Point2D| p@) =~= Point2D::around(self@));
        neighbors
    }

    /// The eight points next to `p`, in the order of `neighbors`.
    pub open spec fn around(p: (int, int)) -> Seq<(int, int)> {
        seq![
            (p.0 - 1, p.1 - 1),
            (p.0, p.1 - 1),
            (p.0 + 1, p.1 - 1),
            (p.0 + 1, p.1),
            (p.0 - 1, p.1),
            (p.0 - 1, p.1 + 1),
            (p.0, p.1 + 1),
            (p.0 + 1, p.1 + 1),
        ]
    }

    /// `p` lies in the grid of `x_max` columns and `y_max` rows.
    pub open spec fn inside(p: (int, int), x_max: int, y_max: int) -> bool {
        0 <= p.0 < x_max && 0 <= p.1 < y_max
    }

    /// Whether the point lies in the grid of `x_max` columns and `y_max`
    /// rows.
    pub fn valid(&self, x_max: i64, y_max: i64) -> (b: bool)
        ensures
            b == Point2D::inside(self@, x_max as int, y_max as int),
    {
        self.x < x_max && self.y < y_max && self.x >= 0 && self.y >= 0
    }
}

impl Point3D {
    /// The point with these coordinates.
    pub fn new(x: i64, y: i64, z: i64) -> (p: Self)
        ensures
            p@ == (x as int, y as int, z as int),
    {
        Point3D { x, y, z }
    }

    /// The first coordinate.
    pub fn x(&self) -> (x: i64)
        ensures
            x == self@.0,
    {
        self.x
    }

    /// The second coordinate.
    pub fn y(&self) -> (y: i64)
        ensures
            y == self@.1,
    {
        self.y
    }

    /// The third coordinate.
    pub fn z(&self) -> (z: i64)
        ensures
            z == self@.2,
    {
        self.z
    }
}

/// The length of the longest of the first `k` rows.
pub open spec fn widest(rows: Seq<Seq<char>>, k: nat) -> nat
    decreases k,
{
    if k == 0 {
        0
    } else {
        let rest = widest(rows, (k - 1) as nat);
        if rows[k - 1].len() > rest {
            rows[k - 1].len()
        } else {
            rest
        }
    }
}

impl View for Grid {
    type V = Seq<Seq<char>>;

    closed spec fn view(&self) -> Seq<Seq<char>> {
        Seq::new(self.map@.len(), |r: int| self.map@[r]@)
    }
}

impl Grid {
    /// The bounds are those of the rows: as many rows as there are, and as
    /// many columns as the longest row has.
    pub closed spec fn wf(&self) -> bool {
        &&& self.map@.len() > 0
        &&& self.y_max == self.map@.len()
        &&& self.x_max == widest(self@, self.map@.len())
    }

    /// The number of columns.
    pub closed spec fn columns(&self) -> int {
        self.x_max as int
    }

    /// The number of rows.
    pub closed spec fn rows(&self) -> int {
        self.y_max as int
    }

    /// The row `y` reaches column `x`.
    pub open spec fn holds(&self, p: (int, int)) -> bool {
        0 <= p.1 < self@.len() && 0 <= p.0 < self@[p.1].len()
    }

    /// Every row is as long as the grid is wide.
    pub open spec fn rectangular(&self) -> bool {
        forall|y: int| 0 <= y < self@.len() ==> (#[trigger] self@[y]).len() == self.columns()
    }

    /// What the bounds of a grid are, for callers that cannot see inside it.
    pub proof fn lemma_bounds(&self)
        requires
            self.wf(),
        ensures
            self.rows() == self@.len(),
            self.rows() > 0,
            self.columns() == widest(self@, self@.len()),
            forall|y: int| 0 <= y < self@.len() ==> (#[trigger] self@[y]).len() <= self.columns(),
    {
        assert forall|y: int| 0 <= y < self@.len() implies (#[trigger] self@[y]).len()
            <= self.columns() by {
            lemma_widest_covers(self@, self@.len(), y);
        }
    }

    /// A grid of the rows of `map`.
    pub fn new(map: Vec<Vec<char>>) -> (grid: Self)
        requires
            0 < map.len() <= i64::MAX,
            forall|r: int| 0 <= r < map.len() ==> (#[trigger] map[r]).len() <= i64::MAX,
        ensures
            grid.wf(),
            grid@ == Seq::new(map@.len(), |r: int| map@[r]@),
    {
        let y_max = map.len() as i64;
        let ghost rows = Seq::new(map@.len(), |r: int| map@[r]@);
        let mut longest: usize = 0;
        let mut r: usize = 0;
        while r < map.len()
            invariant
                r <= map.len(),
                rows == Seq::new(map@.len(), |r: int| map@[r]@),
                longest == widest(rows, r as nat),
                longest <= i64::MAX,
                forall|r: int| 0 <= r < map.len() ==> (#[trigger] map[r]).len() <= i64::MAX,
            decreases map.len() - r,
        {
            assert(rows[r as int] == map[r as int]@);
            if map[r].len() > longest {
                longest = map[r].len();
            }
            r += 1;
        }
        let x_max = longest as i64;
        Grid { map, y_max, x_max }
    }

    /// The character at `p`, or `None` where `p` is outside the bounds.
    pub fn get(&self, p: &Point2D) -> (c: Option<char>)
        requires
            self.wf(),
            Point2D::inside(p@, self.columns(), self.rows()) ==> self.holds(p@),
        ensures
            c == if Point2D::inside(p@, self.columns(), self.rows()) {
                Some(self@[p@.1][p@.0])
            } else {
                None
            },
    {
        if p.valid(self.x_max, self.y_max) {
            proof {
                assert(self.holds(p@));
                assert(self@[p@.1] == self.map@[p@.1]@);
                assert(p@.1 < self.map.len());
                assert(p@.0 < self.map[p@.1].len());
            }
            let y = p.y() as usize;
            let x = p.x() as usize;
            Some(self.map[y][x])
        } else {
            None
        }
    }

    /// Puts `character` at `p`.
    pub fn set(&mut self, p: &Point2D, character: char)
        requires
            old(self).wf(),
            old(self).holds(p@),
        ensures
            final(self).wf(),
            final(self).columns() == old(self).columns(),
            final(self).rows() == old(self).rows(),
            final(self)@ == old(self)@.update(p@.1, old(self)@[p@.1].update(p@.0, character)),
    {
        proof {
            assert(self@[p@.1] == self.map@[p@.1]@);
            assert(p@.1 < self.map.len());
            assert(p@.0 < self.map[p@.1].len());
        }
        let y = p.y() as usize;
        let x = p.x() as usize;
        let width = self.map[y].len();
        let ghost before = self@;
        let mut row: Vec<char> = Vec::new();
        let mut c: usize = 0;
        while c < width
            invariant
                width == self.map[y as int].len(),
                c <= width,
                y < self.map.len(),
                x < self.map[y as int].len(),
                row.len() == c,
                forall|d: int| 0 <= d < c ==> row[d] == if d == x {
                    character
                } else {
                    self.map[y as int][d]
                },
            decreases width - c,
        {
            row.push(if c == x {
                character
            } else {
                self.map[y][c]
            });
            c += 1;
        }
        assert(row@ =~= before[y as int].update(x as int, character));
        self.map.set(y, row);
        proof {
            assert(self@ =~= before.update(y as int, before[y as int].update(x as int, character)));
            lemma_widest_same(before, self@, before.len());
        }
    }

    /// The number of columns.
    pub fn x_max(&self) -> (x: i64)
        ensures
            x == self.columns(),
    {
        self.x_max
    }

    /// The number of rows.
    pub fn y_max(&self) -> (y: i64)
        ensures
            y == self.rows(),
    {
        self.y_max
    }
}

/// No row is longer than the longest.
pub proof fn lemma_widest_covers(rows: Seq<Seq<char>>, k: nat, y: int)
    requires
        0 <= y < k,
    ensures
        rows[y].len() <= widest(rows, k),
    decreases k,
{
    if y < k - 1 {
        lemma_widest_covers(rows, (k - 1) as nat, y);
    }
}

/// Rows of the same lengths have the same longest length.
pub proof fn lemma_widest_same(a: Seq<Seq<char>>, b: Seq<Seq<char>>, k: nat)
    requires
        forall|y: int| 0 <= y < k ==> (#[trigger] a[y]).len() == b[y].len(),
    ensures
        widest(a, k) == widest(b, k),
    decreases k,
{
    if k > 0 {
        lemma_widest_same(a, b, (k - 1) as nat);
        assert(a[k - 1].len() == b[k - 1].len());
    }
}

} // verus!
