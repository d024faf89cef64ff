use crate::utils::point::{widest, Grid, Point2D};
use vstd::arithmetic::div_mod::lemma_fundamental_div_mod_converse;
use vstd::prelude::*;
use vstd::string::StrSliceExecFns;

verus! {

/// The characters of each line.
pub open spec fn rows_of(lines: Seq<String>) -> Seq<Seq<char>> {
    Seq::new(lines.len(), |i: int| lines[i]@)
}

/// The lines make a grid: one line at least, all of one length, and no
/// more lines or columns than a coordinate of 64 bits counts.
pub open spec fn is_grid(rows: Seq<Seq<char>>) -> bool {
    &&& 0 < rows.len() <= i64::MAX
    &&& rows[0].len() <= i64::MAX
    &&& forall|r: int| 0 <= r < rows.len() ==> (#[trigger] rows[r]).len() == rows[0].len()
}

/// The character at `p`, where the grid reaches `p`.
pub open spec fn at(grid: Seq<Seq<char>>, p: (int, int)) -> Option<char> {
    if 0 <= p.1 < grid.len() && 0 <= p.0 < grid[p.1].len() {
        Some(grid[p.1][p.0])
    } else {
        None
    }
}

/// A roll of paper lies at `p`.
pub open spec fn is_roll(grid: Seq<Seq<char>>, p: (int, int)) -> bool {
    at(grid, p) == Some('@')
}

/// The neighbour `q` counts: it holds a roll and lies within the first
/// `side` columns and the first `side` rows.
pub open spec fn counted(grid: Seq<Seq<char>>, side: int, q: (int, int)) -> bool {
    Point2D::inside(q, side, side) && is_roll(grid, q)
}

/// How many of the first `k` of `around` count.
pub open spec fn crowd(grid: Seq<Seq<char>>, side: int, around: Seq<(int, int)>, k: nat) -> nat
    decreases k,
{
    if k == 0 {
        0
    } else {
        crowd(grid, side, around, (k - 1) as nat) + if counted(grid, side, around[k - 1]) {
            1nat
        } else {
            0nat
        }
    }
}

/// A forklift can reach the roll at `p`: fewer than four of its eight
/// neighbours count, in a grid as wide as `side`.
pub open spec fn reachable(grid: Seq<Seq<char>>, side: int, p: (int, int)) -> bool {
    is_roll(grid, p) && crowd(grid, side, Point2D::around(p), 8) < 4
}

/// The place with number `k` where the places are counted column by
/// column, each column from the top.
pub open spec fn place(rows: int, k: int) -> (int, int) {
    (k / rows, k % rows)
}

/// The rolls that can be reached among the first `k` places of a grid with
/// `rows` rows that is `side` wide, in the order of the places.
pub open spec fn found(grid: Seq<Seq<char>>, side: int, rows: int, k: nat) -> Seq<(int, int)>
    decreases k,
{
    if k == 0 {
        Seq::empty()
    } else {
        let rest = found(grid, side, rows, (k - 1) as nat);
        if reachable(grid, side, place(rows, k - 1)) {
            rest.push(place(rows, k - 1))
        } else {
            rest
        }
    }
}

/// The rolls of the grid that can be reached.
pub open spec fn reached(grid: Seq<Seq<char>>) -> Seq<(int, int)> {
    found(grid, grid[0].len() as int, grid.len() as int, grid[0].len() * grid.len())
}

/// The grid with the first `k` of `gone` taken away: a `,` stands where
/// each was.
pub open spec fn cleared(grid: Seq<Seq<char>>, gone: Seq<(int, int)>, k: nat) -> Seq<Seq<char>>
    decreases k,
{
    if k == 0 {
        grid
    } else {
        let rest = cleared(grid, gone, (k - 1) as nat);
        let p = gone[k - 1];
        rest.update(p.1, rest[p.1].update(p.0, ','))
    }
}

/// The number of rolls taken away when, up to `rounds` times, all rolls
/// that can be reached are taken away at once, until none can be.
pub open spec fn taken(grid: Seq<Seq<char>>, rounds: nat) -> nat
    decreases rounds,
{
    if rounds == 0 {
        0
    } else {
        let gone = reached(grid);
        if gone.len() == 0 {
            0
        } else {
            gone.len() + taken(cleared(grid, gone, gone.len()), (rounds - 1) as nat)
        }
    }
}

/// The coordinates of each point.
pub open spec fn coords(points: Seq<Point2D>) -> Seq<(int, int)> {
    Seq::new(points.len(), |i: int| points[i]@)
}

/// Rows of one length are as wide as the first.
pub proof fn lemma_widest_uniform(rows: Seq<Seq<char>>, k: nat)
    requires
        0 < k <= rows.len(),
        forall|r: int| 0 <= r < rows.len() ==> (#[trigger] rows[r]).len() == rows[0].len(),
    ensures
        widest(rows, k) == rows[0].len(),
    decreases k,
{
    assert(rows[k - 1].len() == rows[0].len());
    if k > 1 {
        lemma_widest_uniform(rows, (k - 1) as nat);
    } else {
        assert(widest(rows, 0) == 0);
    }
}

/// Reads the grid of the lines, or `None` where they make none.
pub fn read_grid(lines: &Vec<String>) -> (r: Option<Grid>)
    ensures
        match r {
            Some(grid) => is_grid(rows_of(lines@)) && grid.wf() && grid.rectangular() && grid@
                == rows_of(lines@),
            None => !is_grid(rows_of(lines@)),
        },
{
    let ghost rows = rows_of(lines@);
    if lines.len() == 0 || lines.len() as u64 > 0x7fff_ffff_ffff_ffff {
        return None;
    }
    let width = lines[0].as_str().unicode_len();
    assert(rows[0] == lines[0]@);
    if width as u64 > 0x7fff_ffff_ffff_ffff {
        return None;
    }
    let mut map: Vec<Vec<char>> = Vec::new();
    let mut r: usize = 0;
    while r < lines.len()
        invariant
            r <= lines.len(),
            0 < lines.len() <= i64::MAX,
            rows == rows_of(lines@),
            width == rows[0].len(),
            width <= i64::MAX,
            map.len() == r,
            forall|h: int| 0 <= h < r ==> (#[trigger] map[h])@ == rows[h] && rows[h].len() == width,
        decreases lines.len() - r,
    {
        let line = lines[r].as_str();
        assert(rows[r as int] == line@);
        if line.unicode_len() != width {
            return None;
        }
        let mut row: Vec<char> = Vec::new();
        let mut c: usize = 0;
        while c < width
            invariant
                c <= width,
                width == line@.len(),
                row.len() == c,
                forall|d: int| 0 <= d < c ==> row[d] == line@[d],
            decreases width - c,
        {
            row.push(line.get_char(c));
            c += 1;
        }
        assert(row@ =~= line@);
        map.push(row);
        r += 1;
    }
    let grid = Grid::new(map);
    proof {
        assert(grid@ =~= rows);
        grid.lemma_bounds();
        lemma_widest_uniform(rows, rows.len());
    }
    Some(grid)
}

/// How many of the neighbours of `p` count.
fn crowd_of(map: &Grid, p: &Point2D) -> (count: usize)
    requires
        map.wf(),
        map.rectangular(),
        Point2D::inside(p@, map.columns(), map.rows()),
    ensures
        count == crowd(map@, map.columns(), Point2D::around(p@), 8),
{
    proof {
        map.lemma_bounds();
    }
    let side = map.x_max();
    let height = map.y_max();
    assert(p@.0 < side && p@.1 < height);
    let around = p.neighbors();
    let ghost spots = Point2D::around(p@);
    assert(around@.len() == spots.len());
    let mut count: usize = 0;
    let mut k: usize = 0;
    while k < 8
        invariant
            k <= 8,
            map.wf(),
            map.rectangular(),
            side == map.columns(),
            around@.len() == 8,
            spots == Point2D::around(p@),
            around@.map_values(|q: Point2D| q@) == spots,
            count == crowd(map@, side as int, spots, k as nat),
            count <= k,
        decreases 8 - k,
    {
        let q = &around[k];
        proof {
            map.lemma_bounds();
            assert(around@.map_values(|q: Point2D| q@)[k as int] == q@);
        }
        if q.valid(side, side) {
            match map.get(q) {
                Some(c) => {
                    if c == '@' {
                        count += 1;
                    }
                },
                None => {},
            }
        }
        k += 1;
    }
    count
}

/// The rolls that a forklift can reach: those with fewer than four rolls
/// among their eight neighbours, listed column by column, each column from
/// the top.
pub fn forklift(map: &Grid) -> (rolls: Vec<Point2D>)
    requires
        map.wf(),
        map.rectangular(),
    ensures
        coords(rolls@) == reached(map@),
        forall|i: int| 0 <= i < rolls.len() ==> map.holds(#[trigger] rolls[i]@),
{
    proof {
        map.lemma_bounds();
    }
    let columns = map.x_max();
    let rows = map.y_max();
    let ghost side = columns as int;
    let ghost height = rows as int;
    assert(map@[0].len() == columns);
    let mut rolls: Vec<Point2D> = Vec::new();
    let mut x: i64 = 0;
    assert(coords(rolls@) =~= Seq::<(int, int)>::empty());
    assert(0 * height == 0);
    while x < columns
        invariant
            0 <= x <= columns,
            map.wf(),
            map.rectangular(),
            columns == map.columns(),
            rows == map.rows(),
            rows > 0,
            rows == map@.len(),
            side == columns,
            height == rows,
            coords(rolls@) == found(map@, side, height, (x * height) as nat),
            forall|i: int| 0 <= i < rolls.len() ==> map.holds(#[trigger] rolls[i]@),
        decreases columns - x,
    {
        let mut y: i64 = 0;
        while y < rows
            invariant
                0 <= y <= rows,
                0 <= x < columns,
                map.wf(),
                map.rectangular(),
                columns == map.columns(),
                rows == map.rows(),
                rows > 0,
                rows == map@.len(),
                side == columns,
                height == rows,
                coords(rolls@) == found(map@, side, height, (x * height + y) as nat),
                forall|i: int| 0 <= i < rolls.len() ==> map.holds(#[trigger] rolls[i]@),
            decreases rows - y,
        {
            let p = Point2D::new(x, y);
            proof {
                let k = x * height + y;
                assert(0 <= x * height) by (nonlinear_arith)
                    requires
                        0 <= x,
                        0 <= height,
                ;
                lemma_fundamental_div_mod_converse(k, height, x as int, y as int);
                assert(place(height, k) == p@);
                assert(map@[y as int].len() == columns);
                assert(x * height + (y + 1) == k + 1);
            }
            let here = map.get(&p);
            let ghost before = coords(rolls@);
            match here {
                Some(c) => {
                    if c == '@' && crowd_of(map, &p) < 4 {
                        rolls.push(p);
                        assert(coords(rolls@) =~= before.push(p@));
                    }
                },
                None => {},
            }
            y += 1;
        }
        proof {
            assert(x * height + height == (x + 1) * height) by (nonlinear_arith);
        }
        x += 1;
    }
    rolls
}

/// The number of rolls that a forklift can reach, or `None` where the
/// lines make no grid.
pub fn part_one(lines: &Vec<String>) -> (r: Option<usize>)
    ensures
        match r {
            Some(count) => is_grid(rows_of(lines@)) && count == reached(rows_of(lines@)).len(),
            None => !is_grid(rows_of(lines@)),
        },
{
    let map = match read_grid(lines) {
        Some(map) => map,
        None => {
            return None;
        },
    };
    let rolls = forklift(&map);
    assert(coords(rolls@).len() == rolls.len());
    Some(rolls.len())
}

/// The most rounds that `part_two` goes through.
pub const MAX_ROUNDS: usize = usize::MAX;

/// The number of rolls that forklifts take away in all when, round after
/// round, every roll that can be reached is taken away, until none can
/// be; `None` where the lines make no grid or the number is beyond
/// `usize`.
pub fn part_two(lines: &Vec<String>) -> (r: Option<usize>)
    ensures
        match r {
            Some(count) => is_grid(rows_of(lines@)) && count == taken(
                rows_of(lines@),
                MAX_ROUNDS as nat,
            ),
            None => !is_grid(rows_of(lines@)) || taken(rows_of(lines@), MAX_ROUNDS as nat)
                > usize::MAX,
        },
{
    let mut map = match read_grid(lines) {
        Some(map) => map,
        None => {
            return None;
        },
    };
    let ghost start = rows_of(lines@);
    let mut rolls: usize = 0;
    let mut rounds: usize = MAX_ROUNDS;
    while rounds > 0
        invariant
            map.wf(),
            map.rectangular(),
            is_grid(start),
            start == rows_of(lines@),
            rolls + taken(map@, rounds as nat) == taken(start, MAX_ROUNDS as nat),
        decreases rounds,
    {
        let to_remove = forklift(&map);
        let ghost gone = coords(to_remove@);
        let ghost before = map@;
        assert(gone.len() == to_remove.len());
        if to_remove.len() == 0 {
            return Some(rolls);
        }
        rolls = match rolls.checked_add(to_remove.len()) {
            Some(rolls) => rolls,
            None => {
                return None;
            },
        };
        let mut i: usize = 0;
        while i < to_remove.len()
            invariant
                i <= to_remove.len(),
                map.wf(),
                map.rectangular(),
                gone == coords(to_remove@),
                map@ == cleared(before, gone, i as nat),
                map@.len() == before.len(),
                forall|y: int| 0 <= y < before.len() ==> (#[trigger] map@[y]).len() == before[y].len(),
                forall|h: int|
                    0 <= h < to_remove.len() ==> 0 <= (#[trigger] to_remove[h])@.1 < before.len()
                        && 0 <= to_remove[h]@.0 < before[to_remove[h]@.1].len(),
            decreases to_remove.len() - i,
        {
            let p = &to_remove[i];
            assert(gone[i as int] == p@);
            map.set(p, ',');
            i += 1;
        }
        rounds -= 1;
    }
    Some(rolls)
}

} // verus!
