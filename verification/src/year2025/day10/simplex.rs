use crate::year2025::day10::counters::{
    affects, counter_sum, counter_value, lemma_press_sum_monotone, press_sum, press_total,
    touches, Node,
};
use vstd::arithmetic::div_mod::{
    lemma_fundamental_div_mod, lemma_fundamental_div_mod_converse, lemma_mod_bound,
    lemma_mod_multiples_basic,
};
use vstd::prelude::*;

verus! {

/// The weighted sum of the first `k` entries of `v`, the weights being the
/// first `k` entries of `row`.
pub open spec fn row_sum(row: Seq<i128>, v: Seq<int>, k: nat) -> int
    decreases k,
{
    if k == 0 {
        0
    } else {
        row_sum(row, v, (k - 1) as nat) + row[k - 1] * v[k - 1]
    }
}

/// `row` is an equation, its right-hand side last, and `v` satisfies it.
pub open spec fn row_holds(row: Seq<i128>, v: Seq<int>) -> bool {
    row.len() == v.len() + 1 && row_sum(row, v, v.len()) == row[v.len() as int]
}

/// A point of a node as the tableau sees it. With `n` buttons and `k`
/// counters the columns are: for each button its count above the lower
/// bound, then for each button its room below the upper bound, then one
/// artificial column for each counter, which is zero at every point, then
/// the number of presses above the lower bounds.
pub open spec fn lift(node: Node, p: Seq<u64>) -> Seq<int> {
    let n = node.masks.len() as int;
    let k = node.targets.len() as int;
    Seq::new(
        (2 * n + k + 1) as nat,
        |c: int|
            if c < n {
                p[c] - node.lo[c]
            } else if c < 2 * n {
                node.hi[c - n] - p[c - n]
            } else if c < 2 * n + k {
                0
            } else {
                press_total(p) - press_total(node.lo)
            },
    )
}

/// Every point of the node satisfies `row`.
pub open spec fn row_sound(row: Seq<i128>, node: Node) -> bool {
    forall|p: Seq<u64>| #[trigger] node.contains(p) ==> row_holds(row, lift(node, p))
}

/// The weighted sum of a sum of two multiples is the sum of the multiples of the weighted sums.
pub proof fn lemma_row_sum_combine(
    fresh: Seq<i128>,
    alpha: int,
    a: Seq<i128>,
    beta: int,
    b: Seq<i128>,
    v: Seq<int>,
    k: nat,
)
    requires
        forall|c: int| 0 <= c < k ==> #[trigger] fresh[c] == alpha * a[c] + beta * b[c],
    ensures
        row_sum(fresh, v, k) == alpha * row_sum(a, v, k) + beta * row_sum(b, v, k),
    decreases k,
{
    if k > 0 {
        lemma_row_sum_combine(fresh, alpha, a, beta, b, v, (k - 1) as nat);
        let sa = row_sum(a, v, (k - 1) as nat);
        let sb = row_sum(b, v, (k - 1) as nat);
        let x = a[k - 1] as int;
        let y = b[k - 1] as int;
        let w = v[k - 1];
        let f = fresh[k - 1] as int;
        assert(f == alpha * x + beta * y);
        let xw = x * w;
        let yw = y * w;
        assert((alpha * x) * w == alpha * xw) by (nonlinear_arith)
            requires
                xw == x * w,
        ;
        assert((beta * y) * w == beta * yw) by (nonlinear_arith)
            requires
                yw == y * w,
        ;
        assert((alpha * x + beta * y) * w == (alpha * x) * w + (beta * y) * w)
            by (nonlinear_arith);
        assert(alpha * (sa + xw) == alpha * sa + alpha * xw) by (nonlinear_arith);
        assert(beta * (sb + yw) == beta * sb + beta * yw) by (nonlinear_arith);
    }
}

/// A sum of two multiples of equations that hold everywhere in the node
/// holds everywhere in the node.
pub proof fn lemma_combine_sound(
    fresh: Seq<i128>,
    alpha: int,
    a: Seq<i128>,
    beta: int,
    b: Seq<i128>,
    node: Node,
)
    requires
        row_sound(a, node),
        row_sound(b, node),
        fresh.len() == a.len(),
        b.len() == a.len(),
        forall|c: int| 0 <= c < a.len() ==> #[trigger] fresh[c] == alpha * a[c] + beta * b[c],
    ensures
        row_sound(fresh, node),
{
    assert forall|p: Seq<u64>| #[trigger] node.contains(p) implies row_holds(
        fresh,
        lift(node, p),
    ) by {
        let v = lift(node, p);
        assert(row_holds(a, v));
        assert(row_holds(b, v));
        lemma_row_sum_combine(fresh, alpha, a, beta, b, v, v.len());
    }
}

/// A common factor of the weights is a factor of the weighted sum.
pub proof fn lemma_row_sum_scaled(fresh: Seq<i128>, g: int, a: Seq<i128>, v: Seq<int>, k: nat)
    requires
        forall|c: int| 0 <= c < k ==> g * #[trigger] fresh[c] == a[c],
    ensures
        g * row_sum(fresh, v, k) == row_sum(a, v, k),
    decreases k,
{
    if k > 0 {
        lemma_row_sum_scaled(fresh, g, a, v, (k - 1) as nat);
        let s = row_sum(fresh, v, (k - 1) as nat);
        let f = fresh[k - 1] as int;
        let w = v[k - 1];
        assert(g * (s + f * w) == g * s + (g * f) * w) by (nonlinear_arith);
    }
}

/// An equation that holds everywhere in the node still does after a common
/// factor is taken out of it.
pub proof fn lemma_divide_sound(fresh: Seq<i128>, g: int, a: Seq<i128>, node: Node)
    requires
        row_sound(a, node),
        fresh.len() == a.len(),
        g > 0,
        forall|c: int| 0 <= c < a.len() ==> g * #[trigger] fresh[c] == a[c],
    ensures
        row_sound(fresh, node),
{
    assert forall|p: Seq<u64>| #[trigger] node.contains(p) implies row_holds(
        fresh,
        lift(node, p),
    ) by {
        let v = lift(node, p);
        assert(row_holds(a, v));
        lemma_row_sum_scaled(fresh, g, a, v, v.len());
        let s = row_sum(fresh, v, v.len());
        let r = fresh[v.len() as int] as int;
        assert(g * s == g * r);
        assert(s == r) by (nonlinear_arith)
            requires
                g > 0,
                g * s == g * r,
        ;
    }
}

/// Entries that are zero, or stand against a zero, add nothing.
pub proof fn lemma_row_sum_skip(row: Seq<i128>, v: Seq<int>, from: nat, to: nat)
    requires
        from <= to,
        forall|c: int| from <= c < to ==> row[c] == 0 || v[c] == 0,
    ensures
        row_sum(row, v, to) == row_sum(row, v, from),
    decreases to,
{
    if from < to {
        lemma_row_sum_skip(row, v, from, (to - 1) as nat);
        let x = row[to - 1] as int;
        let w = v[to - 1];
        assert(x * w == 0) by (nonlinear_arith)
            requires
                x == 0 || w == 0,
        ;
    }
}

/// Where every entry has the sign against its weight, the sum is not
/// positive.
pub proof fn lemma_row_sum_nonpositive(row: Seq<i128>, v: Seq<int>, k: nat)
    requires
        forall|c: int| 0 <= c < k ==> (row[c] <= 0 && v[c] >= 0) || v[c] == 0,
    ensures
        row_sum(row, v, k) <= 0,
    decreases k,
{
    if k > 0 {
        lemma_row_sum_nonpositive(row, v, (k - 1) as nat);
        let x = row[k - 1] as int;
        let w = v[k - 1];
        assert(x * w <= 0) by (nonlinear_arith)
            requires
                (x <= 0 && w >= 0) || w == 0,
        ;
    }
}

/// Where every entry has the sign of its weight, the sum is not negative.
pub proof fn lemma_row_sum_nonnegative(row: Seq<i128>, v: Seq<int>, k: nat)
    requires
        forall|c: int| 0 <= c < k ==> (row[c] >= 0 && v[c] >= 0) || v[c] == 0,
    ensures
        row_sum(row, v, k) >= 0,
    decreases k,
{
    if k > 0 {
        lemma_row_sum_nonnegative(row, v, (k - 1) as nat);
        let x = row[k - 1] as int;
        let w = v[k - 1];
        assert(x * w >= 0) by (nonlinear_arith)
            requires
                (x >= 0 && w >= 0) || w == 0,
        ;
    }
}


/// The largest number of counters for which a relaxation is attempted.
pub const MAX_RELAXED_COUNTERS: usize = 64;

/// The largest number of buttons for which a relaxation is attempted.
pub const MAX_RELAXED_BUTTONS: usize = 64;

/// The number of pivots after which a phase is given up.
pub const PIVOT_LIMIT: usize = 100000;

/// What every lifted point looks like: counts and rooms are not negative,
/// artificial columns are zero.
pub open spec fn lifted_shape(v: Seq<int>, n: int, k: int) -> bool {
    &&& v.len() == 2 * n + k + 1
    &&& forall|c: int| 0 <= c < 2 * n ==> v[c] >= 0
    &&& forall|c: int| 2 * n <= c < 2 * n + k ==> v[c] == 0
    &&& v[2 * n + k] >= 0
}

/// Every point of a node lifts to the shape that the certificates speak of.
pub proof fn lemma_lift_shape(node: Node, p: Seq<u64>)
    requires
        node.wf(),
        node.contains(p),
    ensures
        lifted_shape(lift(node, p), node.masks.len() as int, node.targets.len() as int),
{
    lemma_press_sum_monotone(node.lo, p, p.len());
}

/// A simplex tableau over the integers. Each row is an equation that every
/// point of the node satisfies; the last two rows are the objectives of the
/// two phases. Rows are kept free of common factors instead of being
/// divided through by the pivot, so that no fraction ever arises.
pub struct Tableau {
    pub rows: Vec<Vec<i128>>,
    pub basis: Vec<usize>,
    pub buttons: usize,
    pub counters: usize,
}

impl Tableau {
    /// The length of every row: the columns of a lifted point, then the
    /// right-hand side.
    pub open spec fn width(&self) -> int {
        2 * self.buttons + self.counters + 2
    }

    /// The rows and the basis have the sizes that the numbers of buttons and counters ask for.
    pub open spec fn wf(&self) -> bool {
        &&& self.buttons <= MAX_RELAXED_BUTTONS
        &&& self.counters <= MAX_RELAXED_COUNTERS
        &&& self.rows.len() == self.buttons + self.counters + 2
        &&& forall|r: int| 0 <= r < self.rows.len() ==> (#[trigger] self.rows[r]).len() == self.width()
        &&& self.basis.len() == self.buttons + self.counters
        &&& forall|r: int|
            0 <= r < self.basis.len() ==> #[trigger] self.basis[r] < 2 * self.buttons
                + self.counters
    }

    /// Every row holds at every point of the node.
    pub open spec fn sound(&self, node: Node) -> bool {
        &&& node.wf()
        &&& node.masks.len() == self.buttons
        &&& node.targets.len() == self.counters
        &&& forall|r: int| 0 <= r < self.rows.len() ==> row_sound(#[trigger] self.rows[r]@, node)
    }

    /// `self` has the shape of `other`.
    pub open spec fn like(&self, other: Tableau) -> bool {
        self.buttons == other.buttons && self.counters == other.counters
    }
}

impl Tableau {
    /// The rows as sequences.
    pub open spec fn sheet(&self) -> Seq<Seq<i128>> {
        Seq::new(self.rows@.len(), |r: int| self.rows@[r]@)
    }
}

/// `x` is a number of 128 bits.
pub open spec fn fits(x: int) -> bool {
    i128::MIN <= x <= i128::MAX
}

/// In column `c`, `alpha` times `a`, `beta` times `b` and their sum are
/// numbers of 128 bits.
pub open spec fn fits_at(alpha: int, a: Seq<i128>, beta: int, b: Seq<i128>, c: int) -> bool {
    fits(alpha * a[c]) && fits(beta * b[c]) && fits(alpha * a[c] + beta * b[c])
}

/// `alpha` times `a` plus `beta` times `b` can be taken column by column
/// within 128 bits.
pub open spec fn combinable(alpha: int, a: Seq<i128>, beta: int, b: Seq<i128>) -> bool {
    forall|c: int| 0 <= c < a.len() ==> #[trigger] fits_at(alpha, a, beta, b, c)
}

/// `alpha` times `a` plus `beta` times `b`, column by column.
pub open spec fn combined(alpha: int, a: Seq<i128>, beta: int, b: Seq<i128>) -> Seq<i128> {
    Seq::new(a.len(), |c: int| (alpha * a[c] + beta * b[c]) as i128)
}

/// The absolute value of `x`.
pub open spec fn abs_of(x: int) -> nat {
    if x < 0 {
        (-x) as nat
    } else {
        x as nat
    }
}

/// The greatest common divisor of `a` and `b`, by Euclid's rule; `a` where
/// `b` is zero.
pub open spec fn gcd(a: nat, b: nat) -> nat
    decreases b,
{
    if b == 0 {
        a
    } else {
        gcd(b, a % b)
    }
}

/// The greatest common divisor of the absolute values of the first `k`
/// entries of `row`; zero where all are zero.
pub open spec fn row_gcd(row: Seq<i128>, k: nat) -> nat
    decreases k,
{
    if k == 0 {
        0
    } else {
        gcd(row_gcd(row, (k - 1) as nat), abs_of(row[k - 1] as int))
    }
}

/// Some entry of `row` is the least number of 128 bits, which has no
/// absolute value among them.
pub open spec fn has_least(row: Seq<i128>) -> bool {
    exists|c: int| 0 <= c < row.len() && #[trigger] row[c] == i128::MIN
}

/// `row` with the greatest common divisor of its entries taken out of
/// each. `row` itself where the divisor is zero or one, or an entry is the
/// least number of 128 bits.
pub open spec fn reduced(row: Seq<i128>) -> Seq<i128> {
    if has_least(row) || row_gcd(row, row.len()) <= 1 {
        row
    } else {
        Seq::new(row.len(), |c: int| ((row[c] as int) / (row_gcd(row, row.len()) as int)) as i128)
    }
}

/// What a pivot on column `c` of `pivot_row` makes of another row: the row
/// itself where it has nothing in the column; else the pivot's entry times
/// the row less the row's entry times the pivot row, reduced; nothing where
/// that leaves 128 bits.
pub open spec fn cleared(row: Seq<i128>, pivot_row: Seq<i128>, c: int) -> Option<Seq<i128>> {
    let p = pivot_row[c] as int;
    let q = row[c] as int;
    if q == 0 {
        Some(row)
    } else if q == i128::MIN || !combinable(p, row, -q, pivot_row) {
        None
    } else {
        Some(reduced(combined(p, row, -q, pivot_row)))
    }
}

/// A pivot on row `r` and column `c` can be made: the entry is positive,
/// and every other row can be cleared.
pub open spec fn pivotable(sheet: Seq<Seq<i128>>, r: int, c: int) -> bool {
    &&& sheet[r][c] > 0
    &&& forall|i: int|
        0 <= i < sheet.len() && i != r ==> (#[trigger] cleared(sheet[i], sheet[r], c)) is Some
}

/// The rows after the rows below `k` have been cleared of column `c` by a
/// pivot on row `r`.
pub open spec fn pivoted_upto(sheet: Seq<Seq<i128>>, r: int, c: int, k: int) -> Seq<Seq<i128>> {
    Seq::new(
        sheet.len(),
        |i: int|
            if i != r && i < k {
                cleared(sheet[i], sheet[r], c)->0
            } else {
                sheet[i]
            },
    )
}

/// The rows after a pivot on row `r` and column `c`.
pub open spec fn pivoted(sheet: Seq<Seq<i128>>, r: int, c: int) -> Seq<Seq<i128>> {
    pivoted_upto(sheet, r, c, sheet.len() as int)
}

/// The divisor that Euclid's rule finds divides both numbers.
pub proof fn lemma_gcd_divides(a: nat, b: nat)
    ensures
        gcd(a, b) > 0 ==> a % gcd(a, b) == 0 && b % gcd(a, b) == 0,
        gcd(a, b) == 0 ==> a == 0 && b == 0,
    decreases b,
{
    if b == 0 {
        if a > 0 {
            lemma_mod_multiples_basic(1, a as int);
        }
    } else {
        let r = a % b;
        let g = gcd(a, b);
        lemma_gcd_divides(b, r);
        lemma_fundamental_div_mod(a as int, b as int);
        if g > 0 {
            lemma_fundamental_div_mod(b as int, g as int);
            lemma_fundamental_div_mod(r as int, g as int);
            let k = (a / b) as int;
            let bq = (b / g) as int;
            let rq = (r / g) as int;
            let gi = g as int;
            assert(a == (bq * k + rq) * gi) by (nonlinear_arith)
                requires
                    a == b * k + r,
                    b == gi * bq,
                    r == gi * rq,
            ;
            lemma_mod_multiples_basic(bq * k + rq, gi);
        }
    }
}

/// Every divisor of both numbers divides the divisor that Euclid's rule
/// finds.
pub proof fn lemma_gcd_greatest(a: nat, b: nat, d: nat)
    requires
        d > 0,
        a % d == 0,
        b % d == 0,
    ensures
        gcd(a, b) % d == 0,
    decreases b,
{
    if b != 0 {
        let r = a % b;
        lemma_fundamental_div_mod(a as int, b as int);
        lemma_fundamental_div_mod(a as int, d as int);
        lemma_fundamental_div_mod(b as int, d as int);
        let k = (a / b) as int;
        let aq = (a / d) as int;
        let bq = (b / d) as int;
        let di = d as int;
        assert(r == (aq - bq * k) * di) by (nonlinear_arith)
            requires
                a == b * k + r,
                a == di * aq,
                b == di * bq,
        ;
        lemma_mod_multiples_basic(aq - bq * k, di);
        lemma_gcd_greatest(b, r, d);
    }
}

/// A divisor of a divisor divides.
pub proof fn lemma_divides_chain(x: nat, g: nat, h: nat)
    requires
        g > 0,
        h > 0,
        x % g == 0,
        g % h == 0,
    ensures
        x % h == 0,
{
    lemma_fundamental_div_mod(x as int, g as int);
    lemma_fundamental_div_mod(g as int, h as int);
    let xq = (x / g) as int;
    let gq = (g / h) as int;
    let hi = h as int;
    assert(x == (xq * gq) * hi) by (nonlinear_arith)
        requires
            x == g * xq,
            g == hi * gq,
    ;
    lemma_mod_multiples_basic(xq * gq, hi);
}

/// The divisor of a row divides every entry of it.
pub proof fn lemma_row_gcd_divides(row: Seq<i128>, k: nat, c: int)
    requires
        0 <= c < k,
    ensures
        row_gcd(row, k) > 0 ==> abs_of(row[c] as int) % row_gcd(row, k) == 0,
        row_gcd(row, k) == 0 ==> row[c] == 0,
    decreases k,
{
    let before = row_gcd(row, (k - 1) as nat);
    let m = abs_of(row[k - 1] as int);
    let g = row_gcd(row, k);
    lemma_gcd_divides(before, m);
    if c < k - 1 {
        lemma_row_gcd_divides(row, (k - 1) as nat, c);
        if g > 0 {
            if before > 0 {
                lemma_divides_chain(abs_of(row[c] as int), before, g);
            } else {
                lemma_mod_multiples_basic(0, g as int);
            }
        }
    }
}

/// Replaces row `i` by `alpha` times itself plus `beta` times row `r`,
/// where that can be done within 128 bits, and says whether it was done.
/// The tableau stays as it was where it was not.
fn combine(
    t: &mut Tableau,
    i: usize,
    alpha: i128,
    r: usize,
    beta: i128,
    Ghost(node): Ghost<Node>,
) -> (ok: bool)
    requires
        old(t).wf(),
        old(t).sound(node),
        i < old(t).rows.len(),
        r < old(t).rows.len(),
    ensures
        final(t).wf(),
        final(t).sound(node),
        final(t).like(*old(t)),
        final(t).basis == old(t).basis,
        ok == combinable(
            alpha as int,
            old(t).sheet()[i as int],
            beta as int,
            old(t).sheet()[r as int],
        ),
        ok ==> final(t).sheet() == old(t).sheet().update(
            i as int,
            combined(alpha as int, old(t).sheet()[i as int], beta as int, old(t).sheet()[r as int]),
        ),
        !ok ==> *final(t) == *old(t),
{
    let width = t.rows[i].len();
    let ghost a = t.sheet()[i as int];
    let ghost b = t.sheet()[r as int];
    let mut fresh: Vec<i128> = Vec::new();
    let mut c: usize = 0;
    while c < width
        invariant
            t.wf(),
            t.sound(node),
            t == old(t),
            i < t.rows.len(),
            r < t.rows.len(),
            width == t.width(),
            a == t.rows[i as int]@,
            b == t.rows[r as int]@,
            c <= width,
            fresh.len() == c,
            forall|d: int| 0 <= d < c ==> #[trigger] fits_at(alpha as int, a, beta as int, b, d),
            forall|d: int| 0 <= d < c ==> #[trigger] fresh[d] == alpha * a[d] + beta * b[d],
        decreases width - c,
    {
        let x = match alpha.checked_mul(t.rows[i][c]) {
            Some(x) => x,
            None => {
                assert(!fits_at(alpha as int, a, beta as int, b, c as int));
                return false;
            },
        };
        let y = match beta.checked_mul(t.rows[r][c]) {
            Some(y) => y,
            None => {
                assert(!fits_at(alpha as int, a, beta as int, b, c as int));
                return false;
            },
        };
        let z = match x.checked_add(y) {
            Some(z) => z,
            None => {
                assert(!fits_at(alpha as int, a, beta as int, b, c as int));
                return false;
            },
        };
        assert(fits_at(alpha as int, a, beta as int, b, c as int));
        fresh.push(z);
        c += 1;
    }
    proof {
        assert(row_sound(t.rows[i as int]@, node));
        assert(row_sound(t.rows[r as int]@, node));
        lemma_combine_sound(fresh@, alpha as int, a, beta as int, b, node);
        assert(fresh@ =~= combined(alpha as int, a, beta as int, b));
    }
    let ghost before = t.sheet();
    t.rows.set(i, fresh);
    assert(t.sheet() =~= before.update(i as int, combined(alpha as int, a, beta as int, b)));
    true
}

/// The absolute value of `x`, unless `x` is the least number of 128 bits,
/// whose absolute value is none of them.
fn magnitude(x: i128) -> (m: Option<u128>)
    ensures
        m == if x == i128::MIN {
            None
        } else {
            Some(abs_of(x as int) as u128)
        },
        m matches Some(v) ==> v <= i128::MAX,
{
    if x >= 0 {
        Some(x as u128)
    } else if x == i128::MIN {
        None
    } else {
        Some((0 - x) as u128)
    }
}

/// The greatest common divisor of `a` and `b`, by Euclid's rule: it
/// divides both, and every number that divides both divides it.
fn common_divisor(a: u128, b: u128) -> (g: u128)
    requires
        a <= i128::MAX,
        b <= i128::MAX,
    ensures
        g == gcd(a as nat, b as nat),
        g <= i128::MAX,
        g > 0 ==> a % g == 0 && b % g == 0,
        forall|d: nat| d > 0 && a as nat % d == 0 && b as nat % d == 0 ==> #[trigger] (g as nat % d) == 0,
{
    proof {
        lemma_gcd_divides(a as nat, b as nat);
        assert forall|d: nat| d > 0 && a as nat % d == 0 && b as nat % d == 0 implies #[trigger] (gcd(
            a as nat,
            b as nat,
        ) % d) == 0 by {
            lemma_gcd_greatest(a as nat, b as nat, d);
        }
    }
    let mut x = a;
    let mut y = b;
    while y != 0
        invariant
            x <= i128::MAX,
            y <= i128::MAX,
            gcd(x as nat, y as nat) == gcd(a as nat, b as nat),
        decreases y,
    {
        let r = x % y;
        x = y;
        y = r;
    }
    x
}

/// Takes the greatest common divisor of the entries of row `i` out of
/// each of them.
fn normalize(t: &mut Tableau, i: usize, Ghost(node): Ghost<Node>)
    requires
        old(t).wf(),
        old(t).sound(node),
        i < old(t).rows.len(),
    ensures
        final(t).wf(),
        final(t).sound(node),
        final(t).like(*old(t)),
        final(t).basis == old(t).basis,
        final(t).sheet() == old(t).sheet().update(i as int, reduced(old(t).sheet()[i as int])),
{
    let width = t.rows[i].len();
    let ghost row = t.sheet()[i as int];
    let ghost before = t.sheet();
    assert(before.update(i as int, row) =~= before);
    let mut g: u128 = 0;
    let mut c: usize = 0;
    while c < width
        invariant
            t.wf(),
            t.sound(node),
            t == old(t),
            i < t.rows.len(),
            width == t.width(),
            row == t.rows[i as int]@,
            c <= width,
            g <= i128::MAX,
            g == row_gcd(row, c as nat),
            forall|d: int| 0 <= d < c ==> #[trigger] row[d] != i128::MIN,
        decreases width - c,
    {
        match magnitude(t.rows[i][c]) {
            Some(m) => {
                g = common_divisor(g, m);
            },
            None => {
                assert(row[c as int] == i128::MIN);
                return ;
            },
        }
        c += 1;
    }
    if g <= 1 {
        return ;
    }
    let divisor = g as i128;
    let mut fresh: Vec<i128> = Vec::new();
    let mut c: usize = 0;
    while c < width
        invariant
            t.wf(),
            t.sound(node),
            t == old(t),
            i < t.rows.len(),
            width == t.width(),
            row == t.rows[i as int]@,
            c <= width,
            divisor > 1,
            divisor == g,
            g == row_gcd(row, width as nat),
            forall|d: int| 0 <= d < width ==> #[trigger] row[d] != i128::MIN,
            fresh.len() == c,
            forall|d: int| 0 <= d < c ==> divisor * #[trigger] fresh[d] == row[d],
            forall|d: int| 0 <= d < c ==> #[trigger] fresh[d] == (row[d] as int) / (g as int),
        decreases width - c,
    {
        let e = t.rows[i][c];
        let size = match magnitude(e) {
            Some(size) => size,
            None => {
                assert(row[c as int] != i128::MIN);
                return ;
            },
        };
        let part = size / g;
        proof {
            lemma_row_gcd_divides(row, width as nat, c as int);
            lemma_fundamental_div_mod(size as int, g as int);
        }
        let q: i128 = if e < 0 {
            0 - (part as i128)
        } else {
            part as i128
        };
        proof {
            let gi = g as int;
            let pi = part as int;
            assert(size == gi * pi);
            assert(gi * (q as int) == e) by (nonlinear_arith)
                requires
                    size == gi * pi,
                    e < 0 ==> q == -pi && e == -size,
                    e >= 0 ==> q == pi && e == size,
            ;
            assert(e == (q as int) * gi + 0) by (nonlinear_arith)
                requires
                    gi * (q as int) == e,
            ;
            lemma_fundamental_div_mod_converse(e as int, gi, q as int, 0);
        }
        fresh.push(q);
        c += 1;
    }
    proof {
        assert(row_sound(t.rows[i as int]@, node));
        lemma_divide_sound(fresh@, divisor as int, t.rows[i as int]@, node);
        assert(!has_least(row));
        assert(fresh@ =~= reduced(row));
    }
    t.rows.set(i, fresh);
    assert(t.sheet() =~= before.update(i as int, reduced(row)));
}

/// Makes column `c` basic in row `r`: clears the column from every other
/// row, from the first on, and enters it in the basis. Says whether that
/// was done: it is not where the entry to pivot on is not positive, and it
/// stops at the first row that cannot be cleared within 128 bits.
fn pivot(t: &mut Tableau, r: usize, c: usize, Ghost(node): Ghost<Node>) -> (ok: bool)
    requires
        old(t).wf(),
        old(t).sound(node),
        r < old(t).buttons + old(t).counters,
        c < 2 * old(t).buttons + old(t).counters,
    ensures
        final(t).wf(),
        final(t).sound(node),
        final(t).like(*old(t)),
        ok == pivotable(old(t).sheet(), r as int, c as int),
        ok ==> final(t).sheet() == pivoted(old(t).sheet(), r as int, c as int) && final(t).basis@
            == old(t).basis@.update(r as int, c),
        !ok ==> final(t).basis@ == old(t).basis@,
        !ok && old(t).sheet()[r as int][c as int] <= 0 ==> *final(t) == *old(t),
        !ok && old(t).sheet()[r as int][c as int] > 0 ==> exists|f: int|
            #![trigger cleared(old(t).sheet()[f], old(t).sheet()[r as int], c as int)]
            0 <= f < old(t).rows.len() && f != r && cleared(
                old(t).sheet()[f],
                old(t).sheet()[r as int],
                c as int,
            ) is None && final(t).sheet() == pivoted_upto(old(t).sheet(), r as int, c as int, f)
                && forall|i: int|
                0 <= i < f && i != r ==> (#[trigger] cleared(
                    old(t).sheet()[i],
                    old(t).sheet()[r as int],
                    c as int,
                )) is Some,
{
    let ghost start = t.sheet();
    let ghost pivot_row = start[r as int];
    let p = t.rows[r][c];
    if p <= 0 {
        return false;
    }
    let count = t.rows.len();
    let mut i: usize = 0;
    assert(t.sheet() =~= pivoted_upto(start, r as int, c as int, 0));
    while i < count
        invariant
            t.wf(),
            t.sound(node),
            t.like(*old(t)),
            t.basis == old(t).basis,
            start == old(t).sheet(),
            start.len() == count,
            pivot_row == start[r as int],
            p == pivot_row[c as int],
            p > 0,
            count == t.rows.len(),
            i <= count,
            r < t.buttons + t.counters,
            c < 2 * t.buttons + t.counters,
            t.sheet() == pivoted_upto(start, r as int, c as int, i as int),
            forall|k: int|
                0 <= k < i && k != r ==> (#[trigger] cleared(start[k], pivot_row, c as int)) is Some,
        decreases count - i,
    {
        let ghost now = t.sheet();
        assert(now[i as int] == start[i as int]);
        assert(now[r as int] == pivot_row);
        assert(now[i as int] == t.rows[i as int]@);
        if i != r {
            let q = t.rows[i][c];
            if q != 0 {
                let minus_q = match 0i128.checked_sub(q) {
                    Some(m) => m,
                    None => {
                        assert(cleared(start[i as int], pivot_row, c as int) is None);
                        return false;
                    },
                };
                if !combine(t, i, p, r, minus_q, Ghost(node)) {
                    assert(cleared(start[i as int], pivot_row, c as int) is None);
                    return false;
                }
                normalize(t, i, Ghost(node));
                assert(t.sheet() =~= pivoted_upto(start, r as int, c as int, i + 1));
            } else {
                assert(t.sheet() =~= pivoted_upto(start, r as int, c as int, i + 1));
            }
        } else {
            assert(t.sheet() =~= pivoted_upto(start, r as int, c as int, i + 1));
        }
        i += 1;
    }
    t.basis.set(r, c);
    assert(t.sheet() =~= pivoted(start, r as int, c as int));
    true
}

/// The first of the first `limit` columns in which `row` has an entry above
/// zero.
pub open spec fn first_positive(row: Seq<i128>, limit: nat) -> Option<int>
    decreases limit,
{
    if limit == 0 {
        None
    } else {
        match first_positive(row, (limit - 1) as nat) {
            Some(c) => Some(c),
            None => if row[limit - 1] > 0 {
                Some(limit - 1)
            } else {
                None
            },
        }
    }
}

/// The first of the first `limit` columns in which `row` has an entry
/// other than zero.
pub open spec fn first_nonzero(row: Seq<i128>, limit: nat) -> Option<int>
    decreases limit,
{
    if limit == 0 {
        None
    } else {
        match first_nonzero(row, (limit - 1) as nat) {
            Some(c) => Some(c),
            None => if row[limit - 1] != 0 {
                Some(limit - 1)
            } else {
                None
            },
        }
    }
}

/// The row that leaves the basis for column `c`, among the first `k` rows:
/// of the rows with a positive entry in the column the one with the least
/// right-hand side over that entry, and of several such the one with the
/// least basic column. The inner `None` stands for no such row, the outer
/// for a product beyond 128 bits in comparing two of them.
pub open spec fn leaving(sheet: Seq<Seq<i128>>, basis: Seq<usize>, c: int, k: nat) -> Option<
    Option<int>,
>
    decreases k,
{
    if k == 0 {
        Some(None)
    } else {
        match leaving(sheet, basis, c, (k - 1) as nat) {
            None => None,
            Some(best) => {
                let r = k - 1;
                if sheet[r][c] <= 0 {
                    Some(best)
                } else {
                    match best {
                        None => Some(Some(r)),
                        Some(l) => {
                            let mine = sheet[r].last() * sheet[l][c];
                            let theirs = sheet[l].last() * sheet[r][c];
                            if !fits(mine) || !fits(theirs) {
                                None
                            } else if mine < theirs || (mine == theirs && basis[r] < basis[l]) {
                                Some(Some(r))
                            } else {
                                Some(Some(l))
                            }
                        },
                    }
                }
            },
        }
    }
}

/// The tableau at which pivoting by Bland's rule comes to rest within
/// `fuel` rounds: in each round the first of the first `proper` columns
/// with a positive entry in the objective enters the basis, and the row
/// that `leaving` names among the first `m` leaves it. It rests where no
/// such column is left. `None` where it does not come to rest: no row can
/// leave, a number outgrows 128 bits, or the rounds run out.
pub open spec fn phase(
    sheet: Seq<Seq<i128>>,
    basis: Seq<usize>,
    objective: int,
    proper: nat,
    m: nat,
    fuel: nat,
) -> Option<(Seq<Seq<i128>>, Seq<usize>)>
    decreases fuel,
{
    if fuel == 0 {
        None
    } else {
        match first_positive(sheet[objective], proper) {
            None => Some((sheet, basis)),
            Some(c) => match leaving(sheet, basis, c, m) {
                Some(Some(r)) => if pivotable(sheet, r, c) {
                    phase(
                        pivoted(sheet, r, c),
                        basis.update(r, c as usize),
                        objective,
                        proper,
                        m,
                        (fuel - 1) as nat,
                    )
                } else {
                    None
                },
                _ => None,
            },
        }
    }
}

/// The first positive entry is positive, within the limit, and the first.
pub proof fn lemma_first_positive(row: Seq<i128>, limit: nat)
    ensures
        match first_positive(row, limit) {
            Some(c) => 0 <= c < limit && row[c] > 0 && forall|d: int|
                0 <= d < c ==> #[trigger] row[d] <= 0,
            None => forall|d: int| 0 <= d < limit ==> #[trigger] row[d] <= 0,
        },
    decreases limit,
{
    if limit > 0 {
        lemma_first_positive(row, (limit - 1) as nat);
    }
}

/// A product beyond 128 bits among the first rows is one among all.
pub proof fn lemma_leaving_none_stays(
    sheet: Seq<Seq<i128>>,
    basis: Seq<usize>,
    c: int,
    a: nat,
    b: nat,
)
    requires
        a <= b,
        leaving(sheet, basis, c, a) is None,
    ensures
        leaving(sheet, basis, c, b) is None,
    decreases b,
{
    if a < b {
        lemma_leaving_none_stays(sheet, basis, c, a, (b - 1) as nat);
    }
}

/// Pivots by Bland's rule until no column of a count or a room has a
/// positive entry in row `objective`, and says whether it came that far:
/// it stops short where no row can leave the basis, where a number
/// outgrows 128 bits, and after `PIVOT_LIMIT` rounds.
fn run_phase(t: &mut Tableau, objective: usize, Ghost(node): Ghost<Node>) -> (done: bool)
    requires
        old(t).wf(),
        old(t).sound(node),
        objective < old(t).rows.len(),
    ensures
        final(t).wf(),
        final(t).sound(node),
        final(t).like(*old(t)),
        done == phase(
            old(t).sheet(),
            old(t).basis@,
            objective as int,
            (2 * old(t).buttons) as nat,
            (old(t).buttons + old(t).counters) as nat,
            PIVOT_LIMIT as nat,
        ) is Some,
        done ==> (final(t).sheet(), final(t).basis@) == phase(
            old(t).sheet(),
            old(t).basis@,
            objective as int,
            (2 * old(t).buttons) as nat,
            (old(t).buttons + old(t).counters) as nat,
            PIVOT_LIMIT as nat,
        )->0,
        done ==> forall|c: int|
            0 <= c < 2 * old(t).buttons ==> #[trigger] final(t).sheet()[objective as int][c] <= 0,
{
    let proper = 2 * t.buttons;
    let rows = t.buttons + t.counters;
    let last = 2 * t.buttons + t.counters + 1;
    let ghost goal = phase(
        t.sheet(),
        t.basis@,
        objective as int,
        proper as nat,
        rows as nat,
        PIVOT_LIMIT as nat,
    );
    let mut fuel: usize = PIVOT_LIMIT;
    while fuel > 0
        invariant
            t.wf(),
            t.sound(node),
            t.like(*old(t)),
            objective < t.rows.len(),
            proper == 2 * t.buttons,
            rows == t.buttons + t.counters,
            last == 2 * t.buttons + t.counters + 1,
            goal == phase(
                old(t).sheet(),
                old(t).basis@,
                objective as int,
                (2 * old(t).buttons) as nat,
                (old(t).buttons + old(t).counters) as nat,
                PIVOT_LIMIT as nat,
            ),
            goal == phase(
                t.sheet(),
                t.basis@,
                objective as int,
                proper as nat,
                rows as nat,
                fuel as nat,
            ),
        decreases fuel,
    {
        let ghost sheet = t.sheet();
        let ghost basis = t.basis@;
        fuel -= 1;
        let mut entering: usize = proper;
        let mut c: usize = 0;
        assert(sheet[objective as int] == t.rows[objective as int]@);
        while c < proper && entering == proper
            invariant
                t.wf(),
                t.sound(node),
                t.like(*old(t)),
                objective < t.rows.len(),
                proper == 2 * t.buttons,
                sheet[objective as int] == t.rows[objective as int]@,
                c <= proper,
                entering <= proper,
                entering < proper ==> first_positive(sheet[objective as int], c as nat) == Some(
                    entering as int,
                ),
                entering == proper ==> first_positive(sheet[objective as int], c as nat) is None,
            decreases proper - c,
        {
            if t.rows[objective][c] > 0 {
                entering = c;
            }
            c += 1;
        }
        proof {
            lemma_first_positive_more(sheet[objective as int], c as nat, proper as nat);
            lemma_first_positive(sheet[objective as int], proper as nat);
        }
        if entering == proper {
            return true;
        }
        let mut leaving_row: usize = rows;
        let mut r: usize = 0;
        while r < rows
            invariant
                t.wf(),
                t.sound(node),
                t.like(*old(t)),
                sheet == t.sheet(),
                basis == t.basis@,
                rows == t.buttons + t.counters,
                last == 2 * t.buttons + t.counters + 1,
                entering < 2 * t.buttons,
                r <= rows,
                leaving_row <= rows,
                leaving_row < rows ==> leaving_row < r,
                leaving(sheet, basis, entering as int, r as nat) == Some(
                    if leaving_row < rows {
                        Some(leaving_row as int)
                    } else {
                        None::<int>
                    },
                ),
                objective < t.rows.len(),
                goal == phase(
                    old(t).sheet(),
                    old(t).basis@,
                    objective as int,
                    (2 * old(t).buttons) as nat,
                    (old(t).buttons + old(t).counters) as nat,
                    PIVOT_LIMIT as nat,
                ),
                goal == phase(
                    sheet,
                    basis,
                    objective as int,
                    (2 * t.buttons) as nat,
                    rows as nat,
                    (fuel + 1) as nat,
                ),
                first_positive(sheet[objective as int], (2 * t.buttons) as nat) == Some(
                    entering as int,
                ),
            decreases rows - r,
        {
            assert(sheet[r as int] == t.rows[r as int]@);
            let a = t.rows[r][entering];
            if a > 0 {
                if leaving_row == rows {
                    leaving_row = r;
                } else {
                    assert(sheet[leaving_row as int] == t.rows[leaving_row as int]@);
                    let mine = match t.rows[r][last].checked_mul(t.rows[leaving_row][entering]) {
                        Some(x) => x,
                        None => {
                            proof {
                                lemma_leaving_none_stays(
                                    sheet,
                                    basis,
                                    entering as int,
                                    (r + 1) as nat,
                                    rows as nat,
                                );
                            }
                            return false;
                        },
                    };
                    let theirs = match t.rows[leaving_row][last].checked_mul(a) {
                        Some(x) => x,
                        None => {
                            proof {
                                lemma_leaving_none_stays(
                                    sheet,
                                    basis,
                                    entering as int,
                                    (r + 1) as nat,
                                    rows as nat,
                                );
                            }
                            return false;
                        },
                    };
                    if mine < theirs || (mine == theirs && t.basis[r] < t.basis[leaving_row]) {
                        leaving_row = r;
                    }
                }
            }
            r += 1;
        }
        if leaving_row == rows {
            return false;
        }
        if !pivot(t, leaving_row, entering, Ghost(node)) {
            return false;
        }
    }
    false
}

/// What the first positive entry among fewer columns says of more: once
/// found it stays, and nothing found among all is nothing found.
pub proof fn lemma_first_positive_more(row: Seq<i128>, a: nat, b: nat)
    requires
        a <= b,
    ensures
        first_positive(row, a) is Some ==> first_positive(row, b) == first_positive(row, a),
        a == b ==> first_positive(row, b) == first_positive(row, a),
    decreases b,
{
    if a < b {
        lemma_first_positive_more(row, a, (b - 1) as nat);
    }
}

/// The column of a lifted point that holds the number of presses above the
/// lower bounds; the right-hand side of a row stands one further.
pub open spec fn cost_column(node: Node) -> int {
    (2 * node.masks.len() + node.targets.len()) as int
}

proof fn lemma_counter_prefix(row: Seq<i128>, node: Node, p: Seq<u64>, i: int, j: nat)
    requires
        node.wf(),
        p.len() == node.masks.len(),
        j <= node.masks.len(),
        forall|c: int|
            0 <= c < node.masks.len() ==> #[trigger] row[c] == if affects(node.masks[c], i) {
                1i128
            } else {
                0i128
            },
    ensures
        row_sum(row, lift(node, p), j) == counter_sum(node.masks, p, i, j) - counter_sum(
            node.masks,
            node.lo,
            i,
            j,
        ),
    decreases j,
{
    if j > 0 {
        lemma_counter_prefix(row, node, p, i, (j - 1) as nat);
        let v = lift(node, p);
        assert(v[j - 1] == p[j - 1] - node.lo[j - 1]);
        assert(row[j - 1] == if affects(node.masks[j - 1], i) {
            1i128
        } else {
            0i128
        });
    }
}

/// The equation of counter `i`: the counts above the lower bounds of the
/// buttons that raise it add up to what the lower bounds leave of its
/// target.
proof fn lemma_counter_row_sound(row: Seq<i128>, node: Node, i: int)
    requires
        node.wf(),
        0 <= i < node.targets.len(),
        row.len() == 2 * node.masks.len() + node.targets.len() + 2,
        forall|c: int|
            0 <= c < node.masks.len() ==> #[trigger] row[c] == if affects(node.masks[c], i) {
                1i128
            } else {
                0i128
            },
        forall|c: int| node.masks.len() <= c < 2 * node.masks.len() ==> #[trigger] row[c] == 0,
        row[cost_column(node)] == 0,
        row[cost_column(node) + 1] == node.targets[i] - counter_value(
            node.masks,
            node.lo,
            i,
        ),
    ensures
        row_sound(row, node),
{
    let n = node.masks.len();
    let k = node.targets.len();
    assert forall|p: Seq<u64>| #[trigger] node.contains(p) implies row_holds(row, lift(node, p)) by {
        let v = lift(node, p);
        lemma_counter_prefix(row, node, p, i, n);
        lemma_row_sum_skip(row, v, n, 2 * n + k + 1);
        assert(counter_value(node.masks, p, i) == node.targets[i]);
    }
}

/// The equation of button `j`'s bounds: its count above the lower bound and
/// its room below the upper one add up to the distance of the two.
proof fn lemma_bound_row_sound(row: Seq<i128>, node: Node, j: int)
    requires
        node.wf(),
        0 <= j < node.masks.len(),
        row.len() == 2 * node.masks.len() + node.targets.len() + 2,
        forall|c: int|
            0 <= c < 2 * node.masks.len() + node.targets.len() + 1 ==> #[trigger] row[c] == if c
                == j || c == node.masks.len() + j {
                1i128
            } else {
                0i128
            },
        row[cost_column(node) + 1] == node.hi[j] - node.lo[j],
    ensures
        row_sound(row, node),
{
    let n = node.masks.len();
    let k = node.targets.len();
    assert forall|p: Seq<u64>| #[trigger] node.contains(p) implies row_holds(row, lift(node, p)) by {
        let v = lift(node, p);
        lemma_row_sum_skip(row, v, 0, j as nat);
        assert(row[j] == 1);
        assert(row_sum(row, v, (j + 1) as nat) == row_sum(row, v, j as nat) + row[j] * v[j]);
        lemma_row_sum_skip(row, v, (j + 1) as nat, (n + j) as nat);
        assert(row[n + j] == 1);
        assert(row_sum(row, v, (n + j + 1) as nat) == row_sum(row, v, (n + j) as nat) + row[n + j]
            * v[n + j]);
        lemma_row_sum_skip(row, v, (n + j + 1) as nat, 2 * n + k + 1);
        assert(v[j] == p[j] - node.lo[j]);
        assert(v[n + j] == node.hi[j] - p[j]);
    }
}

/// The objective of the first phase: the artificial columns add up to
/// nothing.
proof fn lemma_first_objective_sound(row: Seq<i128>, node: Node)
    requires
        node.wf(),
        row.len() == 2 * node.masks.len() + node.targets.len() + 2,
        forall|c: int| 0 <= c < 2 * node.masks.len() ==> #[trigger] row[c] == 0,
        row[cost_column(node)] == 0,
        row[cost_column(node) + 1] == 0,
    ensures
        row_sound(row, node),
{
    let n = node.masks.len();
    let k = node.targets.len();
    assert forall|p: Seq<u64>| #[trigger] node.contains(p) implies row_holds(row, lift(node, p)) by {
        lemma_row_sum_skip(row, lift(node, p), 0, 2 * n + k + 1);
    }
}

proof fn lemma_presses_prefix(row: Seq<i128>, node: Node, p: Seq<u64>, j: nat)
    requires
        node.wf(),
        p.len() == node.masks.len(),
        j <= node.masks.len(),
        forall|c: int| 0 <= c < node.masks.len() ==> #[trigger] row[c] == -1,
    ensures
        row_sum(row, lift(node, p), j) == press_sum(node.lo, j) - press_sum(p, j),
    decreases j,
{
    if j > 0 {
        lemma_presses_prefix(row, node, p, (j - 1) as nat);
        let v = lift(node, p);
        assert(v[j - 1] == p[j - 1] - node.lo[j - 1]);
        assert(row[j - 1] == -1);
    }
}

/// The objective of the second phase: the last column is the number of
/// presses above the lower bounds.
proof fn lemma_second_objective_sound(row: Seq<i128>, node: Node)
    requires
        node.wf(),
        row.len() == 2 * node.masks.len() + node.targets.len() + 2,
        forall|c: int| 0 <= c < node.masks.len() ==> #[trigger] row[c] == -1,
        forall|c: int| node.masks.len() <= c < 2 * node.masks.len() ==> #[trigger] row[c] == 0,
        row[cost_column(node)] == 1,
        row[cost_column(node) + 1] == 0,
    ensures
        row_sound(row, node),
{
    let n = node.masks.len();
    let k = node.targets.len();
    assert forall|p: Seq<u64>| #[trigger] node.contains(p) implies row_holds(row, lift(node, p)) by {
        let v = lift(node, p);
        lemma_presses_prefix(row, node, p, n);
        lemma_row_sum_skip(row, v, n, 2 * n + k);
        assert(row_sum(row, v, 2 * n + k + 1) == row_sum(row, v, 2 * n + k) + row[2 * n + k as int]
            * v[2 * n + k as int]);
        assert(v[2 * n + k as int] == press_total(p) - press_total(node.lo));
    }
}

/// A row of `width` zeros.
fn zero_row(width: usize) -> (row: Vec<i128>)
    ensures
        row.len() == width,
        forall|c: int| 0 <= c < width ==> #[trigger] row[c] == 0,
{
    let mut row: Vec<i128> = Vec::new();
    let mut c: usize = 0;
    while c < width
        invariant
            c <= width,
            row.len() == c,
            forall|d: int| 0 <= d < c ==> #[trigger] row[d] == 0,
        decreases width - c,
    {
        row.push(0);
        c += 1;
    }
    row
}

/// The node that bounds the counts of a machine by `lo` and `hi`.
pub open spec fn node_of(masks: Seq<u64>, targets: Seq<u32>, lo: Seq<u64>, hi: Seq<u64>) -> Node {
    Node { masks, targets, lo, hi }
}

/// The length of the rows of a node's tableau.
pub open spec fn row_width(node: Node) -> nat {
    2 * node.masks.len() + node.targets.len() + 2
}

/// The equation of counter `i`: one for each button that raises it, one in
/// its artificial column, and on the right what the lower bounds leave of
/// its target.
pub open spec fn counter_row_of(node: Node, i: int) -> Seq<i128> {
    let n = node.masks.len() as int;
    let k = node.targets.len() as int;
    Seq::new(
        row_width(node),
        |c: int|
            if c < n {
                if affects(node.masks[c], i) {
                    1i128
                } else {
                    0i128
                }
            } else if c == 2 * n + i {
                1i128
            } else if c == 2 * n + k + 1 {
                (node.targets[i] - counter_value(node.masks, node.lo, i)) as i128
            } else {
                0i128
            },
    )
}

/// The equation of the bounds of button `j`: one for its count, one for
/// its room, and on the right the distance of the bounds.
pub open spec fn bound_row_of(node: Node, j: int) -> Seq<i128> {
    let n = node.masks.len() as int;
    let k = node.targets.len() as int;
    Seq::new(
        row_width(node),
        |c: int|
            if c == j || c == n + j {
                1i128
            } else if c == 2 * n + k + 1 {
                (node.hi[j] - node.lo[j]) as i128
            } else {
                0i128
            },
    )
}

/// The objective of the first phase: one in every artificial column.
pub open spec fn first_objective_of(node: Node) -> Seq<i128> {
    let n = node.masks.len() as int;
    let k = node.targets.len() as int;
    Seq::new(
        row_width(node),
        |c: int|
            if 2 * n <= c < 2 * n + k {
                1i128
            } else {
                0i128
            },
    )
}

/// The objective of the second phase: minus one for every count, one in
/// the column of the cost.
pub open spec fn second_objective_of(node: Node) -> Seq<i128> {
    let n = node.masks.len() as int;
    let k = node.targets.len() as int;
    Seq::new(
        row_width(node),
        |c: int|
            if c < n {
                -1i128
            } else if c == 2 * n + k {
                1i128
            } else {
                0i128
            },
    )
}

/// The rows a node starts from: the equations of the counters, those of
/// the bounds, and the two objectives.
pub open spec fn initial_sheet(node: Node) -> Seq<Seq<i128>> {
    let n = node.masks.len() as int;
    let k = node.targets.len() as int;
    Seq::new(
        (n + k + 2) as nat,
        |r: int|
            if r < k {
                counter_row_of(node, r)
            } else if r < k + n {
                bound_row_of(node, r - k)
            } else if r == k + n {
                first_objective_of(node)
            } else {
                second_objective_of(node)
            },
    )
}

/// The basis a node starts from: the artificial column of each counter,
/// and the room of each button.
pub open spec fn initial_basis(node: Node) -> Seq<usize> {
    let n = node.masks.len() as int;
    let k = node.targets.len() as int;
    Seq::new(
        (n + k) as nat,
        |r: int|
            if r < k {
                (2 * n + r) as usize
            } else {
                (n + (r - k)) as usize
            },
    )
}

/// What the lower bounds add to a counter stays within 64 bits for each
/// button.
proof fn lemma_counter_sum_bound(masks: Seq<u64>, lo: Seq<u64>, i: int, j: nat)
    ensures
        0 <= counter_sum(masks, lo, i, j) <= j * 0xffff_ffff_ffff_ffff,
    decreases j,
{
    if j > 0 {
        lemma_counter_sum_bound(masks, lo, i, (j - 1) as nat);
    }
}

/// The equation of counter `i`.
fn counter_row(masks: &Vec<u64>, targets: &Vec<u32>, lo: &Vec<u64>, i: usize, Ghost(node): Ghost<
    Node,
>) -> (row: Vec<i128>)
    requires
        node.wf(),
        node.masks == masks@,
        node.targets == targets@,
        node.lo == lo@,
        masks.len() <= MAX_RELAXED_BUTTONS,
        targets.len() <= MAX_RELAXED_COUNTERS,
        i < targets.len(),
    ensures
        row@ == counter_row_of(node, i as int),
        row_sound(row@, node),
{
    let n = masks.len();
    let k = targets.len();
    let mut row = zero_row(2 * n + k + 2);
    let mut rest: i128 = targets[i] as i128;
    let mut j: usize = 0;
    while j < n
        invariant
            j <= n,
            n == masks.len(),
            k == targets.len(),
            n <= MAX_RELAXED_BUTTONS,
            k <= MAX_RELAXED_COUNTERS,
            lo.len() == n,
            i < k,
            row.len() == 2 * n + k + 2,
            forall|c: int|
                0 <= c < j ==> #[trigger] row[c] == if affects(masks[c], i as int) {
                    1i128
                } else {
                    0i128
                },
            forall|c: int| j <= c < 2 * n + k + 2 ==> #[trigger] row[c] == 0,
            rest == targets[i as int] - counter_sum(masks@, lo@, i as int, j as nat),
        decreases n - j,
    {
        proof {
            lemma_counter_sum_bound(masks@, lo@, i as int, j as nat);
        }
        if touches(masks[j], i) {
            row.set(j, 1);
            rest = rest - lo[j] as i128;
        }
        j += 1;
    }
    row.set(2 * n + i, 1);
    row.set(2 * n + k + 1, rest);
    proof {
        lemma_counter_row_sound(row@, node, i as int);
        assert(row@ =~= counter_row_of(node, i as int));
    }
    row
}

/// The equation of the bounds of button `j`.
fn bound_row(
    masks: &Vec<u64>,
    targets: &Vec<u32>,
    lo: &Vec<u64>,
    hi: &Vec<u64>,
    j: usize,
    Ghost(node): Ghost<Node>,
) -> (row: Vec<i128>)
    requires
        node.wf(),
        node == node_of(masks@, targets@, lo@, hi@),
        masks.len() <= MAX_RELAXED_BUTTONS,
        targets.len() <= MAX_RELAXED_COUNTERS,
        j < masks.len(),
    ensures
        row@ == bound_row_of(node, j as int),
        row_sound(row@, node),
{
    let n = masks.len();
    let k = targets.len();
    let mut row = zero_row(2 * n + k + 2);
    row.set(j, 1);
    row.set(n + j, 1);
    row.set(2 * n + k + 1, hi[j] as i128 - lo[j] as i128);
    proof {
        lemma_bound_row_sound(row@, node, j as int);
        assert(row@ =~= bound_row_of(node, j as int));
    }
    row
}

/// The objective of the first phase.
fn first_objective(n: usize, k: usize, Ghost(node): Ghost<Node>) -> (row: Vec<i128>)
    requires
        node.wf(),
        node.masks.len() == n,
        node.targets.len() == k,
        n <= MAX_RELAXED_BUTTONS,
        k <= MAX_RELAXED_COUNTERS,
    ensures
        row@ == first_objective_of(node),
        row_sound(row@, node),
{
    let mut row = zero_row(2 * n + k + 2);
    let mut i: usize = 0;
    while i < k
        invariant
            i <= k,
            n <= MAX_RELAXED_BUTTONS,
            k <= MAX_RELAXED_COUNTERS,
            row.len() == 2 * n + k + 2,
            forall|c: int|
                0 <= c < 2 * n + k + 2 ==> #[trigger] row[c] == if 2 * n <= c < 2 * n + i {
                    1i128
                } else {
                    0i128
                },
        decreases k - i,
    {
        row.set(2 * n + i, 1);
        i += 1;
    }
    proof {
        lemma_first_objective_sound(row@, node);
        assert(row@ =~= first_objective_of(node));
    }
    row
}

/// The objective of the second phase.
fn second_objective(n: usize, k: usize, Ghost(node): Ghost<Node>) -> (row: Vec<i128>)
    requires
        node.wf(),
        node.masks.len() == n,
        node.targets.len() == k,
        n <= MAX_RELAXED_BUTTONS,
        k <= MAX_RELAXED_COUNTERS,
    ensures
        row@ == second_objective_of(node),
        row_sound(row@, node),
{
    let mut row = zero_row(2 * n + k + 2);
    let mut j: usize = 0;
    while j < n
        invariant
            j <= n,
            n <= MAX_RELAXED_BUTTONS,
            k <= MAX_RELAXED_COUNTERS,
            row.len() == 2 * n + k + 2,
            forall|c: int| 0 <= c < j ==> #[trigger] row[c] == -1,
            forall|c: int| j <= c < 2 * n + k + 2 ==> #[trigger] row[c] == 0,
        decreases n - j,
    {
        row.set(j, -1);
        j += 1;
    }
    row.set(2 * n + k, 1);
    proof {
        lemma_second_objective_sound(row@, node);
        assert(row@ =~= second_objective_of(node));
    }
    row
}

/// The tableau a node starts from, where the machine has no more buttons
/// and counters than a relaxation is attempted for: one equation for each
/// counter, with its artificial column basic, one for each button's
/// bounds, with the room basic, and the two objectives.
fn build(masks: &Vec<u64>, targets: &Vec<u32>, lo: &Vec<u64>, hi: &Vec<u64>, Ghost(node): Ghost<
    Node,
>) -> (t: Option<Tableau>)
    requires
        node.wf(),
        node == node_of(masks@, targets@, lo@, hi@),
    ensures
        t is Some <==> masks.len() <= MAX_RELAXED_BUTTONS && targets.len()
            <= MAX_RELAXED_COUNTERS,
        t matches Some(t) ==> {
            &&& t.wf()
            &&& t.sound(node)
            &&& t.buttons == masks.len()
            &&& t.counters == targets.len()
            &&& t.sheet() == initial_sheet(node)
            &&& t.basis@ == initial_basis(node)
        },
{
    let n = masks.len();
    let k = targets.len();
    if n > MAX_RELAXED_BUTTONS || k > MAX_RELAXED_COUNTERS {
        return None;
    }
    let mut rows: Vec<Vec<i128>> = Vec::new();
    let mut basis: Vec<usize> = Vec::new();
    let mut i: usize = 0;
    while i < k
        invariant
            i <= k,
            n == masks.len(),
            k == targets.len(),
            n <= MAX_RELAXED_BUTTONS,
            k <= MAX_RELAXED_COUNTERS,
            node.wf(),
            node == node_of(masks@, targets@, lo@, hi@),
            rows.len() == i,
            basis.len() == i,
            forall|r: int| 0 <= r < i ==> (#[trigger] rows[r])@ == initial_sheet(node)[r],
            forall|r: int| 0 <= r < i ==> row_sound(#[trigger] rows[r]@, node),
            forall|r: int| 0 <= r < i ==> #[trigger] basis[r] == initial_basis(node)[r],
        decreases k - i,
    {
        let row = counter_row(masks, targets, lo, i, Ghost(node));
        rows.push(row);
        basis.push(2 * n + i);
        i += 1;
    }
    let mut j: usize = 0;
    while j < n
        invariant
            j <= n,
            n == masks.len(),
            k == targets.len(),
            n <= MAX_RELAXED_BUTTONS,
            k <= MAX_RELAXED_COUNTERS,
            node.wf(),
            node == node_of(masks@, targets@, lo@, hi@),
            rows.len() == k + j,
            basis.len() == k + j,
            forall|r: int| 0 <= r < k + j ==> (#[trigger] rows[r])@ == initial_sheet(node)[r],
            forall|r: int| 0 <= r < k + j ==> row_sound(#[trigger] rows[r]@, node),
            forall|r: int| 0 <= r < k + j ==> #[trigger] basis[r] == initial_basis(node)[r],
        decreases n - j,
    {
        let row = bound_row(masks, targets, lo, hi, j, Ghost(node));
        rows.push(row);
        basis.push(n + j);
        j += 1;
    }
    let first = first_objective(n, k, Ghost(node));
    rows.push(first);
    let second = second_objective(n, k, Ghost(node));
    rows.push(second);
    let t = Tableau { rows, basis, buttons: n, counters: k };
    proof {
        assert(t.sheet() =~= initial_sheet(node));
        assert(t.basis@ =~= initial_basis(node));
        assert forall|r: int| 0 <= r < t.rows.len() implies (#[trigger] t.rows[r]).len()
            == t.width() by {
            assert(t.rows[r]@ == initial_sheet(node)[r]);
        }
    }
    Some(t)
}

/// The signs of `row` alone show that nothing of the shape of a lifted
/// point satisfies it: nothing stands in the column of the cost, and the
/// right-hand side is positive with no entry of a count or a room above
/// zero, or negative with none below.
pub open spec fn refutes_by_sign(row: Seq<i128>, n: int, k: int) -> bool {
    &&& row[2 * n + k] == 0
    &&& row[2 * n + k + 1] != 0
    &&& forall|c: int|
        0 <= c < 2 * n ==> (row[2 * n + k + 1] > 0 ==> #[trigger] row[c] <= 0) && (row[2 * n + k
            + 1] < 0 ==> row[c] >= 0)
}

/// Nothing of the shape of a lifted point satisfies a row that refutes by
/// its signs.
pub proof fn lemma_refutes_by_sign(row: Seq<i128>, n: int, k: int)
    requires
        0 <= n,
        0 <= k,
        row.len() == 2 * n + k + 2,
        refutes_by_sign(row, n, k),
    ensures
        forall|v: Seq<int>| #[trigger] lifted_shape(v, n, k) ==> !row_holds(row, v),
{
    let rhs = row[2 * n + k + 1];
    assert forall|v: Seq<int>| #[trigger] lifted_shape(v, n, k) implies !row_holds(row, v) by {
        let m = (2 * n + k) as nat;
        assert(row_sum(row, v, m + 1) == row_sum(row, v, m) + row[m as int] * v[m as int]);
        if rhs > 0 {
            lemma_row_sum_nonpositive(row, v, m);
        } else {
            lemma_row_sum_nonnegative(row, v, m);
        }
    }
}

/// Whether the signs of `row` alone show that nothing of the shape of a
/// lifted point satisfies it.
fn refuting(row: &Vec<i128>, n: usize, k: usize) -> (b: bool)
    requires
        n <= MAX_RELAXED_BUTTONS,
        k <= MAX_RELAXED_COUNTERS,
        row.len() == 2 * n + k + 2,
    ensures
        b == refutes_by_sign(row@, n as int, k as int),
        b ==> forall|v: Seq<int>| #[trigger]
            lifted_shape(v, n as int, k as int) ==> !row_holds(row@, v),
{
    if row[2 * n + k] != 0 {
        return false;
    }
    let rhs = row[2 * n + k + 1];
    if rhs == 0 {
        return false;
    }
    let mut c: usize = 0;
    while c < 2 * n
        invariant
            c <= 2 * n,
            n <= MAX_RELAXED_BUTTONS,
            row.len() == 2 * n + k + 2,
            rhs != 0,
            rhs == row[2 * n + k + 1],
            forall|d: int| 0 <= d < c ==> (rhs > 0 ==> #[trigger] row[d] <= 0) && (rhs < 0 ==> row[d]
                >= 0),
        decreases 2 * n - c,
    {
        if (rhs > 0 && row[c] > 0) || (rhs < 0 && row[c] < 0) {
            assert(!refutes_by_sign(row@, n as int, k as int)) by {
                let d = c as int;
                assert(!((rhs > 0 ==> row[d] <= 0) && (rhs < 0 ==> row[d] >= 0)));
            }
            return false;
        }
        c += 1;
    }
    proof {
        assert(refutes_by_sign(row@, n as int, k as int));
        lemma_refutes_by_sign(row@, n as int, k as int);
    }
    true
}

/// `row` bounds the cost from below: its entry in the column of the cost
/// is positive, and no entry of a count or a room is.
pub open spec fn bounds_cost(row: Seq<i128>, n: int, k: int) -> bool {
    &&& row[2 * n + k] > 0
    &&& forall|c: int| 0 <= c < 2 * n ==> #[trigger] row[c] <= 0
}

/// The least whole cost that such a row allows: the right-hand side over
/// the entry of the cost, rounded up, and zero where that is below zero.
pub open spec fn least_cost(row: Seq<i128>, n: int, k: int) -> nat {
    let d = row[2 * n + k] as int;
    let rhs = row[2 * n + k + 1] as int;
    if rhs <= 0 {
        0
    } else if rhs % d == 0 {
        (rhs / d) as nat
    } else {
        (rhs / d + 1) as nat
    }
}

/// The least cost that `row`, read as the objective of the second phase,
/// allows a lifted point, where it bounds the cost at all.
fn bound_of(row: &Vec<i128>, n: usize, k: usize) -> (least: Option<u128>)
    requires
        n <= MAX_RELAXED_BUTTONS,
        k <= MAX_RELAXED_COUNTERS,
        row.len() == 2 * n + k + 2,
    ensures
        least == if bounds_cost(row@, n as int, k as int) {
            Some(least_cost(row@, n as int, k as int) as u128)
        } else {
            None
        },
        least matches Some(least) ==> forall|v: Seq<int>|
            #![trigger lifted_shape(v, n as int, k as int)]
            lifted_shape(v, n as int, k as int) && row_holds(row@, v) ==> v[2 * n + k] >= least,
{
    let d = row[2 * n + k];
    if d <= 0 {
        return None;
    }
    let mut c: usize = 0;
    while c < 2 * n
        invariant
            c <= 2 * n,
            n <= MAX_RELAXED_BUTTONS,
            row.len() == 2 * n + k + 2,
            forall|e: int| 0 <= e < c ==> #[trigger] row[e] <= 0,
        decreases 2 * n - c,
    {
        if row[c] > 0 {
            assert(!bounds_cost(row@, n as int, k as int)) by {
                assert(row[c as int] > 0);
            }
            return None;
        }
        c += 1;
    }
    assert(bounds_cost(row@, n as int, k as int));
    let rhs = row[2 * n + k + 1];
    if rhs <= 0 {
        return Some(0);
    }
    let q = (rhs as u128) / (d as u128);
    let rem = (rhs as u128) % (d as u128);
    let least = if rem == 0 {
        q
    } else {
        q + 1
    };
    proof {
        lemma_fundamental_div_mod(rhs as int, d as int);
        lemma_mod_bound(rhs as int, d as int);
        assert forall|v: Seq<int>|
            #![trigger lifted_shape(v, n as int, k as int)]
            lifted_shape(v, n as int, k as int) && row_holds(row@, v) implies v[2 * n + k]
            >= least by {
            let m = (2 * n + k) as nat;
            assert(row_sum(row@, v, m + 1) == row_sum(row@, v, m) + row[m as int] * v[m as int]);
            lemma_row_sum_nonpositive(row@, v, m);
            let t = v[m as int];
            let di = d as int;
            let zi = rhs as int;
            let qi = q as int;
            let ri = rem as int;
            assert(di * t >= zi);
            assert(zi == di * qi + ri);
            assert(t >= least) by (nonlinear_arith)
                requires
                    di > 0,
                    di * t >= zi,
                    zi == di * qi + ri,
                    0 <= ri < di,
                    least == if ri == 0 {
                        qi
                    } else {
                        qi + 1
                    },
            ;
        }
    }
    Some(least)
}

/// What the relaxation of a node to the rationals tells the search.
pub(crate) enum Relaxation {
    /// The node has no point.
    Infeasible,
    /// Every point of the node takes at least `bound` presses. `point` is
    /// the vertex the simplex method stopped at where its counts are whole,
    /// and `split` names a button whose count there is not, with the count
    /// rounded down; neither is promised to be of any use.
    Bounded { bound: u64, point: Option<Vec<u64>>, split: Option<(usize, u64)> },
    /// The relaxation was given up: the machine is too large for it, a row
    /// outgrew 128 bits, or the pivot limit was reached.
    Unknown,
}

/// The sum of `lo`.
fn sum_of(lo: &Vec<u64>) -> (total: u128)
    requires
        lo.len() <= MAX_RELAXED_BUTTONS,
    ensures
        total == press_total(lo@),
        total <= lo.len() * u64::MAX,
{
    let mut total: u128 = 0;
    let mut j: usize = 0;
    while j < lo.len()
        invariant
            j <= lo.len(),
            lo.len() <= MAX_RELAXED_BUTTONS,
            total == press_sum(lo@, j as nat),
            total <= j * u64::MAX,
        decreases lo.len() - j,
    {
        total = total + lo[j] as u128;
        j += 1;
    }
    total
}

/// The last of the first `k` rows in which column `j` is basic.
pub open spec fn last_row(basis: Seq<usize>, j: int, k: nat) -> Option<int>
    decreases k,
{
    if k == 0 {
        None
    } else if basis[k - 1] == j {
        Some(k - 1)
    } else {
        last_row(basis, j, (k - 1) as nat)
    }
}

/// What row `r` gives the count of its basic column: the lower bound and
/// the right-hand side over the column's own entry, rounded down.
pub open spec fn count_in(sheet: Seq<Seq<i128>>, basis: Seq<usize>, lo: Seq<u64>, r: int) -> int {
    lo[basis[r] as int] + (sheet[r].last() as int) / (sheet[r][basis[r] as int] as int)
}

/// Row `r` can be read: the entry of its basic column is positive, the
/// right-hand side is not negative, and the count is one of 64 bits.
pub open spec fn readable(sheet: Seq<Seq<i128>>, basis: Seq<usize>, lo: Seq<u64>, r: int) -> bool {
    &&& sheet[r][basis[r] as int] > 0
    &&& sheet[r].last() >= 0
    &&& count_in(sheet, basis, lo, r) <= u64::MAX
}

/// Row `r` gives a whole count.
pub open spec fn exact(sheet: Seq<Seq<i128>>, basis: Seq<usize>, r: int) -> bool {
    (sheet[r].last() as int) % (sheet[r][basis[r] as int] as int) == 0
}

/// The count of button `j` at the vertex that the first `k` rows give: what
/// the last row gives in which its column is basic, and its lower bound
/// where it is basic in none.
pub open spec fn count_at(
    sheet: Seq<Seq<i128>>,
    basis: Seq<usize>,
    lo: Seq<u64>,
    j: int,
    k: nat,
) -> int {
    match last_row(basis, j, k) {
        Some(r) => count_in(sheet, basis, lo, r),
        None => lo[j] as int,
    }
}

/// Row `r` is the first of the first `k` rows with a count that is not
/// whole.
pub open spec fn first_broken(
    sheet: Seq<Seq<i128>>,
    basis: Seq<usize>,
    n: int,
    r: int,
    k: int,
) -> bool {
    &&& 0 <= r < k
    &&& basis[r] < n
    &&& !exact(sheet, basis, r)
    &&& forall|h: int| 0 <= h < r && (#[trigger] basis[h]) < n ==> exact(sheet, basis, h)
}

/// Every one of the first `k` rows with a count gives a whole count.
pub open spec fn all_exact(sheet: Seq<Seq<i128>>, basis: Seq<usize>, n: int, k: int) -> bool {
    forall|h: int| 0 <= h < k && (#[trigger] basis[h]) < n ==> exact(sheet, basis, h)
}

/// `point` and `split` are what the tableau gives of its vertex. A row in
/// which the column of a count is basic gives that count; any other count
/// is at its lower bound. `point` is the vertex, where all its counts are
/// whole. `split` names the button of the first row whose count is not,
/// with the count rounded down. Both are `None` where a row cannot be
/// read.
pub open spec fn is_reading(
    sheet: Seq<Seq<i128>>,
    basis: Seq<usize>,
    lo: Seq<u64>,
    n: int,
    point: Option<Seq<u64>>,
    split: Option<(usize, u64)>,
) -> bool {
    if exists|r: int| 0 <= r < basis.len() && (#[trigger] basis[r]) < n && !readable(sheet, basis, lo, r) {
        point is None && split is None
    } else {
        &&& match split {
            Some((j, count)) => exists|r: int|
                first_broken(sheet, basis, n, r, basis.len() as int) && j == #[trigger] basis[r]
                    && count == count_in(sheet, basis, lo, r),
            None => all_exact(sheet, basis, n, basis.len() as int),
        }
        &&& match point {
            Some(point) => split is None && point.len() == n && forall|j: int|
                0 <= j < n ==> #[trigger] point[j] == count_at(sheet, basis, lo, j, basis.len()),
            None => split is Some,
        }
    }
}

/// The counts of a vertex, where there is one.
pub open spec fn counts_of(point: Option<Vec<u64>>) -> Option<Seq<u64>> {
    match point {
        Some(point) => Some(point@),
        None => None,
    }
}

/// Reads the vertex off the tableau.
fn vertex(t: &Tableau, lo: &Vec<u64>) -> (found: (Option<Vec<u64>>, Option<(usize, u64)>))
    requires
        t.wf(),
        lo.len() == t.buttons,
    ensures
        is_reading(t.sheet(), t.basis@, lo@, t.buttons as int, counts_of(found.0), found.1),
{
    let n = t.buttons;
    let rows = t.buttons + t.counters;
    let last = 2 * t.buttons + t.counters + 1;
    let ghost sheet = t.sheet();
    let ghost basis = t.basis@;
    let mut point: Vec<u64> = Vec::new();
    let mut j: usize = 0;
    while j < n
        invariant
            j <= n,
            n == lo.len(),
            point.len() == j,
            forall|h: int| 0 <= h < j ==> #[trigger] point[h] == lo[h],
        decreases n - j,
    {
        point.push(lo[j]);
        j += 1;
    }
    let mut whole = true;
    let mut split: Option<(usize, u64)> = None;
    let mut r: usize = 0;
    while r < rows
        invariant
            t.wf(),
            r <= rows,
            rows == t.buttons + t.counters,
            last == 2 * t.buttons + t.counters + 1,
            n == t.buttons,
            n == lo.len(),
            sheet == t.sheet(),
            basis == t.basis@,
            point.len() == n,
            forall|h: int| 0 <= h < r && (#[trigger] basis[h]) < n ==> readable(sheet, basis, lo@, h),
            whole == all_exact(sheet, basis, n as int, r as int),
            whole == (split is None),
            split matches Some((j, count)) ==> exists|h: int|
                first_broken(sheet, basis, n as int, h, r as int) && j == #[trigger] basis[h]
                    && count == count_in(sheet, basis, lo@, h),
            forall|j: int|
                0 <= j < n ==> #[trigger] point[j] == if whole {
                    count_at(sheet, basis, lo@, j, r as nat)
                } else {
                    point[j] as int
                },
        decreases rows - r,
    {
        let c = t.basis[r];
        assert(sheet[r as int] == t.rows[r as int]@);
        assert(basis[r as int] == c);
        if c < n {
            let a = t.rows[r][c];
            let b = t.rows[r][last];
            if a <= 0 || b < 0 {
                assert(!readable(sheet, basis, lo@, r as int));
                return (None, None);
            }
            let q = (b as u128) / (a as u128);
            let rem = (b as u128) % (a as u128);
            if q > u64::MAX as u128 {
                assert(!readable(sheet, basis, lo@, r as int));
                return (None, None);
            }
            let count = match lo[c].checked_add(q as u64) {
                Some(x) => x,
                None => {
                    assert(!readable(sheet, basis, lo@, r as int));
                    return (None, None);
                },
            };
            assert(readable(sheet, basis, lo@, r as int));
            assert(count == count_in(sheet, basis, lo@, r as int));
            if rem == 0 {
                assert(exact(sheet, basis, r as int));
                let ghost before = point@;
                point.set(c, count);
                proof {
                    if whole {
                        assert forall|j: int| 0 <= j < n implies #[trigger] point[j] == count_at(
                            sheet,
                            basis,
                            lo@,
                            j,
                            (r + 1) as nat,
                        ) by {
                            if j != c {
                                assert(point[j] == before[j]);
                            }
                        }
                    }
                }
            } else {
                assert(!exact(sheet, basis, r as int));
                if split.is_none() {
                    split = Some((c, count));
                    assert(first_broken(sheet, basis, n as int, r as int, r + 1));
                } else {
                    proof {
                        let had = split->0;
                        let h = choose|h: int|
                            first_broken(sheet, basis, n as int, h, r as int) && had.0
                                == #[trigger] basis[h] && had.1 == count_in(sheet, basis, lo@, h);
                        assert(first_broken(sheet, basis, n as int, h, r + 1));
                    }
                }
                whole = false;
            }
        } else {
            proof {
                if split is Some {
                    let had = split->0;
                    let h = choose|h: int|
                        first_broken(sheet, basis, n as int, h, r as int) && had.0
                            == #[trigger] basis[h] && had.1 == count_in(sheet, basis, lo@, h);
                    assert(first_broken(sheet, basis, n as int, h, r + 1));
                }
            }
        }
        r += 1;
    }
    if whole {
        (Some(point), split)
    } else {
        (None, split)
    }
}

/// The rows after the first `k` rows have been taken from row `first`,
/// one after the other, or `None` where that leaves 128 bits.
pub open spec fn first_summed(sheet: Seq<Seq<i128>>, first: int, k: nat) -> Option<
    Seq<Seq<i128>>,
>
    decreases k,
{
    if k == 0 {
        Some(sheet)
    } else {
        match first_summed(sheet, first, (k - 1) as nat) {
            None => None,
            Some(s) => if combinable(1, s[first], -1, s[k - 1]) {
                Some(s.update(first, combined(1, s[first], -1, s[k - 1])))
            } else {
                None
            },
        }
    }
}

/// The rows with the objective of the first phase written over the columns
/// outside the basis: the equations of the `k` counters taken from it, its
/// signs turned, and it reduced.
pub open spec fn first_ready(sheet: Seq<Seq<i128>>, first: int, k: nat) -> Option<Seq<Seq<i128>>> {
    match first_summed(sheet, first, k) {
        None => None,
        Some(s) => if combinable(-1, s[first], 0, s[first]) {
            let turned = combined(-1, s[first], 0, s[first]);
            Some(s.update(first, reduced(turned)))
        } else {
            None
        },
    }
}

/// The tableau after the artificial columns that are basic in the first
/// `r` rows have left the basis: each gives its row to the first column of
/// a count or a room with an entry in it, the signs of the row turned where
/// that entry is negative. `None` where such a row has a right-hand side
/// other than zero, or a number outgrows 128 bits.
pub open spec fn driven(sheet: Seq<Seq<i128>>, basis: Seq<usize>, proper: nat, r: nat) -> Option<
    (Seq<Seq<i128>>, Seq<usize>),
>
    decreases r,
{
    if r == 0 {
        Some((sheet, basis))
    } else {
        match driven(sheet, basis, proper, (r - 1) as nat) {
            None => None,
            Some((s, b)) => {
                let row = r - 1;
                if b[row] < proper {
                    Some((s, b))
                } else if s[row].last() != 0 {
                    None
                } else {
                    match first_nonzero(s[row], proper) {
                        None => Some((s, b)),
                        Some(c) => {
                            let up = if s[row][c] < 0 {
                                if combinable(-1, s[row], 0, s[row]) {
                                    Some(s.update(row, combined(-1, s[row], 0, s[row])))
                                } else {
                                    None
                                }
                            } else {
                                Some(s)
                            };
                            match up {
                                None => None,
                                Some(u) => if pivotable(u, row, c) {
                                    Some((pivoted(u, row, c), b.update(row, c as usize)))
                                } else {
                                    None
                                },
                            }
                        },
                    }
                }
            },
        }
    }
}

/// The rows after the basic columns of the first `r` rows have been
/// cleared from row `second`, the objective of the second phase. `None`
/// where a basic column has no positive entry in its own row, or a number
/// outgrows 128 bits.
pub open spec fn second_settled(
    sheet: Seq<Seq<i128>>,
    basis: Seq<usize>,
    second: int,
    r: nat,
) -> Option<Seq<Seq<i128>>>
    decreases r,
{
    if r == 0 {
        Some(sheet)
    } else {
        match second_settled(sheet, basis, second, (r - 1) as nat) {
            None => None,
            Some(s) => {
                let row = r - 1;
                let c = basis[row] as int;
                let q = s[second][c] as int;
                let p = s[row][c] as int;
                if q == 0 {
                    Some(s)
                } else if q == i128::MIN || p <= 0 || !combinable(p, s[second], -q, s[row]) {
                    None
                } else {
                    Some(s.update(second, reduced(combined(p, s[second], -q, s[row]))))
                }
            },
        }
    }
}

/// What the simplex method makes of a node.
pub enum Relaxed {
    /// A row shows by its signs that the node has no point.
    Infeasible,
    /// The method came to rest with the tableau of these rows and this
    /// basis, whose second objective allows no cost below `bound`.
    Bounded { bound: u64, sheet: Seq<Seq<i128>>, basis: Seq<usize> },
    /// The method was given up.
    Unknown,
}

/// What the second phase makes of a tableau that the first has left ready.
pub open spec fn second_phase(node: Node, sheet: Seq<Seq<i128>>, basis: Seq<usize>) -> Relaxed {
    let n = node.masks.len();
    let k = node.targets.len();
    let m = n + k;
    let second = (m + 1) as int;
    match driven(sheet, basis, 2 * n, m) {
        None => Relaxed::Unknown,
        Some((s3, b3)) => match second_settled(s3, b3, second, m) {
            None => Relaxed::Unknown,
            Some(s4) => match phase(s4, b3, second, 2 * n, m, PIVOT_LIMIT as nat) {
                None => Relaxed::Unknown,
                Some((s5, b5)) => if !bounds_cost(s5[second], n as int, k as int) {
                    Relaxed::Unknown
                } else {
                    let bound = press_total(node.lo) + least_cost(s5[second], n as int, k as int);
                    if bound > u64::MAX {
                        Relaxed::Unknown
                    } else {
                        Relaxed::Bounded { bound: bound as u64, sheet: s5, basis: b5 }
                    }
                },
            },
        },
    }
}

/// What the simplex method in two phases makes of a node, with tableaux of
/// whole numbers of 128 bits and at most `PIVOT_LIMIT` rounds in each
/// phase. The first phase brings the artificial columns to zero: the node
/// is infeasible where one of its equations refutes by its signs, or the
/// objective of the first phase does when that phase has come to rest
/// above zero. The second phase brings the cost down, and its objective at
/// rest bounds the cost of every point. The method is given up for a
/// machine with more buttons or counters than it is attempted for, where a
/// number outgrows 128 bits, and where a phase does not come to rest.
pub open spec fn relaxed(node: Node) -> Relaxed {
    let n = node.masks.len();
    let k = node.targets.len();
    let m = n + k;
    if n > MAX_RELAXED_BUTTONS || k > MAX_RELAXED_COUNTERS {
        Relaxed::Unknown
    } else if exists|r: int|
        0 <= r < m && refutes_by_sign(#[trigger] initial_sheet(node)[r], n as int, k as int) {
        Relaxed::Infeasible
    } else {
        match first_ready(initial_sheet(node), m as int, k) {
            None => Relaxed::Unknown,
            Some(s1) => match phase(s1, initial_basis(node), m as int, 2 * n, m, PIVOT_LIMIT as nat) {
                None => Relaxed::Unknown,
                Some((s2, b2)) => if s2[m as int].last() > 0 {
                    if refutes_by_sign(s2[m as int], n as int, k as int) {
                        Relaxed::Infeasible
                    } else {
                        Relaxed::Unknown
                    }
                } else {
                    second_phase(node, s2, b2)
                },
            },
        }
    }
}

pub proof fn lemma_first_summed_none_stays(sheet: Seq<Seq<i128>>, first: int, a: nat, b: nat)
    requires
        a <= b,
        first_summed(sheet, first, a) is None,
    ensures
        first_summed(sheet, first, b) is None,
    decreases b,
{
    if a < b {
        lemma_first_summed_none_stays(sheet, first, a, (b - 1) as nat);
    }
}

pub proof fn lemma_driven_none_stays(
    sheet: Seq<Seq<i128>>,
    basis: Seq<usize>,
    proper: nat,
    a: nat,
    b: nat,
)
    requires
        a <= b,
        driven(sheet, basis, proper, a) is None,
    ensures
        driven(sheet, basis, proper, b) is None,
    decreases b,
{
    if a < b {
        lemma_driven_none_stays(sheet, basis, proper, a, (b - 1) as nat);
    }
}

pub proof fn lemma_second_settled_none_stays(
    sheet: Seq<Seq<i128>>,
    basis: Seq<usize>,
    second: int,
    a: nat,
    b: nat,
)
    requires
        a <= b,
        second_settled(sheet, basis, second, a) is None,
    ensures
        second_settled(sheet, basis, second, b) is None,
    decreases b,
{
    if a < b {
        lemma_second_settled_none_stays(sheet, basis, second, a, (b - 1) as nat);
    }
}

/// Whether one of the equations of the tableau refutes by its signs.
fn any_refuting(t: &Tableau, Ghost(node): Ghost<Node>) -> (b: bool)
    requires
        t.wf(),
        t.sound(node),
    ensures
        b == exists|r: int|
            0 <= r < t.buttons + t.counters && refutes_by_sign(
                #[trigger] t.sheet()[r],
                t.buttons as int,
                t.counters as int,
            ),
        b ==> forall|p: Seq<u64>| !node.contains(p),
{
    let n = t.buttons;
    let k = t.counters;
    let rows = n + k;
    let mut r: usize = 0;
    while r < rows
        invariant
            t.wf(),
            t.sound(node),
            t.buttons == n,
            t.counters == k,
            rows == n + k,
            r <= rows,
            forall|h: int| 0 <= h < r ==> !refutes_by_sign(#[trigger] t.sheet()[h], n as int, k as int),
        decreases rows - r,
    {
        assert(t.sheet()[r as int] == t.rows[r as int]@);
        if refuting(&t.rows[r], n, k) {
            proof {
                lemma_refuted(t.rows[r as int]@, node);
            }
            return true;
        }
        r += 1;
    }
    false
}

/// Writes the objective of the first phase over the columns outside the
/// basis, and says whether that was done within 128 bits.
fn settle_first(t: &mut Tableau, Ghost(node): Ghost<Node>) -> (ok: bool)
    requires
        old(t).wf(),
        old(t).sound(node),
    ensures
        final(t).wf(),
        final(t).sound(node),
        final(t).like(*old(t)),
        final(t).basis == old(t).basis,
        ok == first_ready(
            old(t).sheet(),
            (old(t).buttons + old(t).counters) as int,
            old(t).counters as nat,
        ) is Some,
        ok ==> final(t).sheet() == first_ready(
            old(t).sheet(),
            (old(t).buttons + old(t).counters) as int,
            old(t).counters as nat,
        )->0,
{
    let k = t.counters;
    let first = t.buttons + t.counters;
    let ghost start = t.sheet();
    let mut i: usize = 0;
    while i < k
        invariant
            t.wf(),
            t.sound(node),
            t.like(*old(t)),
            t.basis == old(t).basis,
            start == old(t).sheet(),
            k == t.counters,
            first == t.buttons + t.counters,
            i <= k,
            first_summed(start, first as int, i as nat) == Some(t.sheet()),
        decreases k - i,
    {
        if !combine(t, first, 1, i, -1, Ghost(node)) {
            proof {
                lemma_first_summed_none_stays(start, first as int, (i + 1) as nat, k as nat);
            }
            return false;
        }
        i += 1;
    }
    if !combine(t, first, -1, first, 0, Ghost(node)) {
        return false;
    }
    let ghost turned = t.sheet();
    normalize(t, first, Ghost(node));
    assert(t.sheet() =~= first_ready(start, first as int, k as nat)->0);
    true
}

/// Lets the artificial columns that are still basic leave the basis, each
/// where some column of a count or a room can take its row, and says
/// whether that was done.
fn drive_out(t: &mut Tableau, Ghost(node): Ghost<Node>) -> (ok: bool)
    requires
        old(t).wf(),
        old(t).sound(node),
    ensures
        final(t).wf(),
        final(t).sound(node),
        final(t).like(*old(t)),
        ok == driven(
            old(t).sheet(),
            old(t).basis@,
            (2 * old(t).buttons) as nat,
            (old(t).buttons + old(t).counters) as nat,
        ) is Some,
        ok ==> (final(t).sheet(), final(t).basis@) == driven(
            old(t).sheet(),
            old(t).basis@,
            (2 * old(t).buttons) as nat,
            (old(t).buttons + old(t).counters) as nat,
        )->0,
{
    let n = t.buttons;
    let rows = t.buttons + t.counters;
    let last = 2 * t.buttons + t.counters + 1;
    let ghost start = t.sheet();
    let ghost start_basis = t.basis@;
    let mut r: usize = 0;
    while r < rows
        invariant
            t.wf(),
            t.sound(node),
            t.like(*old(t)),
            start == old(t).sheet(),
            start_basis == old(t).basis@,
            n == t.buttons,
            rows == t.buttons + t.counters,
            last == 2 * t.buttons + t.counters + 1,
            r <= rows,
            driven(start, start_basis, (2 * n) as nat, r as nat) == Some((t.sheet(), t.basis@)),
        decreases rows - r,
    {
        let ghost sheet = t.sheet();
        let ghost basis = t.basis@;
        assert(sheet[r as int] == t.rows[r as int]@);
        if t.basis[r] >= 2 * n {
            if t.rows[r][last] != 0 {
                proof {
                    lemma_driven_none_stays(
                        start,
                        start_basis,
                        (2 * n) as nat,
                        (r + 1) as nat,
                        rows as nat,
                    );
                }
                return false;
            }
            let mut found: usize = 2 * n;
            let mut c: usize = 0;
            while c < 2 * n && found == 2 * n
                invariant
                    t.wf(),
                    t.buttons == n,
                    r < rows,
                    rows == t.buttons + t.counters,
                    sheet[r as int] == t.rows[r as int]@,
                    c <= 2 * n,
                    found <= 2 * n,
                    found < 2 * n ==> first_nonzero(sheet[r as int], c as nat) == Some(found as int),
                    found == 2 * n ==> first_nonzero(sheet[r as int], c as nat) is None,
                decreases 2 * n - c,
            {
                if t.rows[r][c] != 0 {
                    found = c;
                }
                c += 1;
            }
            proof {
                lemma_first_nonzero_more(sheet[r as int], c as nat, (2 * n) as nat);
            }
            if found < 2 * n {
                if t.rows[r][found] < 0 {
                    if !combine(t, r, -1, r, 0, Ghost(node)) {
                        proof {
                            lemma_driven_none_stays(
                                start,
                                start_basis,
                                (2 * n) as nat,
                                (r + 1) as nat,
                                rows as nat,
                            );
                        }
                        return false;
                    }
                }
                if !pivot(t, r, found, Ghost(node)) {
                    proof {
                        lemma_driven_none_stays(
                            start,
                            start_basis,
                            (2 * n) as nat,
                            (r + 1) as nat,
                            rows as nat,
                        );
                    }
                    return false;
                }
            }
        }
        r += 1;
    }
    true
}

/// What the first entry other than zero among fewer columns says of more.
pub proof fn lemma_first_nonzero_more(row: Seq<i128>, a: nat, b: nat)
    requires
        a <= b,
    ensures
        first_nonzero(row, a) is Some ==> first_nonzero(row, b) == first_nonzero(row, a),
        a == b ==> first_nonzero(row, b) == first_nonzero(row, a),
    decreases b,
{
    if a < b {
        lemma_first_nonzero_more(row, a, (b - 1) as nat);
    }
}

/// Writes the objective of the second phase over the columns outside the
/// basis, and says whether that was done.
fn settle_second(t: &mut Tableau, Ghost(node): Ghost<Node>) -> (ok: bool)
    requires
        old(t).wf(),
        old(t).sound(node),
    ensures
        final(t).wf(),
        final(t).sound(node),
        final(t).like(*old(t)),
        final(t).basis == old(t).basis,
        ok == second_settled(
            old(t).sheet(),
            old(t).basis@,
            (old(t).buttons + old(t).counters + 1) as int,
            (old(t).buttons + old(t).counters) as nat,
        ) is Some,
        ok ==> final(t).sheet() == second_settled(
            old(t).sheet(),
            old(t).basis@,
            (old(t).buttons + old(t).counters + 1) as int,
            (old(t).buttons + old(t).counters) as nat,
        )->0,
{
    let rows = t.buttons + t.counters;
    let second = t.buttons + t.counters + 1;
    let ghost start = t.sheet();
    let ghost basis = t.basis@;
    let mut r: usize = 0;
    while r < rows
        invariant
            t.wf(),
            t.sound(node),
            t.like(*old(t)),
            t.basis == old(t).basis,
            start == old(t).sheet(),
            basis == t.basis@,
            rows == t.buttons + t.counters,
            second == t.buttons + t.counters + 1,
            r <= rows,
            second_settled(start, basis, second as int, r as nat) == Some(t.sheet()),
        decreases rows - r,
    {
        let ghost sheet = t.sheet();
        let c = t.basis[r];
        assert(sheet[second as int] == t.rows[second as int]@);
        assert(sheet[r as int] == t.rows[r as int]@);
        let q = t.rows[second][c];
        if q != 0 {
            let minus_q = match 0i128.checked_sub(q) {
                Some(m) => m,
                None => {
                    proof {
                        lemma_second_settled_none_stays(
                            start,
                            basis,
                            second as int,
                            (r + 1) as nat,
                            rows as nat,
                        );
                    }
                    return false;
                },
            };
            let p = t.rows[r][c];
            if p <= 0 {
                proof {
                    lemma_second_settled_none_stays(
                        start,
                        basis,
                        second as int,
                        (r + 1) as nat,
                        rows as nat,
                    );
                }
                return false;
            }
            if !combine(t, second, p, r, minus_q, Ghost(node)) {
                proof {
                    lemma_second_settled_none_stays(
                        start,
                        basis,
                        second as int,
                        (r + 1) as nat,
                        rows as nat,
                    );
                }
                return false;
            }
            normalize(t, second, Ghost(node));
            assert(t.sheet() =~= sheet.update(
                second as int,
                reduced(combined(p as int, sheet[second as int], -q, sheet[r as int])),
            ));
        }
        r += 1;
    }
    true
}

/// The second phase on a tableau that the first has left ready.
fn finish(t: &mut Tableau, lo: &Vec<u64>, Ghost(node): Ghost<Node>) -> (r: Relaxation)
    requires
        old(t).wf(),
        old(t).sound(node),
        node.lo == lo@,
    ensures
        match second_phase(node, old(t).sheet(), old(t).basis@) {
            Relaxed::Infeasible => false,
            Relaxed::Unknown => r is Unknown,
            Relaxed::Bounded { bound, sheet, basis } => r matches Relaxation::Bounded {
                bound: b,
                point,
                split,
            } && b == bound && is_reading(
                sheet,
                basis,
                lo@,
                node.masks.len() as int,
                counts_of(point),
                split,
            ),
        },
        r matches Relaxation::Bounded { bound, .. } ==> forall|p: Seq<u64>| #[trigger]
            node.contains(p) ==> press_total(p) >= bound,
        !(r is Infeasible),
{
    let n = t.buttons;
    let k = t.counters;
    let second = n + k + 1;
    if !drive_out(t, Ghost(node)) {
        return Relaxation::Unknown;
    }
    if !settle_second(t, Ghost(node)) {
        return Relaxation::Unknown;
    }
    if !run_phase(t, second, Ghost(node)) {
        return Relaxation::Unknown;
    }
    assert(t.sheet()[second as int] == t.rows[second as int]@);
    let above = match bound_of(&t.rows[second], n, k) {
        Some(x) => x,
        None => {
            return Relaxation::Unknown;
        },
    };
    let base = sum_of(lo);
    let bound = match base.checked_add(above) {
        Some(x) => x,
        None => {
            return Relaxation::Unknown;
        },
    };
    if bound > u64::MAX as u128 {
        return Relaxation::Unknown;
    }
    proof {
        assert forall|p: Seq<u64>| #[trigger] node.contains(p) implies press_total(p) >= bound by {
            lemma_lift_shape(node, p);
            let v = lift(node, p);
            assert(row_sound(t.rows[second as int]@, node));
            assert(row_holds(t.rows[second as int]@, v));
            assert(v[2 * n + k] == press_total(p) - press_total(node.lo));
        }
    }
    let found = vertex(t, lo);
    Relaxation::Bounded { bound: bound as u64, point: found.0, split: found.1 }
}

/// Solves the node with the counts let range over the rationals, by the
/// simplex method in two phases, and says what that shows of the node's
/// whole points.
pub(crate) fn relax(masks: &Vec<u64>, targets: &Vec<u32>, lo: &Vec<u64>, hi: &Vec<u64>) -> (r: Relaxation)
    requires
        lo.len() == masks.len(),
        hi.len() == masks.len(),
    ensures
        match relaxed(node_of(masks@, targets@, lo@, hi@)) {
            Relaxed::Infeasible => r is Infeasible,
            Relaxed::Unknown => r is Unknown,
            Relaxed::Bounded { bound, sheet, basis } => r matches Relaxation::Bounded {
                bound: b,
                point,
                split,
            } && b == bound && is_reading(
                sheet,
                basis,
                lo@,
                masks.len() as int,
                counts_of(point),
                split,
            ),
        },
        match r {
            Relaxation::Infeasible => forall|p: Seq<u64>|
                !node_of(masks@, targets@, lo@, hi@).contains(p),
            Relaxation::Bounded { bound, .. } => forall|p: Seq<u64>| #[trigger]
                node_of(masks@, targets@, lo@, hi@).contains(p) ==> press_total(p) >= bound,
            Relaxation::Unknown => true,
        },
{
    let ghost node = node_of(masks@, targets@, lo@, hi@);
    let mut t = match build(masks, targets, lo, hi, Ghost(node)) {
        Some(t) => t,
        None => {
            return Relaxation::Unknown;
        },
    };
    let n = masks.len();
    let k = targets.len();
    let first = n + k;
    let last = 2 * n + k + 1;
    if any_refuting(&t, Ghost(node)) {
        return Relaxation::Infeasible;
    }
    if !settle_first(&mut t, Ghost(node)) {
        return Relaxation::Unknown;
    }
    if !run_phase(&mut t, first, Ghost(node)) {
        return Relaxation::Unknown;
    }
    assert(t.sheet()[first as int] == t.rows[first as int]@);
    if t.rows[first][last] > 0 {
        if refuting(&t.rows[first], n, k) {
            proof {
                lemma_refuted(t.rows[first as int]@, node);
            }
            return Relaxation::Infeasible;
        }
        return Relaxation::Unknown;
    }
    finish(&mut t, lo, Ghost(node))
}

/// A node with a refuting row has no point.
proof fn lemma_refuted(row: Seq<i128>, node: Node)
    requires
        node.wf(),
        row_sound(row, node),
        forall|v: Seq<int>| #[trigger]
            lifted_shape(v, node.masks.len() as int, node.targets.len() as int) ==> !row_holds(
                row,
                v,
            ),
    ensures
        forall|p: Seq<u64>| !node.contains(p),
{
    assert forall|p: Seq<u64>| !node.contains(p) by {
        if node.contains(p) {
            lemma_lift_shape(node, p);
            assert(row_holds(row, lift(node, p)));
        }
    }
}

} // verus!
