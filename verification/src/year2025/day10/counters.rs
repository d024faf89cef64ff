use crate::year2025::day10::simplex::{node_of, relax, Relaxation};
use crate::year2025::day10::SolveError;
use vstd::prelude::*;

verus! {

/// The largest number of buttons the counter solver takes.
pub const MAX_COUNTER_BUTTONS: usize = 64;

/// Button `mask` raises counter `i`.
pub open spec fn affects(mask: u64, i: int) -> bool {
    0 <= i < 64 && (mask >> (i as u64)) & 1 == 1
}

/// Whether button `mask` raises counter `i`.
pub fn touches(mask: u64, i: usize) -> (b: bool)
    ensures
        b == affects(mask, i as int),
{
    i < 64 && (mask >> (i as u64)) & 1 == 1
}

/// What the first `k` buttons add to counter `i` when button `j` is pressed
/// `presses[j]` times.
pub open spec fn counter_sum(masks: Seq<u64>, presses: Seq<u64>, i: int, k: nat) -> int
    decreases k,
{
    if k == 0 {
        0
    } else {
        counter_sum(masks, presses, i, (k - 1) as nat) + if affects(masks[k - 1], i) {
            presses[k - 1] as int
        } else {
            0
        }
    }
}

/// The value of counter `i` after all presses.
pub open spec fn counter_value(masks: Seq<u64>, presses: Seq<u64>, i: int) -> int {
    counter_sum(masks, presses, i, masks.len())
}

/// The number of presses among the first `k` buttons.
pub open spec fn press_sum(presses: Seq<u64>, k: nat) -> int
    decreases k,
{
    if k == 0 {
        0
    } else {
        press_sum(presses, (k - 1) as nat) + presses[k - 1]
    }
}

/// The number of presses in all.
pub open spec fn press_total(presses: Seq<u64>) -> int {
    press_sum(presses, presses.len())
}

/// `presses` gives every button a count and brings every counter to its
/// target exactly.
pub open spec fn counters_match(masks: Seq<u64>, targets: Seq<u32>, presses: Seq<u64>) -> bool {
    &&& presses.len() == masks.len()
    &&& forall|i: int|
        0 <= i < targets.len() ==> #[trigger] counter_value(masks, presses, i) == targets[i]
}

/// Every count is within its bounds.
pub open spec fn within(presses: Seq<u64>, lo: Seq<u64>, hi: Seq<u64>) -> bool {
    &&& presses.len() == lo.len()
    &&& presses.len() == hi.len()
    &&& forall|j: int| 0 <= j < presses.len() ==> lo[j] <= #[trigger] presses[j] <= hi[j]
}

/// A subproblem of the search: the machine, and bounds on each count.
pub struct Node {
    pub masks: Seq<u64>,
    pub targets: Seq<u32>,
    pub lo: Seq<u64>,
    pub hi: Seq<u64>,
}

impl Node {
    /// The bounds fit the machine.
    pub open spec fn wf(self) -> bool {
        self.lo.len() == self.masks.len() && self.hi.len() == self.masks.len()
    }

    /// `presses` solves the machine within the bounds.
    pub open spec fn contains(self, presses: Seq<u64>) -> bool {
        counters_match(self.masks, self.targets, presses) && within(presses, self.lo, self.hi)
    }

    /// The room left between the bounds, summed over the first `k` buttons.
    pub open spec fn room(self, k: nat) -> int
        decreases k,
    {
        if k == 0 {
            0
        } else {
            self.room((k - 1) as nat) + (self.hi[k - 1] - self.lo[k - 1])
        }
    }
}

/// A counter depends only on the counts of the buttons that raise it.
pub proof fn lemma_counter_sum_same(
    masks: Seq<u64>,
    p: Seq<u64>,
    q: Seq<u64>,
    i: int,
    k: nat,
)
    requires
        forall|j: int| 0 <= j < k && affects(masks[j], i) ==> p[j] == q[j],
    ensures
        counter_sum(masks, p, i, k) == counter_sum(masks, q, i, k),
    decreases k,
{
    if k > 0 {
        lemma_counter_sum_same(masks, p, q, i, (k - 1) as nat);
    }
}

/// A counter is at least any one count that goes into it.
pub proof fn lemma_counter_sum_covers(masks: Seq<u64>, p: Seq<u64>, i: int, k: nat, j: int)
    ensures
        0 <= counter_sum(masks, p, i, k),
        0 <= j < k && affects(masks[j], i) ==> p[j] <= counter_sum(masks, p, i, k),
    decreases k,
{
    if k > 0 {
        lemma_counter_sum_covers(masks, p, i, (k - 1) as nat, j);
    }
}

/// Counts that are no larger add up to no more.
pub proof fn lemma_press_sum_monotone(p: Seq<u64>, q: Seq<u64>, k: nat)
    requires
        forall|j: int| 0 <= j < k ==> p[j] <= q[j],
    ensures
        0 <= press_sum(p, k) <= press_sum(q, k),
    decreases k,
{
    if k > 0 {
        lemma_press_sum_monotone(p, q, (k - 1) as nat);
    }
}


/// A way to bring the counters of a machine to their targets.
#[derive(Debug)]
pub struct CounterSolution {
    /// For each button, in input order, how often it is pressed.
    pub presses: Vec<u64>,
    /// The number of presses in all.
    pub total: u64,
}

impl CounterSolution {
    /// The presses solve the machine and `total` counts them.
    pub open spec fn solves(&self, masks: Seq<u64>, targets: Seq<u32>) -> bool {
        counters_match(masks, targets, self.presses@) && self.total == press_total(self.presses@)
    }
}

/// `best`, if there is one, solves the machine.
pub open spec fn is_incumbent(
    best: Option<CounterSolution>,
    masks: Seq<u64>,
    targets: Seq<u32>,
) -> bool {
    best matches Some(s) ==> s.solves(masks, targets)
}

/// `best` is no worse than `p`.
pub open spec fn beats(best: Option<CounterSolution>, p: Seq<u64>) -> bool {
    best matches Some(s) && s.total <= press_total(p)
}

/// `after` is `before` or something cheaper.
pub open spec fn no_worse(after: Option<CounterSolution>, before: Option<CounterSolution>) -> bool {
    before matches Some(b) ==> after matches Some(a) && a.total <= b.total
}

/// The value of counter `i` after `presses`, or `None` where it is beyond
/// the 128-bit integers.
fn counter_after(masks: &Vec<u64>, presses: &Vec<u64>, i: usize) -> (value: Option<u128>)
    requires
        presses.len() == masks.len(),
    ensures
        match value {
            Some(v) => v == counter_value(masks@, presses@, i as int),
            None => counter_value(masks@, presses@, i as int) > u128::MAX,
        },
{
    let mut value: u128 = 0;
    let mut j: usize = 0;
    while j < masks.len()
        invariant
            j <= masks.len(),
            presses.len() == masks.len(),
            value == counter_sum(masks@, presses@, i as int, j as nat),
        decreases masks.len() - j,
    {
        if touches(masks[j], i) {
            value = match value.checked_add(presses[j] as u128) {
                Some(v) => v,
                None => {
                    proof {
                        lemma_counter_sum_grows(masks@, presses@, i as int, (j + 1) as nat, masks@.len());
                    }
                    return None;
                },
            };
        }
        j += 1;
    }
    Some(value)
}

/// More buttons leave a counter no lower.
pub proof fn lemma_counter_sum_grows(masks: Seq<u64>, p: Seq<u64>, i: int, a: nat, b: nat)
    requires
        a <= b,
    ensures
        counter_sum(masks, p, i, a) <= counter_sum(masks, p, i, b),
    decreases b,
{
    if a < b {
        lemma_counter_sum_grows(masks, p, i, a, (b - 1) as nat);
    }
}

/// Whether `presses` brings every counter to its target.
pub fn check_counters(masks: &Vec<u64>, targets: &Vec<u32>, presses: &Vec<u64>) -> (ok: bool)
    ensures
        ok == counters_match(masks@, targets@, presses@),
{
    if presses.len() != masks.len() {
        return false;
    }
    let mut i: usize = 0;
    while i < targets.len()
        invariant
            i <= targets.len(),
            presses.len() == masks.len(),
            forall|h: int|
                0 <= h < i ==> #[trigger] counter_value(masks@, presses@, h) == targets[h],
        decreases targets.len() - i,
    {
        match counter_after(masks, presses, i) {
            Some(v) => {
                if v != targets[i] as u128 {
                    return false;
                }
            },
            None => {
                return false;
            },
        }
        i += 1;
    }
    true
}

/// The number of presses in all, or `None` where it is beyond `u64`.
pub fn total_of(presses: &Vec<u64>) -> (total: Option<u64>)
    ensures
        match total {
            Some(t) => t == press_total(presses@),
            None => press_total(presses@) > u64::MAX,
        },
{
    let mut total: u64 = 0;
    let mut j: usize = 0;
    while j < presses.len()
        invariant
            j <= presses.len(),
            total == press_sum(presses@, j as nat),
        decreases presses.len() - j,
    {
        total = match total.checked_add(presses[j]) {
            Some(t) => t,
            None => {
                proof {
                    lemma_press_sum_grows(presses@, (j + 1) as nat, presses@.len());
                }
                return None;
            },
        };
        j += 1;
    }
    Some(total)
}

/// More buttons take no fewer presses.
pub proof fn lemma_press_sum_grows(p: Seq<u64>, a: nat, b: nat)
    requires
        a <= b,
    ensures
        press_sum(p, a) <= press_sum(p, b),
    decreases b,
{
    if a < b {
        lemma_press_sum_grows(p, a, (b - 1) as nat);
    }
}


/// The room of a node is not negative where no lower bound is above its
/// upper bound.
pub proof fn lemma_room_nonnegative(node: Node, k: nat)
    requires
        forall|j: int| 0 <= j < k ==> #[trigger] node.lo[j] <= node.hi[j],
    ensures
        node.room(k) >= 0,
    decreases k,
{
    if k > 0 {
        lemma_room_nonnegative(node, (k - 1) as nat);
    }
}

/// Moving the bounds of one button changes the room by as much.
pub proof fn lemma_room_moved(a: Node, b: Node, j: int, k: nat)
    requires
        forall|c: int| 0 <= c < k && c != j ==> a.hi[c] - a.lo[c] == b.hi[c] - b.lo[c],
    ensures
        b.room(k) - a.room(k) == if 0 <= j < k {
            (b.hi[j] - b.lo[j]) - (a.hi[j] - a.lo[j])
        } else {
            0
        },
    decreases k,
{
    if k > 0 {
        lemma_room_moved(a, b, j, (k - 1) as nat);
    }
}

/// Counts of at most `cap` each add up to at most `cap` for each button.
pub proof fn lemma_press_sum_capped(p: Seq<u64>, k: nat, cap: int)
    requires
        forall|j: int| 0 <= j < k ==> #[trigger] p[j] <= cap,
    ensures
        press_sum(p, k) <= k * cap,
    decreases k,
{
    if k > 0 {
        lemma_press_sum_capped(p, (k - 1) as nat, cap);
        let before = (k - 1) as int;
        assert(p[before] <= cap);
        assert(k * cap == before * cap + cap) by (nonlinear_arith)
            requires
                before == k - 1,
        ;
    } else {
        assert(k * cap == 0) by (nonlinear_arith)
            requires
                k == 0,
        ;
    }
}

/// The bounds leave every count a place: no lower bound is above its upper
/// bound, and no upper bound is beyond 32 bits.
pub open spec fn is_box(lo: Seq<u64>, hi: Seq<u64>) -> bool {
    &&& lo.len() == hi.len()
    &&& forall|j: int| 0 <= j < lo.len() ==> #[trigger] lo[j] <= hi[j] && hi[j] <= u32::MAX
}

/// Parting a box at a count of one button leaves two boxes.
proof fn lemma_box_parted(lo: Seq<u64>, hi: Seq<u64>, j: int, f: u64)
    requires
        is_box(lo, hi),
        0 <= j < lo.len(),
        lo[j] <= f < hi[j],
    ensures
        is_box(lo, hi.update(j, f)),
        is_box(lo.update(j, (f + 1) as u64), hi),
{
    let below = hi.update(j, f);
    let above = lo.update(j, (f + 1) as u64);
    assert forall|c: int| 0 <= c < lo.len() implies #[trigger] lo[c] <= below[c] && below[c]
        <= u32::MAX by {
        assert(lo[c] <= hi[c] && hi[c] <= u32::MAX);
    }
    assert forall|c: int| 0 <= c < above.len() implies #[trigger] above[c] <= hi[c] && hi[c]
        <= u32::MAX by {
        assert(lo[c] <= hi[c] && hi[c] <= u32::MAX);
    }
}

/// A copy of `v` with `x` in place `j`.
fn with_entry(v: &Vec<u64>, j: usize, x: u64) -> (w: Vec<u64>)
    requires
        j < v.len(),
    ensures
        w@ == v@.update(j as int, x),
{
    let mut w: Vec<u64> = Vec::new();
    let mut c: usize = 0;
    while c < v.len()
        invariant
            c <= v.len(),
            j < v.len(),
            w.len() == c,
            forall|d: int| 0 <= d < c ==> w[d] == if d == j {
                x
            } else {
                v[d]
            },
        decreases v.len() - c,
    {
        w.push(if c == j {
            x
        } else {
            v[c]
        });
        c += 1;
    }
    assert(w@ =~= v@.update(j as int, x));
    w
}

/// The first button whose bounds differ, with a count that parts the two.
fn first_open(lo: &Vec<u64>, hi: &Vec<u64>) -> (split: Option<(usize, u64)>)
    requires
        is_box(lo@, hi@),
    ensures
        match split {
            Some((j, f)) => j < lo.len() && lo[j as int] <= f < hi[j as int],
            None => lo@ == hi@,
        },
{
    let mut j: usize = 0;
    while j < lo.len()
        invariant
            j <= lo.len(),
            is_box(lo@, hi@),
            forall|c: int| 0 <= c < j ==> #[trigger] lo[c] == hi[c],
        decreases lo.len() - j,
    {
        if lo[j] < hi[j] {
            return Some((j, lo[j] + (hi[j] - lo[j]) / 2));
        }
        j += 1;
    }
    assert(lo@ =~= hi@);
    None
}

/// Branch and bound. Searches the node for a solution cheaper than `best`
/// and hands back the cheaper of the two: the node is dropped where its
/// relaxation has no point or cannot beat `best`, it is settled where the
/// relaxation's own optimum is whole, and it is split in two otherwise.
fn search(
    masks: &Vec<u64>,
    targets: &Vec<u32>,
    lo: &Vec<u64>,
    hi: &Vec<u64>,
    best: Option<CounterSolution>,
) -> (after: Option<CounterSolution>)
    requires
        masks.len() <= MAX_COUNTER_BUTTONS,
        lo.len() == masks.len(),
        is_box(lo@, hi@),
        is_incumbent(best, masks@, targets@),
    ensures
        is_incumbent(after, masks@, targets@),
        no_worse(after, best),
        forall|p: Seq<u64>| #[trigger]
            node_of(masks@, targets@, lo@, hi@).contains(p) ==> beats(after, p),
    decreases node_of(masks@, targets@, lo@, hi@).room(masks@.len()),
{
    let ghost node = node_of(masks@, targets@, lo@, hi@);
    let n = masks.len();
    let mut split: Option<(usize, u64)> = None;
    match relax(masks, targets, lo, hi) {
        Relaxation::Infeasible => {
            return best;
        },
        Relaxation::Bounded { bound, point, split: hint } => {
            let dominated = match &best {
                Some(b) => b.total <= bound,
                None => false,
            };
            if dominated {
                return best;
            }
            match point {
                Some(x) => {
                    if check_counters(masks, targets, &x) {
                        match total_of(&x) {
                            Some(t) => {
                                if t == bound {
                                    return Some(CounterSolution { presses: x, total: t });
                                }
                            },
                            None => {},
                        }
                    }
                },
                None => {},
            }
            match hint {
                Some((j, f)) => {
                    if j < n && lo[j] <= f && f < hi[j] {
                        split = Some((j, f));
                    }
                },
                None => {},
            }
        },
        Relaxation::Unknown => {},
    }
    if split.is_none() {
        split = first_open(lo, hi);
    }
    match split {
        None => {
            // The bounds meet: the node is the one point `lo`.
            proof {
                assert forall|p: Seq<u64>| #[trigger] node.contains(p) implies p == lo@ by {
                    assert(p =~= lo@);
                }
                lemma_press_sum_capped(lo@, n as nat, u32::MAX as int);
            }
            if check_counters(masks, targets, lo) {
                let t = match total_of(lo) {
                    Some(t) => t,
                    None => {
                        return best;
                    },
                };
                let improves = match &best {
                    Some(b) => t < b.total,
                    None => true,
                };
                if improves {
                    let presses = copy_of(lo);
                    return Some(CounterSolution { presses, total: t });
                }
            }
            best
        },
        Some((j, f)) => {
            let below = with_entry(hi, j, f);
            let above = with_entry(lo, j, f + 1);
            proof {
                let left = node_of(masks@, targets@, lo@, below@);
                let right = node_of(masks@, targets@, above@, hi@);
                lemma_box_parted(lo@, hi@, j as int, f);
                lemma_room_moved(node, left, j as int, n as nat);
                lemma_room_moved(node, right, j as int, n as nat);
                lemma_room_nonnegative(left, n as nat);
                lemma_room_nonnegative(right, n as nat);
            }
            let first = search(masks, targets, lo, &below, best);
            let second = search(masks, targets, &above, hi, first);
            proof {
                let left = node_of(masks@, targets@, lo@, below@);
                let right = node_of(masks@, targets@, above@, hi@);
                assert forall|p: Seq<u64>| #[trigger] node.contains(p) implies beats(second, p) by {
                    if p[j as int] <= f {
                        assert(left.contains(p));
                        assert(beats(first, p));
                    } else {
                        assert(right.contains(p));
                    }
                }
            }
            second
        },
    }
}

/// A copy of `v`.
fn copy_of(v: &Vec<u64>) -> (w: Vec<u64>)
    ensures
        w@ == v@,
{
    let mut w: Vec<u64> = Vec::new();
    let mut c: usize = 0;
    while c < v.len()
        invariant
            c <= v.len(),
            w.len() == c,
            forall|d: int| 0 <= d < c ==> w[d] == v[d],
        decreases v.len() - c,
    {
        w.push(v[c]);
        c += 1;
    }
    assert(w@ =~= v@);
    w
}

/// Button `mask` raises none of the first `k` counters.
pub open spec fn idle(mask: u64, k: nat) -> bool {
    forall|i: int| 0 <= i < k ==> !affects(mask, i)
}

/// `cap` bounds the count of a button in any solution that wastes no
/// press: it is a target the button counts towards, or zero for a button
/// that raises no counter.
pub open spec fn is_cap(mask: u64, targets: Seq<u32>, cap: u64) -> bool {
    if idle(mask, targets.len()) {
        cap == 0
    } else {
        exists|i: int| 0 <= i < targets.len() && affects(mask, i) && cap == #[trigger] targets[i]
    }
}

/// Button `j` starts from zero presses and `hi[j]` caps it.
pub open spec fn capped(
    masks: Seq<u64>,
    targets: Seq<u32>,
    lo: Seq<u64>,
    hi: Seq<u64>,
    j: int,
) -> bool {
    lo[j] == 0 && hi[j] <= u32::MAX && is_cap(masks[j], targets, hi[j])
}

/// The least target among the counters that `mask` raises.
fn cap_of(mask: u64, targets: &Vec<u32>) -> (cap: u64)
    ensures
        is_cap(mask, targets@, cap),
        cap <= u32::MAX,
{
    let mut cap: u64 = 0;
    let mut seen = false;
    let mut i: usize = 0;
    while i < targets.len()
        invariant
            i <= targets.len(),
            cap <= u32::MAX,
            !seen ==> cap == 0 && idle(mask, i as nat),
            seen ==> exists|h: int| 0 <= h < i && affects(mask, h) && cap == #[trigger] targets[h],
        decreases targets.len() - i,
    {
        if touches(mask, i) {
            if !seen || (targets[i] as u64) < cap {
                cap = targets[i] as u64;
            }
            seen = true;
        }
        i += 1;
    }
    cap
}

/// `p` with the counts of idle buttons set to zero.
pub open spec fn trimmed(masks: Seq<u64>, k: nat, p: Seq<u64>) -> Seq<u64> {
    Seq::new(
        p.len(),
        |j: int|
            if idle(masks[j], k) {
                0u64
            } else {
                p[j]
            },
    )
}

/// Below every solution stands one within the caps that takes no more
/// presses.
proof fn lemma_trimmed(masks: Seq<u64>, targets: Seq<u32>, lo: Seq<u64>, hi: Seq<u64>, p: Seq<u64>)
    requires
        counters_match(masks, targets, p),
        lo.len() == masks.len(),
        hi.len() == masks.len(),
        forall|j: int| 0 <= j < masks.len() ==> #[trigger] capped(masks, targets, lo, hi, j),
    ensures
        node_of(masks, targets, lo, hi).contains(trimmed(masks, targets.len(), p)),
        press_total(trimmed(masks, targets.len(), p)) <= press_total(p),
{
    let q = trimmed(masks, targets.len(), p);
    let n = masks.len();
    assert forall|i: int| 0 <= i < targets.len() implies #[trigger] counter_value(masks, q, i)
        == targets[i] by {
        lemma_counter_sum_same(masks, q, p, i, n);
        assert(counter_value(masks, p, i) == targets[i]);
    }
    assert forall|j: int| 0 <= j < q.len() implies lo[j] <= #[trigger] q[j] <= hi[j] by {
        assert(capped(masks, targets, lo, hi, j));
        if !idle(masks[j], targets.len()) {
            let i = choose|i: int|
                0 <= i < targets.len() && affects(masks[j], i) && hi[j] == #[trigger] targets[i];
            lemma_counter_sum_covers(masks, p, i, n, j);
            assert(counter_value(masks, p, i) == targets[i]);
        }
    }
    lemma_press_sum_monotone(q, p, n);
}

/// `s` solves the machine with the fewest presses.
pub open spec fn is_cheapest_counting(s: CounterSolution, masks: Seq<u64>, targets: Seq<u32>) -> bool {
    &&& s.solves(masks, targets)
    &&& forall|p: Seq<u64>| #[trigger]
        counters_match(masks, targets, p) ==> s.total <= press_total(p)
}

/// The fewest button presses that bring every counter of a machine from
/// zero to its target, each press of a button adding one to the counters
/// of its mask, with one way to do it.
///
/// Fails with `TooManyButtons` exactly when there are more than
/// `MAX_COUNTER_BUTTONS` buttons, and otherwise with `Infeasible` exactly
/// when no presses bring the counters to their targets.
pub fn solve_counters(masks: &Vec<u64>, targets: &Vec<u32>) -> (r: Result<
    CounterSolution,
    SolveError,
>)
    ensures
        match r {
            Ok(s) => masks.len() <= MAX_COUNTER_BUTTONS && is_cheapest_counting(
                s,
                masks@,
                targets@,
            ),
            Err(SolveError::TooManyButtons) => masks.len() > MAX_COUNTER_BUTTONS,
            Err(SolveError::Infeasible) => masks.len() <= MAX_COUNTER_BUTTONS && forall|
                p: Seq<u64>,
            |
                !counters_match(masks@, targets@, p),
        },
{
    let n = masks.len();
    if n > MAX_COUNTER_BUTTONS {
        return Err(SolveError::TooManyButtons);
    }
    // No button raises a counter beyond the 64 positions of a mask: such a
    // counter stays at zero, and the search goes on without it.
    let mut near: Vec<u32> = Vec::new();
    let mut i: usize = 0;
    while i < targets.len()
        invariant
            i <= targets.len(),
            near@ == targets@.take(if i <= 64 {
                i as int
            } else {
                64
            }),
            forall|h: int| 64 <= h < i ==> #[trigger] targets[h] == 0,
            masks.len() <= MAX_COUNTER_BUTTONS,
        decreases targets.len() - i,
    {
        if i < 64 {
            near.push(targets[i]);
            assert(near@ =~= targets@.take(i + 1));
        } else if targets[i] != 0 {
            proof {
                assert forall|p: Seq<u64>| !counters_match(masks@, targets@, p) by {
                    lemma_far_counter(masks@, p, i as int, masks@.len());
                    if counters_match(masks@, targets@, p) {
                        assert(counter_value(masks@, p, i as int) == targets[i as int]);
                    }
                }
            }
            return Err(SolveError::Infeasible);
        }
        i += 1;
    }
    proof {
        assert forall|p: Seq<u64>| counters_match(masks@, targets@, p) == counters_match(
            masks@,
            near@,
            p,
        ) by {
            if counters_match(masks@, near@, p) {
                assert forall|h: int| 0 <= h < targets.len() implies #[trigger] counter_value(
                    masks@,
                    p,
                    h,
                ) == targets[h] by {
                    if h < 64 {
                        assert(counter_value(masks@, p, h) == near[h]);
                    } else {
                        lemma_far_counter(masks@, p, h, masks@.len());
                    }
                }
            }
            if counters_match(masks@, targets@, p) {
                assert forall|h: int| 0 <= h < near.len() implies #[trigger] counter_value(
                    masks@,
                    p,
                    h,
                ) == near[h] by {
                    assert(counter_value(masks@, p, h) == targets[h]);
                }
            }
        }
    }
    let mut lo: Vec<u64> = Vec::new();
    let mut hi: Vec<u64> = Vec::new();
    let mut j: usize = 0;
    while j < n
        invariant
            j <= n,
            n == masks.len(),
            lo.len() == j,
            hi.len() == j,
            forall|c: int| 0 <= c < j ==> #[trigger] capped(masks@, near@, lo@, hi@, c),
        decreases n - j,
    {
        let ghost lo_before = lo@;
        let ghost hi_before = hi@;
        lo.push(0);
        hi.push(cap_of(masks[j], &near));
        proof {
            assert forall|c: int| 0 <= c < j + 1 implies #[trigger] capped(
                masks@,
                near@,
                lo@,
                hi@,
                c,
            ) by {
                if c < j {
                    assert(capped(masks@, near@, lo_before, hi_before, c));
                }
            }
        }
        j += 1;
    }
    proof {
        assert forall|j: int| 0 <= j < lo.len() implies #[trigger] lo[j] <= hi[j] && hi[j]
            <= u32::MAX by {
            assert(capped(masks@, near@, lo@, hi@, j));
        }
        assert(is_box(lo@, hi@));
    }
    let found = search(masks, &near, &lo, &hi, None);
    proof {
        assert forall|p: Seq<u64>| #[trigger] counters_match(masks@, targets@, p) implies beats(
            found,
            p,
        ) by {
            assert(counters_match(masks@, near@, p));
            lemma_trimmed(masks@, near@, lo@, hi@, p);
            let q = trimmed(masks@, near@.len(), p);
            assert(node_of(masks@, near@, lo@, hi@).contains(q));
            assert(beats(found, q));
        }
    }
    match found {
        Some(s) => {
            assert(counters_match(masks@, near@, s.presses@));
            Ok(s)
        },
        None => Err(SolveError::Infeasible),
    }
}

/// No button raises a counter beyond the 64 positions of a mask.
pub proof fn lemma_far_counter(masks: Seq<u64>, p: Seq<u64>, i: int, k: nat)
    requires
        i >= 64,
    ensures
        counter_sum(masks, p, i, k) == 0,
    decreases k,
{
    if k > 0 {
        lemma_far_counter(masks, p, i, (k - 1) as nat);
    }
}

} // verus!
