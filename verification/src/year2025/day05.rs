use crate::utils::text::{bytes_of, find_range, first_range, parse_unsigned, unsigned_spec};
use vstd::prelude::*;
use vstd::set_lib::{lemma_int_range, lemma_set_disjoint_lens, set_int_range};
use vstd::string::StrSliceExecFns;
use vstd::string::StringSliceAdditionalSpecFns;

verus! {

/// A run of ingredient numbers, both ends included.
#[derive(Debug, Clone, Copy)]
pub struct Range {
    lower: u64,
    upper: u64,
}

impl View for Range {
    type V = (int, int);

    closed spec fn view(&self) -> (int, int) {
        (self.lower as int, self.upper as int)
    }
}

impl Range {
    /// Some number lies in both runs.
    pub open spec fn meets(a: (int, int), b: (int, int)) -> bool {
        (if a.0 >= b.0 {
            a.0
        } else {
            b.0
        }) <= (if a.1 <= b.1 {
            a.1
        } else {
            b.1
        })
    }

    /// The least run that holds both.
    pub open spec fn hull(a: (int, int), b: (int, int)) -> (int, int) {
        (
            if a.0 <= b.0 {
                a.0
            } else {
                b.0
            },
            if a.1 >= b.1 {
                a.1
            } else {
                b.1
            },
        )
    }

    /// The run from `lower` to `upper`.
    pub fn new(lower: u64, upper: u64) -> (r: Range)
        ensures
            r@ == (lower as int, upper as int),
    {
        Range { lower, upper }
    }

    /// Whether the greater of the lower ends is no more than the lesser of
    /// the upper ends: for two runs that are not empty, whether they share
    /// a number.
    pub fn intersect(&self, right: &Range) -> (b: bool)
        ensures
            b == Range::meets(self@, right@),
    {
        let lower_max = if self.lower >= right.lower {
            self.lower
        } else {
            right.lower
        };
        let upper_min = if self.upper <= right.upper {
            self.upper
        } else {
            right.upper
        };
        lower_max <= upper_min
    }

    /// The least run that holds both.
    pub fn union(&self, other: &Range) -> (r: Range)
        ensures
            r@ == Range::hull(self@, other@),
    {
        let lower_min = if self.lower <= other.lower {
            self.lower
        } else {
            other.lower
        };
        let upper_max = if self.upper >= other.upper {
            self.upper
        } else {
            other.upper
        };
        Range::new(lower_min, upper_max)
    }

    /// Whether `id` lies in the run.
    pub fn contains(&self, id: u64) -> (b: bool)
        ensures
            b == (self@.0 <= id <= self@.1),
    {
        id >= self.lower && id <= self.upper
    }

    /// The lower end.
    pub fn lower(&self) -> (lower: u64)
        ensures
            lower == self@.0,
    {
        self.lower
    }

    /// The upper end.
    pub fn upper(&self) -> (upper: u64)
        ensures
            upper == self@.1,
    {
        self.upper
    }

    /// The number of numbers in the run.
    pub fn len(&self) -> (n: u64)
        requires
            self@.0 <= self@.1,
            self@.1 - self@.0 < u64::MAX,
        ensures
            n == self@.1 - self@.0 + 1,
    {
        self.upper - self.lower + 1
    }
}


/// Why a database yields no count.
#[derive(Debug, Clone, Copy, PartialEq, Eq, Structural)]
pub enum CafeteriaError {
    /// Line `line`, counted from zero, holds a number beyond 64 bits, or is
    /// neither a range, nor a number, nor empty where it has to be.
    BadLine { line: usize },
    /// Range `index`, counted from zero, ends before it starts.
    ReversedRange { index: usize },
    /// The count is beyond 64 bits.
    Overflow,
}

/// What a line of the database is.
#[derive(Debug, Clone, Copy, PartialEq, Eq, Structural)]
pub enum Entry {
    /// A range: the line holds digits, a `-` and digits.
    Span(u64, u64),
    /// The same, with a number beyond 64 bits.
    Huge,
    /// A number, after one `+` at most.
    Id(u64),
    /// The empty line.
    Blank,
    /// Anything else.
    Junk,
}

/// What a line is: a range where it holds one anywhere, the first from the
/// left deciding.
pub open spec fn entry(s: Seq<u8>) -> Entry {
    match first_range(s, 0) {
        Some((a, b)) => if a <= u64::MAX && b <= u64::MAX {
            Entry::Span(a as u64, b as u64)
        } else {
            Entry::Huge
        },
        None => if s.len() == 0 {
            Entry::Blank
        } else {
            match unsigned_spec(s) {
                Some(v) => Entry::Id(v),
                None => Entry::Junk,
            }
        },
    }
}

/// Says what a line is.
pub fn classify(line: &str) -> (e: Entry)
    ensures
        e == entry(line.spec_bytes()),
{
    let s = line.as_bytes_vec();
    match find_range(&s) {
        Some((a, b)) => match (a, b) {
            (Some(a), Some(b)) => Entry::Span(a, b),
            _ => Entry::Huge,
        },
        None => {
            if s.len() == 0 {
                return Entry::Blank;
            }
            match parse_unsigned(&s) {
                Some(v) => Entry::Id(v),
                None => Entry::Junk,
            }
        },
    }
}

/// What the first `k` lines hold: the ranges and the numbers, each in
/// their order, or the number of the first line that is neither and not
/// empty.
pub open spec fn scan(lines: Seq<Seq<u8>>, k: nat) -> Result<(Seq<(int, int)>, Seq<u64>), usize>
    decreases k,
{
    if k == 0 {
        Ok((Seq::empty(), Seq::empty()))
    } else {
        match scan(lines, (k - 1) as nat) {
            Err(line) => Err(line),
            Ok((ranges, ids)) => match entry(lines[k - 1]) {
                Entry::Span(a, b) => Ok((ranges.push((a as int, b as int)), ids)),
                Entry::Id(v) => Ok((ranges, ids.push(v))),
                Entry::Blank => Ok((ranges, ids)),
                _ => Err((k - 1) as usize),
            },
        }
    }
}

/// A line that cannot be read is the error of every longer database.
pub proof fn lemma_scan_error_stays(lines: Seq<Seq<u8>>, a: nat, b: nat)
    requires
        a <= b,
        scan(lines, a) is Err,
    ensures
        scan(lines, b) == scan(lines, a),
    decreases b,
{
    if a < b {
        lemma_scan_error_stays(lines, a, (b - 1) as nat);
    }
}

/// Some range holds `id`.
pub open spec fn is_fresh(ranges: Seq<(int, int)>, id: int) -> bool {
    exists|k: int| 0 <= k < ranges.len() && (#[trigger] ranges[k]).0 <= id <= ranges[k].1
}

/// How many of the first `k` numbers are fresh.
pub open spec fn fresh_count(ranges: Seq<(int, int)>, ids: Seq<u64>, k: nat) -> nat
    decreases k,
{
    if k == 0 {
        0
    } else {
        fresh_count(ranges, ids, (k - 1) as nat) + if is_fresh(ranges, ids[k - 1] as int) {
            1nat
        } else {
            0nat
        }
    }
}

/// The ranges as pairs of numbers.
pub open spec fn spans(ranges: Seq<Range>) -> Seq<(int, int)> {
    Seq::new(ranges.len(), |i: int| ranges[i]@)
}

/// The pairs of a longer list are the pairs of the list and one more.
pub proof fn lemma_spans_push(ranges: Seq<Range>, r: Range)
    ensures
        spans(ranges.push(r)) == spans(ranges).push(r@),
{
    assert(spans(ranges.push(r)) =~= spans(ranges).push(r@));
}

/// Whether some range holds `id`.
fn holds_any(ranges: &Vec<Range>, id: u64) -> (b: bool)
    ensures
        b == is_fresh(spans(ranges@), id as int),
{
    let ghost all = spans(ranges@);
    let mut k: usize = 0;
    while k < ranges.len()
        invariant
            k <= ranges.len(),
            all == spans(ranges@),
            forall|h: int| 0 <= h < k ==> !((#[trigger] all[h]).0 <= id <= all[h].1),
        decreases ranges.len() - k,
    {
        assert(all[k as int] == ranges[k as int]@);
        if ranges[k].contains(id) {
            return true;
        }
        k += 1;
    }
    false
}

/// How many of the numbers of the database lie in one of its ranges,
/// wherever ranges and numbers stand in it.
///
/// Fails with `BadLine` at the first line that is no range, no number and
/// not empty, or that holds a number beyond 64 bits.
pub fn cafeteria_part1(lines: &Vec<String>) -> (r: Result<usize, CafeteriaError>)
    ensures
        match scan(bytes_of(lines@), lines@.len()) {
            Err(line) => r == Err::<usize, CafeteriaError>(CafeteriaError::BadLine { line }),
            Ok((ranges, ids)) => r == Ok::<usize, CafeteriaError>(
                fresh_count(ranges, ids, ids.len()) as usize,
            ) && fresh_count(ranges, ids, ids.len()) <= usize::MAX,
        },
{
    let ghost all = bytes_of(lines@);
    let mut ranges: Vec<Range> = Vec::new();
    let mut ids: Vec<u64> = Vec::new();
    let mut i: usize = 0;
    assert(spans(ranges@) =~= Seq::<(int, int)>::empty());
    while i < lines.len()
        invariant
            i <= lines.len(),
            all == bytes_of(lines@),
            scan(all, i as nat) == Ok::<(Seq<(int, int)>, Seq<u64>), usize>(
                (spans(ranges@), ids@),
            ),
        decreases lines.len() - i,
    {
        match classify(lines[i].as_str()) {
            Entry::Span(a, b) => {
                let r = Range::new(a, b);
                proof {
                    lemma_spans_push(ranges@, r);
                }
                ranges.push(r);
            },
            Entry::Id(v) => {
                ids.push(v);
            },
            Entry::Blank => {},
            _ => {
                proof {
                    lemma_scan_error_stays(all, (i + 1) as nat, lines@.len());
                }
                return Err(CafeteriaError::BadLine { line: i });
            },
        }
        i += 1;
    }
    let mut fresh: usize = 0;
    let mut k: usize = 0;
    while k < ids.len()
        invariant
            k <= ids.len(),
            fresh == fresh_count(spans(ranges@), ids@, k as nat),
            fresh <= k,
        decreases ids.len() - k,
    {
        if holds_any(&ranges, ids[k]) {
            fresh += 1;
        }
        k += 1;
    }
    Ok(fresh)
}


/// How far the reading of the ranges at the head of a database has come.
pub enum Lead {
    /// Every line so far was a range.
    Running(Seq<(int, int)>),
    /// A line that is no range has ended the ranges.
    Stopped(Seq<(int, int)>),
    /// The line of this number holds a range with a number beyond 64 bits.
    Failed(usize),
}

/// The ranges at the head of the first `k` lines: they end before the first
/// line that holds no range.
pub open spec fn lead(lines: Seq<Seq<u8>>, k: nat) -> Lead
    decreases k,
{
    if k == 0 {
        Lead::Running(Seq::empty())
    } else {
        match lead(lines, (k - 1) as nat) {
            Lead::Running(ranges) => match entry(lines[k - 1]) {
                Entry::Span(a, b) => Lead::Running(ranges.push((a as int, b as int))),
                Entry::Huge => Lead::Failed((k - 1) as usize),
                _ => Lead::Stopped(ranges),
            },
            other => other,
        }
    }
}

/// Once the ranges at the head have ended, later lines change nothing.
pub proof fn lemma_lead_stays(lines: Seq<Seq<u8>>, a: nat, b: nat)
    requires
        a <= b,
        !(lead(lines, a) is Running),
    ensures
        lead(lines, b) == lead(lines, a),
    decreases b,
{
    if a < b {
        lemma_lead_stays(lines, a, (b - 1) as nat);
    }
}

/// Every range ends no earlier than it starts.
pub open spec fn ordered(ranges: Seq<(int, int)>) -> bool {
    forall|k: int| 0 <= k < ranges.len() ==> (#[trigger] ranges[k]).0 <= ranges[k].1
}

/// No two of the ranges share a number.
pub open spec fn apart(ranges: Seq<(int, int)>) -> bool {
    forall|a: int, b: int|
        0 <= a < b < ranges.len() ==> !Range::meets(#[trigger] ranges[a], #[trigger] ranges[b])
}

/// The numbers that lie in one of the ranges.
pub open spec fn fresh_ids(ranges: Seq<(int, int)>) -> Set<int> {
    Set::new(|id: int| is_fresh(ranges, id))
}

/// The numbers that lie in one of the first `k` ranges.
pub open spec fn fresh_upto(ranges: Seq<(int, int)>, k: int) -> Set<int> {
    Set::new(|id: int| exists|h: int| 0 <= h < k && (#[trigger] ranges[h]).0 <= id <= ranges[h].1)
}

/// Some range that is still there holds `id`.
pub open spec fn covers(current: Seq<(int, int)>, gone: Seq<bool>, id: int) -> bool {
    exists|k: int|
        0 <= k < current.len() && !gone[k] && (#[trigger] current[k]).0 <= id <= current[k].1
}

/// Two ranges that share a number hold together what their hull holds.
proof fn lemma_merge_keeps(
    current: Seq<(int, int)>,
    gone: Seq<bool>,
    i: int,
    j: int,
    id: int,
)
    requires
        0 <= i < j < current.len(),
        gone.len() == current.len(),
        !gone[i],
        !gone[j],
        current[i].0 <= current[i].1,
        current[j].0 <= current[j].1,
        Range::meets(current[i], current[j]),
    ensures
        covers(current.update(i, Range::hull(current[i], current[j])), gone.update(j, true), id)
            == covers(current, gone, id),
{
    let after = current.update(i, Range::hull(current[i], current[j]));
    let left = gone.update(j, true);
    if covers(current, gone, id) {
        let k = choose|k: int|
            0 <= k < current.len() && !gone[k] && (#[trigger] current[k]).0 <= id <= current[k].1;
        if k == i || k == j {
            assert(!left[i] && after[i].0 <= id <= after[i].1);
        } else {
            assert(!left[k] && after[k].0 <= id <= after[k].1);
        }
    }
    if covers(after, left, id) {
        let k = choose|k: int|
            0 <= k < after.len() && !left[k] && (#[trigger] after[k]).0 <= id <= after[k].1;
        if k == i {
            if current[i].0 <= id <= current[i].1 {
                assert(!gone[i] && current[i].0 <= id <= current[i].1);
            } else {
                assert(!gone[j] && current[j].0 <= id <= current[j].1);
            }
        } else {
            assert(!gone[k] && current[k].0 <= id <= current[k].1);
        }
    }
}

/// The pairs of ranges that a pass has compared when it stands at `(i, j)`.
pub open spec fn compared(i: int, j: int, a: int, b: int) -> bool {
    a < b && (a < i || (a == i && b < j))
}

/// One pass over the ranges: each range that is still there takes in every
/// later one that shares a number with it. Says which ranges were taken in.
fn pass(current: &mut Vec<Range>, Ghost(start): Ghost<Seq<(int, int)>>) -> (gone: Vec<bool>)
    requires
        ordered(spans(old(current)@)),
        forall|id: int| is_fresh(spans(old(current)@), id) == is_fresh(start, id),
    ensures
        gone.len() == final(current).len(),
        final(current).len() == old(current).len(),
        ordered(spans(final(current)@)),
        forall|id: int| covers(spans(final(current)@), gone@, id) == is_fresh(start, id),
        (forall|k: int| 0 <= k < gone.len() ==> !gone[k]) ==> apart(spans(final(current)@)),
{
    let n = current.len();
    let mut gone: Vec<bool> = Vec::new();
    let mut k: usize = 0;
    while k < n
        invariant
            k <= n,
            gone.len() == k,
            forall|h: int| 0 <= h < k ==> !gone[h],
        decreases n - k,
    {
        gone.push(false);
        k += 1;
    }
    proof {
        assert forall|id: int| covers(spans(current@), gone@, id) == is_fresh(start, id) by {
            let all = spans(current@);
            if is_fresh(all, id) {
                let k = choose|k: int| 0 <= k < all.len() && (#[trigger] all[k]).0 <= id <= all[k].1;
                assert(!gone[k] && all[k].0 <= id <= all[k].1);
            }
        }
    }
    let mut found = false;
    let mut i: usize = 0;
    while i < n
        invariant
            i <= n,
            n == current.len(),
            n == gone.len(),
            ordered(spans(current@)),
            forall|id: int| covers(spans(current@), gone@, id) == is_fresh(start, id),
            !found ==> forall|h: int| 0 <= h < n ==> !gone[h],
            found ==> exists|h: int| 0 <= h < n && gone[h],
            !found ==> forall|a: int, b: int|
                0 <= a < b < n && compared(i as int, 0, a, b) ==> !Range::meets(
                    #[trigger] spans(current@)[a],
                    #[trigger] spans(current@)[b],
                ),
        decreases n - i,
    {
        if !gone[i] {
            let mut j: usize = i + 1;
            while j < n
                invariant
                    i < j <= n,
                    n == current.len(),
                    n == gone.len(),
                    !gone[i as int],
                    ordered(spans(current@)),
                    forall|id: int| covers(spans(current@), gone@, id) == is_fresh(start, id),
                    !found ==> forall|h: int| 0 <= h < n ==> !gone[h],
                    found ==> exists|h: int| 0 <= h < n && gone[h],
                    !found ==> forall|a: int, b: int|
                        0 <= a < b < n && compared(i as int, j as int, a, b) ==> !Range::meets(
                            #[trigger] spans(current@)[a],
                            #[trigger] spans(current@)[b],
                        ),
                decreases n - j,
            {
                let ghost before = spans(current@);
                let ghost left = gone@;
                assert(before[i as int] == current[i as int]@);
                assert(before[j as int] == current[j as int]@);
                if !gone[j] && current[i].intersect(&current[j]) {
                    let merged = current[i].union(&current[j]);
                    current.set(i, merged);
                    gone.set(j, true);
                    found = true;
                    proof {
                        assert(spans(current@) =~= before.update(
                            i as int,
                            Range::hull(before[i as int], before[j as int]),
                        ));
                        assert forall|id: int| covers(spans(current@), gone@, id) == is_fresh(
                            start,
                            id,
                        ) by {
                            lemma_merge_keeps(before, left, i as int, j as int, id);
                            assert(covers(before, left, id) == is_fresh(start, id));
                        }
                        assert(gone[j as int]);
                    }
                }
                j += 1;
            }
        }
        i += 1;
    }
    proof {
        if forall|k: int| 0 <= k < gone.len() ==> !gone[k] {
            let all = spans(current@);
            assert forall|a: int, b: int| 0 <= a < b < all.len() implies !Range::meets(
                #[trigger] all[a],
                #[trigger] all[b],
            ) by {
                assert(compared(n as int, 0, a, b));
            }
        }
    }
    gone
}

/// Some range among the first `k` that is still there holds `id`.
pub open spec fn covers_upto(current: Seq<(int, int)>, gone: Seq<bool>, k: int, id: int) -> bool {
    exists|g: int| 0 <= g < k && !gone[g] && (#[trigger] current[g]).0 <= id <= current[g].1
}

/// A number lies in a longer list of ranges where it lies in the list or in the range added.
pub proof fn lemma_fresh_push(ranges: Seq<(int, int)>, r: (int, int), id: int)
    ensures
        is_fresh(ranges.push(r), id) == (is_fresh(ranges, id) || r.0 <= id <= r.1),
{
    let longer = ranges.push(r);
    if is_fresh(ranges, id) {
        let k = choose|k: int| 0 <= k < ranges.len() && (#[trigger] ranges[k]).0 <= id <= ranges[k].1;
        assert(longer[k].0 <= id <= longer[k].1);
    }
    if r.0 <= id <= r.1 {
        assert(longer[ranges.len() as int].0 <= id <= longer[ranges.len() as int].1);
    }
    if is_fresh(longer, id) {
        let k = choose|k: int| 0 <= k < longer.len() && (#[trigger] longer[k]).0 <= id <= longer[k].1;
        if k < ranges.len() {
            assert(ranges[k].0 <= id <= ranges[k].1);
        }
    }
}

proof fn lemma_covers_step(current: Seq<(int, int)>, gone: Seq<bool>, k: int, id: int)
    requires
        0 <= k < current.len(),
    ensures
        covers_upto(current, gone, k + 1, id) == (covers_upto(current, gone, k, id) || (!gone[k]
            && current[k].0 <= id <= current[k].1)),
{
    if covers_upto(current, gone, k, id) {
        let g = choose|g: int| 0 <= g < k && !gone[g] && (#[trigger] current[g]).0 <= id <= current[g].1;
        assert(0 <= g < k + 1 && !gone[g] && current[g].0 <= id <= current[g].1);
    }
    if !gone[k] && current[k].0 <= id <= current[k].1 {
        assert(0 <= k < k + 1 && !gone[k] && current[k].0 <= id <= current[k].1);
    }
}

/// The ranges that are still there, in their order.
fn keep(current: &Vec<Range>, gone: &Vec<bool>) -> (kept: Vec<Range>)
    requires
        gone.len() == current.len(),
        ordered(spans(current@)),
    ensures
        ordered(spans(kept@)),
        kept.len() <= current.len(),
        (exists|k: int| 0 <= k < gone.len() && gone[k]) ==> kept.len() < current.len(),
        forall|id: int| is_fresh(spans(kept@), id) == covers(spans(current@), gone@, id),
{
    let ghost all = spans(current@);
    let mut kept: Vec<Range> = Vec::new();
    let mut k: usize = 0;
    assert(spans(kept@) =~= Seq::<(int, int)>::empty());
    while k < current.len()
        invariant
            k <= current.len(),
            gone.len() == current.len(),
            all == spans(current@),
            ordered(all),
            ordered(spans(kept@)),
            kept.len() <= k,
            (exists|h: int| 0 <= h < k && gone[h]) ==> kept.len() < k,
            forall|id: int| is_fresh(spans(kept@), id) == covers_upto(all, gone@, k as int, id),
        decreases current.len() - k,
    {
        let ghost before = spans(kept@);
        assert(all[k as int] == current[k as int]@);
        if !gone[k] {
            proof {
                lemma_spans_push(kept@, current[k as int]);
            }
            kept.push(current[k]);
        }
        proof {
            assert forall|id: int| is_fresh(spans(kept@), id) == covers_upto(
                all,
                gone@,
                k + 1,
                id,
            ) by {
                lemma_covers_step(all, gone@, k as int, id);
                lemma_fresh_push(before, all[k as int], id);
                assert(is_fresh(before, id) == covers_upto(all, gone@, k as int, id));
            }
        }
        k += 1;
    }
    kept
}

/// Merges ranges that share a number until no two do.
pub(crate) fn merge(ranges: Vec<Range>) -> (merged: Vec<Range>)
    requires
        ordered(spans(ranges@)),
    ensures
        ordered(spans(merged@)),
        apart(spans(merged@)),
        forall|id: int| is_fresh(spans(merged@), id) == is_fresh(spans(ranges@), id),
{
    let ghost start = spans(ranges@);
    let mut current = ranges;
    loop
        invariant
            ordered(spans(current@)),
            forall|id: int| is_fresh(spans(current@), id) == is_fresh(start, id),
        ensures
            ordered(spans(current@)),
            apart(spans(current@)),
            forall|id: int| is_fresh(spans(current@), id) == is_fresh(start, id),
        decreases current.len(),
    {
        let gone = pass(&mut current, Ghost(start));
        let mut any = false;
        let mut k: usize = 0;
        while k < gone.len()
            invariant
                k <= gone.len(),
                any == exists|h: int| 0 <= h < k && gone[h],
            decreases gone.len() - k,
        {
            if gone[k] {
                any = true;
            }
            k += 1;
        }
        if !any {
            proof {
                let all = spans(current@);
                assert forall|id: int| is_fresh(all, id) == is_fresh(start, id) by {
                    if is_fresh(all, id) {
                        let h = choose|h: int|
                            0 <= h < all.len() && (#[trigger] all[h]).0 <= id <= all[h].1;
                        assert(!gone[h] && all[h].0 <= id <= all[h].1);
                    }
                    if covers(all, gone@, id) {
                    }
                }
            }
            break ;
        }
        current = keep(&current, &gone);
    }
    current
}

/// The number of numbers that lie in one of the ranges, or `None` where it is
/// beyond 64 bits.
fn count_ids(merged: &Vec<Range>) -> (count: Option<u64>)
    requires
        ordered(spans(merged@)),
        apart(spans(merged@)),
    ensures
        fresh_ids(spans(merged@)).finite(),
        match count {
            Some(v) => v == fresh_ids(spans(merged@)).len(),
            None => fresh_ids(spans(merged@)).len() > u64::MAX,
        },
{
    let ghost all = spans(merged@);
    let mut total: u128 = 0;
    let mut k: usize = 0;
    assert(fresh_upto(all, 0) =~= Set::<int>::empty());
    while k < merged.len()
        invariant
            k <= merged.len(),
            all == spans(merged@),
            ordered(all),
            apart(all),
            fresh_upto(all, k as int).finite(),
            total == fresh_upto(all, k as int).len(),
            total <= k * 0x1_0000_0000_0000_0000,
        decreases merged.len() - k,
    {
        let r = &merged[k];
        assert(all[k as int] == r@);
        let size: u128 = (r.upper - r.lower) as u128 + 1;
        proof {
            let before = fresh_upto(all, k as int);
            let span = set_int_range(r.lower as int, r.upper + 1);
            lemma_int_range(r.lower as int, r.upper + 1);
            assert(before.disjoint(span)) by {
                assert forall|id: int| !(before.contains(id) && span.contains(id)) by {
                    if before.contains(id) && span.contains(id) {
                        let h = choose|h: int|
                            0 <= h < k && (#[trigger] all[h]).0 <= id <= all[h].1;
                        assert(Range::meets(all[h], all[k as int]));
                    }
                }
            }
            lemma_set_disjoint_lens(before, span);
            assert(fresh_upto(all, k + 1) =~= before + span) by {
                assert forall|id: int| fresh_upto(all, k + 1).contains(id) == (before + span).contains(
                    id,
                ) by {
                    if fresh_upto(all, k + 1).contains(id) {
                        let h = choose|h: int|
                            0 <= h < k + 1 && (#[trigger] all[h]).0 <= id <= all[h].1;
                        if h < k {
                            assert(before.contains(id));
                        }
                    }
                    if before.contains(id) {
                        let h = choose|h: int|
                            0 <= h < k && (#[trigger] all[h]).0 <= id <= all[h].1;
                        assert(0 <= h < k + 1 && all[h].0 <= id <= all[h].1);
                    }
                    if span.contains(id) {
                        assert(all[k as int].0 <= id <= all[k as int].1);
                    }
                }
            }
            assert((k + 1) * 0x1_0000_0000_0000_0000 == k * 0x1_0000_0000_0000_0000
                + 0x1_0000_0000_0000_0000) by (nonlinear_arith);
            assert(k * 0x1_0000_0000_0000_0000 <= 0xffff_ffff_ffff_ffff * 0x1_0000_0000_0000_0000)
                by (nonlinear_arith)
                requires
                    k <= 0xffff_ffff_ffff_ffff,
            ;
        }
        total = total + size;
        k += 1;
    }
    assert(fresh_upto(all, merged.len() as int) =~= fresh_ids(all));
    if total > u64::MAX as u128 {
        None
    } else {
        Some(total as u64)
    }
}

/// How many numbers lie in one of the ranges at the head of the database:
/// the ranges end before the first line that holds none.
///
/// Fails with `BadLine` at a range with a number beyond 64 bits, with
/// `ReversedRange` at the first range that ends before it starts, and with
/// `Overflow` where the count is beyond 64 bits.
pub fn cafeteria_part2(lines: &Vec<String>) -> (r: Result<u64, CafeteriaError>)
    ensures
        match lead(bytes_of(lines@), lines@.len()) {
            Lead::Failed(line) => r == Err::<u64, CafeteriaError>(CafeteriaError::BadLine { line }),
            Lead::Running(ranges) | Lead::Stopped(ranges) => match r {
                Ok(count) => ordered(ranges) && count == fresh_ids(ranges).len(),
                Err(CafeteriaError::ReversedRange { index }) => index < ranges.len()
                    && ranges[index as int].0 > ranges[index as int].1 && ordered(
                    ranges.take(index as int),
                ),
                Err(CafeteriaError::Overflow) => ordered(ranges) && fresh_ids(ranges).len()
                    > u64::MAX,
                Err(CafeteriaError::BadLine { .. }) => false,
            },
        },
{
    let ghost all = bytes_of(lines@);
    let mut ranges: Vec<Range> = Vec::new();
    let mut i: usize = 0;
    assert(spans(ranges@) =~= Seq::<(int, int)>::empty());
    while i < lines.len()
        invariant
            i <= lines.len(),
            all == bytes_of(lines@),
            lead(all, i as nat) == Lead::Running(spans(ranges@)),
        ensures
            lead(all, lines@.len()) == Lead::Running(spans(ranges@)) || lead(all, lines@.len())
                == Lead::Stopped(spans(ranges@)),
        decreases lines.len() - i,
    {
        match classify(lines[i].as_str()) {
            Entry::Span(a, b) => {
                let r = Range::new(a, b);
                proof {
                    lemma_spans_push(ranges@, r);
                }
                ranges.push(r);
            },
            Entry::Huge => {
                proof {
                    lemma_lead_stays(all, (i + 1) as nat, lines@.len());
                }
                return Err(CafeteriaError::BadLine { line: i });
            },
            _ => {
                proof {
                    lemma_lead_stays(all, (i + 1) as nat, lines@.len());
                }
                break ;
            },
        }
        i += 1;
    }
    let ghost read = spans(ranges@);
    let mut k: usize = 0;
    while k < ranges.len()
        invariant
            k <= ranges.len(),
            read == spans(ranges@),
            ordered(read.take(k as int)),
            lead(all, lines@.len()) == Lead::Running(read) || lead(all, lines@.len())
                == Lead::Stopped(read),
            all == bytes_of(lines@),
        decreases ranges.len() - k,
    {
        assert(read[k as int] == ranges[k as int]@);
        if ranges[k].lower > ranges[k].upper {
            return Err(CafeteriaError::ReversedRange { index: k });
        }
        proof {
            assert forall|h: int| 0 <= h < k + 1 implies (#[trigger] read.take(k + 1)[h]).0
                <= read.take(k + 1)[h].1 by {
                if h < k {
                    assert(read.take(k as int)[h] == read[h]);
                }
            }
        }
        k += 1;
    }
    assert(read.take(ranges.len() as int) =~= read);
    let merged = merge(ranges);
    let count = count_ids(&merged);
    assert(fresh_ids(spans(merged@)) =~= fresh_ids(read));
    match count {
        Some(count) => Ok(count),
        None => Err(CafeteriaError::Overflow),
    }
}

} // verus!
