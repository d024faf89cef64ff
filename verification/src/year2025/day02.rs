use crate::utils::text::{
    fields, find_range, first_range, is_digit, lemma_number_text, number_text, push_number,
    split_fields, views,
};
use crate::year2025::day05::{
    apart, is_fresh, lemma_fresh_push, lemma_spans_push, merge, ordered, spans, Range,
};
use vstd::arithmetic::div_mod::{lemma_mod_decreases, lemma_mod_self_0};
use vstd::prelude::*;
use vstd::string::StrSliceExecFns;
use vstd::string::StringSliceAdditionalSpecFns;

verus! {

/// What makes a product number invalid.
#[derive(Debug, Clone, Copy, PartialEq, Eq, Structural)]
pub enum Rule {
    /// Its digits are some digits written twice.
    Twice,
    /// Its digits are some digits written twice or more often.
    Repeated,
}

/// Why a list of ranges has no sum.
#[derive(Debug, Clone, Copy, PartialEq, Eq, Structural)]
pub enum GiftShopError {
    /// Piece `piece` of the list, counted from zero, holds no range, or one
    /// with a number beyond 63 bits.
    BadRange { piece: usize },
    /// A range ends at the last number of 63 bits, or the sum is beyond
    /// them.
    Overflow,
}

/// One more than the last product number.
pub open spec fn id_limit() -> nat {
    0x8000_0000_0000_0000
}

/// A number as it is written: in base ten, a `-` before it where it is
/// below zero.
pub open spec fn id_text(id: int) -> Seq<u8> {
    if id < 0 {
        seq![45u8] + number_text((-id) as nat)
    } else {
        number_text(id as nat)
    }
}

/// The second half of `s` repeats the first.
pub open spec fn is_twice(s: Seq<u8>) -> bool {
    s.len() % 2 == 0 && s.subrange(0, s.len() as int / 2) == s.subrange(
        s.len() as int / 2,
        s.len() as int,
    )
}

/// Every byte of `s` is the one `d` places before it.
pub open spec fn has_period(s: Seq<u8>, d: int) -> bool {
    forall|i: int| 0 <= i < s.len() ==> #[trigger] s[i] == s[i % d]
}

/// Runs of `d` bytes, two or more, fill `len` bytes.
pub open spec fn fills(len: int, d: int) -> bool {
    0 < d < len && len % d == 0
}

/// `s` is a shorter run of bytes written as often as fills it.
pub open spec fn is_repeated(s: Seq<u8>) -> bool {
    exists|d: int| fills(s.len() as int, d) && #[trigger] has_period(s, d)
}

/// The number is invalid by the rule.
pub open spec fn invalid(rule: Rule, id: int) -> bool {
    match rule {
        Rule::Twice => is_twice(id_text(id)),
        Rule::Repeated => is_repeated(id_text(id)),
    }
}

/// The number lies in a range and is invalid.
pub open spec fn wanted(ranges: Seq<(int, int)>, rule: Rule, id: int) -> bool {
    is_fresh(ranges, id) && invalid(rule, id)
}

/// The sum of the invalid numbers below `n` that lie in a range, each
/// counted once.
pub open spec fn sum_below(ranges: Seq<(int, int)>, rule: Rule, n: nat) -> nat
    decreases n,
{
    if n == 0 {
        0
    } else {
        sum_below(ranges, rule, (n - 1) as nat) + if wanted(ranges, rule, n - 1) {
            (n - 1) as nat
        } else {
            0
        }
    }
}

/// The range that a piece of the list holds: the first from the left,
/// where its numbers are within 63 bits.
pub open spec fn piece_spec(piece: Seq<u8>) -> Option<(int, int)> {
    match first_range(piece, 0) {
        Some((a, b)) => if a <= i64::MAX && b <= i64::MAX {
            Some((a as int, b as int))
        } else {
            None
        },
        None => None,
    }
}

/// The ranges of the first `k` pieces, or the number of the first piece
/// without one.
pub open spec fn pieces_spec(pieces: Seq<Seq<u8>>, k: nat) -> Result<Seq<(int, int)>, usize>
    decreases k,
{
    if k == 0 {
        Ok(Seq::empty())
    } else {
        match pieces_spec(pieces, (k - 1) as nat) {
            Err(piece) => Err(piece),
            Ok(before) => match piece_spec(pieces[k - 1]) {
                Some(r) => Ok(before.push(r)),
                None => Err((k - 1) as usize),
            },
        }
    }
}

/// A piece without a range is the error of every longer list.
pub proof fn lemma_pieces_error_stays(pieces: Seq<Seq<u8>>, a: nat, b: nat)
    requires
        a <= b,
        pieces_spec(pieces, a) is Err,
    ensures
        pieces_spec(pieces, b) == pieces_spec(pieces, a),
    decreases b,
{
    if a < b {
        lemma_pieces_error_stays(pieces, a, (b - 1) as nat);
    }
}

/// Ranges that hold the same numbers give the same sum.
pub proof fn lemma_sum_same(a: Seq<(int, int)>, b: Seq<(int, int)>, rule: Rule, n: nat)
    requires
        forall|id: int| is_fresh(a, id) == is_fresh(b, id),
    ensures
        sum_below(a, rule, n) == sum_below(b, rule, n),
    decreases n,
{
    if n > 0 {
        lemma_sum_same(a, b, rule, (n - 1) as nat);
        assert(is_fresh(a, n - 1) == is_fresh(b, n - 1));
    }
}

/// A range apart from all others adds its own sum.
pub proof fn lemma_sum_push(ranges: Seq<(int, int)>, r: (int, int), rule: Rule, n: nat)
    requires
        forall|id: int| !(is_fresh(ranges, id) && r.0 <= id <= r.1),
    ensures
        sum_below(ranges.push(r), rule, n) == sum_below(ranges, rule, n) + sum_below(
            seq![r],
            rule,
            n,
        ),
    decreases n,
{
    if n > 0 {
        lemma_sum_push(ranges, r, rule, (n - 1) as nat);
        let id = n - 1;
        lemma_fresh_push(ranges, r, id);
        lemma_fresh_push(Seq::<(int, int)>::empty(), r, id);
        assert(Seq::<(int, int)>::empty().push(r) =~= seq![r]);
        assert(!is_fresh(Seq::<(int, int)>::empty(), id));
        assert(!(is_fresh(ranges, id) && r.0 <= id <= r.1));
    }
}

/// A range adds nothing below its lower end or above its upper end.
pub proof fn lemma_sum_one(r: (int, int), rule: Rule, n: nat)
    ensures
        n <= r.0 ==> sum_below(seq![r], rule, n) == 0,
        0 <= r.1 < n ==> sum_below(seq![r], rule, n) == sum_below(seq![r], rule, (r.1 + 1) as nat),
        sum_below(seq![r], rule, n) <= n * n,
    decreases n,
{
    if n > 0 {
        lemma_sum_one(r, rule, (n - 1) as nat);
        let id = n - 1;
        lemma_fresh_push(Seq::<(int, int)>::empty(), r, id);
        assert(Seq::<(int, int)>::empty().push(r) =~= seq![r]);
        assert(!is_fresh(Seq::<(int, int)>::empty(), id));
        assert((n - 1) * (n - 1) + (n - 1) <= n * n) by (nonlinear_arith)
            requires
                n >= 1,
        ;
    } else {
        assert(n * n == 0) by (nonlinear_arith)
            requires
                n == 0,
        ;
    }
}

/// Numbers below `n` add up to less than `n` times `n`.
pub proof fn lemma_sum_bound(ranges: Seq<(int, int)>, rule: Rule, n: nat)
    ensures
        sum_below(ranges, rule, n) <= n * n,
    decreases n,
{
    if n > 0 {
        lemma_sum_bound(ranges, rule, (n - 1) as nat);
        assert((n - 1) * (n - 1) + (n - 1) <= n * n) by (nonlinear_arith)
            requires
                n >= 1,
        ;
    } else {
        assert(n * n == 0) by (nonlinear_arith)
            requires
                n == 0,
        ;
    }
}

/// Whether the second half of `s` repeats the first.
fn halves_equal(s: &Vec<u8>) -> (b: bool)
    ensures
        b == is_twice(s@),
{
    let len = s.len();
    if len % 2 != 0 {
        return false;
    }
    let half = len / 2;
    let ghost first = s@.subrange(0, half as int);
    let ghost second = s@.subrange(half as int, len as int);
    let mut i: usize = 0;
    while i < half
        invariant
            i <= half,
            half * 2 == len,
            len == s.len(),
            first == s@.subrange(0, half as int),
            second == s@.subrange(half as int, len as int),
            forall|h: int| 0 <= h < i ==> first[h] == second[h],
        decreases half - i,
    {
        if s[i] != s[half + i] {
            assert(first[i as int] != second[i as int]);
            return false;
        }
        i += 1;
    }
    assert(first =~= second);
    true
}

/// Whether every byte of `s` is the one `d` places before it.
fn check_period(s: &Vec<u8>, d: usize) -> (b: bool)
    requires
        0 < d,
    ensures
        b == has_period(s@, d as int),
{
    let mut i: usize = 0;
    while i < s.len()
        invariant
            i <= s.len(),
            0 < d,
            forall|h: int| 0 <= h < i ==> #[trigger] s[h] == s[h % (d as int)],
        decreases s.len() - i,
    {
        proof {
            lemma_mod_decreases(i as nat, d as nat);
        }
        if s[i] != s[i % d] {
            return false;
        }
        i += 1;
    }
    true
}

/// Whether `s` is a shorter run of bytes written as often as fills it.
fn repeats(s: &Vec<u8>) -> (b: bool)
    ensures
        b == is_repeated(s@),
{
    let len = s.len();
    let mut d: usize = 1;
    while d < len
        invariant
            1 <= d,
            len == s.len(),
            forall|e: int| 0 < e < d ==> !(fills(len as int, e) && #[trigger] has_period(s@, e)),
        decreases len - d,
    {
        if len % d == 0 && check_period(s, d) {
            return true;
        }
        d += 1;
    }
    false
}

/// A number below zero is invalid by neither rule: nothing repeats its
/// sign.
proof fn lemma_negative_is_valid(id: int)
    requires
        id < 0,
    ensures
        !is_twice(id_text(id)),
        !is_repeated(id_text(id)),
{
    let digits = number_text((-id) as nat);
    let s = id_text(id);
    lemma_number_text((-id) as nat);
    assert(s[0] == 45u8);
    assert forall|i: int| 1 <= i < s.len() implies is_digit(#[trigger] s[i]) by {
        assert(s[i] == digits[i - 1]);
    }
    if is_twice(s) {
        let half = s.len() as int / 2;
        let first = s.subrange(0, half);
        let second = s.subrange(half, s.len() as int);
        assert(first[0] == s[0]);
        assert(second[0] == s[half]);
        assert(is_digit(s[half]));
    }
    if is_repeated(s) {
        let d = choose|d: int| fills(s.len() as int, d) && #[trigger] has_period(s, d);
        lemma_mod_self_0(d);
        assert(s[d] == s[d % d]);
        assert(is_digit(s[d]));
    }
}

/// The digits of a number that is not below zero.
fn digits_of(id: i64) -> (digits: Vec<u8>)
    requires
        id >= 0,
    ensures
        digits@ == id_text(id as int),
{
    let mut digits: Vec<u8> = Vec::new();
    push_number(&mut digits, id as u64);
    assert(digits@ =~= number_text(id as nat));
    digits
}

/// Whether the digits of `id` are some digits written twice.
pub fn invalid_part1(id: i64) -> (b: bool)
    ensures
        b == invalid(Rule::Twice, id as int),
{
    if id < 0 {
        proof {
            lemma_negative_is_valid(id as int);
        }
        return false;
    }
    let s = digits_of(id);
    halves_equal(&s)
}

/// Whether the digits of `id` are some digits written twice or more
/// often.
pub fn invalid_part2(id: i64) -> (b: bool)
    ensures
        b == invalid(Rule::Repeated, id as int),
{
    if id < 0 {
        proof {
            lemma_negative_is_valid(id as int);
        }
        return false;
    }
    let s = digits_of(id);
    repeats(&s)
}

/// Whether `id` is invalid by the rule.
pub fn is_invalid(rule: Rule, id: i64) -> (b: bool)
    ensures
        b == invalid(rule, id as int),
{
    match rule {
        Rule::Twice => invalid_part1(id),
        Rule::Repeated => invalid_part2(id),
    }
}

/// The sum of the invalid numbers of one range.
fn sum_range(lower: u64, upper: u64, rule: Rule) -> (sum: u128)
    requires
        lower <= upper < i64::MAX,
    ensures
        sum == sum_below(seq![(lower as int, upper as int)], rule, id_limit()),
{
    let ghost r = (lower as int, upper as int);
    let mut sum: u128 = 0;
    let mut id: u64 = lower;
    proof {
        lemma_sum_one(r, rule, lower as nat);
    }
    while id <= upper
        invariant
            lower <= id <= upper + 1,
            upper < i64::MAX,
            r == (lower as int, upper as int),
            sum == sum_below(seq![r], rule, id as nat),
        decreases upper + 1 - id,
    {
        proof {
            lemma_sum_one(r, rule, (id + 1) as nat);
            lemma_fresh_push(Seq::<(int, int)>::empty(), r, id as int);
            assert(Seq::<(int, int)>::empty().push(r) =~= seq![r]);
            assert(!is_fresh(Seq::<(int, int)>::empty(), id as int));
            assert((id + 1) * (id + 1) <= 0x8000_0000_0000_0000 * 0x8000_0000_0000_0000)
                by (nonlinear_arith)
                requires
                    0 <= id < 0x7fff_ffff_ffff_ffff,
            ;
        }
        if is_invalid(rule, id as i64) {
            sum = sum + id as u128;
        }
        id += 1;
    }
    proof {
        lemma_sum_one(r, rule, id_limit());
    }
    sum
}

/// The sum of the invalid product numbers in the ranges of a list, each
/// number counted once. The list is parted by commas, and each piece holds
/// a range: digits, a `-` and digits, with anything around them.
///
/// Fails with `BadRange` at the first piece that holds no range within 63
/// bits, and with `Overflow` where a range ends at the last number of 63
/// bits or the sum is beyond them.
pub fn check_gift_shop(input: &str, rule: Rule) -> (r: Result<i64, GiftShopError>)
    ensures
        match pieces_spec(fields(input.spec_bytes()), fields(input.spec_bytes()).len()) {
            Err(piece) => r == Err::<i64, GiftShopError>(GiftShopError::BadRange { piece }),
            Ok(ranges) => r == if (exists|k: int|
                0 <= k < ranges.len() && (#[trigger] ranges[k]).1 == i64::MAX) || sum_below(
                ranges,
                rule,
                id_limit(),
            ) > i64::MAX {
                Err::<i64, GiftShopError>(GiftShopError::Overflow)
            } else {
                Ok::<i64, GiftShopError>(sum_below(ranges, rule, id_limit()) as i64)
            },
        },
{
    let bytes = input.as_bytes_vec();
    assert(bytes@.subrange(0, bytes.len() as int) =~= bytes@);
    let pieces = split_fields(&bytes, 0, bytes.len());
    let ghost all = views(pieces@);
    let mut ranges: Vec<Range> = Vec::new();
    let mut i: usize = 0;
    assert(spans(ranges@) =~= Seq::<(int, int)>::empty());
    while i < pieces.len()
        invariant
            i <= pieces.len(),
            all == views(pieces@),
            all == fields(input.spec_bytes()),
            pieces_spec(all, i as nat) == Ok::<Seq<(int, int)>, usize>(spans(ranges@)),
            forall|k: int| 0 <= k < ranges.len() ==> (#[trigger] spans(ranges@)[k]).1 <= i64::MAX,
        decreases pieces.len() - i,
    {
        assert(all[i as int] == pieces[i as int]@);
        let found = match find_range(&pieces[i]) {
            Some((Some(a), Some(b))) => if a <= i64::MAX as u64 && b <= i64::MAX as u64 {
                Some(Range::new(a, b))
            } else {
                None
            },
            _ => None,
        };
        match found {
            Some(r) => {
                proof {
                    lemma_spans_push(ranges@, r);
                }
                ranges.push(r);
            },
            None => {
                proof {
                    lemma_pieces_error_stays(all, (i + 1) as nat, all.len());
                }
                return Err(GiftShopError::BadRange { piece: i });
            },
        }
        i += 1;
    }
    let ghost read = spans(ranges@);
    let mut live: Vec<Range> = Vec::new();
    let mut k: usize = 0;
    assert(spans(live@) =~= Seq::<(int, int)>::empty());
    assert(read.take(0) =~= Seq::<(int, int)>::empty());
    while k < ranges.len()
        invariant
            k <= ranges.len(),
            read == spans(ranges@),
            pieces_spec(fields(input.spec_bytes()), fields(input.spec_bytes()).len()) == Ok::<
                Seq<(int, int)>,
                usize,
            >(read),
            forall|h: int| 0 <= h < k ==> (#[trigger] read[h]).1 < i64::MAX,
            forall|h: int| 0 <= h < read.len() ==> (#[trigger] read[h]).1 <= i64::MAX,
            ordered(spans(live@)),
            forall|h: int| 0 <= h < live.len() ==> (#[trigger] spans(live@)[h]).1 < i64::MAX,
            forall|id: int| is_fresh(spans(live@), id) == is_fresh(read.take(k as int), id),
        decreases ranges.len() - k,
    {
        let r = &ranges[k];
        assert(read[k as int] == r@);
        if r.upper() >= i64::MAX as u64 {
            assert(read[k as int].1 == i64::MAX);
            return Err(GiftShopError::Overflow);
        }
        let ghost before = spans(live@);
        let ghost earlier = read.take(k as int);
        assert(read.take(k + 1) =~= earlier.push(r@));
        if r.lower() <= r.upper() {
            proof {
                lemma_spans_push(live@, *r);
            }
            live.push(*r);
        }
        proof {
            assert forall|id: int| is_fresh(spans(live@), id) == is_fresh(read.take(k + 1), id) by {
                lemma_fresh_push(before, r@, id);
                lemma_fresh_push(earlier, r@, id);
                assert(is_fresh(before, id) == is_fresh(earlier, id));
            }
        }
        k += 1;
    }
    assert(read.take(ranges.len() as int) =~= read);
    let ghost kept = spans(live@);
    let merged = merge(live);
    let ghost done = spans(merged@);
    let mut sum: u128 = 0;
    let mut k: usize = 0;
    assert(done.take(0) =~= Seq::<(int, int)>::empty());
    assert(sum_below(done.take(0), rule, id_limit()) == 0) by {
        lemma_sum_same(done.take(0), Seq::<(int, int)>::empty(), rule, id_limit());
        lemma_sum_none(rule, id_limit());
    }
    while k < merged.len()
        invariant
            k <= merged.len(),
            done == spans(merged@),
            ordered(done),
            apart(done),
            forall|id: int| is_fresh(done, id) == is_fresh(kept, id),
            forall|h: int| 0 <= h < kept.len() ==> (#[trigger] kept[h]).1 < i64::MAX,
            sum == sum_below(done.take(k as int), rule, id_limit()),
        decreases merged.len() - k,
    {
        let r = &merged[k];
        assert(done[k as int] == r@);
        proof {
            // The upper end lies in a range that was read.
            assert(is_fresh(done, r@.1)) by {
                assert(done[k as int].0 <= r@.1 <= done[k as int].1);
            }
            let h = choose|h: int| 0 <= h < kept.len() && (#[trigger] kept[h]).0 <= r@.1 <= kept[h].1;
            assert(kept[h].1 < i64::MAX);
            let before = done.take(k as int);
            assert forall|id: int| !(is_fresh(before, id) && r@.0 <= id <= r@.1) by {
                if is_fresh(before, id) && r@.0 <= id <= r@.1 {
                    let g = choose|g: int|
                        0 <= g < before.len() && (#[trigger] before[g]).0 <= id <= before[g].1;
                    assert(before[g] == done[g]);
                    assert(Range::meets(done[g], done[k as int]));
                }
            }
            lemma_sum_push(before, r@, rule, id_limit());
            assert(done.take(k + 1) =~= before.push(r@));
            lemma_sum_bound(done.take(k + 1), rule, id_limit());
            assert(id_limit() * id_limit() < 0x1_0000_0000_0000_0000_0000_0000_0000_0000)
                by (nonlinear_arith)
                requires
                    id_limit() == 0x8000_0000_0000_0000,
            ;
        }
        let part = sum_range(r.lower(), r.upper(), rule);
        sum = sum + part;
        k += 1;
    }
    proof {
        assert(done.take(merged.len() as int) =~= done);
        lemma_sum_same(done, read, rule, id_limit());
        assert forall|k: int| 0 <= k < read.len() implies (#[trigger] read[k]).1 != i64::MAX by {
        }
    }
    if sum > i64::MAX as u128 {
        Err(GiftShopError::Overflow)
    } else {
        Ok(sum as i64)
    }
}

/// No ranges, no sum.
pub proof fn lemma_sum_none(rule: Rule, n: nat)
    ensures
        sum_below(Seq::<(int, int)>::empty(), rule, n) == 0,
    decreases n,
{
    if n > 0 {
        lemma_sum_none(rule, (n - 1) as nat);
    }
}

} // verus!
