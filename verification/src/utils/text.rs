use vstd::prelude::*;

verus! {

/// ASCII white space: tab, line feed, vertical tab, form feed, carriage
/// return and the space.
pub open spec fn is_space(b: u8) -> bool {
    (9 <= b <= 13) || b == 32
}

/// An ASCII decimal digit.
pub open spec fn is_digit(b: u8) -> bool {
    48 <= b <= 57
}

/// The words of a line: its maximal runs of bytes that are not white space,
/// from left to right.
pub open spec fn words(s: Seq<u8>) -> Seq<Seq<u8>>
    decreases s.len(),
{
    if s.len() == 0 {
        Seq::empty()
    } else {
        let before = words(s.drop_last());
        if is_space(s.last()) {
            before
        } else if s.len() >= 2 && !is_space(s[s.len() - 2]) {
            before.drop_last().push(before.last().push(s.last()))
        } else {
            before.push(seq![s.last()])
        }
    }
}

/// The fields of a list: what stands between its commas, one more than
/// there are commas.
pub open spec fn fields(s: Seq<u8>) -> Seq<Seq<u8>>
    decreases s.len(),
{
    if s.len() == 0 {
        seq![Seq::empty()]
    } else {
        let before = fields(s.drop_last());
        if s.last() == 44 {
            before.push(Seq::empty())
        } else {
            before.drop_last().push(before.last().push(s.last()))
        }
    }
}

/// The number that a run of digits writes in base ten.
pub open spec fn decimal(s: Seq<u8>) -> nat
    decreases s.len(),
{
    if s.len() == 0 {
        0
    } else {
        10 * decimal(s.drop_last()) + (s.last() - 48) as nat
    }
}

/// `s` is one digit or more and nothing else.
pub open spec fn is_number(s: Seq<u8>) -> bool {
    s.len() > 0 && forall|i: int| 0 <= i < s.len() ==> is_digit(#[trigger] s[i])
}

/// The views of the vectors of `v`.
pub open spec fn views(v: Seq<Vec<u8>>) -> Seq<Seq<u8>> {
    Seq::new(v.len(), |i: int| v[i]@)
}

/// The views of a longer list are the views of the list and one more.
pub proof fn lemma_views_push(v: Seq<Vec<u8>>, w: Vec<u8>)
    ensures
        views(v.push(w)) == views(v).push(w@),
{
    assert(views(v.push(w)) =~= views(v).push(w@));
}

/// The words of a line.
pub fn split_words(s: &[u8]) -> (out: Vec<Vec<u8>>)
    ensures
        views(out@) == words(s@),
{
    let mut out: Vec<Vec<u8>> = Vec::new();
    let mut word: Vec<u8> = Vec::new();
    let mut i: usize = 0;
    assert(s@.take(0) =~= Seq::<u8>::empty());
    assert(views(out@) =~= Seq::<Seq<u8>>::empty());
    while i < s.len()
        invariant
            i <= s.len(),
            (i > 0 && !is_space(s[i - 1])) ==> word.len() > 0 && words(s@.take(i as int)) == views(
                out@,
            ).push(word@),
            !(i > 0 && !is_space(s[i - 1])) ==> word.len() == 0 && words(s@.take(i as int))
                == views(out@),
        decreases s.len() - i,
    {
        let b = s[i];
        let ghost before = s@.take(i as int);
        let ghost now = s@.take(i + 1);
        proof {
            assert(now.drop_last() =~= before);
            assert(now.last() == b);
            if i > 0 {
                assert(now[now.len() - 2] == s[i - 1]);
            }
        }
        if (9 <= b && b <= 13) || b == 32 {
            if word.len() > 0 {
                proof {
                    lemma_views_push(out@, word);
                }
                out.push(word);
                word = Vec::new();
            }
        } else {
            let ghost earlier = word@;
            word.push(b);
            proof {
                if i > 0 && !is_space(s[i - 1]) {
                    let w = views(out@).push(earlier);
                    assert(w.drop_last() =~= views(out@));
                    assert(w.last() == earlier);
                } else {
                    assert(word@ =~= seq![b]);
                }
            }
        }
        i += 1;
    }
    assert(s@.take(s.len() as int) =~= s@);
    if word.len() > 0 {
        proof {
            lemma_views_push(out@, word);
        }
        out.push(word);
    }
    out
}

/// The fields of `s[from..to]`.
pub fn split_fields(s: &Vec<u8>, from: usize, to: usize) -> (out: Vec<Vec<u8>>)
    requires
        from <= to <= s.len(),
    ensures
        views(out@) == fields(s@.subrange(from as int, to as int)),
{
    let mut out: Vec<Vec<u8>> = Vec::new();
    let mut field: Vec<u8> = Vec::new();
    let mut i: usize = from;
    proof {
        assert(s@.subrange(from as int, from as int) =~= Seq::<u8>::empty());
        assert(views(out@).push(field@) =~= seq![Seq::<u8>::empty()]);
    }
    while i < to
        invariant
            from <= i <= to <= s.len(),
            fields(s@.subrange(from as int, i as int)) == views(out@).push(field@),
        decreases to - i,
    {
        let b = s[i];
        let ghost before = s@.subrange(from as int, i as int);
        let ghost now = s@.subrange(from as int, i + 1);
        proof {
            assert(now.drop_last() =~= before);
            assert(now.last() == b);
            assert(views(out@).push(field@).drop_last() =~= views(out@));
        }
        if b == 44 {
            proof {
                lemma_views_push(out@, field);
            }
            out.push(field);
            field = Vec::new();
        } else {
            field.push(b);
        }
        i += 1;
    }
    proof {
        lemma_views_push(out@, field);
    }
    out.push(field);
    out
}

/// A run without commas is one field.
pub proof fn lemma_fields_single(t: Seq<u8>)
    requires
        forall|i: int| 0 <= i < t.len() ==> #[trigger] t[i] != 44,
    ensures
        fields(t) == seq![t],
    decreases t.len(),
{
    if t.len() > 0 {
        lemma_fields_single(t.drop_last());
        assert(t.drop_last().push(t.last()) =~= t);
        assert(seq![t.drop_last()].drop_last().push(t) =~= seq![t]);
    } else {
        assert(t =~= Seq::<u8>::empty());
    }
}

/// A comma and a run without commas add one field.
pub proof fn lemma_fields_append(a: Seq<u8>, t: Seq<u8>)
    requires
        forall|i: int| 0 <= i < t.len() ==> #[trigger] t[i] != 44,
    ensures
        fields(a + seq![44u8] + t) == fields(a).push(t),
    decreases t.len(),
{
    let whole = a + seq![44u8] + t;
    if t.len() == 0 {
        assert(whole.drop_last() =~= a);
        assert(t =~= Seq::<u8>::empty());
    } else {
        let shorter = t.drop_last();
        lemma_fields_append(a, shorter);
        assert(whole.drop_last() =~= a + seq![44u8] + shorter);
        assert(whole.last() == t.last());
        assert(fields(a).push(shorter).drop_last() =~= fields(a));
        assert(fields(a).push(shorter).last() == shorter);
        assert(shorter.push(t.last()) =~= t);
    }
}

/// A run without white space is one word.
pub proof fn lemma_words_single(t: Seq<u8>)
    requires
        t.len() > 0,
        forall|i: int| 0 <= i < t.len() ==> !is_space(#[trigger] t[i]),
    ensures
        words(t) == seq![t],
    decreases t.len(),
{
    if t.len() == 1 {
        assert(t.drop_last() =~= Seq::<u8>::empty());
        assert(words(t.drop_last()) =~= Seq::<Seq<u8>>::empty());
        assert(seq![t.last()] =~= t);
        assert(Seq::<Seq<u8>>::empty().push(t) =~= seq![t]);
    } else {
        lemma_words_single(t.drop_last());
        assert(!is_space(t[t.len() - 2]));
        assert(t.drop_last().push(t.last()) =~= t);
        assert(seq![t.drop_last()].drop_last().push(t) =~= seq![t]);
    }
}

/// A space and a run without white space add one word.
pub proof fn lemma_words_append(a: Seq<u8>, t: Seq<u8>)
    requires
        t.len() > 0,
        forall|i: int| 0 <= i < t.len() ==> !is_space(#[trigger] t[i]),
    ensures
        words(a + seq![32u8] + t) == words(a).push(t),
    decreases t.len(),
{
    let whole = a + seq![32u8] + t;
    if t.len() == 1 {
        let mid = a + seq![32u8];
        assert(whole.drop_last() =~= mid);
        assert(mid.drop_last() =~= a);
        assert(mid.last() == 32u8);
        assert(words(mid) == words(a));
        assert(whole[whole.len() - 2] == 32u8);
        assert(whole.last() == t[0]);
        assert(seq![whole.last()] =~= t);
    } else {
        let shorter = t.drop_last();
        lemma_words_append(a, shorter);
        assert(whole.drop_last() =~= a + seq![32u8] + shorter);
        assert(whole.last() == t.last());
        assert(whole[whole.len() - 2] == t[t.len() - 2]);
        assert(!is_space(t[t.len() - 2]));
        assert(words(a).push(shorter).drop_last() =~= words(a));
        assert(words(a).push(shorter).last() == shorter);
        assert(shorter.push(t.last()) =~= t);
    }
}


/// The bytes of each line.
pub open spec fn bytes_of(lines: Seq<String>) -> Seq<Seq<u8>> {
    Seq::new(lines.len(), |i: int| vstd::utf8::encode_utf8(lines[i]@))
}

/// The number that the digits from `from` on write, where they are digits,
/// one at least, and write no more than `limit`.
pub fn parse_bounded(s: &Vec<u8>, from: usize, limit: u64) -> (r: Option<u64>)
    requires
        from <= s.len(),
    ensures
        match r {
            Some(v) => is_number(s@.skip(from as int)) && decimal(s@.skip(from as int)) == v && v
                <= limit,
            None => !is_number(s@.skip(from as int)) || decimal(s@.skip(from as int)) > limit,
        },
{
    let ghost digits = s@.skip(from as int);
    if from == s.len() {
        return None;
    }
    let mut value: u128 = 0;
    let mut too_large = false;
    let mut i: usize = from;
    assert(digits.take(0) =~= Seq::<u8>::empty());
    while i < s.len()
        invariant
            from <= i <= s.len(),
            digits == s@.skip(from as int),
            forall|h: int| 0 <= h < i - from ==> is_digit(#[trigger] digits[h]),
            !too_large ==> value == decimal(digits.take(i - from)),
            too_large ==> decimal(digits.take(i - from)) > limit,
            value <= limit,
        decreases s.len() - i,
    {
        let b = s[i];
        assert(digits[i - from] == b);
        if b < 48 || b > 57 {
            return None;
        }
        proof {
            assert(digits.take(i - from + 1).drop_last() =~= digits.take(i - from));
        }
        if !too_large {
            let next = 10 * value + (b - 48) as u128;
            if next > limit as u128 {
                too_large = true;
            } else {
                value = next;
            }
        }
        i += 1;
    }
    assert(digits.take(s.len() - from) =~= digits);
    if too_large {
        None
    } else {
        Some(value as u64)
    }
}

/// The whole number that `field` writes: digits, after one sign at most,
/// that stay within 64 bits.
pub open spec fn signed_spec(field: Seq<u8>) -> Option<i64> {
    if field.len() > 0 && field[0] == 45 {
        if is_number(field.skip(1)) && decimal(field.skip(1)) <= 0x8000_0000_0000_0000 {
            Some((-decimal(field.skip(1))) as i64)
        } else {
            None
        }
    } else if field.len() > 0 && field[0] == 43 {
        if is_number(field.skip(1)) && decimal(field.skip(1)) <= i64::MAX {
            Some(decimal(field.skip(1)) as i64)
        } else {
            None
        }
    } else {
        if is_number(field) && decimal(field) <= i64::MAX {
            Some(decimal(field) as i64)
        } else {
            None
        }
    }
}

/// Reads a whole number with one sign at most.
pub fn parse_signed(s: &Vec<u8>) -> (r: Option<i64>)
    ensures
        r == signed_spec(s@),
{
    if s.len() > 0 && s[0] == 45 {
        match parse_bounded(s, 1, 0x8000_0000_0000_0000) {
            Some(v) => {
                if v == 0x8000_0000_0000_0000 {
                    Some(i64::MIN)
                } else {
                    Some(0 - (v as i64))
                }
            },
            None => None,
        }
    } else if s.len() > 0 && s[0] == 43 {
        match parse_bounded(s, 1, 0x7fff_ffff_ffff_ffff) {
            Some(v) => Some(v as i64),
            None => None,
        }
    } else {
        assert(s@.skip(0) =~= s@);
        match parse_bounded(s, 0, 0x7fff_ffff_ffff_ffff) {
            Some(v) => Some(v as i64),
            None => None,
        }
    }
}

/// The number of digits that stand in a row from place `i` on.
pub open spec fn run(s: Seq<u8>, i: int) -> nat
    decreases s.len() - i,
{
    if 0 <= i < s.len() && is_digit(s[i]) {
        1 + run(s, i + 1)
    } else {
        0
    }
}

/// The two numbers of the range that starts at place `i`: a row of digits
/// from `i` on, as long as it goes, a `-`, and again a row of digits, as
/// long as it goes.
pub open spec fn range_at(s: Seq<u8>, i: int) -> Option<(nat, nat)> {
    let a = run(s, i);
    let b = run(s, i + a + 1);
    if a >= 1 && i + a < s.len() && s[i + a] == 45 && b >= 1 {
        Some((decimal(s.subrange(i, i + a)), decimal(s.subrange(i + a + 1, i + a + 1 + b))))
    } else {
        None
    }
}

/// The first range that starts at place `i` or later.
pub open spec fn first_range(s: Seq<u8>, i: int) -> Option<(nat, nat)>
    decreases s.len() - i,
{
    if i < 0 || i >= s.len() {
        None
    } else if range_at(s, i) is Some {
        range_at(s, i)
    } else {
        first_range(s, i + 1)
    }
}

/// The number that a line writes, after one `+` at most.
pub open spec fn unsigned_spec(s: Seq<u8>) -> Option<u64> {
    let digits = if s.len() > 0 && s[0] == 43 {
        s.skip(1)
    } else {
        s
    };
    if is_number(digits) && decimal(digits) <= u64::MAX {
        Some(decimal(digits) as u64)
    } else {
        None
    }
}

/// Reads the row of digits from place `i` on: where it ends, and the number
/// it writes, unless that is beyond 64 bits.
pub fn read_run(s: &Vec<u8>, i: usize) -> (found: (usize, Option<u64>))
    requires
        i <= s.len(),
    ensures
        found.0 == i + run(s@, i as int),
        found.0 <= s.len(),
        match found.1 {
            Some(v) => v == decimal(s@.subrange(i as int, found.0 as int)),
            None => decimal(s@.subrange(i as int, found.0 as int)) > u64::MAX,
        },
{
    let mut j: usize = i;
    let mut value: u128 = 0;
    let mut too_large = false;
    assert(s@.subrange(i as int, i as int) =~= Seq::<u8>::empty());
    while j < s.len() && 48 <= s[j] && s[j] <= 57
        invariant
            i <= j <= s.len(),
            run(s@, i as int) == (j - i) + run(s@, j as int),
            !too_large ==> value == decimal(s@.subrange(i as int, j as int)),
            too_large ==> decimal(s@.subrange(i as int, j as int)) > u64::MAX,
            value <= u64::MAX,
        decreases s.len() - j,
    {
        let b = s[j];
        proof {
            assert(s@.subrange(i as int, j + 1).drop_last() =~= s@.subrange(i as int, j as int));
            assert(s@.subrange(i as int, j + 1).last() == b);
        }
        if !too_large {
            let next = 10 * value + (b - 48) as u128;
            if next > u64::MAX as u128 {
                too_large = true;
            } else {
                value = next;
            }
        }
        j += 1;
    }
    if too_large {
        (j, None)
    } else {
        (j, Some(value as u64))
    }
}

/// The two numbers of the first range of `s`, each unless it is beyond 64
/// bits; `None` where `s` holds no range.
pub fn find_range(s: &Vec<u8>) -> (found: Option<(Option<u64>, Option<u64>)>)
    ensures
        match found {
            Some((a, b)) => first_range(s@, 0) matches Some((x, y)) && (match a {
                Some(a) => a == x,
                None => x > u64::MAX,
            }) && (match b {
                Some(b) => b == y,
                None => y > u64::MAX,
            }),
            None => first_range(s@, 0) is None,
        },
{
    let mut i: usize = 0;
    while i < s.len()
        invariant
            i <= s.len(),
            first_range(s@, 0) == first_range(s@, i as int),
        decreases s.len() - i,
    {
        let (dash, a) = read_run(s, i);
        if dash > i && dash < s.len() && s[dash] == 45 {
            let (end, b) = read_run(s, dash + 1);
            if end > dash + 1 {
                return Some((a, b));
            }
        }
        i += 1;
    }
    None
}

/// Reads a number with one `+` at most before it.
pub fn parse_unsigned(s: &Vec<u8>) -> (r: Option<u64>)
    ensures
        r == unsigned_spec(s@),
{
    let from: usize = if s.len() > 0 && s[0] == 43 {
        1
    } else {
        0
    };
    assert(s@.skip(0) =~= s@);
    parse_bounded(s, from, u64::MAX)
}

/// Base ten without leading zeros.
pub open spec fn number_text(v: nat) -> Seq<u8>
    decreases v,
{
    if v < 10 {
        seq![(48 + v) as u8]
    } else {
        number_text(v / 10).push((48 + v % 10) as u8)
    }
}

/// Appends `v` in base ten.
pub fn push_number(out: &mut Vec<u8>, v: u64)
    ensures
        final(out)@ == old(out)@ + number_text(v as nat),
    decreases v,
{
    if v >= 10 {
        push_number(out, v / 10);
    }
    out.push(48 + (v % 10) as u8);
    proof {
        if v >= 10 {
            assert(final(out)@ =~= old(out)@ + number_text(v as nat));
        } else {
            assert(final(out)@ =~= old(out)@ + number_text(v as nat));
        }
    }
}

/// What is written in base ten is a number, and the number it was written
/// for.
pub proof fn lemma_number_text(v: nat)
    ensures
        is_number(number_text(v)),
        decimal(number_text(v)) == v,
        forall|i: int| 0 <= i < number_text(v).len() ==> is_digit(#[trigger] number_text(v)[i]),
    decreases v,
{
    let text = number_text(v);
    if v >= 10 {
        lemma_number_text(v / 10);
        assert(text.drop_last() =~= number_text(v / 10));
        assert(text.last() == (48 + v % 10) as u8);
    } else {
        assert(text.drop_last() =~= Seq::<u8>::empty());
        assert(text.last() == (48 + v) as u8);
        assert(decimal(Seq::<u8>::empty()) == 0);
    }
}

} // verus!
