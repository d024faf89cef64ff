use crate::utils::text::{
    decimal, is_digit, is_number, lemma_number_text, number_text, push_number,
};
use vstd::prelude::*;

verus! {

/// Why a line does not describe a machine.
#[derive(Debug, Clone, Copy, PartialEq, Eq, Structural)]
pub enum ParseError {
    /// The line has fewer than three words, or a word lacks the brackets of
    /// its place.
    MissingGroup,
    /// The light diagram has more than 64 lights.
    TooManyLights,
    /// The light diagram holds something other than `.` and `#`.
    InvalidLight,
    /// An entry of a list is empty or holds something other than digits.
    InvalidNumber,
    /// An entry of a list is beyond 32 bits.
    NumberTooLarge,
    /// A button names a position that the lights or the counters lack.
    IndexOutOfRange,
}

/// The values joined by commas. Empty for no values.
pub open spec fn list_text(values: Seq<u32>) -> Seq<u8>
    decreases values.len(),
{
    if values.len() == 0 {
        Seq::empty()
    } else if values.len() == 1 {
        number_text(values[0] as nat)
    } else {
        list_text(values.drop_last()) + seq![44u8] + number_text(values.last() as nat)
    }
}

/// What `field` stands for as a number of 32 bits.
pub open spec fn number_spec(field: Seq<u8>) -> Result<u32, ParseError> {
    if !is_number(field) {
        Err(ParseError::InvalidNumber)
    } else if decimal(field) > u32::MAX {
        Err(ParseError::NumberTooLarge)
    } else {
        Ok(decimal(field) as u32)
    }
}

/// The number that `s` writes.
///
/// Fails with `InvalidNumber` where `s` is empty or holds anything but
/// digits, and with `NumberTooLarge` where the digits write a number
/// beyond 32 bits.
pub fn parse_number(s: &Vec<u8>) -> (r: Result<u32, ParseError>)
    ensures
        r == number_spec(s@),
{
    if s.len() == 0 {
        return Err(ParseError::InvalidNumber);
    }
    let mut value: u64 = 0;
    let mut too_large = false;
    let mut i: usize = 0;
    assert(s@.take(0) =~= Seq::<u8>::empty());
    while i < s.len()
        invariant
            i <= s.len(),
            forall|h: int| 0 <= h < i ==> is_digit(#[trigger] s[h]),
            !too_large ==> value == decimal(s@.take(i as int)),
            too_large ==> decimal(s@.take(i as int)) > u32::MAX,
            value <= u32::MAX,
        decreases s.len() - i,
    {
        let b = s[i];
        if b < 48 || b > 57 {
            return Err(ParseError::InvalidNumber);
        }
        proof {
            assert(s@.take(i + 1).drop_last() =~= s@.take(i as int));
        }
        if !too_large {
            let next = 10 * value + (b - 48) as u64;
            if next > u32::MAX as u64 {
                too_large = true;
            } else {
                value = next;
            }
        }
        i += 1;
    }
    assert(s@.take(s.len() as int) =~= s@);
    if too_large {
        Err(ParseError::NumberTooLarge)
    } else {
        Ok(value as u32)
    }
}

/// Appends the values, joined by commas.
pub fn push_list(out: &mut Vec<u8>, values: &Vec<u32>)
    ensures
        final(out)@ == old(out)@ + list_text(values@),
{
    let mut i: usize = 0;
    assert(values@.take(0) =~= Seq::<u32>::empty());
    assert(out@ =~= old(out)@ + list_text(values@.take(0)));
    while i < values.len()
        invariant
            i <= values.len(),
            out@ == old(out)@ + list_text(values@.take(i as int)),
        decreases values.len() - i,
    {
        if i > 0 {
            out.push(44);
        }
        push_number(out, values[i] as u64);
        proof {
            let now = values@.take(i + 1);
            assert(now.drop_last() =~= values@.take(i as int));
            assert(now.last() == values[i as int]);
            assert(out@ =~= old(out)@ + list_text(now));
        }
        i += 1;
    }
    assert(values@.take(values.len() as int) =~= values@);
}

/// A number reads back as it was written.
pub proof fn lemma_number_round_trip(v: nat)
    ensures
        is_number(number_text(v)),
        decimal(number_text(v)) == v,
        v <= u32::MAX ==> number_spec(number_text(v)) == Ok::<u32, ParseError>(v as u32),
        forall|i: int| 0 <= i < number_text(v).len() ==> is_digit(#[trigger] number_text(v)[i]),
{
    lemma_number_text(v);
}

} // verus!
