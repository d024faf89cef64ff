use crate::utils::text::{bytes_of, is_digit};
use vstd::prelude::*;
use vstd::string::StringSliceAdditionalSpecFns;

verus! {

/// The most batteries that can be switched on in one bank: the joltage of
/// more would not fit 64 bits.
pub const MAX_BATTERIES: usize = 19;

/// Why a bank has no joltage.
#[derive(Debug, Clone, Copy, PartialEq, Eq, Structural)]
pub enum BankFault {
    /// More batteries are asked for than 64 bits can tell apart.
    TooManyBatteries,
    /// The bank has fewer batteries than are to be switched on.
    TooShort,
    /// The bank holds something other than digits.
    BadDigit,
}

/// Why a list of banks has no joltage.
#[derive(Debug, Clone, Copy, PartialEq, Eq, Structural)]
pub enum JoltageError {
    /// Line `line`, counted from zero, has no joltage.
    Bank { line: usize, fault: BankFault },
    /// The sum is beyond 64 bits.
    Overflow,
}

/// Every byte is a digit.
pub open spec fn all_digits(bank: Seq<u8>) -> bool {
    forall|i: int| 0 <= i < bank.len() ==> is_digit(#[trigger] bank[i])
}

/// The largest number that `k` of the digits of `bank` write, taken in
/// their order: the last digit is either left out or stands last behind
/// the best `k - 1` of the digits before it. Zero where there are fewer
/// than `k` digits.
pub open spec fn best(bank: Seq<u8>, k: nat) -> nat
    decreases bank.len(),
{
    if k == 0 || bank.len() < k {
        0
    } else {
        let with_last = 10 * best(bank.drop_last(), (k - 1) as nat) + (bank.last() - 48) as nat;
        let without = best(bank.drop_last(), k);
        if bank.len() > k && without >= with_last {
            without
        } else {
            with_last
        }
    }
}

/// `10^k`.
pub open spec fn ten_pow(k: nat) -> nat
    decreases k,
{
    if k == 0 {
        1
    } else {
        10 * ten_pow((k - 1) as nat)
    }
}

/// `picks` chooses places of a bank of `len` batteries from left to right.
pub open spec fn is_choice(picks: Seq<int>, len: int) -> bool {
    &&& forall|i: int| 0 <= i < picks.len() ==> 0 <= #[trigger] picks[i] < len
    &&& forall|i: int, j: int| 0 <= i < j < picks.len() ==> #[trigger] picks[i] < #[trigger] picks[j]
}

/// The number that the chosen digits write.
pub open spec fn written(bank: Seq<u8>, picks: Seq<int>) -> nat
    decreases picks.len(),
{
    if picks.len() == 0 {
        0
    } else {
        10 * written(bank, picks.drop_last()) + (bank[picks.last()] - 48) as nat
    }
}

/// A choice of `k` places that writes `best(bank, k)`.
pub open spec fn best_choice(bank: Seq<u8>, k: nat) -> Seq<int>
    decreases bank.len(),
{
    if k == 0 || bank.len() < k {
        Seq::empty()
    } else {
        let with_last = 10 * best(bank.drop_last(), (k - 1) as nat) + (bank.last() - 48) as nat;
        let without = best(bank.drop_last(), k);
        if bank.len() > k && without >= with_last {
            best_choice(bank.drop_last(), k)
        } else {
            best_choice(bank.drop_last(), (k - 1) as nat).push(bank.len() - 1)
        }
    }
}

/// No choice of `k` digits writes more than `best(bank, k)`.
pub proof fn lemma_best_is_upper_bound(bank: Seq<u8>, picks: Seq<int>)
    requires
        all_digits(bank),
        is_choice(picks, bank.len() as int),
    ensures
        written(bank, picks) <= best(bank, picks.len()),
    decreases bank.len(),
{
    let k = picks.len();
    if k == 0 {
    } else {
        assert(picks[0] <= picks[k - 1] - (k - 1)) by {
            lemma_choice_spread(picks, 0, k - 1);
        }
        let shorter = bank.drop_last();
        let init = picks.drop_last();
        if picks.last() == bank.len() - 1 {
            assert forall|i: int| 0 <= i < init.len() implies 0 <= #[trigger] init[i]
                < shorter.len() by {
                assert(picks[i] < picks[k - 1]);
            }
            lemma_best_is_upper_bound(shorter, init);
            lemma_written_same(bank, shorter, init);
        } else {
            assert forall|i: int| 0 <= i < picks.len() implies 0 <= #[trigger] picks[i]
                < shorter.len() by {
                if i < k - 1 {
                    assert(picks[i] < picks[k - 1]);
                }
            }
            lemma_best_is_upper_bound(shorter, picks);
            lemma_written_same(bank, shorter, picks);
            assert(shorter.len() >= k) by {
                lemma_choice_spread(picks, 0, k - 1);
            }
        }
    }
}

/// Places chosen from left to right lie as far apart as they are many.
pub proof fn lemma_choice_spread(picks: Seq<int>, i: int, j: int)
    requires
        0 <= i <= j < picks.len(),
        forall|a: int, b: int| 0 <= a < b < picks.len() ==> #[trigger] picks[a] < #[trigger] picks[b],
    ensures
        picks[i] + (j - i) <= picks[j],
    decreases j - i,
{
    if i < j {
        lemma_choice_spread(picks, i, j - 1);
        assert(picks[j - 1] < picks[j]);
    }
}

/// What a choice writes depends on the chosen digits alone.
pub proof fn lemma_written_same(a: Seq<u8>, b: Seq<u8>, picks: Seq<int>)
    requires
        forall|i: int| 0 <= i < picks.len() ==> a[#[trigger] picks[i]] == b[picks[i]],
    ensures
        written(a, picks) == written(b, picks),
    decreases picks.len(),
{
    if picks.len() > 0 {
        lemma_written_same(a, b, picks.drop_last());
        assert(a[picks[picks.len() - 1]] == b[picks[picks.len() - 1]]);
    }
}

/// Some choice of `k` digits writes `best(bank, k)`.
pub proof fn lemma_best_is_written(bank: Seq<u8>, k: nat)
    requires
        k <= bank.len(),
    ensures
        best_choice(bank, k).len() == k,
        is_choice(best_choice(bank, k), bank.len() as int),
        written(bank, best_choice(bank, k)) == best(bank, k),
    decreases bank.len(),
{
    if k == 0 {
    } else {
        let shorter = bank.drop_last();
        let with_last = 10 * best(shorter, (k - 1) as nat) + (bank.last() - 48) as nat;
        let without = best(shorter, k);
        if bank.len() > k && without >= with_last {
            lemma_best_is_written(shorter, k);
            lemma_written_same(bank, shorter, best_choice(shorter, k));
        } else {
            lemma_best_is_written(shorter, (k - 1) as nat);
            let init = best_choice(shorter, (k - 1) as nat);
            let picks = init.push(bank.len() - 1);
            assert(picks.drop_last() =~= init);
            lemma_written_same(bank, shorter, init);
        }
    }
}

/// `k` digits write less than `10^k`.
pub proof fn lemma_best_bound(bank: Seq<u8>, k: nat)
    requires
        all_digits(bank),
    ensures
        best(bank, k) < ten_pow(k),
    decreases bank.len(),
{
    if k == 0 || bank.len() < k {
        lemma_ten_pow_positive(k);
    } else {
        lemma_best_bound(bank.drop_last(), (k - 1) as nat);
        lemma_best_bound(bank.drop_last(), k);
        assert(is_digit(bank[bank.len() - 1]));
    }
}

/// A power of ten is one at least.
pub proof fn lemma_ten_pow_positive(k: nat)
    ensures
        ten_pow(k) >= 1,
    decreases k,
{
    if k > 0 {
        lemma_ten_pow_positive((k - 1) as nat);
    }
}

/// A higher power of ten is no smaller.
pub proof fn lemma_ten_pow_monotone(a: nat, b: nat)
    requires
        a <= b,
    ensures
        ten_pow(a) <= ten_pow(b),
    decreases b,
{
    if a < b {
        lemma_ten_pow_monotone(a, (b - 1) as nat);
        lemma_ten_pow_positive((b - 1) as nat);
    }
}

/// The eighteenth power of ten.
pub proof fn lemma_ten_pow_18()
    ensures
        ten_pow(18) == 1_000_000_000_000_000_000,
{
    reveal_with_fuel(ten_pow, 19);
}

/// What a bank yields with `n` batteries switched on.
pub open spec fn joltage(bank: Seq<u8>, n: nat) -> Result<u64, BankFault> {
    if n > MAX_BATTERIES {
        Err(BankFault::TooManyBatteries)
    } else if bank.len() < n {
        Err(BankFault::TooShort)
    } else if !all_digits(bank) {
        Err(BankFault::BadDigit)
    } else {
        Ok(best(bank, n) as u64)
    }
}

/// The largest joltage that `n` batteries of the bank give: the largest
/// number that `n` of its digits write, taken in their order.
///
/// Fails with `TooManyBatteries` for more than `MAX_BATTERIES`, else with
/// `TooShort` where the bank has fewer than `n` batteries, else with
/// `BadDigit` where the line holds something other than digits.
pub fn find_joltage(line: &str, n: usize) -> (r: Result<u64, BankFault>)
    ensures
        r == joltage(line.spec_bytes(), n as nat),
{
    let bank = line.as_bytes();
    if n > MAX_BATTERIES {
        return Err(BankFault::TooManyBatteries);
    }
    if bank.len() < n {
        return Err(BankFault::TooShort);
    }
    // `row[k]` is the best that `k` of the digits read so far write.
    let mut row: Vec<u64> = Vec::new();
    let mut k: usize = 0;
    assert(bank@.take(0) =~= Seq::<u8>::empty());
    while k <= n
        invariant
            k <= n + 1,
            n <= MAX_BATTERIES,
            row.len() == k,
            forall|h: int| 0 <= h < k ==> #[trigger] row[h] == best(bank@.take(0), h as nat),
        decreases n + 1 - k,
    {
        row.push(0);
        k += 1;
    }
    let mut i: usize = 0;
    while i < bank.len()
        invariant
            i <= bank.len(),
            n <= MAX_BATTERIES,
            n <= bank.len(),
            bank@ == line.spec_bytes(),
            row.len() == n + 1,
            all_digits(bank@.take(i as int)),
            forall|h: int| 0 <= h <= n ==> #[trigger] row[h] == best(bank@.take(i as int), h as nat),
        decreases bank.len() - i,
    {
        let b = bank[i];
        if b < 48 || b > 57 {
            assert(!all_digits(bank@)) by {
                assert(!is_digit(bank@[i as int]));
            }
            return Err(BankFault::BadDigit);
        }
        let ghost before = bank@.take(i as int);
        let ghost now = bank@.take(i + 1);
        proof {
            assert(now.drop_last() =~= before);
            assert(now.last() == b);
            assert forall|h: int| 0 <= h < now.len() implies is_digit(#[trigger] now[h]) by {
                if h < i {
                    assert(before[h] == bank@[h]);
                }
            }
        }
        let mut next: Vec<u64> = Vec::new();
        next.push(0);
        let mut k: usize = 1;
        while k <= n
            invariant
                1 <= k <= n + 1,
                n <= MAX_BATTERIES,
                i < bank.len(),
                row.len() == n + 1,
                next.len() == k,
                48 <= b <= 57,
                before == bank@.take(i as int),
                now == bank@.take(i + 1),
                now.drop_last() == before,
                now.last() == b,
                all_digits(before),
                forall|h: int| 0 <= h <= n ==> #[trigger] row[h] == best(before, h as nat),
                forall|h: int| 0 <= h < k ==> #[trigger] next[h] == best(now, h as nat),
            decreases n + 1 - k,
        {
            proof {
                lemma_best_bound(before, (k - 1) as nat);
                lemma_ten_pow_monotone((k - 1) as nat, 18);
                lemma_ten_pow_18();
            }
            let value = if i + 1 < k {
                0
            } else {
                let with_last = 10 * row[k - 1] + (b - 48) as u64;
                let without = row[k];
                if i + 1 > k && without >= with_last {
                    without
                } else {
                    with_last
                }
            };
            next.push(value);
            k += 1;
        }
        row = next;
        i += 1;
    }
    assert(bank@.take(bank.len() as int) =~= bank@);
    Ok(row[n])
}

/// The sum of the joltages of the first `k` banks: the first bank without
/// one decides the error, unless the sum outgrows 64 bits before it.
pub open spec fn total(lines: Seq<Seq<u8>>, n: nat, k: nat) -> Result<u64, JoltageError>
    decreases k,
{
    if k == 0 {
        Ok(0)
    } else {
        match total(lines, n, (k - 1) as nat) {
            Err(e) => Err(e),
            Ok(sum) => match joltage(lines[k - 1], n) {
                Err(fault) => Err(JoltageError::Bank { line: (k - 1) as usize, fault }),
                Ok(v) => if sum + v > u64::MAX {
                    Err(JoltageError::Overflow)
                } else {
                    Ok((sum + v) as u64)
                },
            },
        }
    }
}

/// A bank without a joltage is the error of every longer list.
pub proof fn lemma_total_error_stays(lines: Seq<Seq<u8>>, n: nat, a: nat, b: nat)
    requires
        a <= b,
        total(lines, n, a) is Err,
    ensures
        total(lines, n, b) == total(lines, n, a),
    decreases b,
{
    if a < b {
        lemma_total_error_stays(lines, n, a, (b - 1) as nat);
    }
}

/// The sum, over the banks, of the largest joltage that `n` batteries of
/// each give.
pub fn joltage_lobby(lines: &Vec<String>, n: usize) -> (r: Result<u64, JoltageError>)
    ensures
        r == total(bytes_of(lines@), n as nat, lines@.len()),
{
    let ghost all = bytes_of(lines@);
    let mut sum: u64 = 0;
    let mut i: usize = 0;
    while i < lines.len()
        invariant
            i <= lines.len(),
            all == bytes_of(lines@),
            total(all, n as nat, i as nat) == Ok::<u64, JoltageError>(sum),
        decreases lines.len() - i,
    {
        let v = match find_joltage(lines[i].as_str(), n) {
            Ok(v) => v,
            Err(fault) => {
                proof {
                    lemma_total_error_stays(all, n as nat, (i + 1) as nat, lines@.len());
                }
                return Err(JoltageError::Bank { line: i, fault });
            },
        };
        sum = match sum.checked_add(v) {
            Some(sum) => sum,
            None => {
                proof {
                    lemma_total_error_stays(all, n as nat, (i + 1) as nat, lines@.len());
                }
                return Err(JoltageError::Overflow);
            },
        };
        i += 1;
    }
    Ok(sum)
}

} // verus!
