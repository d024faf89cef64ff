use crate::utils::text::{bytes_of, parse_unsigned, split_words, unsigned_spec, views, words};
use vstd::prelude::*;

verus! {

/// Why a worksheet has no grand total.
#[derive(Debug, Clone, Copy, PartialEq, Eq, Structural)]
pub enum SheetError {
    /// Line `line`, counted from zero, holds no operation and a word that
    /// is no number.
    BadNumber { line: usize },
    /// Operation `column`, counted from zero, is neither `+` nor `*`.
    BadOperation { column: usize },
    /// There is no row of numbers, or one without a number for operation
    /// `column`.
    MissingNumber { column: usize },
    /// There is no line, or the lines differ in length.
    Ragged,
    /// Word `word` of the turned worksheet, counted from zero, is neither a
    /// number nor ends in an operation.
    BadWord { word: usize },
    /// Word `word` of the turned worksheet ends a problem without numbers.
    EmptyProblem { word: usize },
    /// A sum or a product is beyond 64 bits.
    Overflow,
}

/// What a problem does with its numbers.
#[derive(Debug, Clone, Copy, PartialEq, Eq, Structural)]
pub enum Operation {
    Add,
    Multiply,
}

/// What went wrong in one column.
#[derive(Debug, Clone, Copy, PartialEq, Eq, Structural)]
pub enum Fault {
    Missing,
    Overflow,
}

/// The line holds a `+` or a `*`.
pub open spec fn has_operation(s: Seq<u8>) -> bool {
    exists|i: int| 0 <= i < s.len() && (#[trigger] s[i] == 42 || s[i] == 43)
}

/// The numbers that the words write, where each writes one.
pub open spec fn numbers(ws: Seq<Seq<u8>>) -> Option<Seq<u64>>
    decreases ws.len(),
{
    if ws.len() == 0 {
        Some(Seq::empty())
    } else {
        match (numbers(ws.drop_last()), unsigned_spec(ws.last())) {
            (Some(before), Some(v)) => Some(before.push(v)),
            _ => None,
        }
    }
}

/// What the first `k` lines hold: the rows of numbers, and the operations
/// of all lines that hold any, or the number of the first line without an
/// operation that is no row of numbers.
pub open spec fn sheet(lines: Seq<Seq<u8>>, k: nat) -> Result<(Seq<Seq<u64>>, Seq<Seq<u8>>), usize>
    decreases k,
{
    if k == 0 {
        Ok((Seq::empty(), Seq::empty()))
    } else {
        match sheet(lines, (k - 1) as nat) {
            Err(line) => Err(line),
            Ok((rows, operations)) => if has_operation(lines[k - 1]) {
                Ok((rows, operations + words(lines[k - 1])))
            } else {
                match numbers(words(lines[k - 1])) {
                    Some(row) => Ok((rows.push(row), operations)),
                    None => Err((k - 1) as usize),
                }
            },
        }
    }
}

/// The operation that a word names.
pub open spec fn operation(word: Seq<u8>) -> Option<Operation> {
    if word == seq![43u8] {
        Some(Operation::Add)
    } else if word == seq![42u8] {
        Some(Operation::Multiply)
    } else {
        None
    }
}

/// The sum or the product of two numbers, where it is within 64 bits.
pub open spec fn apply(op: Operation, a: u64, b: u64) -> Option<u64> {
    match op {
        Operation::Add => if a + b <= u64::MAX {
            Some((a + b) as u64)
        } else {
            None
        },
        Operation::Multiply => if a * b <= u64::MAX {
            Some((a * b) as u64)
        } else {
            None
        },
    }
}

/// The numbers of column `i` in the first `k` rows, taken together from
/// the top: fails at the first row without the column, or the first step
/// beyond 64 bits, and where there is no row.
pub open spec fn column(rows: Seq<Seq<u64>>, op: Operation, i: int, k: nat) -> Result<u64, Fault>
    decreases k,
{
    if k == 0 {
        Err(Fault::Missing)
    } else if k == 1 {
        if i < rows[0].len() {
            Ok(rows[0][i])
        } else {
            Err(Fault::Missing)
        }
    } else {
        match column(rows, op, i, (k - 1) as nat) {
            Err(e) => Err(e),
            Ok(above) => if i < rows[k - 1].len() {
                match apply(op, above, rows[k - 1][i]) {
                    Some(v) => Ok(v),
                    None => Err(Fault::Overflow),
                }
            } else {
                Err(Fault::Missing)
            },
        }
    }
}

/// The sum of the first `k` problems, each the numbers of its column taken
/// together by its operation.
pub open spec fn grand_total(rows: Seq<Seq<u64>>, operations: Seq<Seq<u8>>, k: nat) -> Result<
    u64,
    SheetError,
>
    decreases k,
{
    if k == 0 {
        Ok(0)
    } else {
        match grand_total(rows, operations, (k - 1) as nat) {
            Err(e) => Err(e),
            Ok(sum) => match operation(operations[k - 1]) {
                None => Err(SheetError::BadOperation { column: (k - 1) as usize }),
                Some(op) => match column(rows, op, k - 1, rows.len()) {
                    Err(Fault::Missing) => Err(
                        SheetError::MissingNumber { column: (k - 1) as usize },
                    ),
                    Err(Fault::Overflow) => Err(SheetError::Overflow),
                    Ok(v) => if sum + v <= u64::MAX {
                        Ok((sum + v) as u64)
                    } else {
                        Err(SheetError::Overflow)
                    },
                },
            },
        }
    }
}

/// A line that cannot be read is the error of every longer worksheet.
pub proof fn lemma_sheet_error_stays(lines: Seq<Seq<u8>>, a: nat, b: nat)
    requires
        a <= b,
        sheet(lines, a) is Err,
    ensures
        sheet(lines, b) == sheet(lines, a),
    decreases b,
{
    if a < b {
        lemma_sheet_error_stays(lines, a, (b - 1) as nat);
    }
}

/// What goes wrong in a column goes wrong however many rows follow.
pub proof fn lemma_column_error_stays(rows: Seq<Seq<u64>>, op: Operation, i: int, a: nat, b: nat)
    requires
        1 <= a <= b,
        column(rows, op, i, a) is Err,
    ensures
        column(rows, op, i, b) == column(rows, op, i, a),
    decreases b,
{
    if a < b {
        lemma_column_error_stays(rows, op, i, a, (b - 1) as nat);
    }
}

/// A problem without an answer is the error of every longer worksheet.
pub proof fn lemma_grand_total_error_stays(
    rows: Seq<Seq<u64>>,
    operations: Seq<Seq<u8>>,
    a: nat,
    b: nat,
)
    requires
        a <= b,
        grand_total(rows, operations, a) is Err,
    ensures
        grand_total(rows, operations, b) == grand_total(rows, operations, a),
    decreases b,
{
    if a < b {
        lemma_grand_total_error_stays(rows, operations, a, (b - 1) as nat);
    }
}

/// The rows as sequences.
pub open spec fn row_views(rows: Seq<Vec<u64>>) -> Seq<Seq<u64>> {
    Seq::new(rows.len(), |i: int| rows[i]@)
}

/// Whether the line holds a `+` or a `*`.
fn holds_operation(s: &[u8]) -> (b: bool)
    ensures
        b == has_operation(s@),
{
    let mut i: usize = 0;
    while i < s.len()
        invariant
            i <= s.len(),
            forall|h: int| 0 <= h < i ==> !(#[trigger] s[h] == 42 || s[h] == 43),
        decreases s.len() - i,
    {
        if s[i] == 42 || s[i] == 43 {
            return true;
        }
        i += 1;
    }
    false
}

/// A copy of `v`.
fn copy_bytes(v: &Vec<u8>) -> (w: Vec<u8>)
    ensures
        w@ == v@,
{
    let mut w: Vec<u8> = Vec::new();
    let mut i: usize = 0;
    while i < v.len()
        invariant
            i <= v.len(),
            w@ == v@.take(i as int),
        decreases v.len() - i,
    {
        w.push(v[i]);
        assert(w@ =~= v@.take(i + 1));
        i += 1;
    }
    assert(v@.take(v.len() as int) =~= v@);
    w
}

/// The numbers that the words write.
fn read_numbers(ws: &Vec<Vec<u8>>) -> (row: Option<Vec<u64>>)
    ensures
        match row {
            Some(row) => numbers(views(ws@)) == Some(row@),
            None => numbers(views(ws@)) is None,
        },
{
    let ghost all = views(ws@);
    let mut row: Vec<u64> = Vec::new();
    let mut i: usize = 0;
    assert(all.take(0) =~= Seq::<Seq<u8>>::empty());
    while i < ws.len()
        invariant
            i <= ws.len(),
            all == views(ws@),
            numbers(all.take(i as int)) == Some(row@),
        decreases ws.len() - i,
    {
        proof {
            assert(all.take(i + 1).drop_last() =~= all.take(i as int));
            assert(all.take(i + 1).last() == ws[i as int]@);
        }
        match parse_unsigned(&ws[i]) {
            Some(v) => {
                row.push(v);
            },
            None => {
                proof {
                    lemma_numbers_none_stays(all, i + 1);
                }
                return None;
            },
        }
        i += 1;
    }
    assert(all.take(ws.len() as int) =~= all);
    Some(row)
}

/// A word that is no number leaves every longer row without numbers.
pub proof fn lemma_numbers_none_stays(ws: Seq<Seq<u8>>, k: int)
    requires
        0 <= k <= ws.len(),
        numbers(ws.take(k)) is None,
    ensures
        numbers(ws) is None,
    decreases ws.len(),
{
    if k < ws.len() {
        assert(ws.drop_last().take(k) =~= ws.take(k));
        lemma_numbers_none_stays(ws.drop_last(), k);
    } else {
        assert(ws.take(k) =~= ws);
    }
}

/// Reads the rows of numbers and the operations of a worksheet.
pub fn read_input(lines: &Vec<String>) -> (r: Result<(Vec<Vec<u64>>, Vec<Vec<u8>>), usize>)
    ensures
        match r {
            Ok((rows, operations)) => sheet(bytes_of(lines@), lines@.len()) == Ok::<
                (Seq<Seq<u64>>, Seq<Seq<u8>>),
                usize,
            >((row_views(rows@), views(operations@))),
            Err(line) => sheet(bytes_of(lines@), lines@.len()) == Err::<
                (Seq<Seq<u64>>, Seq<Seq<u8>>),
                usize,
            >(line),
        },
{
    let ghost all = bytes_of(lines@);
    let mut rows: Vec<Vec<u64>> = Vec::new();
    let mut operations: Vec<Vec<u8>> = Vec::new();
    let mut i: usize = 0;
    assert(row_views(rows@) =~= Seq::<Seq<u64>>::empty());
    assert(views(operations@) =~= Seq::<Seq<u8>>::empty());
    while i < lines.len()
        invariant
            i <= lines.len(),
            all == bytes_of(lines@),
            sheet(all, i as nat) == Ok::<(Seq<Seq<u64>>, Seq<Seq<u8>>), usize>(
                (row_views(rows@), views(operations@)),
            ),
        decreases lines.len() - i,
    {
        let line = lines[i].as_str().as_bytes();
        let found = split_words(line);
        if holds_operation(line) {
            let ghost before = views(operations@);
            let mut j: usize = 0;
            assert(views(found@).take(0) =~= Seq::<Seq<u8>>::empty());
            assert(before + views(found@).take(0) =~= before);
            while j < found.len()
                invariant
                    j <= found.len(),
                    views(operations@) == before + views(found@).take(j as int),
                decreases found.len() - j,
            {
                let word = copy_bytes(&found[j]);
                let ghost earlier = views(operations@);
                operations.push(word);
                assert(views(operations@) =~= earlier.push(found[j as int]@));
                assert(views(operations@) =~= before + views(found@).take(j + 1));
                j += 1;
            }
            assert(views(found@).take(found.len() as int) =~= views(found@));
        } else {
            match read_numbers(&found) {
                Some(row) => {
                    let ghost earlier = row_views(rows@);
                    rows.push(row);
                    assert(row_views(rows@) =~= earlier.push(row@));
                },
                None => {
                    proof {
                        lemma_sheet_error_stays(all, (i + 1) as nat, lines@.len());
                    }
                    return Err(i);
                },
            }
        }
        i += 1;
    }
    Ok((rows, operations))
}

/// The operation that a word names.
fn read_operation(word: &Vec<u8>) -> (op: Option<Operation>)
    ensures
        op == operation(word@),
{
    if word.len() == 1 && word[0] == 43 {
        assert(word@ =~= seq![43u8]);
        Some(Operation::Add)
    } else if word.len() == 1 && word[0] == 42 {
        assert(word@ =~= seq![42u8]);
        Some(Operation::Multiply)
    } else {
        assert(word@ != seq![43u8]) by {
            if word.len() == 1 {
                assert(seq![43u8][0] == 43u8);
            } else {
                assert(seq![43u8].len() == 1);
            }
        }
        assert(word@ != seq![42u8]) by {
            if word.len() == 1 {
                assert(seq![42u8][0] == 42u8);
            } else {
                assert(seq![42u8].len() == 1);
            }
        }
        None
    }
}

/// The sum or the product of two numbers, where it is within 64 bits.
fn combine(op: Operation, a: u64, b: u64) -> (r: Option<u64>)
    ensures
        r == apply(op, a, b),
{
    match op {
        Operation::Add => a.checked_add(b),
        Operation::Multiply => a.checked_mul(b),
    }
}

/// The numbers of column `i`, taken together from the top.
fn solve_column(rows: &Vec<Vec<u64>>, op: Operation, i: usize) -> (r: Result<u64, Fault>)
    ensures
        r == column(row_views(rows@), op, i as int, rows@.len()),
{
    let ghost all = row_views(rows@);
    if rows.len() == 0 {
        return Err(Fault::Missing);
    }
    assert(all[0] == rows[0]@);
    if i >= rows[0].len() {
        proof {
            lemma_column_error_stays(all, op, i as int, 1, rows@.len());
        }
        return Err(Fault::Missing);
    }
    let mut value: u64 = rows[0][i];
    let mut k: usize = 1;
    while k < rows.len()
        invariant
            1 <= k <= rows.len(),
            all == row_views(rows@),
            column(all, op, i as int, k as nat) == Ok::<u64, Fault>(value),
        decreases rows.len() - k,
    {
        assert(all[k as int] == rows[k as int]@);
        if i >= rows[k].len() {
            proof {
                lemma_column_error_stays(all, op, i as int, (k + 1) as nat, rows@.len());
            }
            return Err(Fault::Missing);
        }
        value = match combine(op, value, rows[k][i]) {
            Some(v) => v,
            None => {
                proof {
                    lemma_column_error_stays(all, op, i as int, (k + 1) as nat, rows@.len());
                }
                return Err(Fault::Overflow);
            },
        };
        k += 1;
    }
    Ok(value)
}

/// The grand total of a worksheet read row by row: each line with a `+` or a
/// `*` gives operations, every other line a row of numbers, and problem
/// `i` takes the `i`-th number of every row together by operation `i`.
pub fn trash_compactor_part_one(lines: &Vec<String>) -> (r: Result<u64, SheetError>)
    ensures
        match sheet(bytes_of(lines@), lines@.len()) {
            Err(line) => r == Err::<u64, SheetError>(SheetError::BadNumber { line }),
            Ok((rows, operations)) => r == grand_total(rows, operations, operations.len()),
        },
{
    let (rows, operations) = match read_input(lines) {
        Ok(found) => found,
        Err(line) => {
            return Err(SheetError::BadNumber { line });
        },
    };
    let ghost all = row_views(rows@);
    let ghost ops = views(operations@);
    let mut result: u64 = 0;
    let mut i: usize = 0;
    while i < operations.len()
        invariant
            i <= operations.len(),
            all == row_views(rows@),
            ops == views(operations@),
            sheet(bytes_of(lines@), lines@.len()) == Ok::<(Seq<Seq<u64>>, Seq<Seq<u8>>), usize>(
                (all, ops),
            ),
            grand_total(all, ops, i as nat) == Ok::<u64, SheetError>(result),
        decreases operations.len() - i,
    {
        assert(ops[i as int] == operations[i as int]@);
        proof {
            lemma_stays_or_not(all, ops, (i + 1) as nat);
        }
        let op = match read_operation(&operations[i]) {
            Some(op) => op,
            None => {
                return Err(SheetError::BadOperation { column: i });
            },
        };
        let value = match solve_column(&rows, op, i) {
            Ok(value) => value,
            Err(Fault::Missing) => {
                return Err(SheetError::MissingNumber { column: i });
            },
            Err(Fault::Overflow) => {
                return Err(SheetError::Overflow);
            },
        };
        result = match result.checked_add(value) {
            Some(sum) => sum,
            None => {
                return Err(SheetError::Overflow);
            },
        };
        i += 1;
    }
    Ok(result)
}

/// An error in the first `k` problems is the error of the worksheet.
pub proof fn lemma_stays_or_not(rows: Seq<Seq<u64>>, operations: Seq<Seq<u8>>, k: nat)
    requires
        k <= operations.len(),
    ensures
        grand_total(rows, operations, k) is Err ==> grand_total(
            rows,
            operations,
            operations.len(),
        ) == grand_total(rows, operations, k),
{
    if grand_total(rows, operations, k) is Err {
        lemma_grand_total_error_stays(rows, operations, k, operations.len());
    }
}


/// The lines make a block: one line at least, all of one length.
pub open spec fn is_block(lines: Seq<Seq<u8>>) -> bool {
    lines.len() > 0 && forall|r: int|
        0 <= r < lines.len() ==> (#[trigger] lines[r]).len() == lines[0].len()
}

/// The bytes that the first `k` lines have in place `c`, from the top.
pub open spec fn column_text(lines: Seq<Seq<u8>>, c: int, k: nat) -> Seq<u8>
    decreases k,
{
    if k == 0 {
        Seq::empty()
    } else {
        column_text(lines, c, (k - 1) as nat).push(lines[k - 1][c])
    }
}

/// The `i` last columns of a block of `n` columns, from the right, each
/// from the top, one behind the other.
pub open spec fn turned(lines: Seq<Seq<u8>>, n: int, i: nat) -> Seq<u8>
    decreases i,
{
    if i == 0 {
        Seq::empty()
    } else {
        turned(lines, n, (i - 1) as nat) + column_text(lines, n - i, lines.len())
    }
}

/// The operation that a word ends in.
pub open spec fn closing(word: Seq<u8>) -> Option<Operation> {
    if word.len() > 0 && word.last() == 42 {
        Some(Operation::Multiply)
    } else if word.len() > 0 && word.last() == 43 {
        Some(Operation::Add)
    } else {
        None
    }
}

/// The first `k` numbers taken together from the first on, where no step
/// is beyond 64 bits. `None` for no numbers.
pub open spec fn reduce(op: Operation, queue: Seq<u64>, k: nat) -> Option<u64>
    decreases k,
{
    if k == 0 {
        None
    } else if k == 1 {
        Some(queue[0])
    } else {
        match reduce(op, queue, (k - 1) as nat) {
            None => None,
            Some(before) => apply(op, before, queue[k - 1]),
        }
    }
}

/// Where the reading of a turned worksheet stands: the numbers of the
/// problem that is open, and the sum of the problems that are closed.
pub struct Tally {
    pub queue: Seq<u64>,
    pub result: u64,
}

/// The numbers that word `word` closes a problem with: those that are
/// open, and its own where it has one before its operation.
pub open spec fn closed_with(queue: Seq<u64>, word: Seq<u8>) -> Seq<u64> {
    match unsigned_spec(word.drop_last()) {
        Some(v) => queue.push(v),
        None => queue,
    }
}

/// Where the reading stands after the first `k` words: a word that ends in
/// an operation closes the problem of the numbers before it, any other
/// word is a number of the open problem.
pub open spec fn tally(ws: Seq<Seq<u8>>, k: nat) -> Result<Tally, SheetError>
    decreases k,
{
    if k == 0 {
        Ok(Tally { queue: Seq::empty(), result: 0 })
    } else {
        match tally(ws, (k - 1) as nat) {
            Err(e) => Err(e),
            Ok(t) => match closing(ws[k - 1]) {
                Some(op) => {
                    let queue = closed_with(t.queue, ws[k - 1]);
                    if queue.len() == 0 {
                        Err(SheetError::EmptyProblem { word: (k - 1) as usize })
                    } else {
                        match reduce(op, queue, queue.len()) {
                            None => Err(SheetError::Overflow),
                            Some(v) => if t.result + v <= u64::MAX {
                                Ok(Tally { queue: Seq::empty(), result: (t.result + v) as u64 })
                            } else {
                                Err(SheetError::Overflow)
                            },
                        }
                    }
                },
                None => match unsigned_spec(ws[k - 1]) {
                    Some(v) => Ok(Tally { queue: t.queue.push(v), result: t.result }),
                    None => Err(SheetError::BadWord { word: (k - 1) as usize }),
                },
            },
        }
    }
}

/// A word that cannot be read is the error of every longer text.
pub proof fn lemma_tally_error_stays(ws: Seq<Seq<u8>>, a: nat, b: nat)
    requires
        a <= b,
        tally(ws, a) is Err,
    ensures
        tally(ws, b) == tally(ws, a),
    decreases b,
{
    if a < b {
        lemma_tally_error_stays(ws, a, (b - 1) as nat);
    }
}

/// A step beyond 64 bits stays beyond them however many numbers follow.
pub proof fn lemma_reduce_none_stays(op: Operation, queue: Seq<u64>, a: nat, b: nat)
    requires
        1 <= a <= b,
        reduce(op, queue, a) is None,
    ensures
        reduce(op, queue, b) is None,
    decreases b,
{
    if a < b {
        lemma_reduce_none_stays(op, queue, a, (b - 1) as nat);
    }
}

/// The numbers taken together from the first on.
fn reduce_queue(op: Operation, queue: &Vec<u64>) -> (r: Option<u64>)
    ensures
        r == reduce(op, queue@, queue@.len()),
{
    if queue.len() == 0 {
        return None;
    }
    let mut value: u64 = queue[0];
    let mut k: usize = 1;
    while k < queue.len()
        invariant
            1 <= k <= queue.len(),
            reduce(op, queue@, k as nat) == Some(value),
        decreases queue.len() - k,
    {
        value = match combine(op, value, queue[k]) {
            Some(v) => v,
            None => {
                proof {
                    lemma_reduce_none_stays(op, queue@, (k + 1) as nat, queue@.len());
                }
                return None;
            },
        };
        k += 1;
    }
    Some(value)
}

/// The operation that a word ends in.
fn read_closing(word: &Vec<u8>) -> (op: Option<Operation>)
    ensures
        op == closing(word@),
{
    if word.len() > 0 && word[word.len() - 1] == 42 {
        Some(Operation::Multiply)
    } else if word.len() > 0 && word[word.len() - 1] == 43 {
        Some(Operation::Add)
    } else {
        None
    }
}

/// A copy of `word` without its last byte.
fn without_last(word: &Vec<u8>) -> (w: Vec<u8>)
    requires
        word.len() > 0,
    ensures
        w@ == word@.drop_last(),
{
    let mut w: Vec<u8> = Vec::new();
    let mut i: usize = 0;
    while i + 1 < word.len()
        invariant
            i + 1 <= word.len(),
            w@ == word@.take(i as int),
        decreases word.len() - i,
    {
        w.push(word[i]);
        assert(w@ =~= word@.take(i + 1));
        i += 1;
    }
    assert(word@.take(word.len() - 1) =~= word@.drop_last());
    w
}

/// The columns of a block, from the right, each from the top, one behind
/// the other.
fn turn(lines: &Vec<String>, n: usize) -> (text: Vec<u8>)
    requires
        is_block(bytes_of(lines@)),
        n == bytes_of(lines@)[0].len(),
    ensures
        text@ == turned(bytes_of(lines@), n as int, n as nat),
{
    let ghost all = bytes_of(lines@);
    let mut text: Vec<u8> = Vec::new();
    let mut i: usize = 0;
    while i < n
        invariant
            i <= n,
            all == bytes_of(lines@),
            is_block(all),
            n == all[0].len(),
            text@ == turned(all, n as int, i as nat),
        decreases n - i,
    {
        let c = n - i - 1;
        let ghost before = text@;
        let mut r: usize = 0;
        assert(before + column_text(all, c as int, 0) =~= before);
        while r < lines.len()
            invariant
                r <= lines.len(),
                all == bytes_of(lines@),
                is_block(all),
                n == all[0].len(),
                c < n,
                text@ == before + column_text(all, c as int, r as nat),
            decreases lines.len() - r,
        {
            let line = lines[r].as_str().as_bytes();
            assert(all[r as int] == line@);
            assert(all[r as int].len() == all[0].len());
            text.push(line[c]);
            assert(text@ =~= before + column_text(all, c as int, (r + 1) as nat));
            r += 1;
        }
        i += 1;
    }
    text
}

/// Whether the lines make a block.
fn check_block(lines: &Vec<String>) -> (ok: bool)
    ensures
        ok == is_block(bytes_of(lines@)),
{
    let ghost all = bytes_of(lines@);
    if lines.len() == 0 {
        return false;
    }
    let n = lines[0].as_str().as_bytes().len();
    let mut r: usize = 0;
    while r < lines.len()
        invariant
            r <= lines.len(),
            lines.len() > 0,
            all == bytes_of(lines@),
            n == all[0].len(),
            forall|h: int| 0 <= h < r ==> (#[trigger] all[h]).len() == n,
        decreases lines.len() - r,
    {
        let line = lines[r].as_str().as_bytes();
        assert(all[r as int] == line@);
        if line.len() != n {
            return false;
        }
        r += 1;
    }
    true
}

/// The grand total of a worksheet read column by column from the right:
/// the columns, each from the top, are put one behind the other, and the
/// words of that text are read in their order. A word that ends in `*` or
/// `+` closes a problem: the numbers since the last such word, and its own
/// where it has one, are taken together. Numbers after the last such word
/// are passed over.
///
/// Fails with `Ragged` where the lines make no block, and otherwise with
/// what the first word that cannot be read gives.
pub fn trash_compactor_part_two(lines: &Vec<String>) -> (r: Result<u64, SheetError>)
    ensures
        r == if !is_block(bytes_of(lines@)) {
            Err::<u64, SheetError>(SheetError::Ragged)
        } else {
            let text = turned(
                bytes_of(lines@),
                bytes_of(lines@)[0].len() as int,
                bytes_of(lines@)[0].len(),
            );
            match tally(words(text), words(text).len()) {
                Ok(t) => Ok::<u64, SheetError>(t.result),
                Err(e) => Err::<u64, SheetError>(e),
            }
        },
{
    if !check_block(lines) {
        return Err(SheetError::Ragged);
    }
    let n = lines[0].as_str().as_bytes().len();
    let text = turn(lines, n);
    let found = split_words(text.as_slice());
    let ghost ws = views(found@);
    let mut queue: Vec<u64> = Vec::new();
    let mut result: u64 = 0;
    let mut i: usize = 0;
    while i < found.len()
        invariant
            i <= found.len(),
            ws == views(found@),
            is_block(bytes_of(lines@)),
            n == bytes_of(lines@)[0].len(),
            ws == words(turned(bytes_of(lines@), n as int, n as nat)),
            tally(ws, i as nat) == Ok::<Tally, SheetError>(Tally { queue: queue@, result }),
        decreases found.len() - i,
    {
        let word = &found[i];
        assert(ws[i as int] == word@);
        proof {
            if tally(ws, (i + 1) as nat) is Err {
                lemma_tally_error_stays(ws, (i + 1) as nat, ws.len());
            }
        }
        match read_closing(word) {
            Some(op) => {
                let rest = without_last(word);
                match parse_unsigned(&rest) {
                    Some(v) => {
                        queue.push(v);
                    },
                    None => {},
                }
                if queue.len() == 0 {
                    return Err(SheetError::EmptyProblem { word: i });
                }
                let value = match reduce_queue(op, &queue) {
                    Some(value) => value,
                    None => {
                        return Err(SheetError::Overflow);
                    },
                };
                result = match result.checked_add(value) {
                    Some(sum) => sum,
                    None => {
                        return Err(SheetError::Overflow);
                    },
                };
                queue = Vec::new();
            },
            None => {
                match parse_unsigned(word) {
                    Some(v) => {
                        queue.push(v);
                    },
                    None => {
                        return Err(SheetError::BadWord { word: i });
                    },
                }
            },
        }
        i += 1;
    }
    Ok(result)
}

} // verus!
