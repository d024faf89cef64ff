use crate::year2025::day10::lights::{all_mask, low_bits};
use crate::utils::text::{fields, split_fields, split_words, views, words};
use crate::year2025::day10::text::{number_spec, parse_number, ParseError};
use vstd::prelude::*;
use vstd::string::StringSliceAdditionalSpecFns;

verus! {

/// One machine: the lights to reach, the buttons in input order, each as the
/// mask of the positions it acts on, and the counters to reach. A machine
/// is made by reading a line, or by `new` from parts that fit each other,
/// and stays as it was made.
#[derive(Debug)]
pub struct Machine {
    light_count: usize,
    lights: u64,
    buttons: Vec<u64>,
    joltage: Vec<u32>,
}

/// A machine as a mathematical value.
pub struct MachineView {
    pub light_count: nat,
    pub lights: u64,
    pub buttons: Seq<u64>,
    pub joltage: Seq<u32>,
}

impl View for Machine {
    type V = MachineView;

    closed spec fn view(&self) -> MachineView {
        MachineView {
            light_count: self.light_count as nat,
            lights: self.lights,
            buttons: self.buttons@,
            joltage: self.joltage@,
        }
    }
}

/// `mask` has no bit at or above `width`.
pub open spec fn fits(mask: u64, width: nat) -> bool {
    mask & !low_bits(width) == 0
}

/// The smaller of two numbers.
pub open spec fn smaller(a: nat, b: nat) -> nat {
    if a <= b {
        a
    } else {
        b
    }
}

impl MachineView {
    /// What holds of every machine that a line describes: at most 64
    /// lights, a target within them, a button at least, every button with
    /// a position at least and none that the lights or the counters lack,
    /// and a counter at least.
    pub open spec fn wf(self) -> bool {
        &&& self.light_count <= 64
        &&& fits(self.lights, self.light_count)
        &&& self.buttons.len() >= 1
        &&& self.joltage.len() >= 1
        &&& forall|j: int|
            0 <= j < self.buttons.len() ==> #[trigger] self.buttons[j] != 0 && fits(
                self.buttons[j],
                smaller(self.light_count, self.joltage.len()),
            )
    }
}

/// `word` stands between `open` and `close`.
pub open spec fn bracketed(word: Seq<u8>, open: u8, close: u8) -> bool {
    word.len() >= 2 && word[0] == open && word.last() == close
}

/// What stands between the brackets of `word`.
pub open spec fn inner(word: Seq<u8>) -> Seq<u8> {
    word.subrange(1, word.len() - 1)
}

/// Every cell is `.` or `#`.
pub open spec fn is_diagram(cells: Seq<u8>) -> bool {
    forall|i: int| 0 <= i < cells.len() ==> #[trigger] cells[i] == 46 || cells[i] == 35
}

/// The mask of the cells that are `#`, cell `i` as bit `i`.
pub open spec fn diagram_mask(cells: Seq<u8>) -> u64
    decreases cells.len(),
{
    if cells.len() == 0 {
        0
    } else {
        let rest = diagram_mask(cells.drop_last());
        if cells.last() == 35 {
            rest | (1u64 << ((cells.len() - 1) as u64))
        } else {
            rest
        }
    }
}

/// What a light diagram `[..]` stands for: the number of lights and the
/// mask of those that are to be on.
pub open spec fn mask_spec(word: Seq<u8>) -> Result<(nat, u64), ParseError> {
    if !bracketed(word, 91, 93) {
        Err(ParseError::MissingGroup)
    } else if inner(word).len() > 64 {
        Err(ParseError::TooManyLights)
    } else if !is_diagram(inner(word)) {
        Err(ParseError::InvalidLight)
    } else {
        Ok((inner(word).len(), diagram_mask(inner(word))))
    }
}

/// The numbers that the fields write, or what is wrong with the first
/// field that writes none.
pub open spec fn numbers_spec(fs: Seq<Seq<u8>>) -> Result<Seq<u32>, ParseError>
    decreases fs.len(),
{
    if fs.len() == 0 {
        Ok(Seq::empty())
    } else {
        match numbers_spec(fs.drop_last()) {
            Err(e) => Err(e),
            Ok(before) => match number_spec(fs.last()) {
                Err(e) => Err(e),
                Ok(v) => Ok(before.push(v)),
            },
        }
    }
}

/// The mask of the positions that the fields write, or what is wrong with
/// the first field that writes none below 64.
pub open spec fn indices_mask(fs: Seq<Seq<u8>>) -> Result<u64, ParseError>
    decreases fs.len(),
{
    if fs.len() == 0 {
        Ok(0)
    } else {
        match indices_mask(fs.drop_last()) {
            Err(e) => Err(e),
            Ok(before) => match number_spec(fs.last()) {
                Err(e) => Err(e),
                Ok(v) => if v >= 64 {
                    Err(ParseError::IndexOutOfRange)
                } else {
                    Ok(before | (1u64 << (v as u64)))
                },
            },
        }
    }
}

/// What a button `(..)` stands for.
pub open spec fn button_spec(word: Seq<u8>) -> Result<u64, ParseError> {
    if !bracketed(word, 40, 41) {
        Err(ParseError::MissingGroup)
    } else {
        indices_mask(fields(inner(word)))
    }
}

/// What a list of targets `{..}` stands for.
pub open spec fn jolts_spec(word: Seq<u8>) -> Result<Seq<u32>, ParseError> {
    if !bracketed(word, 123, 125) {
        Err(ParseError::MissingGroup)
    } else {
        numbers_spec(fields(inner(word)))
    }
}

/// What the words stand for as buttons, or what is wrong with the first
/// that is none.
pub open spec fn buttons_spec(ws: Seq<Seq<u8>>) -> Result<Seq<u64>, ParseError>
    decreases ws.len(),
{
    if ws.len() == 0 {
        Ok(Seq::empty())
    } else {
        match buttons_spec(ws.drop_last()) {
            Err(e) => Err(e),
            Ok(before) => match button_spec(ws.last()) {
                Err(e) => Err(e),
                Ok(mask) => Ok(before.push(mask)),
            },
        }
    }
}

/// Every button keeps to the positions that both the lights and the
/// counters have.
pub open spec fn all_fit(buttons: Seq<u64>, width: nat) -> bool {
    forall|j: int| 0 <= j < buttons.len() ==> fits(#[trigger] buttons[j], width)
}

/// What a line stands for: a light diagram, then one button or more, then
/// the targets of the counters, parted by white space. The first thing
/// wrong, from left to right, decides the error; a position out of range
/// comes last.
pub open spec fn machine_spec(line: Seq<u8>) -> Result<MachineView, ParseError> {
    let ws = words(line);
    if ws.len() < 3 {
        Err(ParseError::MissingGroup)
    } else {
        match mask_spec(ws[0]) {
            Err(e) => Err(e),
            Ok((light_count, lights)) => match buttons_spec(ws.subrange(1, ws.len() - 1)) {
                Err(e) => Err(e),
                Ok(buttons) => match jolts_spec(ws.last()) {
                    Err(e) => Err(e),
                    Ok(joltage) => if all_fit(buttons, smaller(light_count, joltage.len())) {
                        Ok(MachineView { light_count, lights, buttons, joltage })
                    } else {
                        Err(ParseError::IndexOutOfRange)
                    },
                },
            },
        }
    }
}

/// A field that writes no number is the error of every longer list.
pub proof fn lemma_numbers_error_stays(fs: Seq<Seq<u8>>, k: int)
    requires
        0 <= k <= fs.len(),
        numbers_spec(fs.take(k)) is Err,
    ensures
        numbers_spec(fs) == numbers_spec(fs.take(k)),
    decreases fs.len(),
{
    if k < fs.len() {
        assert(fs.drop_last().take(k) =~= fs.take(k));
        lemma_numbers_error_stays(fs.drop_last(), k);
    } else {
        assert(fs.take(k) =~= fs);
    }
}

/// A field that writes no position is the error of every longer list.
pub proof fn lemma_indices_error_stays(fs: Seq<Seq<u8>>, k: int)
    requires
        0 <= k <= fs.len(),
        indices_mask(fs.take(k)) is Err,
    ensures
        indices_mask(fs) == indices_mask(fs.take(k)),
    decreases fs.len(),
{
    if k < fs.len() {
        assert(fs.drop_last().take(k) =~= fs.take(k));
        lemma_indices_error_stays(fs.drop_last(), k);
    } else {
        assert(fs.take(k) =~= fs);
    }
}

/// A word that is no button is the error of every longer list.
pub proof fn lemma_buttons_error_stays(ws: Seq<Seq<u8>>, k: int)
    requires
        0 <= k <= ws.len(),
        buttons_spec(ws.take(k)) is Err,
    ensures
        buttons_spec(ws) == buttons_spec(ws.take(k)),
    decreases ws.len(),
{
    if k < ws.len() {
        assert(ws.drop_last().take(k) =~= ws.take(k));
        lemma_buttons_error_stays(ws.drop_last(), k);
    } else {
        assert(ws.take(k) =~= ws);
    }
}

/// Reads a light diagram `[..]`: the number of lights, and the mask of
/// those that are to be on.
pub fn read_mask(word: &Vec<u8>) -> (r: Result<(usize, u64), ParseError>)
    ensures
        match r {
            Ok((count, lights)) => mask_spec(word@) == Ok::<(nat, u64), ParseError>(
                (count as nat, lights),
            ),
            Err(e) => mask_spec(word@) == Err::<(nat, u64), ParseError>(e),
        },
{
    let len = word.len();
    if len < 2 || word[0] != 91 || word[len - 1] != 93 {
        return Err(ParseError::MissingGroup);
    }
    let count = len - 2;
    if count > 64 {
        return Err(ParseError::TooManyLights);
    }
    let ghost cells = inner(word@);
    let mut lights: u64 = 0;
    let mut i: usize = 0;
    assert(cells.take(0) =~= Seq::<u8>::empty());
    while i < count
        invariant
            i <= count <= 64,
            count == len - 2,
            len == word.len(),
            cells == inner(word@),
            bracketed(word@, 91, 93),
            is_diagram(cells.take(i as int)),
            lights == diagram_mask(cells.take(i as int)),
        decreases count - i,
    {
        let b = word[i + 1];
        proof {
            assert(cells[i as int] == b);
            assert(cells.take(i + 1).drop_last() =~= cells.take(i as int));
        }
        if b == 35 {
            lights = lights | (1u64 << (i as u64));
        } else if b != 46 {
            assert(!is_diagram(cells)) by {
                assert(cells[i as int] != 46 && cells[i as int] != 35);
            }
            return Err(ParseError::InvalidLight);
        }
        proof {
            assert forall|h: int| 0 <= h < i + 1 implies #[trigger] cells.take(i + 1)[h] == 46
                || cells.take(i + 1)[h] == 35 by {
                if h < i {
                    assert(cells.take(i as int)[h] == cells[h]);
                }
            }
        }
        i += 1;
    }
    assert(cells.take(count as int) =~= cells);
    Ok((count, lights))
}

/// Reads a button `(..)`: the mask of the positions it lists.
pub fn read_button_mask(word: &Vec<u8>) -> (r: Result<u64, ParseError>)
    ensures
        r == button_spec(word@),
{
    let len = word.len();
    if len < 2 || word[0] != 40 || word[len - 1] != 41 {
        return Err(ParseError::MissingGroup);
    }
    let fs = split_fields(word, 1, len - 1);
    let ghost all = views(fs@);
    let mut mask: u64 = 0;
    let mut i: usize = 0;
    assert(all.take(0) =~= Seq::<Seq<u8>>::empty());
    while i < fs.len()
        invariant
            i <= fs.len(),
            all == views(fs@),
            all == fields(inner(word@)),
            bracketed(word@, 40, 41),
            indices_mask(all.take(i as int)) == Ok::<u64, ParseError>(mask),
        decreases fs.len() - i,
    {
        proof {
            assert(all.take(i + 1).drop_last() =~= all.take(i as int));
            assert(all.take(i + 1).last() == fs[i as int]@);
        }
        match parse_number(&fs[i]) {
            Err(e) => {
                proof {
                    lemma_indices_error_stays(all, i + 1);
                }
                return Err(e);
            },
            Ok(v) => {
                if v >= 64 {
                    proof {
                        lemma_indices_error_stays(all, i + 1);
                    }
                    return Err(ParseError::IndexOutOfRange);
                }
                mask = mask | (1u64 << (v as u64));
            },
        }
        i += 1;
    }
    assert(all.take(fs.len() as int) =~= all);
    Ok(mask)
}

/// Reads the targets `{..}`.
pub fn read_jolts(word: &Vec<u8>) -> (r: Result<Vec<u32>, ParseError>)
    ensures
        match r {
            Ok(jolts) => jolts_spec(word@) == Ok::<Seq<u32>, ParseError>(jolts@),
            Err(e) => jolts_spec(word@) == Err::<Seq<u32>, ParseError>(e),
        },
{
    let len = word.len();
    if len < 2 || word[0] != 123 || word[len - 1] != 125 {
        return Err(ParseError::MissingGroup);
    }
    let fs = split_fields(word, 1, len - 1);
    let ghost all = views(fs@);
    let mut jolts: Vec<u32> = Vec::new();
    let mut i: usize = 0;
    assert(all.take(0) =~= Seq::<Seq<u8>>::empty());
    while i < fs.len()
        invariant
            i <= fs.len(),
            all == views(fs@),
            all == fields(inner(word@)),
            bracketed(word@, 123, 125),
            numbers_spec(all.take(i as int)) == Ok::<Seq<u32>, ParseError>(jolts@),
        decreases fs.len() - i,
    {
        proof {
            assert(all.take(i + 1).drop_last() =~= all.take(i as int));
            assert(all.take(i + 1).last() == fs[i as int]@);
        }
        match parse_number(&fs[i]) {
            Err(e) => {
                proof {
                    lemma_numbers_error_stays(all, i + 1);
                }
                return Err(e);
            },
            Ok(v) => {
                jolts.push(v);
            },
        }
        i += 1;
    }
    assert(all.take(fs.len() as int) =~= all);
    Ok(jolts)
}

/// Whether every button keeps below `width`.
fn check_fit(buttons: &Vec<u64>, width: usize) -> (ok: bool)
    ensures
        ok == all_fit(buttons@, width as nat),
{
    let keep = all_mask(width);
    let mut j: usize = 0;
    while j < buttons.len()
        invariant
            j <= buttons.len(),
            keep == low_bits(width as nat),
            all_fit(buttons@.take(j as int), width as nat),
        decreases buttons.len() - j,
    {
        if buttons[j] & !keep != 0 {
            return false;
        }
        proof {
            assert forall|h: int| 0 <= h < j + 1 implies fits(
                #[trigger] buttons@.take(j + 1)[h],
                width as nat,
            ) by {
                if h < j {
                    assert(buttons@.take(j as int)[h] == buttons[h]);
                }
            }
        }
        j += 1;
    }
    assert(buttons@.take(buttons.len() as int) =~= buttons@);
    true
}

/// Reads the description of a machine from the bytes of a line.
pub fn read_bytes(line: &[u8]) -> (r: Result<Machine, ParseError>)
    ensures
        match r {
            Ok(m) => machine_spec(line@) == Ok::<MachineView, ParseError>(m@) && m@.wf(),
            Err(e) => machine_spec(line@) == Err::<MachineView, ParseError>(e),
        },
{
    let ws = split_words(line);
    let ghost all = views(ws@);
    let len = ws.len();
    if len < 3 {
        return Err(ParseError::MissingGroup);
    }
    assert(all[0] == ws[0]@);
    assert(all.last() == ws[len - 1]@);
    let (light_count, lights) = match read_mask(&ws[0]) {
        Ok(found) => found,
        Err(e) => {
            return Err(e);
        },
    };
    let ghost middle = all.subrange(1, len - 1);
    let mut buttons: Vec<u64> = Vec::new();
    let mut i: usize = 1;
    assert(middle.take(0) =~= Seq::<Seq<u8>>::empty());
    while i < len - 1
        invariant
            1 <= i <= len - 1,
            len == ws.len(),
            all == views(ws@),
            all == words(line@),
            len >= 3,
            mask_spec(all[0]) == Ok::<(nat, u64), ParseError>((light_count as nat, lights)),
            middle == all.subrange(1, len - 1),
            buttons_spec(middle.take(i - 1)) == Ok::<Seq<u64>, ParseError>(buttons@),
        decreases len - i,
    {
        proof {
            assert(middle.take(i as int).drop_last() =~= middle.take(i - 1));
            assert(middle.take(i as int).last() == ws[i as int]@);
        }
        match read_button_mask(&ws[i]) {
            Ok(mask) => {
                buttons.push(mask);
            },
            Err(e) => {
                proof {
                    lemma_buttons_error_stays(middle, i as int);
                }
                return Err(e);
            },
        }
        i += 1;
    }
    assert(middle.take(len - 2) =~= middle);
    let joltage = match read_jolts(&ws[len - 1]) {
        Ok(jolts) => jolts,
        Err(e) => {
            return Err(e);
        },
    };
    let width = if light_count <= joltage.len() {
        light_count
    } else {
        joltage.len()
    };
    if !check_fit(&buttons, width) {
        return Err(ParseError::IndexOutOfRange);
    }
    proof {
        lemma_read_is_wf(line@);
    }
    Ok(Machine { light_count, lights, buttons, joltage })
}

/// Reads the description of a machine: a light diagram in `[..]`, then one
/// button or more, each a list of positions in `(..)`, then the targets of
/// the counters in `{..}`, parted by white space.
pub fn read_line(line: &str) -> (r: Result<Machine, ParseError>)
    ensures
        match r {
            Ok(m) => machine_spec(line.spec_bytes()) == Ok::<MachineView, ParseError>(m@) && m@.wf(),
            Err(e) => machine_spec(line.spec_bytes()) == Err::<MachineView, ParseError>(e),
        },
{
    read_bytes(line.as_bytes())
}


/// A mask that keeps below `k` keeps below `k + 1`, with position `k` added
/// or not.
proof fn lemma_fits_step(r: u64, k: nat)
    requires
        k < 64,
        fits(r, k),
    ensures
        fits(r, k + 1),
        fits(r | (1u64 << (k as u64)), k + 1),
{
    let kk = k as u64;
    let a = low_bits(k);
    let b = low_bits(k + 1);
    assert(a == ((1u64 << kk) - 1) as u64);
    if k == 63 {
        assert(b == 0xffff_ffff_ffff_ffffu64);
        assert(r & !b == 0 && (r | (1u64 << kk)) & !b == 0) by (bit_vector)
            requires
                b == 0xffff_ffff_ffff_ffffu64,
        ;
    } else {
        let k1 = (k + 1) as u64;
        assert(b == ((1u64 << k1) - 1) as u64);
        assert(r & !b == 0 && (r | (1u64 << kk)) & !b == 0) by (bit_vector)
            requires
                kk < 63,
                k1 == kk + 1,
                a == ((1u64 << kk) - 1) as u64,
                b == ((1u64 << k1) - 1) as u64,
                r & !a == 0,
        ;
    }
}

/// The mask of a diagram keeps below the number of its cells.
pub proof fn lemma_diagram_mask_fits(cells: Seq<u8>)
    requires
        cells.len() <= 64,
    ensures
        fits(diagram_mask(cells), cells.len()),
    decreases cells.len(),
{
    if cells.len() == 0 {
        let z = low_bits(0);
        assert(z == ((1u64 << 0u64) - 1) as u64);
        assert(0u64 & !z == 0) by (bit_vector);
    } else {
        lemma_diagram_mask_fits(cells.drop_last());
        lemma_fits_step(diagram_mask(cells.drop_last()), (cells.len() - 1) as nat);
    }
}

/// A list has one field at least.
pub proof fn lemma_fields_nonempty(s: Seq<u8>)
    ensures
        fields(s).len() >= 1,
    decreases s.len(),
{
    if s.len() > 0 {
        lemma_fields_nonempty(s.drop_last());
    }
}

/// As many numbers are read as there are fields.
pub proof fn lemma_numbers_len(fs: Seq<Seq<u8>>)
    requires
        numbers_spec(fs) is Ok,
    ensures
        numbers_spec(fs)->Ok_0.len() == fs.len(),
    decreases fs.len(),
{
    if fs.len() > 0 {
        lemma_numbers_len(fs.drop_last());
    }
}

/// A button with a position at least has a mask that is not empty.
pub proof fn lemma_indices_nonzero(fs: Seq<Seq<u8>>)
    requires
        fs.len() >= 1,
        indices_mask(fs) is Ok,
    ensures
        indices_mask(fs)->Ok_0 != 0,
{
    let before = indices_mask(fs.drop_last())->Ok_0;
    let v = number_spec(fs.last())->Ok_0 as u64;
    assert((before | (1u64 << v)) != 0) by (bit_vector)
        requires
            v < 64,
    ;
}

/// Each button read is what its own word stands for.
pub proof fn lemma_buttons_each(ws: Seq<Seq<u8>>)
    requires
        buttons_spec(ws) is Ok,
    ensures
        buttons_spec(ws)->Ok_0.len() == ws.len(),
        forall|j: int|
            0 <= j < ws.len() ==> button_spec(#[trigger] ws[j]) == Ok::<u64, ParseError>(
                buttons_spec(ws)->Ok_0[j],
            ),
    decreases ws.len(),
{
    if ws.len() > 0 {
        lemma_buttons_each(ws.drop_last());
        assert forall|j: int| 0 <= j < ws.len() implies button_spec(#[trigger] ws[j]) == Ok::<
            u64,
            ParseError,
        >(buttons_spec(ws)->Ok_0[j]) by {
            if j < ws.len() - 1 {
                assert(ws.drop_last()[j] == ws[j]);
            }
        }
    }
}

/// What a line stands for is a machine as `wf` has it.
pub proof fn lemma_read_is_wf(line: Seq<u8>)
    requires
        machine_spec(line) is Ok,
    ensures
        machine_spec(line)->Ok_0.wf(),
{
    let m = machine_spec(line)->Ok_0;
    let ws = words(line);
    let middle = ws.subrange(1, ws.len() - 1);
    lemma_diagram_mask_fits(inner(ws[0]));
    lemma_buttons_each(middle);
    lemma_fields_nonempty(inner(ws.last()));
    lemma_numbers_len(fields(inner(ws.last())));
    assert forall|j: int| 0 <= j < m.buttons.len() implies #[trigger] m.buttons[j] != 0 && fits(
        m.buttons[j],
        smaller(m.light_count, m.joltage.len()),
    ) by {
        assert(button_spec(middle[j]) == Ok::<u64, ParseError>(m.buttons[j]));
        lemma_fields_nonempty(inner(middle[j]));
        lemma_indices_nonzero(fields(inner(middle[j])));
    }
}


impl Machine {
    /// What holds of every machine.
    #[verifier::type_invariant]
    spec fn well_formed(&self) -> bool {
        self@.wf()
    }

    /// The machine of these parts, where they make one: at most 64 lights,
    /// a target within them, a button and a counter at least, and every
    /// button with a position at least and none that the lights or the
    /// counters lack.
    pub fn new(light_count: usize, lights: u64, buttons: Vec<u64>, joltage: Vec<u32>) -> (m: Option<
        Machine,
    >)
        ensures
            match m {
                Some(m) => m@ == (MachineView {
                    light_count: light_count as nat,
                    lights,
                    buttons: buttons@,
                    joltage: joltage@,
                }) && m@.wf(),
                None => !(MachineView {
                    light_count: light_count as nat,
                    lights,
                    buttons: buttons@,
                    joltage: joltage@,
                }).wf(),
            },
    {
        let ghost view = MachineView {
            light_count: light_count as nat,
            lights,
            buttons: buttons@,
            joltage: joltage@,
        };
        if light_count > 64 || lights & !all_mask(light_count) != 0 {
            return None;
        }
        if buttons.len() == 0 || joltage.len() == 0 {
            return None;
        }
        let width = if light_count <= joltage.len() {
            light_count
        } else {
            joltage.len()
        };
        if !check_fit(&buttons, width) {
            assert(!view.wf()) by {
                if view.wf() {
                    assert forall|j: int| 0 <= j < buttons.len() implies fits(
                        #[trigger] buttons[j],
                        width as nat,
                    ) by {
                        assert(view.buttons[j] != 0 && fits(view.buttons[j], width as nat));
                    }
                }
            }
            return None;
        }
        let mut j: usize = 0;
        while j < buttons.len()
            invariant
                j <= buttons.len(),
                view.buttons == buttons@,
                forall|h: int| 0 <= h < j ==> #[trigger] buttons[h] != 0,
            decreases buttons.len() - j,
        {
            if buttons[j] == 0 {
                assert(!view.wf()) by {
                    if view.wf() {
                        assert(view.buttons[j as int] != 0);
                    }
                }
                return None;
            }
            j += 1;
        }
        assert(view.wf()) by {
            assert forall|j: int| 0 <= j < view.buttons.len() implies #[trigger] view.buttons[j]
                != 0 && fits(view.buttons[j], smaller(view.light_count, view.joltage.len())) by {
                assert(buttons[j] != 0);
                assert(fits(buttons[j], width as nat));
            }
        }
        Some(Machine { light_count, lights, buttons, joltage })
    }

    /// The number of lights.
    pub fn light_count(&self) -> (count: usize)
        ensures
            count == self@.light_count,
            self@.wf(),
    {
        proof {
            use_type_invariant(self);
        }
        self.light_count
    }

    /// The lights that are to be on, light `i` as bit `i`.
    pub fn lights(&self) -> (lights: u64)
        ensures
            lights == self@.lights,
            self@.wf(),
    {
        proof {
            use_type_invariant(self);
        }
        self.lights
    }

    /// The buttons, in input order, each as the mask of its positions.
    pub fn buttons(&self) -> (buttons: &Vec<u64>)
        ensures
            buttons@ == self@.buttons,
            self@.wf(),
    {
        proof {
            use_type_invariant(self);
        }
        &self.buttons
    }

    /// The targets of the counters.
    pub fn joltage(&self) -> (joltage: &Vec<u32>)
        ensures
            joltage@ == self@.joltage,
            self@.wf(),
    {
        proof {
            use_type_invariant(self);
        }
        &self.joltage
    }
}

} // verus!
