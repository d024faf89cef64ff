use crate::year2025::day10::counters::{
    counters_match, press_total, solve_counters, MAX_COUNTER_BUTTONS,
};
use crate::year2025::day10::lights::{lights_match, press_count, solve_lights, MAX_BUTTONS};
use crate::year2025::day10::machine::{machine_spec, read_line, MachineView};
use crate::utils::text::{bytes_of, split_words, words};
use crate::year2025::day10::text::ParseError;
use vstd::prelude::*;
use vstd::string::StringSliceAdditionalSpecFns;

pub mod counters;
pub mod lights;
pub mod machine;
pub mod render;
pub mod simplex;
pub mod text;

verus! {

/// Why a well-formed machine has no answer.
#[derive(Debug, Clone, Copy, PartialEq, Eq, Structural)]
pub enum SolveError {
    /// No choice of presses reaches the target.
    Infeasible,
    /// The machine has more buttons than the solver is willing to take.
    TooManyButtons,
}

/// Why a line has no answer.
#[derive(Debug, Clone, Copy, PartialEq, Eq, Structural)]
pub enum LineError {
    /// The line describes no machine.
    Parse(ParseError),
    /// The machine it describes has no answer.
    Solve(SolveError),
}

/// Why a batch of lines has no total.
#[derive(Debug, Clone, Copy, PartialEq, Eq, Structural)]
pub enum BatchError {
    /// Line `line`, counted from zero, has no answer.
    Line { line: usize, error: LineError },
    /// The total is beyond 64 bits.
    NumericOverflow,
}

/// What a machine is solved for.
#[derive(Debug, Clone, Copy, PartialEq, Eq, Structural)]
pub enum Mode {
    /// Each press toggles the lights of the button; the lights are to match
    /// the diagram.
    Lights,
    /// Each press adds one to the counters of the button; the counters are
    /// to reach their targets.
    Counters,
}

/// `pressed` lights the machine.
pub open spec fn lights_it(m: MachineView, pressed: Seq<bool>) -> bool {
    lights_match(m.light_count, m.lights, m.buttons, pressed)
}

/// The machine can be lit with `v` presses and not with fewer.
pub open spec fn is_light_minimum(m: MachineView, v: nat) -> bool {
    &&& exists|p: Seq<bool>| #[trigger] lights_it(m, p) && press_count(p) == v
    &&& forall|p: Seq<bool>| #[trigger] lights_it(m, p) ==> v <= press_count(p)
}

/// The fewest presses that light the machine, where it can be lit.
pub open spec fn light_minimum(m: MachineView) -> nat {
    choose|v: nat| is_light_minimum(m, v)
}

/// `presses` brings the counters of the machine to their targets.
pub open spec fn counts_it(m: MachineView, presses: Seq<u64>) -> bool {
    counters_match(m.buttons, m.joltage, presses)
}

/// The counters can be brought to their targets with `v` presses and not
/// with fewer.
pub open spec fn is_counter_minimum(m: MachineView, v: int) -> bool {
    &&& exists|p: Seq<u64>| #[trigger] counts_it(m, p) && press_total(p) == v
    &&& forall|p: Seq<u64>| #[trigger] counts_it(m, p) ==> v <= press_total(p)
}

/// The fewest presses that bring the counters to their targets, where
/// any do.
pub open spec fn counter_minimum(m: MachineView) -> int {
    choose|v: int| is_counter_minimum(m, v)
}

/// What a line yields in a mode: the least number of presses for the
/// machine it describes.
pub open spec fn outcome(mode: Mode, line: Seq<u8>) -> Result<u64, LineError> {
    match machine_spec(line) {
        Err(e) => Err(LineError::Parse(e)),
        Ok(m) => match mode {
            Mode::Lights => if m.buttons.len() > MAX_BUTTONS {
                Err(LineError::Solve(SolveError::TooManyButtons))
            } else if !exists|p: Seq<bool>| lights_it(m, p) {
                Err(LineError::Solve(SolveError::Infeasible))
            } else {
                Ok(light_minimum(m) as u64)
            },
            Mode::Counters => if m.buttons.len() > MAX_COUNTER_BUTTONS {
                Err(LineError::Solve(SolveError::TooManyButtons))
            } else if !exists|p: Seq<u64>| counts_it(m, p) {
                Err(LineError::Solve(SolveError::Infeasible))
            } else {
                Ok(counter_minimum(m) as u64)
            },
        },
    }
}

/// There is one least number of presses at most.
pub proof fn lemma_light_minimum_unique(m: MachineView, v: nat)
    requires
        is_light_minimum(m, v),
    ensures
        light_minimum(m) == v,
{
    let w = light_minimum(m);
    assert(is_light_minimum(m, w));
    let p = choose|p: Seq<bool>| #[trigger] lights_it(m, p) && press_count(p) == v;
    let q = choose|q: Seq<bool>| #[trigger] lights_it(m, q) && press_count(q) == w;
    assert(lights_it(m, p) && lights_it(m, q));
}

/// There is one least number of presses at most.
pub proof fn lemma_counter_minimum_unique(m: MachineView, v: int)
    requires
        is_counter_minimum(m, v),
    ensures
        counter_minimum(m) == v,
{
    let w = counter_minimum(m);
    assert(is_counter_minimum(m, w));
    let p = choose|p: Seq<u64>| #[trigger] counts_it(m, p) && press_total(p) == v;
    let q = choose|q: Seq<u64>| #[trigger] counts_it(m, q) && press_total(q) == w;
    assert(counts_it(m, p) && counts_it(m, q));
}

/// The least number of presses for the machine of `line`, in `mode`.
///
/// Fails with the parse error where the line describes no machine, with
/// `TooManyButtons` where the machine is beyond the solver, and with
/// `Infeasible` where no presses reach the target.
pub fn solve_line(mode: Mode, line: &str) -> (r: Result<u64, LineError>)
    ensures
        r == outcome(mode, line.spec_bytes()),
{
    let machine = match read_line(line) {
        Ok(machine) => machine,
        Err(e) => {
            return Err(LineError::Parse(e));
        },
    };
    let ghost m = machine@;
    match mode {
        Mode::Lights => {
            match solve_lights(machine.light_count(), machine.lights(), machine.buttons()) {
                Ok(s) => {
                    proof {
                        assert(lights_it(m, s.pressed@));
                        assert forall|p: Seq<bool>| #[trigger] lights_it(m, p) implies s.presses
                            <= press_count(p) by {
                            assert(lights_match(m.light_count, m.lights, m.buttons, p));
                        }
                        lemma_light_minimum_unique(m, s.presses as nat);
                    }
                    Ok(s.presses)
                },
                Err(e) => {
                    proof {
                        if e == SolveError::Infeasible {
                            assert forall|p: Seq<bool>| !lights_it(m, p) by {
                                assert(!lights_match(m.light_count, m.lights, m.buttons, p));
                            }
                        }
                    }
                    Err(LineError::Solve(e))
                },
            }
        },
        Mode::Counters => {
            match solve_counters(machine.buttons(), machine.joltage()) {
                Ok(s) => {
                    proof {
                        assert(counts_it(m, s.presses@));
                        assert forall|p: Seq<u64>| #[trigger] counts_it(m, p) implies s.total
                            <= press_total(p) by {
                            assert(counters_match(m.buttons, m.joltage, p));
                        }
                        lemma_counter_minimum_unique(m, s.total as int);
                    }
                    Ok(s.total)
                },
                Err(e) => {
                    proof {
                        if e == SolveError::Infeasible {
                            assert forall|p: Seq<u64>| !counts_it(m, p) by {
                                assert(!counters_match(m.buttons, m.joltage, p));
                            }
                        }
                    }
                    Err(LineError::Solve(e))
                },
            }
        },
    }
}

/// The fewest presses that light the machine of `line`.
pub fn solve_part_one(line: &str) -> (r: Result<u64, LineError>)
    ensures
        r == outcome(Mode::Lights, line.spec_bytes()),
{
    solve_line(Mode::Lights, line)
}

/// The fewest presses that bring the counters of the machine of `line` to
/// their targets.
pub fn solve_part_two(line: &str) -> (r: Result<u64, LineError>)
    ensures
        r == outcome(Mode::Counters, line.spec_bytes()),
{
    solve_line(Mode::Counters, line)
}

/// The number of lines that count: all up to the last that has a word.
pub open spec fn kept(lines: Seq<Seq<u8>>) -> nat
    decreases lines.len(),
{
    if lines.len() == 0 {
        0
    } else if words(lines.last()).len() == 0 {
        kept(lines.drop_last())
    } else {
        lines.len()
    }
}

/// The sum of what the first `k` lines yield in `mode`: the first line
/// without an answer decides the error, unless the sum outgrows 64 bits
/// before it.
pub open spec fn total(mode: Mode, lines: Seq<Seq<u8>>, k: nat) -> Result<u64, BatchError>
    decreases k,
{
    if k == 0 {
        Ok(0)
    } else {
        match total(mode, lines, (k - 1) as nat) {
            Err(e) => Err(e),
            Ok(sum) => match outcome(mode, lines[k - 1]) {
                Err(error) => Err(BatchError::Line { line: (k - 1) as usize, error }),
                Ok(presses) => if sum + presses > u64::MAX {
                    Err(BatchError::NumericOverflow)
                } else {
                    Ok((sum + presses) as u64)
                },
            },
        }
    }
}

/// The number of lines that count.
fn count_kept(lines: &Vec<String>) -> (k: usize)
    ensures
        k == kept(bytes_of(lines@)),
        k <= lines.len(),
{
    let ghost all = bytes_of(lines@);
    let mut k: usize = lines.len();
    assert(all.take(k as int) =~= all);
    while k > 0
        invariant
            k <= lines.len(),
            all == bytes_of(lines@),
            kept(all) == kept(all.take(k as int)),
        decreases k,
    {
        let line = lines[k - 1].as_str();
        let found = split_words(line.as_bytes());
        proof {
            let now = all.take(k as int);
            assert(now.last() == line.spec_bytes());
            assert(now.drop_last() =~= all.take(k - 1));
        }
        if found.len() > 0 {
            return k;
        }
        k -= 1;
    }
    assert(all.take(0) =~= Seq::<Seq<u8>>::empty());
    k
}

/// The sum, over the machines of `lines`, of the least number of presses
/// in `mode`. Lines without a word after the last line with one are passed
/// over.
///
/// Fails at the first line that has no answer, with its number and what is
/// wrong with it, and with `NumericOverflow` where the sum outgrows 64 bits.
pub fn aggregate(mode: Mode, lines: &Vec<String>) -> (r: Result<u64, BatchError>)
    ensures
        r == total(mode, bytes_of(lines@), kept(bytes_of(lines@))),
{
    let ghost all = bytes_of(lines@);
    let k = count_kept(lines);
    let mut sum: u64 = 0;
    let mut i: usize = 0;
    while i < k
        invariant
            i <= k <= lines.len(),
            all == bytes_of(lines@),
            k == kept(all),
            total(mode, all, i as nat) == Ok::<u64, BatchError>(sum),
        decreases k - i,
    {
        let presses = match solve_line(mode, lines[i].as_str()) {
            Ok(presses) => presses,
            Err(error) => {
                proof {
                    lemma_total_error_stays(mode, all, (i + 1) as nat, k as nat);
                }
                return Err(BatchError::Line { line: i, error });
            },
        };
        sum = match sum.checked_add(presses) {
            Some(sum) => sum,
            None => {
                proof {
                    lemma_total_error_stays(mode, all, (i + 1) as nat, k as nat);
                }
                return Err(BatchError::NumericOverflow);
            },
        };
        i += 1;
    }
    Ok(sum)
}

/// A line without an answer is the error of every longer batch.
pub proof fn lemma_total_error_stays(mode: Mode, lines: Seq<Seq<u8>>, a: nat, b: nat)
    requires
        a <= b,
        total(mode, lines, a) is Err,
    ensures
        total(mode, lines, b) == total(mode, lines, a),
    decreases b,
{
    if a < b {
        lemma_total_error_stays(mode, lines, a, (b - 1) as nat);
    }
}

/// The fewest presses that light every machine of `lines`, summed.
pub fn part_one(lines: &Vec<String>) -> (r: Result<u64, BatchError>)
    ensures
        r == total(Mode::Lights, bytes_of(lines@), kept(bytes_of(lines@))),
{
    aggregate(Mode::Lights, lines)
}

/// The fewest presses that bring the counters of every machine of `lines`
/// to their targets, summed.
pub fn part_two(lines: &Vec<String>) -> (r: Result<u64, BatchError>)
    ensures
        r == total(Mode::Counters, bytes_of(lines@), kept(bytes_of(lines@))),
{
    aggregate(Mode::Counters, lines)
}

} // verus!
