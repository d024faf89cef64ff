use advent::year2025::day10::counters::{check_counters, solve_counters};
use advent::year2025::day10::lights::{all_mask, solve_lights};
use advent::year2025::day10::machine::{read_bytes, read_line, Machine};
use advent::year2025::day10::text::ParseError;
use advent::year2025::day10::{
    aggregate, part_one, part_two, solve_part_one, solve_part_two, BatchError, LineError, Mode,
    SolveError,
};

const FIRST: &str = "[.##.] (3) (1,3) (2) (2,3) (0,2) (0,1) {3,5,4,7}";
const SECOND: &str = "[...#.] (0,2,3,4) (2,3) (0,4) (0,1,2) (1,2,3,4) {7,5,12,7,2}";
const THIRD: &str = "[.###.#] (0,1,2,3,4) (0,3,4) (0,1,2,4,5) (1,2) {10,11,11,5,10,5}";

fn lines_of(input: &str) -> Vec<String> {
    input.split("\n").map(str::to_string).collect()
}

#[test]
fn day10_input_example() {
    let input = r#"[.##.] (3) (1,3) (2) (2,3) (0,2) (0,1) {3,5,4,7}
[...#.] (0,2,3,4) (2,3) (0,4) (0,1,2) (1,2,3,4) {7,5,12,7,2}
[.###.#] (0,1,2,3,4) (0,3,4) (0,1,2,4,5) (1,2) {10,11,11,5,10,5}"#;

    let lines = lines_of(input);
    let sum = part_one(&lines);
    assert_eq!(sum, Ok(7));

    let lines = lines_of(input);
    let sum = part_two(&lines);
    assert_eq!(sum, Ok(33));
}

#[test]
fn first_machine_minima() {
    assert_eq!(solve_part_one(FIRST), Ok(2));
    assert_eq!(solve_part_two(FIRST), Ok(10));
}

#[test]
fn second_machine_minima() {
    assert_eq!(solve_part_one(SECOND), Ok(3));
    assert_eq!(solve_part_two(SECOND), Ok(12));
}

#[test]
fn third_machine_minima() {
    assert_eq!(solve_part_one(THIRD), Ok(2));
    assert_eq!(solve_part_two(THIRD), Ok(11));
}

#[test]
fn reads_the_first_machine() {
    let m = read_line(FIRST).unwrap();
    assert_eq!(m.light_count(), 4);
    assert_eq!(m.lights(), 0b0110);
    assert_eq!(m.buttons(), &vec![0b1000, 0b1010, 0b0100, 0b1100, 0b0101, 0b0011]);
    assert_eq!(m.joltage(), &vec![3, 5, 4, 7]);
}

#[test]
fn reads_through_any_white_space() {
    let m = read_line("  [#.]\t(0)   (1,0)\r\n {10,2} ").unwrap();
    assert_eq!(m.light_count(), 2);
    assert_eq!(m.lights(), 1);
    assert_eq!(m.buttons(), &vec![1, 3]);
    assert_eq!(m.joltage(), &vec![10, 2]);
}

#[test]
fn parse_errors() {
    assert_eq!(read_line("").err(), Some(ParseError::MissingGroup));
    assert_eq!(read_line("[.#] {1,2}").err(), Some(ParseError::MissingGroup));
    assert_eq!(read_line("[.#] (0) 1,2").err(), Some(ParseError::MissingGroup));
    assert_eq!(read_line(".# (0) {1,2}").err(), Some(ParseError::MissingGroup));
    assert_eq!(read_line("[.#] 0 {1,2}").err(), Some(ParseError::MissingGroup));
    assert_eq!(read_line("[.x] (0) {1,2}").err(), Some(ParseError::InvalidLight));
    assert_eq!(read_line("[.#] (a) {1,2}").err(), Some(ParseError::InvalidNumber));
    assert_eq!(read_line("[.#] () {1,2}").err(), Some(ParseError::InvalidNumber));
    assert_eq!(read_line("[.#] (0,) {1,2}").err(), Some(ParseError::InvalidNumber));
    assert_eq!(read_line("[.#] (0) {1,-2}").err(), Some(ParseError::InvalidNumber));
    assert_eq!(read_line("[.#] (0) {1,4294967296}").err(), Some(ParseError::NumberTooLarge));
    assert_eq!(
        read_line("[.#] (0) {1,4294967295}").map(|m| m.joltage().clone()),
        Ok(vec![1, 4294967295])
    );
    assert_eq!(read_line("[.#] (2) {1,2}").err(), Some(ParseError::IndexOutOfRange));
    assert_eq!(read_line("[.#] (64) {1,2}").err(), Some(ParseError::IndexOutOfRange));
    assert_eq!(read_line("[.#.] (2) {1,2}").err(), Some(ParseError::IndexOutOfRange));
    assert_eq!(read_line("[.#] (1) (2) {1,2,3}").err(), Some(ParseError::IndexOutOfRange));
    let wide = format!("[{}] (0) {{1}}", ".".repeat(65));
    assert_eq!(read_line(&wide).err(), Some(ParseError::TooManyLights));
}

#[test]
fn the_first_thing_wrong_decides() {
    assert_eq!(read_line("[.x] (a) {b}").err(), Some(ParseError::InvalidLight));
    assert_eq!(read_line("[..] (64) (a) {1,2}").err(), Some(ParseError::IndexOutOfRange));
    assert_eq!(read_line("[..] (a,64) {1,2}").err(), Some(ParseError::InvalidNumber));
    assert_eq!(read_line("[..] (5) {1,x}").err(), Some(ParseError::InvalidNumber));
}

#[test]
fn single_button_cannot_reach_the_second_light() {
    assert_eq!(solve_part_one("[.#] (0) {1,0}"), Err(LineError::Solve(SolveError::Infeasible)));
    assert_eq!(solve_lights(2, 0b10, &vec![0b01]).err(), Some(SolveError::Infeasible));
}

#[test]
fn counters_out_of_reach() {
    assert_eq!(solve_part_two("[.#] (0) {1,1}"), Err(LineError::Solve(SolveError::Infeasible)));
    assert_eq!(solve_part_two("[..] (0,1) {1,2}"), Err(LineError::Solve(SolveError::Infeasible)));
    assert_eq!(
        solve_part_two("[...] (0,1) (1,2) (0,2) {1,1,1}"),
        Err(LineError::Solve(SolveError::Infeasible))
    );
}

#[test]
fn all_lights_off_takes_no_press() {
    let s = solve_lights(4, 0, &vec![0b0011, 0b0110]).unwrap();
    assert_eq!(s.presses, 0);
    assert_eq!(s.pressed, vec![false, false]);
    assert_eq!(solve_part_one("[....] (0,1) (1,2) {0,0,0,0}"), Ok(0));
}

#[test]
fn all_counters_zero_takes_no_press() {
    let s = solve_counters(&vec![0b0011, 0b0110], &vec![0, 0, 0]).unwrap();
    assert_eq!(s.total, 0);
    assert_eq!(s.presses, vec![0, 0]);
}

#[test]
fn duplicate_buttons_are_distinct() {
    let s = solve_lights(2, 0b11, &vec![0b01, 0b01, 0b10]).unwrap();
    assert_eq!(s.presses, 2);
    let s = solve_lights(2, 0b00, &vec![0b01, 0b01]).unwrap();
    assert_eq!(s.presses, 0);
}

#[test]
fn lights_beyond_the_count_are_not_compared() {
    let s = solve_lights(2, 0b01, &vec![0b101]).unwrap();
    assert_eq!(s.presses, 1);
    assert_eq!(solve_lights(3, 0b01, &vec![0b101]).err(), Some(SolveError::Infeasible));
}

#[test]
fn too_many_buttons() {
    let masks: Vec<u64> = (0..41).map(|i| 1u64 << i).collect();
    assert_eq!(solve_lights(64, 1, &masks).err(), Some(SolveError::TooManyButtons));
    let masks: Vec<u64> = (0..65).map(|_| 1u64).collect();
    assert_eq!(solve_counters(&masks, &vec![1]).err(), Some(SolveError::TooManyButtons));
}

#[test]
fn forty_buttons_are_taken() {
    let masks: Vec<u64> = (0..40).map(|i| 1u64 << i).collect();
    let s = solve_lights(64, 0b1011, &masks).unwrap();
    assert_eq!(s.presses, 3);
    assert!(s.pressed[0] && s.pressed[1] && !s.pressed[2] && s.pressed[3]);
}

#[test]
fn all_mask_values() {
    assert_eq!(all_mask(0), 0);
    assert_eq!(all_mask(1), 1);
    assert_eq!(all_mask(6), 0b111111);
    assert_eq!(all_mask(63), u64::MAX >> 1);
    assert_eq!(all_mask(64), u64::MAX);
    assert_eq!(all_mask(100), u64::MAX);
}

fn xor_of(masks: &[u64], pressed: &[bool]) -> u64 {
    masks.iter().zip(pressed).filter(|(_, &p)| p).fold(0, |acc, (&m, _)| acc ^ m)
}

fn brute_lights(count: usize, target: u64, masks: &[u64]) -> Option<u32> {
    let keep = all_mask(count);
    let mut best: Option<u32> = None;
    for subset in 0u32..(1 << masks.len()) {
        let mut on = 0;
        for (j, m) in masks.iter().enumerate() {
            if subset >> j & 1 == 1 {
                on ^= m;
            }
        }
        if on & keep == target & keep {
            let size = subset.count_ones();
            if best.map_or(true, |b| size < b) {
                best = Some(size);
            }
        }
    }
    best
}

fn brute_counters(masks: &[u64], targets: &[u32], j: usize, left: &mut Vec<i64>) -> Option<u64> {
    if j == masks.len() {
        return if left.iter().all(|&v| v == 0) { Some(0) } else { None };
    }
    let mut best: Option<u64> = None;
    let mut presses = 0u64;
    loop {
        if let Some(rest) = brute_counters(masks, targets, j + 1, left) {
            if best.map_or(true, |b| rest + presses < b) {
                best = Some(rest + presses);
            }
        }
        let touched: Vec<usize> = (0..targets.len()).filter(|&i| masks[j] >> i & 1 == 1).collect();
        if touched.is_empty() || touched.iter().any(|&i| left[i] == 0) {
            for &i in &touched {
                left[i] += presses as i64;
            }
            return best;
        }
        for &i in &touched {
            left[i] -= 1;
        }
        presses += 1;
    }
}

struct Lcg(u64);

impl Lcg {
    fn next(&mut self, bound: u64) -> u64 {
        self.0 = self.0.wrapping_mul(6364136223846793005).wrapping_add(1442695040888963407);
        (self.0 >> 33) % bound
    }
}

#[test]
fn light_solutions_reproduce_the_target_and_are_minimal() {
    let mut rng = Lcg(7);
    for _ in 0..300 {
        let count = 1 + rng.next(8) as usize;
        let n = rng.next(13) as usize;
        let masks: Vec<u64> = (0..n).map(|_| rng.next(1 << count)).collect();
        let target = rng.next(1 << count);
        let expected = brute_lights(count, target, &masks);
        match solve_lights(count, target, &masks) {
            Ok(s) => {
                assert_eq!(s.pressed.len(), n);
                assert_eq!(xor_of(&masks, &s.pressed), target);
                assert_eq!(s.pressed.iter().filter(|&&p| p).count() as u64, s.presses);
                assert_eq!(Some(s.presses as u32), expected);
            }
            Err(e) => {
                assert_eq!(e, SolveError::Infeasible);
                assert_eq!(expected, None);
            }
        }
    }
}

#[test]
fn counter_solutions_reach_the_targets_and_are_minimal() {
    let mut rng = Lcg(11);
    for _ in 0..300 {
        let k = 1 + rng.next(4) as usize;
        let n = rng.next(5) as usize;
        let masks: Vec<u64> = (0..n).map(|_| rng.next(1 << k)).collect();
        let targets: Vec<u32> = (0..k).map(|_| rng.next(6) as u32).collect();
        let mut left: Vec<i64> = targets.iter().map(|&t| t as i64).collect();
        let expected = brute_counters(&masks, &targets, 0, &mut left);
        match solve_counters(&masks, &targets) {
            Ok(s) => {
                assert!(check_counters(&masks, &targets, &s.presses));
                for i in 0..k {
                    let sum: u64 =
                        (0..n).filter(|&j| masks[j] >> i & 1 == 1).map(|j| s.presses[j]).sum();
                    assert_eq!(sum, targets[i] as u64);
                }
                assert_eq!(s.presses.iter().sum::<u64>(), s.total);
                assert_eq!(Some(s.total), expected);
            }
            Err(e) => {
                assert_eq!(e, SolveError::Infeasible);
                assert_eq!(expected, None);
            }
        }
    }
}

#[test]
fn larger_counter_machines() {
    let mut rng = Lcg(23);
    for _ in 0..40 {
        let k = 4 + rng.next(7) as usize;
        let n = 6 + rng.next(8) as usize;
        let masks: Vec<u64> = (0..n).map(|_| 1 + rng.next((1 << k) - 1)).collect();
        let hidden: Vec<u64> = (0..n).map(|_| rng.next(200)).collect();
        let targets: Vec<u32> = (0..k)
            .map(|i| (0..n).filter(|&j| masks[j] >> i & 1 == 1).map(|j| hidden[j]).sum::<u64>() as u32)
            .collect();
        let s = solve_counters(&masks, &targets).unwrap();
        assert!(check_counters(&masks, &targets, &s.presses));
        assert!(s.total <= hidden.iter().sum::<u64>());
    }
}

#[test]
fn a_button_without_counters_is_never_pressed() {
    let s = solve_counters(&vec![0b100, 0b01, 0b11], &vec![3, 2]).unwrap();
    assert_eq!(s.total, 3);
    assert_eq!(s.presses, vec![0, 1, 2]);
}

#[test]
fn trailing_blank_lines_are_passed_over() {
    let lines = vec![FIRST.to_string(), SECOND.to_string(), String::new(), "  \t".to_string()];
    assert_eq!(part_one(&lines), Ok(5));
    assert_eq!(part_two(&lines), Ok(22));
    assert_eq!(aggregate(Mode::Lights, &Vec::new()), Ok(0));
    assert_eq!(aggregate(Mode::Counters, &vec![String::new()]), Ok(0));
}

#[test]
fn a_blank_line_in_the_middle_is_an_error() {
    let lines = vec![FIRST.to_string(), String::new(), SECOND.to_string()];
    assert_eq!(
        part_one(&lines),
        Err(BatchError::Line { line: 1, error: LineError::Parse(ParseError::MissingGroup) })
    );
}

#[test]
fn the_first_failing_line_is_reported() {
    let lines = vec![
        FIRST.to_string(),
        "[.#] (0) {1,0}".to_string(),
        "[.#] (x) {1,0}".to_string(),
    ];
    assert_eq!(
        part_one(&lines),
        Err(BatchError::Line { line: 1, error: LineError::Solve(SolveError::Infeasible) })
    );
    assert_eq!(
        part_two(&lines),
        Err(BatchError::Line {
            line: 2,
            error: LineError::Parse(ParseError::InvalidNumber)
        })
    );
}

fn same(a: &Machine, b: &Machine) -> bool {
    a.light_count() == b.light_count()
        && a.lights() == b.lights()
        && a.buttons() == b.buttons()
        && a.joltage() == b.joltage()
}

#[test]
fn renders_the_line_it_read() {
    for line in [FIRST, SECOND, THIRD] {
        let m = read_line(line).unwrap();
        assert_eq!(m.render(), line.as_bytes().to_vec());
    }
}

#[test]
fn rendering_puts_a_line_in_one_form() {
    let m = read_line("  [#.#]\t(2,0,2)   (01,0)\r\n {010,2,0} ").unwrap();
    assert_eq!(m.render(), b"[#.#] (0,2) (0,1) {10,2,0}".to_vec());
}

#[test]
fn reading_a_rendered_machine_gives_it_back() {
    let mut rng = Lcg(5);
    for _ in 0..200 {
        let count = 1 + rng.next(64) as usize;
        let k = 1 + rng.next(70) as usize;
        let width = count.min(k);
        let n = 1 + rng.next(6) as usize;
        let m = Machine::new(
            count,
            rng.next(u64::MAX) & all_mask(count),
            (0..n)
                .map(|_| 1u64 << rng.next(width as u64) | rng.next(u64::MAX) & all_mask(width))
                .collect(),
            (0..k).map(|_| rng.next(1 << 31) as u32 * 2 + rng.next(2) as u32).collect(),
        )
        .unwrap();
        let again = read_bytes(&m.render()).unwrap();
        assert!(same(&m, &again));
        assert_eq!(again.render(), m.render());
    }
}

#[test]
fn a_machine_is_made_of_parts_that_fit() {
    let m = Machine::new(3, 0b101, vec![0b001, 0b110], vec![7, 0, 9]).unwrap();
    assert_eq!(m.render(), b"[#.#] (0) (1,2) {7,0,9}".to_vec());
    assert!(Machine::new(64, u64::MAX, vec![1 << 63], vec![0; 64]).is_some());
    assert!(Machine::new(65, 0, vec![1], vec![1; 65]).is_none());
    assert!(Machine::new(3, 0b1000, vec![1], vec![1, 1, 1]).is_none());
    assert!(Machine::new(3, 0, vec![], vec![1, 1, 1]).is_none());
    assert!(Machine::new(3, 0, vec![1], vec![]).is_none());
    assert!(Machine::new(3, 0, vec![1, 0], vec![1, 1, 1]).is_none());
    assert!(Machine::new(3, 0, vec![0b1000], vec![1, 1, 1, 1]).is_none());
    assert!(Machine::new(4, 0, vec![0b1000], vec![1, 1, 1]).is_none());
    assert!(Machine::new(0, 0, vec![1], vec![1]).is_none());
}
