//! Tests for the single-shot solvers: sonar windows, submarine commands,
//! bit diagnostics, fish population, crab alignment, and bracket syntax.

use undersea::crabs::{best_alignment, best_alignment_v2};
use undersea::diagnostics::{calculate_gamma_rate, filter_records, get_rating_value, BitVec};
use undersea::lanternfish::Fish;
use undersea::segments::{count_easy_digits, output_sum, SegmentDisplay};
use undersea::sonar::{larger_measurements, larger_measurements3};
use undersea::submarine::{Command, Submarine};
use undersea::syntax::{
    middle_completion_score, total_error_score, AutoComplete, SyntaxChecker, Token,
};

#[test]
fn to_decimal() {
    let bitvec = BitVec::from_str("10110");
    assert_eq!(bitvec.to_decimal(), 22);
}

const REPORT: [&str; 12] = [
    "00100", "11110", "10110", "10111", "10101", "01111", "00111", "11100", "10000", "11001",
    "00010", "01010",
];

fn report() -> Vec<BitVec> {
    REPORT.iter().map(|s| BitVec::from_str(s)).collect()
}

#[test]
fn gamma_and_epsilon_rates() {
    let diagnostics = report();
    let gamma_rate = calculate_gamma_rate(&diagnostics);
    let epsilon_rate = gamma_rate.invert();
    assert_eq!(gamma_rate.to_decimal(), 22);
    assert_eq!(epsilon_rate.to_decimal(), 9);
    assert_eq!(gamma_rate.to_string(), "10110");
}

#[test]
fn rating_values() {
    let diagnostics = report();
    let o2_rate = get_rating_value(&diagnostics, true);
    let co2_rate = get_rating_value(&diagnostics, false);
    assert_eq!(o2_rate.to_decimal(), 23);
    assert_eq!(co2_rate.to_decimal(), 10);
}

#[test]
fn filter_keeps_majority_records() {
    let mut diagnostics = report();
    filter_records(&mut diagnostics, true, 0);
    assert_eq!(diagnostics.len(), 7);
    for d in &diagnostics {
        assert!(d.bits[0]);
    }
}

#[test]
fn sonar_increase_counts() {
    let depths: Vec<u64> = vec![199, 200, 208, 210, 200, 207, 240, 269, 260, 263];
    assert_eq!(larger_measurements(&depths), 7);
    assert_eq!(larger_measurements3(&depths), 5);
}

#[test]
fn submarine_course() {
    let commands = [
        Command::Forward(5),
        Command::Down(5),
        Command::Forward(8),
        Command::Up(3),
        Command::Down(8),
        Command::Forward(2),
    ];
    let mut submarine = Submarine::default();
    for &command in commands.iter() {
        submarine.exec_one(command);
    }
    assert_eq!(submarine.multiply_hd(), 150);

    submarine.reset();

    for &command in commands.iter() {
        submarine.exec_two(command);
    }
    assert_eq!(submarine.multiply_hd(), 900);
}

#[test]
fn fish_population() {
    let timers: Vec<u8> = vec![3, 4, 3, 1, 2];
    let mut fish = Fish::from_timers(&timers);
    fish.next();
    assert_eq!(fish.timers, [1, 1, 2, 1, 0, 0, 0, 0, 0]);
    fish.next();
    assert_eq!(fish.timers, [1, 2, 1, 0, 0, 0, 1, 0, 1]);
    let mut fish = Fish::from_timers(&timers);
    fish.next_n(18);
    assert_eq!(fish.count(), 26);
    let mut fish = Fish::from_timers(&timers);
    fish.next_n(80);
    assert_eq!(fish.count(), 5934);
    fish.next_n(256 - 80);
    assert_eq!(fish.count(), 26984457539);
}

#[test]
fn crab_alignment() {
    let positions: Vec<u64> = vec![16, 1, 2, 0, 4, 2, 7, 1, 2, 14];
    let (best_pos, fuel) = best_alignment(&positions);
    assert_eq!(2, best_pos);
    assert_eq!(37, fuel);
    let (best_pos, fuel) = best_alignment_v2(&positions);
    assert_eq!(5, best_pos);
    assert_eq!(168, fuel);
}

const NAVIGATION: &str = "[({(<(())[]>[[{[]{<()<>>\n\
[(()[<>])]({[<{<<[]>>(\n\
{([(<{}[<>[]}>{[]{[(<()>\n\
(((({<>}<{<{<>}{[]{[]{}\n\
[[<[([]))<([[{}[[()]]]\n\
[{[{({}]{}}([{[{{{}}([]\n\
{<[[]]>}<{[{[{[]{()[[[]\n\
[<(<(<(<{}))><([]([]()\n\
<{([([[(<>()){}]>(<<{{\n\
<{([{{}}[<[[[<>{}]]]>[]]";

#[test]
fn syntax_error_score() {
    assert_eq!(26397, total_error_score(NAVIGATION));
}

#[test]
fn completion_winner() {
    assert_eq!(288957, middle_completion_score(NAVIGATION));
}

#[test]
fn check_line_reports_first_mismatch() {
    let err = SyntaxChecker::check_line("{([(<{}[<>[]}>{[]{[(<()>").expect("corrupted line");
    assert_eq!(err.found, Token::CloseBraces);
    assert_eq!(err.expected, Some(Token::CloseBrackets));
    assert!(SyntaxChecker::check_line("[({(<(())[]>[[{[]{<()<>>").is_none());
}

#[test]
fn completion_of_incomplete_line() {
    assert_eq!(AutoComplete::check_line("[({(<(())[]>[[{[]{<()<>>"), "}}]])})]");
    assert_eq!(AutoComplete::completion_score("}}]])})]"), 288957);
    assert_eq!(AutoComplete::completion_score("])}>"), 294);
}

#[test]
fn part2_08() {
    let display = SegmentDisplay::deduce_from(
        "acedgfb cdfbe gcdfa fbcad dab cefabd cdfgeb eafb cagedb ab",
    );
    assert_eq!(display.signal("cdfeb fcadb cdfeb cdbaf"), "5353");
}

#[test]
fn display_entry_aggregates() {
    let entry = (
        "acedgfb cdfbe gcdfa fbcad dab cefabd cdfgeb eafb cagedb ab".to_string(),
        "cdfeb fcadb cdfeb cdbaf".to_string(),
    );
    let ones = (
        "acedgfb cdfbe gcdfa fbcad dab cefabd cdfgeb eafb cagedb ab".to_string(),
        "ab ab ab ab".to_string(),
    );
    let input = vec![entry, ones];
    assert_eq!(output_sum(&input), 5353 + 1111);
    assert_eq!(count_easy_digits(&input), 4);
}
