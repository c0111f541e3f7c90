use aoc2023::day1::{
    compute_part1, compute_part2, line_to_calibration_value, parse_line, try_compute_part1,
    try_compute_part2,
};
use regex::Regex;

const LINES: [&str; 16] = [
    "two1nine",
    "eightwothree",
    "abcone2threexyz",
    "xtwone3four",
    "4nineeightseven2",
    "zoneight234",
    "7pqrstsixteen",
    "twone",
    "oneight",
    "sevenine9",
    "nineight0",
    "0",
    "",
    "fivethreeonezero",
    "\u{e9}t\u{e9}one\u{fc}2\u{df}three\u{e9}",
    "thre3e",
];

fn digit_of(name: &str) -> i32 {
    match name {
        "1" | "one" => 1,
        "2" | "two" => 2,
        "3" | "three" => 3,
        "4" | "four" => 4,
        "5" | "five" => 5,
        "6" | "six" => 6,
        "7" | "seven" => 7,
        "8" | "eight" => 8,
        "9" | "nine" => 9,
        other => panic!("no digit: {}", other),
    }
}

#[test]
fn main_should_compute_part1() {
    let input = "
1abc2
pqr3stu8vwx
a1b2c3d4e5f
treb7uchet
"
    .trim();

    let result = compute_part1(input);
    assert_eq!(result, 142);
}

#[test]
fn should_compute_part2() {
    let input = "
two1nine
eightwothree
abcone2threexyz
xtwone3four
4nineeightseven2
zoneight234
7pqrstsixteen
"
    .trim();

    let result = compute_part2(input);
    assert_eq!(result, 281);
}

#[test]
fn each_line_gives_first_and_last_digit() {
    assert_eq!(parse_line("two1nine"), Some((2, 9)));
    assert_eq!(parse_line("eightwothree"), Some((8, 3)));
    assert_eq!(parse_line("abcone2threexyz"), Some((1, 3)));
    assert_eq!(parse_line("xtwone3four"), Some((2, 4)));
    assert_eq!(parse_line("4nineeightseven2"), Some((4, 2)));
    assert_eq!(parse_line("zoneight234"), Some((1, 4)));
    assert_eq!(parse_line("7pqrstsixteen"), Some((7, 6)));
    assert_eq!(line_to_calibration_value("zoneight234"), Some(14));
    assert_eq!(line_to_calibration_value("treb7uchet"), Some(77));
}

#[test]
fn names_that_share_letters_both_count() {
    assert_eq!(parse_line("twone"), Some((2, 1)));
    assert_eq!(parse_line("oneight"), Some((1, 8)));
    assert_eq!(parse_line("xxsevenineyy"), Some((7, 9)));
    assert_eq!(line_to_calibration_value("eighthree"), Some(83));
}

#[test]
fn zero_and_other_characters_are_no_digits() {
    assert_eq!(parse_line("a0b"), None);
    assert_eq!(parse_line("zero"), None);
    assert_eq!(parse_line(""), None);
    assert_eq!(parse_line("0five0"), Some((5, 5)));
    assert_eq!(parse_line("on e3tw o"), Some((3, 3)));
    assert_eq!(line_to_calibration_value("nothing"), None);
}

#[test]
fn a_line_without_digit_leaves_no_sum() {
    assert_eq!(try_compute_part1("1abc2\nxyz\n3"), None);
    assert_eq!(try_compute_part1("1abc2\n\n3"), None);
    assert_eq!(try_compute_part1("1abc2\n3"), Some(45));
}

#[test]
fn whitespace_around_the_text_is_left_out() {
    assert_eq!(try_compute_part1("\n\n  1abc2\r\nfive\n\n"), Some(67));
    assert_eq!(try_compute_part1(""), Some(0));
    assert_eq!(try_compute_part1("  \n "), Some(0));
}

#[test]
fn the_first_digit_is_the_leftmost_match_of_the_pattern() {
    let re = Regex::new(r"[1-9]|one|two|three|four|five|six|seven|eight|nine").unwrap();
    for line in LINES {
        let expected = re.find(line).map(|m| digit_of(m.as_str()));
        assert_eq!(parse_line(line).map(|(first, _)| first), expected, "{}", line);
    }
}

#[test]
fn the_last_digit_is_the_match_of_the_pattern_that_starts_last() {
    let re = Regex::new(r"[1-9]|one|two|three|four|five|six|seven|eight|nine").unwrap();
    for line in LINES {
        let mut expected = None;
        for (start, _) in line.char_indices() {
            if let Some(m) = re.find_at(line, start) {
                if m.start() == start {
                    expected = Some(digit_of(m.as_str()));
                }
            }
        }
        assert_eq!(parse_line(line).map(|(_, last)| last), expected, "{}", line);
    }
}

#[test]
fn both_parts_give_the_same_sum() {
    for line in LINES {
        assert_eq!(try_compute_part1(line), try_compute_part2(line));
    }
}
