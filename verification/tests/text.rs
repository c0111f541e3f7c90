//! The text functions of the library held against those of the standard library.

use aoc2023::text::chars::{
    char_digit, char_is_blank, char_is_digit, char_is_letter, char_is_whitespace, chars_of,
    has_suffix, is_text, scan_run, scan_run_back, starts_at, string_of, CharClass,
};
use aoc2023::text::lines::{find, split_at_sep, split_lines, split_words, trimmed};
use aoc2023::text::number::{parse_decimal, parse_unsigned, push_decimal};

const TEXTS: [&str; 30] = [
    "",
    " ",
    "a",
    " a ",
    "\t\n a b \r\n",
    "\u{a0}x\u{3000}",
    "\u{2003}\u{85}word\u{1680}\u{2028}",
    "\u{200b}zero width is no whitespace\u{200b}",
    "one\ntwo\nthree",
    "one\ntwo\nthree\n",
    "one\r\ntwo\r\n",
    "one\rtwo\n\rthree\r",
    "\n",
    "\n\n",
    "\r\n\r\n",
    "a\n\nb",
    "a\n\n\nb\n\n",
    "a:b",
    "a:b:",
    ":a::b",
    "seed-to-soil map",
    "a-to-to-b-to-",
    "-to-",
    "1 2  3",
    " 41 48 | 83",
    "x \u{e9}\u{fc} y",
    "tab\tand space",
    "ends with cr\r",
    "   ",
    "no separator here",
];

const NUMBERS: [&str; 24] = [
    "",
    "0",
    "7",
    "007",
    "+7",
    "+",
    "-7",
    "++7",
    "+-7",
    "7+",
    " 7",
    "7 ",
    "1_000",
    "12a",
    "4294967295",
    "4294967296",
    "18446744073709551615",
    "18446744073709551616",
    "000000000000000000000000018446744073709551615",
    "99999999999999999999999999",
    "\u{663}",
    "\u{ff11}",
    "1.5",
    "0x10",
];

fn text(chars: &[char]) -> String {
    chars.iter().collect()
}

fn texts(pieces: Vec<&[char]>) -> Vec<String> {
    pieces.into_iter().map(text).collect()
}

#[test]
fn the_character_classes_are_those_of_the_standard_library() {
    for c in (0..=0x10ffffu32).filter_map(char::from_u32) {
        assert_eq!(char_is_whitespace(c), c.is_whitespace(), "{:?}", c);
        assert_eq!(char_is_digit(c), c.is_ascii_digit(), "{:?}", c);
        assert_eq!(char_is_letter(c), c.is_ascii_alphabetic(), "{:?}", c);
        assert_eq!(char_is_blank(c), c == ' ' || c == '\t', "{:?}", c);
        assert_eq!(CharClass::Alphanumeric.holds(c), c.is_ascii_alphanumeric(), "{:?}", c);
        assert_eq!(CharClass::Word.holds(c), !c.is_whitespace(), "{:?}", c);
        assert_eq!(CharClass::LineText.holds(c), c != '\n', "{:?}", c);
    }
    for (value, c) in ('0'..='9').enumerate() {
        assert_eq!(char_digit(c) as usize, value);
    }
}

#[test]
fn a_string_goes_to_characters_and_back() {
    for s in TEXTS {
        let chars = chars_of(s);
        assert_eq!(chars, s.chars().collect::<Vec<char>>());
        assert_eq!(string_of(&chars), s);
    }
}

#[test]
fn trimming_is_that_of_the_standard_library() {
    for s in TEXTS {
        assert_eq!(text(trimmed(&chars_of(s))), s.trim(), "{:?}", s);
    }
}

#[test]
fn the_lines_are_those_of_the_standard_library() {
    for s in TEXTS {
        let expected: Vec<String> = s.lines().map(String::from).collect();
        assert_eq!(texts(split_lines(&chars_of(s))), expected, "{:?}", s);
    }
}

#[test]
fn the_words_are_those_of_the_standard_library() {
    for s in TEXTS {
        let expected: Vec<String> = s.split_whitespace().map(String::from).collect();
        assert_eq!(texts(split_words(&chars_of(s))), expected, "{:?}", s);
    }
}

#[test]
fn splitting_is_that_of_the_standard_library() {
    for sep in [":", " ", "|", "\n", "\n\n", "-to-", "to", "aa"] {
        for s in TEXTS {
            let expected: Vec<String> = s.split(sep).map(String::from).collect();
            assert_eq!(texts(split_at_sep(&chars_of(s), &chars_of(sep))), expected, "{:?}", s);
        }
    }
    assert_eq!(texts(split_at_sep(&chars_of("aaa"), &chars_of("aa"))), vec!["", "a"]);
    assert_eq!(texts(split_at_sep(&chars_of("aaaa"), &chars_of("aa"))), vec!["", "", ""]);
}

#[test]
fn finding_is_that_of_the_standard_library() {
    for sep in [":", "\n\n", "-to-", "o"] {
        for s in TEXTS {
            let chars = chars_of(s);
            for start in 0..=chars.len() {
                let rest: String = chars[start..].iter().collect();
                let expected = match rest.find(sep) {
                    Some(at) => start + rest[..at].chars().count(),
                    None => chars.len(),
                };
                assert_eq!(find(&chars, &chars_of(sep), start), expected, "{:?} {}", s, start);
            }
        }
    }
}

#[test]
fn words_are_found_at_their_places() {
    let s = chars_of("seed-to-soil map");
    assert!(starts_at(&s, 0, &chars_of("seed")));
    assert!(starts_at(&s, 4, &chars_of("-to-")));
    assert!(!starts_at(&s, 5, &chars_of("-to-")));
    assert!(starts_at(&s, 16, &chars_of("")));
    assert!(!starts_at(&s, 17, &chars_of("")));
    assert!(!starts_at(&s, 13, &chars_of("maps")));
    assert!(has_suffix(&s, " map"));
    assert!(!has_suffix(&s, "soil"));
    assert!(!has_suffix(&chars_of("map"), " map"));
    assert!(is_text(&chars_of("seeds"), "seeds"));
    assert!(!is_text(&chars_of("seeds "), "seeds"));
    assert!(!is_text(&chars_of("seed"), "seeds"));
    assert!(is_text(&[], ""));
}

#[test]
fn runs_end_at_the_first_character_of_another_class() {
    let s = chars_of("123  ab;");
    assert_eq!(scan_run(&s, 0, CharClass::Digit), 3);
    assert_eq!(scan_run(&s, 1, CharClass::Digit), 3);
    assert_eq!(scan_run(&s, 3, CharClass::Digit), 3);
    assert_eq!(scan_run(&s, 3, CharClass::Blank), 5);
    assert_eq!(scan_run(&s, 5, CharClass::Alphanumeric), 7);
    assert_eq!(scan_run(&s, 0, CharClass::Alphanumeric), 3);
    assert_eq!(scan_run(&s, 0, CharClass::LineText), 8);
    assert_eq!(scan_run(&s, 8, CharClass::LineText), 8);
    assert_eq!(scan_run_back(&s, 0, 5, CharClass::Whitespace), 3);
    assert_eq!(scan_run_back(&s, 4, 5, CharClass::Whitespace), 4);
    assert_eq!(scan_run_back(&s, 0, 3, CharClass::Digit), 0);
    assert_eq!(scan_run_back(&s, 0, 8, CharClass::Digit), 8);
}

#[test]
fn numbers_are_read_as_the_standard_library_reads_them() {
    for s in NUMBERS {
        let chars = chars_of(s);
        assert_eq!(parse_unsigned(&chars, u64::MAX), s.parse::<u64>().ok(), "{:?}", s);
        assert_eq!(
            parse_unsigned(&chars, u32::MAX as u64),
            s.parse::<u32>().ok().map(u64::from),
            "{:?}",
            s
        );
        let digits_only = !s.is_empty() && s.chars().all(|c| c.is_ascii_digit());
        let expected = if digits_only { s.parse::<i32>().ok().map(|n| n as u64) } else { None };
        assert_eq!(parse_decimal(&chars, i32::MAX as u64), expected, "{:?}", s);
    }
    assert_eq!(parse_decimal(&chars_of("10"), 9), None);
    assert_eq!(parse_decimal(&chars_of("9"), 9), Some(9));
    assert_eq!(parse_decimal(&chars_of("0"), 0), Some(0));
    assert_eq!(parse_decimal(&chars_of("1"), 0), None);
}

#[test]
fn numbers_are_written_as_the_standard_library_writes_them() {
    for n in [0u64, 1, 9, 10, 11, 99, 100, 101, 4294967295, 4294967296, u64::MAX - 1, u64::MAX] {
        let mut out = vec!['x'];
        push_decimal(&mut out, n);
        assert_eq!(text(&out), format!("x{}", n));
        assert_eq!(parse_unsigned(&out[1..], u64::MAX), Some(n));
    }
}
