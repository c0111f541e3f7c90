//! Calibration values: each line of the text holds digits, written as `1` to `9` or spelled
//! out as `one` to `nine`. The value of a line is the first digit followed by the last.
//!
//! A digit counts wherever its name starts, also inside or across another name:
//! `eightwothree` holds `eight`, `two` and `three`, and `twone` ends in `one`.

use vstd::prelude::*;
use crate::text::chars::{chars_of, has_at, starts_at};
use crate::text::lines::{lines, split_lines, trim, trimmed, views};

verus! {

/// The name of the digit `d`, for `d` from one to nine.
pub open spec fn word(d: int) -> Seq<char> {
    if d == 1 {
        "one"@
    } else if d == 2 {
        "two"@
    } else if d == 3 {
        "three"@
    } else if d == 4 {
        "four"@
    } else if d == 5 {
        "five"@
    } else if d == 6 {
        "six"@
    } else if d == 7 {
        "seven"@
    } else if d == 8 {
        "eight"@
    } else {
        "nine"@
    }
}

/// The digit, from `d` up, whose name stands at position `i` of `s`.
pub open spec fn word_at(s: Seq<char>, i: int, d: int) -> Option<i32>
    decreases 10 - d,
{
    if d < 1 || d > 9 {
        None
    } else if has_at(s, i, word(d)) {
        Some(d as i32)
    } else {
        word_at(s, i, d + 1)
    }
}

/// The digit that is written at position `i` of `s`: as one of `1` to `9`, or by its name.
pub open spec fn token_at(s: Seq<char>, i: int) -> Option<i32> {
    if 0 <= i < s.len() && '1' <= s[i] && s[i] <= '9' {
        Some((s[i] as u32 - '0' as u32) as i32)
    } else {
        word_at(s, i, 1)
    }
}

/// The digit written at the first position from `i` on where one is written.
pub open spec fn first_from(s: Seq<char>, i: int) -> Option<i32>
    decreases s.len() - i,
{
    if i < 0 || i >= s.len() {
        None
    } else if token_at(s, i) is Some {
        token_at(s, i)
    } else {
        first_from(s, i + 1)
    }
}

/// The digit written at the last position before `j` where one is written.
pub open spec fn last_before(s: Seq<char>, j: int) -> Option<i32>
    decreases j,
{
    if j <= 0 || j > s.len() {
        None
    } else if token_at(s, j - 1) is Some {
        token_at(s, j - 1)
    } else {
        last_before(s, j - 1)
    }
}

/// The first and the last digit of a line, if it holds a digit.
pub open spec fn line_digits(line: Seq<char>) -> Option<(i32, i32)> {
    match (first_from(line, 0), last_before(line, line.len() as int)) {
        (Some(first), Some(last)) => Some((first, last)),
        _ => None,
    }
}

/// The calibration value of a line: its first digit, then its last.
pub open spec fn line_value(line: Seq<char>) -> Option<int> {
    match line_digits(line) {
        Some((first, last)) => Some(10 * first + last),
        None => None,
    }
}

/// The sum of the calibration values of the lines, if every line has one.
pub open spec fn lines_sum(rows: Seq<Seq<char>>) -> Option<int>
    decreases rows.len(),
{
    if rows.len() == 0 {
        Some(0)
    } else {
        match (lines_sum(rows.drop_last()), line_value(rows.last())) {
            (Some(sum), Some(value)) => Some(sum + value),
            _ => None,
        }
    }
}

/// The sum of the calibration values of the lines of a text, the whitespace at its two
/// ends left out.
pub open spec fn calibration_of(input: Seq<char>) -> Option<int> {
    lines_sum(lines(trim(input)))
}

/// A digit that is written is one of one to nine.
pub proof fn lemma_token_range(s: Seq<char>, i: int)
    ensures
        token_at(s, i) matches Some(d) ==> 1 <= d <= 9,
{
    lemma_word_range(s, i, 1);
}

/// A digit whose name is found from `d` up is one of `d` to nine.
proof fn lemma_word_range(s: Seq<char>, i: int, d: int)
    requires
        1 <= d,
    ensures
        word_at(s, i, d) matches Some(found) ==> d <= found <= 9,
    decreases 10 - d,
{
    if d <= 9 && !has_at(s, i, word(d)) {
        lemma_word_range(s, i, d + 1);
    }
}

/// The first digit from `a` on is the one at the leftmost position from `a` on where a
/// digit is written, and there is none if no digit is written from `a` on.
pub proof fn lemma_first_is_leftmost(s: Seq<char>, a: int)
    requires
        0 <= a <= s.len(),
    ensures
        first_from(s, a) is None <==> forall|j: int| a <= j < s.len() ==> token_at(s, j) is None,
        forall|i: int|
            a <= i < s.len() && token_at(s, i) is Some && (forall|j: int|
                a <= j < i ==> token_at(s, j) is None) ==> first_from(s, a) == token_at(s, i),
        first_from(s, a) matches Some(d) ==> 1 <= d <= 9,
    decreases s.len() - a,
{
    if a < s.len() {
        lemma_token_range(s, a);
        lemma_first_is_leftmost(s, a + 1);
        if token_at(s, a) is Some {
            assert forall|i: int|
                a <= i < s.len() && token_at(s, i) is Some && (forall|j: int|
                    a <= j < i ==> token_at(s, j) is None) implies first_from(s, a) == token_at(
                s,
                i,
            ) by {
                if i > a {
                    assert(token_at(s, a) is None);
                }
            }
        } else {
            assert forall|i: int|
                a <= i < s.len() && token_at(s, i) is Some && (forall|j: int|
                    a <= j < i ==> token_at(s, j) is None) implies first_from(s, a) == token_at(
                s,
                i,
            ) by {
                assert(i > a);
                assert(forall|j: int| a + 1 <= j < i ==> token_at(s, j) is None);
            }
        }
    }
}

/// The last digit before `b` is the one at the rightmost position before `b` where a
/// digit is written, and there is none if no digit is written before `b`.
pub proof fn lemma_last_is_rightmost(s: Seq<char>, b: int)
    requires
        0 <= b <= s.len(),
    ensures
        last_before(s, b) is None <==> forall|j: int| 0 <= j < b ==> token_at(s, j) is None,
        forall|i: int|
            0 <= i < b && token_at(s, i) is Some && (forall|j: int|
                i < j < b ==> token_at(s, j) is None) ==> last_before(s, b) == token_at(s, i),
        last_before(s, b) matches Some(d) ==> 1 <= d <= 9,
    decreases b,
{
    if b > 0 {
        lemma_token_range(s, b - 1);
        lemma_last_is_rightmost(s, b - 1);
        if token_at(s, b - 1) is Some {
            assert forall|i: int|
                0 <= i < b && token_at(s, i) is Some && (forall|j: int|
                    i < j < b ==> token_at(s, j) is None) implies last_before(s, b) == token_at(
                s,
                i,
            ) by {
                if i < b - 1 {
                    assert(token_at(s, b - 1) is None);
                }
            }
        } else {
            assert forall|i: int|
                0 <= i < b && token_at(s, i) is Some && (forall|j: int|
                    i < j < b ==> token_at(s, j) is None) implies last_before(s, b) == token_at(
                s,
                i,
            ) by {
                assert(i < b - 1);
                assert(forall|j: int| i < j < b - 1 ==> token_at(s, j) is None);
            }
        }
    }
}

/// A line has a value exactly if a digit is written in it, and the value has two digits.
pub proof fn lemma_line_value(line: Seq<char>)
    ensures
        line_value(line) is Some <==> exists|i: int| 0 <= i < line.len() && token_at(line, i) is Some,
        line_value(line) matches Some(v) ==> 11 <= v <= 99,
{
    lemma_first_is_leftmost(line, 0);
    lemma_last_is_rightmost(line, line.len() as int);
}

/// The sum over the first lines: it is there if the sum over all lines is, and no larger.
pub proof fn lemma_lines_sum_grows(rows: Seq<Seq<char>>, k: int)
    requires
        0 <= k <= rows.len(),
    ensures
        lines_sum(rows.take(k)) is None ==> lines_sum(rows) is None,
        lines_sum(rows) matches Some(all) ==> 0 <= lines_sum(rows.take(k))->0 <= all,
    decreases rows.len() - k,
{
    if k < rows.len() {
        lemma_lines_sum_grows(rows, k + 1);
        lemma_line_value(rows[k]);
        assert(rows.take(k + 1).drop_last() =~= rows.take(k));
        assert(rows.take(k + 1).last() == rows[k]);
        lemma_lines_sum_nonnegative(rows.take(k));
    } else {
        assert(rows.take(k) =~= rows);
        lemma_lines_sum_nonnegative(rows);
    }
}

/// A sum of calibration values is not negative.
proof fn lemma_lines_sum_nonnegative(rows: Seq<Seq<char>>)
    ensures
        lines_sum(rows) matches Some(all) ==> 0 <= all,
    decreases rows.len(),
{
    if rows.len() > 0 {
        lemma_lines_sum_nonnegative(rows.drop_last());
        lemma_line_value(rows.last());
    }
}

/// The names of the digits from one to nine, as characters.
pub struct Words {
    pub names: Vec<Vec<char>>,
}

impl Words {
    /// The list holds the nine names in order.
    pub open spec fn wf(self) -> bool {
        &&& self.names@.len() == 9
        &&& forall|k: int| 0 <= k < 9 ==> (#[trigger] self.names@[k])@ == word(k + 1)
    }

    /// The nine names.
    pub fn new() -> (r: Words)
        ensures
            r.wf(),
    {
        let mut names: Vec<Vec<char>> = Vec::new();
        names.push(chars_of("one"));
        names.push(chars_of("two"));
        names.push(chars_of("three"));
        names.push(chars_of("four"));
        names.push(chars_of("five"));
        names.push(chars_of("six"));
        names.push(chars_of("seven"));
        names.push(chars_of("eight"));
        names.push(chars_of("nine"));
        Words { names }
    }

    /// The digit that is written at position `i` of `s`.
    pub fn token(&self, s: &[char], i: usize) -> (r: Option<i32>)
        requires
            self.wf(),
        ensures
            r == token_at(s@, i as int),
            r matches Some(d) ==> 1 <= d <= 9,
    {
        if i < s.len() && '1' <= s[i] && s[i] <= '9' {
            return Some((s[i] as u32 - '0' as u32) as i32);
        }
        let mut k: usize = 0;
        while k < 9
            invariant
                k <= 9,
                self.wf(),
                token_at(s@, i as int) == word_at(s@, i as int, k + 1),
            decreases 9 - k,
        {
            if starts_at(s, i, self.names[k].as_slice()) {
                return Some((k + 1) as i32);
            }
            k += 1;
        }
        None
    }
}

/// The first and the last digit of a line, or `None` if the line holds no digit.
pub fn scan_line(words: &Words, line: &[char]) -> (r: Option<(i32, i32)>)
    requires
        words.wf(),
    ensures
        r == line_digits(line@),
        r matches Some((first, last)) ==> 1 <= first <= 9 && 1 <= last <= 9,
{
    let mut i: usize = 0;
    let mut first: Option<i32> = None;
    while i < line.len()
        invariant_except_break
            i <= line@.len(),
            words.wf(),
            first is None,
            first_from(line@, 0) == first_from(line@, i as int),
        ensures
            first == first_from(line@, 0),
            first matches Some(d) ==> 1 <= d <= 9,
        decreases line@.len() - i,
    {
        first = words.token(line, i);
        if first.is_some() {
            break;
        }
        i += 1;
    }
    let mut j: usize = line.len();
    let mut last: Option<i32> = None;
    while j > 0
        invariant_except_break
            j <= line@.len(),
            words.wf(),
            last is None,
            last_before(line@, line@.len() as int) == last_before(line@, j as int),
        ensures
            last == last_before(line@, line@.len() as int),
            last matches Some(d) ==> 1 <= d <= 9,
        decreases j,
    {
        last = words.token(line, j - 1);
        if last.is_some() {
            break;
        }
        j -= 1;
    }
    match (first, last) {
        (Some(first), Some(last)) => Some((first, last)),
        _ => None,
    }
}

/// The first and the last digit of a line, or `None` if the line holds no digit.
pub fn parse_line(line: &str) -> (r: Option<(i32, i32)>)
    ensures
        r == line_digits(line@),
        r matches Some((first, last)) ==> 1 <= first <= 9 && 1 <= last <= 9,
{
    let words = Words::new();
    let chars = chars_of(line);
    scan_line(&words, chars.as_slice())
}

/// The calibration value of a line, or `None` if the line holds no digit.
pub fn line_to_calibration_value(line: &str) -> (r: Option<i32>)
    ensures
        r is Some <==> line_value(line@) is Some,
        r matches Some(value) ==> value == line_value(line@)->0,
{
    match parse_line(line) {
        Some((first_digit, last_digit)) => {
            proof {
                lemma_line_value(line@);
            }
            Some(10 * first_digit + last_digit)
        },
        None => None,
    }
}

/// The sum of the calibration values of the lines of the text; `None` if a line holds no
/// digit or the sum does not fit in 32 bits.
pub fn try_compute_part1(input: &str) -> (r: Option<i32>)
    ensures
        r is Some <==> calibration_of(input@) is Some && calibration_of(input@)->0 <= i32::MAX,
        r matches Some(sum) ==> sum == calibration_of(input@)->0,
{
    let words = Words::new();
    let chars = chars_of(input);
    let rows = split_lines(trimmed(chars.as_slice()));
    let ghost all = lines(trim(input@));
    let mut sum: i32 = 0;
    let mut i: usize = 0;
    assert(all.take(0) =~= Seq::<Seq<char>>::empty());
    while i < rows.len()
        invariant
            i <= rows@.len(),
            words.wf(),
            views(rows@) == all,
            all == lines(trim(input@)),
            lines_sum(all.take(i as int)) == Some(sum as int),
        decreases rows@.len() - i,
    {
        proof {
            assert(all.take(i + 1).drop_last() =~= all.take(i as int));
            assert(all.take(i + 1).last() == rows@[i as int]@);
            lemma_lines_sum_grows(all, i + 1);
            lemma_line_value(rows@[i as int]@);
        }
        let value = match scan_line(&words, rows[i]) {
            Some((first_digit, last_digit)) => 10 * first_digit + last_digit,
            None => { return None; },
        };
        sum = match sum.checked_add(value) {
            Some(sum) => sum,
            None => { return None; },
        };
        i += 1;
    }
    assert(all.take(i as int) =~= all);
    Some(sum)
}

/// The sum of the calibration values of the lines of the text, spelled digits counted;
/// `None` if a line holds no digit or the sum does not fit in 32 bits.
pub fn try_compute_part2(input: &str) -> (r: Option<i32>)
    ensures
        r is Some <==> calibration_of(input@) is Some && calibration_of(input@)->0 <= i32::MAX,
        r matches Some(sum) ==> sum == calibration_of(input@)->0,
{
    try_compute_part1(input)
}

/// The sum of the calibration values of the lines of the text.
pub fn compute_part1(input: &str) -> (sum: i32)
    requires
        calibration_of(input@) is Some,
        calibration_of(input@)->0 <= i32::MAX,
    ensures
        sum == calibration_of(input@)->0,
{
    try_compute_part1(input).unwrap()
}

/// The sum of the calibration values of the lines of the text, spelled digits counted.
pub fn compute_part2(input: &str) -> (sum: i32)
    requires
        calibration_of(input@) is Some,
        calibration_of(input@)->0 <= i32::MAX,
    ensures
        sum == calibration_of(input@)->0,
{
    try_compute_part2(input).unwrap()
}

} // verus!
