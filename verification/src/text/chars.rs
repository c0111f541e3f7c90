//! Character classes, runs of characters of a class, and the way from strings to
//! characters and back.

use vstd::prelude::*;

verus! {

/// The ASCII decimal digits `'0'..='9'`.
pub open spec fn is_digit(c: char) -> bool {
    '0' <= c && c <= '9'
}

/// The ASCII letters.
pub open spec fn is_letter(c: char) -> bool {
    ('a' <= c && c <= 'z') || ('A' <= c && c <= 'Z')
}

/// A space or a tab: the blanks that may stand between the fields of a game record.
pub open spec fn is_blank(c: char) -> bool {
    c == ' ' || c == '\t'
}

/// The characters with the Unicode property `White_Space`.
pub open spec fn is_whitespace(c: char) -> bool {
    let n = c as u32;
    (0x09 <= n && n <= 0x0d) || n == 0x20 || n == 0x85 || n == 0xa0 || n == 0x1680
        || (0x2000 <= n && n <= 0x200a) || n == 0x2028 || n == 0x2029 || n == 0x202f
        || n == 0x205f || n == 0x3000
}

/// The value of a decimal digit.
pub open spec fn digit_of(c: char) -> nat {
    (c as u32 - '0' as u32) as nat
}

/// Whether `c` is an ASCII decimal digit.
pub fn char_is_digit(c: char) -> (r: bool)
    ensures
        r == is_digit(c),
{
    '0' <= c && c <= '9'
}

/// Whether `c` is an ASCII letter.
pub fn char_is_letter(c: char) -> (r: bool)
    ensures
        r == is_letter(c),
{
    ('a' <= c && c <= 'z') || ('A' <= c && c <= 'Z')
}

/// Whether `c` is a space or a tab.
pub fn char_is_blank(c: char) -> (r: bool)
    ensures
        r == is_blank(c),
{
    c == ' ' || c == '\t'
}

/// Whether `c` has the property `White_Space`.
pub fn char_is_whitespace(c: char) -> (r: bool)
    ensures
        r == is_whitespace(c),
{
    let n: u32 = c as u32;
    (0x09 <= n && n <= 0x0d) || n == 0x20 || n == 0x85 || n == 0xa0 || n == 0x1680
        || (0x2000 <= n && n <= 0x200a) || n == 0x2028 || n == 0x2029 || n == 0x202f
        || n == 0x205f || n == 0x3000
}

/// The value of the decimal digit `c`.
pub fn char_digit(c: char) -> (r: u8)
    requires
        is_digit(c),
    ensures
        r == digit_of(c),
        r <= 9,
{
    (c as u32 - '0' as u32) as u8
}

/// A class of characters that a scan runs over.
#[derive(Clone, Copy, Debug)]
pub enum CharClass {
    /// An ASCII decimal digit.
    Digit,
    /// A space or a tab.
    Blank,
    /// An ASCII letter or digit.
    Alphanumeric,
    /// A character with the property `White_Space`.
    Whitespace,
    /// Any character without the property `White_Space`.
    Word,
    /// Any character but the line feed.
    LineText,
}

impl CharClass {
    /// Whether `c` belongs to the class.
    pub open spec fn has(self, c: char) -> bool {
        match self {
            CharClass::Digit => is_digit(c),
            CharClass::Blank => is_blank(c),
            CharClass::Alphanumeric => is_letter(c) || is_digit(c),
            CharClass::Whitespace => is_whitespace(c),
            CharClass::Word => !is_whitespace(c),
            CharClass::LineText => c != '\n',
        }
    }

    /// Whether `c` belongs to the class.
    pub fn holds(self, c: char) -> (r: bool)
        ensures
            r == self.has(c),
    {
        match self {
            CharClass::Digit => char_is_digit(c),
            CharClass::Blank => char_is_blank(c),
            CharClass::Alphanumeric => char_is_letter(c) || char_is_digit(c),
            CharClass::Whitespace => char_is_whitespace(c),
            CharClass::Word => !char_is_whitespace(c),
            CharClass::LineText => c != '\n',
        }
    }
}

/// Where the run of characters of `class` that starts at `i` ends: the first position at or
/// after `i` whose character is not of the class, or `s.len()`.
pub open spec fn run_end(s: Seq<char>, i: int, class: CharClass) -> int
    decreases s.len() - i,
{
    if i < 0 || i >= s.len() || !class.has(s[i]) {
        i
    } else {
        run_end(s, i + 1, class)
    }
}

/// Where the run of characters of `class` that ends at `j` starts, looking no further
/// back than `lo`.
pub open spec fn run_start(s: Seq<char>, lo: int, j: int, class: CharClass) -> int
    decreases j,
{
    if j <= lo || j <= 0 || j > s.len() || !class.has(s[j - 1]) {
        j
    } else {
        run_start(s, lo, j - 1, class)
    }
}

/// `run_end` stops at the first character outside the class and at no other.
pub proof fn lemma_run_end(s: Seq<char>, i: int, class: CharClass)
    requires
        0 <= i <= s.len(),
    ensures
        i <= run_end(s, i, class) <= s.len(),
        forall|j: int| i <= j < run_end(s, i, class) ==> class.has(#[trigger] s[j]),
        run_end(s, i, class) < s.len() ==> !class.has(s[run_end(s, i, class)]),
    decreases s.len() - i,
{
    if i < s.len() && class.has(s[i]) {
        lemma_run_end(s, i + 1, class);
    }
}

/// A run that is known to reach `j` and to stop there ends at `j`.
pub proof fn lemma_run_end_is(s: Seq<char>, i: int, j: int, class: CharClass)
    requires
        0 <= i <= j <= s.len(),
        forall|k: int| i <= k < j ==> class.has(#[trigger] s[k]),
        j < s.len() ==> !class.has(s[j]),
    ensures
        run_end(s, i, class) == j,
    decreases j - i,
{
    if i < j {
        lemma_run_end_is(s, i + 1, j, class);
    }
}

/// `run_start` stops behind the last character outside the class and at no other place.
pub proof fn lemma_run_start(s: Seq<char>, lo: int, j: int, class: CharClass)
    requires
        0 <= lo <= j <= s.len(),
    ensures
        lo <= run_start(s, lo, j, class) <= j,
        forall|k: int| run_start(s, lo, j, class) <= k < j ==> class.has(#[trigger] s[k]),
        run_start(s, lo, j, class) > lo ==> !class.has(s[run_start(s, lo, j, class) - 1]),
    decreases j,
{
    if j > lo && class.has(s[j - 1]) {
        lemma_run_start(s, lo, j - 1, class);
    }
}

/// Where the run of characters of `class` that starts at `start` ends.
pub fn scan_run(s: &[char], start: usize, class: CharClass) -> (r: usize)
    requires
        start <= s.len(),
    ensures
        r == run_end(s@, start as int, class),
        start <= r <= s.len(),
{
    let mut i: usize = start;
    while i < s.len() && class.holds(s[i])
        invariant
            start <= i <= s.len(),
            run_end(s@, start as int, class) == run_end(s@, i as int, class),
        decreases s.len() - i,
    {
        i += 1;
    }
    i
}

/// Where the run of characters of `class` that ends at `end` starts, looking no further
/// back than `lo`.
pub fn scan_run_back(s: &[char], lo: usize, end: usize, class: CharClass) -> (r: usize)
    requires
        lo <= end <= s.len(),
    ensures
        r == run_start(s@, lo as int, end as int, class),
        lo <= r <= end,
{
    let mut j: usize = end;
    while j > lo && class.holds(s[j - 1])
        invariant
            lo <= j <= end,
            end <= s.len(),
            run_start(s@, lo as int, end as int, class) == run_start(s@, lo as int, j as int, class),
        decreases j,
    {
        j -= 1;
    }
    j
}

/// The characters of a string, in order.
pub fn chars_of(s: &str) -> (v: Vec<char>)
    ensures
        v@ == s@,
{
    broadcast use vstd::string::group_string_axioms;

    let mut v: Vec<char> = Vec::new();
    for c in it: s.chars()
        invariant
            it.seq() == s@,
            v@ == s@.take(it.index()),
    {
        v.push(c);
    }
    assert(v@ =~= s@);
    v
}

/// Whether `s` holds `word` at position `i`.
pub open spec fn has_at(s: Seq<char>, i: int, word: Seq<char>) -> bool {
    0 <= i && i + word.len() <= s.len() && s.subrange(i, i + word.len()) == word
}

/// Whether `s` holds `word` at position `i`.
pub fn starts_at(s: &[char], i: usize, word: &[char]) -> (r: bool)
    ensures
        r == has_at(s@, i as int, word@),
{
    if i > s.len() || word.len() > s.len() - i {
        return false;
    }
    let mut k: usize = 0;
    while k < word.len()
        invariant
            i + word.len() <= s.len(),
            k <= word.len(),
            forall|j: int| 0 <= j < k ==> s@[i + j] == word@[j],
        decreases word.len() - k,
    {
        if s[i + k] != word[k] {
            assert(s@.subrange(i as int, i + word.len())[k as int] == s@[i + k]);
            return false;
        }
        k += 1;
    }
    assert(s@.subrange(i as int, i + word.len()) =~= word@);
    true
}

/// `String::push` of the standard library: the string afterwards is the string before with
/// the character behind it.
#[verifier::external_body]
fn push_char(s: &mut String, c: char)
    ensures
        final(s)@ == old(s)@.push(c),
{
    s.push(c)
}

/// The string that the characters write.
pub fn string_of(chars: &[char]) -> (s: String)
    ensures
        s@ == chars@,
{
    let mut s = String::new();
    let mut i: usize = 0;
    while i < chars.len()
        invariant
            i <= chars@.len(),
            s@ == chars@.take(i as int),
        decreases chars@.len() - i,
    {
        push_char(&mut s, chars[i]);
        assert(chars@.take(i + 1) =~= chars@.take(i as int).push(chars@[i as int]));
        i += 1;
    }
    assert(chars@.take(i as int) =~= chars@);
    s
}

/// Whether `s` is the word `word`.
pub fn is_text(s: &[char], word: &str) -> (r: bool)
    ensures
        r == (s@ == word@),
{
    let w = chars_of(word);
    if s.len() != w.len() {
        return false;
    }
    let same = starts_at(s, 0, w.as_slice());
    assert(s@.subrange(0, s@.len() as int) =~= s@);
    same
}

/// Whether `s` ends with `word`.
pub open spec fn ends_with(s: Seq<char>, word: Seq<char>) -> bool {
    has_at(s, s.len() - word.len(), word)
}

/// Whether `s` ends with `word`.
pub fn has_suffix(s: &[char], word: &str) -> (r: bool)
    ensures
        r == ends_with(s@, word@),
{
    let w = chars_of(word);
    if s.len() < w.len() {
        return false;
    }
    starts_at(s, s.len() - w.len(), w.as_slice())
}

/// The part of `s` from `i` to `j`.
pub fn part<'a>(s: &'a [char], i: usize, j: usize) -> (r: &'a [char])
    requires
        i <= j <= s.len(),
    ensures
        r@ == s@.subrange(i as int, j as int),
{
    vstd::slice::slice_subrange(s, i, j)
}

} // verus!
