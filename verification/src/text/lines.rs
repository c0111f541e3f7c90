//! Splitting text: at a separator, into lines, into words, and trimming.

use vstd::prelude::*;
use crate::text::chars::{
    has_at, is_whitespace, lemma_run_end, lemma_run_start, part, run_end, run_start, scan_run,
    scan_run_back, starts_at, CharClass,
};

verus! {

/// The views of a list of slices.
pub open spec fn views(v: Seq<&[char]>) -> Seq<Seq<char>> {
    Seq::new(v.len(), |k: int| v[k]@)
}

/// The first position at or after `i` where `sep` stands in `s`, or `s.len()` if there is none.
pub open spec fn find_from(s: Seq<char>, sep: Seq<char>, i: int) -> int
    decreases s.len() - i,
{
    if i < 0 || i >= s.len() || i + sep.len() > s.len() {
        s.len() as int
    } else if has_at(s, i, sep) {
        i
    } else {
        find_from(s, sep, i + 1)
    }
}

/// The pieces of `s` from position `i` on that lie between the occurrences of `sep`,
/// the occurrences taken from left to right without overlap.
pub open spec fn split_from(s: Seq<char>, sep: Seq<char>, i: int) -> Seq<Seq<char>>
    decreases s.len() - i,
{
    if i < 0 || i > s.len() || sep.len() == 0 {
        Seq::empty()
    } else {
        let m = find_from(s, sep, i);
        if m >= s.len() {
            seq![s.subrange(i, s.len() as int)]
        } else if m < i || m + sep.len() > s.len() {
            Seq::empty()
        } else {
            seq![s.subrange(i, m)] + split_from(s, sep, m + sep.len())
        }
    }
}

/// The pieces of `s` between the occurrences of `sep`: always at least one piece.
pub open spec fn split(s: Seq<char>, sep: Seq<char>) -> Seq<Seq<char>> {
    split_from(s, sep, 0)
}

/// `find_from` gives the first place at or after `i` where `sep` stands, and `s.len()` if
/// it stands nowhere from `i` on.
pub proof fn lemma_find_from_bounds(s: Seq<char>, sep: Seq<char>, i: int)
    requires
        0 <= i <= s.len(),
    ensures
        i <= find_from(s, sep, i) <= s.len(),
        find_from(s, sep, i) < s.len() ==> has_at(s, find_from(s, sep, i), sep),
        forall|j: int| i <= j < find_from(s, sep, i) ==> !has_at(s, j, sep),
        sep.len() > 0 && find_from(s, sep, i) == s.len() ==> forall|j: int|
            i <= j ==> !has_at(s, j, sep),
    decreases s.len() - i,
{
    if i >= s.len() || i + sep.len() > s.len() {
    } else if has_at(s, i, sep) {
    } else {
        lemma_find_from_bounds(s, sep, i + 1);
    }
}

/// The first position at or after `start` where `sep` stands in `s`, or `s.len()`.
pub fn find(s: &[char], sep: &[char], start: usize) -> (r: usize)
    requires
        start <= s.len(),
    ensures
        r == find_from(s@, sep@, start as int),
        start <= r <= s.len(),
{
    let mut i: usize = start;
    proof {
        lemma_find_from_bounds(s@, sep@, start as int);
    }
    while i < s.len() && sep.len() <= s.len() - i
        invariant
            start <= i <= s.len(),
            find_from(s@, sep@, start as int) == find_from(s@, sep@, i as int),
        decreases s.len() - i,
    {
        if starts_at(s, i, sep) {
            return i;
        }
        i += 1;
    }
    s.len()
}

/// The pieces of `s` between the occurrences of `sep`.
pub fn split_at_sep<'a>(s: &'a [char], sep: &[char]) -> (r: Vec<&'a [char]>)
    requires
        sep@.len() > 0,
    ensures
        views(r@) == split(s@, sep@),
        r@.len() >= 1,
{
    let mut r: Vec<&'a [char]> = Vec::new();
    let mut i: usize = 0;
    loop
        invariant_except_break
            i <= s.len(),
            sep@.len() > 0,
            split(s@, sep@) == views(r@) + split_from(s@, sep@, i as int),
        ensures
            views(r@) == split(s@, sep@),
            r@.len() >= 1,
        decreases s.len() - i,
    {
        let m = find(s, sep, i);
        let ghost before = views(r@);
        if m >= s.len() {
            r.push(part(s, i, s.len()));
            assert(views(r@) =~= before + seq![s@.subrange(i as int, s@.len() as int)]);
            break;
        }
        proof {
            lemma_find_from_bounds(s@, sep@, i as int);
        }
        r.push(part(s, i, m));
        assert(views(r@) =~= before + seq![s@.subrange(i as int, m as int)]);
        assert(before + (seq![s@.subrange(i as int, m as int)] + split_from(
            s@,
            sep@,
            m + sep@.len(),
        )) =~= views(r@) + split_from(s@, sep@, m + sep@.len()));
        i = m + sep.len();
    }
    r
}

/// The pieces put together with `sep` between them.
pub open spec fn join(pieces: Seq<Seq<char>>, sep: Seq<char>) -> Seq<char>
    decreases pieces.len(),
{
    if pieces.len() == 0 {
        Seq::empty()
    } else if pieces.len() == 1 {
        pieces[0]
    } else {
        pieces[0] + sep + join(pieces.skip(1), sep)
    }
}

/// The character `c` does not occur in `s`.
pub open spec fn free_of(s: Seq<char>, c: char) -> bool {
    forall|j: int| 0 <= j < s.len() ==> s[j] != c
}

/// A separator of one character stands where that character stands.
pub proof fn lemma_has_at_char(s: Seq<char>, j: int, sep: Seq<char>)
    requires
        sep.len() == 1,
    ensures
        has_at(s, j, sep) <==> 0 <= j < s.len() && s[j] == sep[0],
{
    if 0 <= j < s.len() {
        if s[j] == sep[0] {
            assert(s.subrange(j, j + 1) =~= sep);
        } else {
            assert(s.subrange(j, j + 1)[0] == s[j]);
        }
    }
}

/// The first place of a separator of one character is the first place of that character.
pub proof fn lemma_find_char(s: Seq<char>, sep: Seq<char>, i: int, m: int)
    requires
        sep.len() == 1,
        0 <= i <= m <= s.len(),
        forall|j: int| i <= j < m ==> s[j] != sep[0],
        m < s.len() ==> s[m] == sep[0],
    ensures
        find_from(s, sep, i) == m,
{
    lemma_find_from_bounds(s, sep, i);
    let r = find_from(s, sep, i);
    if r < m {
        lemma_has_at_char(s, r, sep);
    } else if r > m {
        lemma_has_at_char(s, m, sep);
    }
}

/// What stands behind a text is found and split as if the text were not there.
pub proof fn lemma_split_behind(front: Seq<char>, s: Seq<char>, sep: Seq<char>, i: int)
    requires
        sep.len() > 0,
        0 <= i <= s.len(),
    ensures
        find_from(front + s, sep, front.len() + i) == front.len() + find_from(s, sep, i),
        split_from(front + s, sep, front.len() + i) == split_from(s, sep, i),
    decreases s.len() - i, 1int,
{
    let all = front + s;
    lemma_find_behind(front, s, sep, i);
    lemma_find_from_bounds(s, sep, i);
    let m = find_from(s, sep, i);
    if m >= s.len() {
        assert(all.subrange(front.len() + i, all.len() as int) =~= s.subrange(i, s.len() as int));
    } else {
        assert(all.subrange(front.len() + i, front.len() + m) =~= s.subrange(i, m));
        lemma_split_behind(front, s, sep, m + sep.len());
    }
}

/// What stands behind a text is found as if the text were not there.
proof fn lemma_find_behind(front: Seq<char>, s: Seq<char>, sep: Seq<char>, i: int)
    requires
        sep.len() > 0,
        0 <= i <= s.len(),
    ensures
        find_from(front + s, sep, front.len() + i) == front.len() + find_from(s, sep, i),
    decreases s.len() - i, 0int,
{
    let all = front + s;
    if i < s.len() && i + sep.len() <= s.len() {
        assert(all.subrange(front.len() + i, front.len() + i + sep.len()) =~= s.subrange(
            i,
            i + sep.len(),
        ));
        if !has_at(s, i, sep) {
            lemma_find_behind(front, s, sep, i + 1);
        }
    }
}

/// Splitting what was joined gives the pieces back, if the separator is one character that
/// occurs in none of them.
pub proof fn lemma_split_join(pieces: Seq<Seq<char>>, sep: Seq<char>)
    requires
        sep.len() == 1,
        pieces.len() > 0,
        forall|k: int| 0 <= k < pieces.len() ==> free_of(#[trigger] pieces[k], sep[0]),
    ensures
        split(join(pieces, sep), sep) == pieces,
    decreases pieces.len(),
{
    let first = pieces[0];
    let all = join(pieces, sep);
    if pieces.len() == 1 {
        lemma_find_char(all, sep, 0, all.len() as int);
        assert(all.subrange(0, all.len() as int) =~= all);
        assert(split(all, sep) =~= pieces);
    } else {
        let rest = pieces.skip(1);
        assert forall|k: int| 0 <= k < rest.len() implies free_of(#[trigger] rest[k], sep[0]) by {
            assert(rest[k] == pieces[k + 1]);
        }
        lemma_split_join(rest, sep);
        let tail = join(rest, sep);
        assert(all == first + sep + tail);
        assert forall|j: int| 0 <= j < first.len() implies all[j] != sep[0] by {
            assert(all[j] == first[j]);
        }
        assert(all[first.len() as int] == sep[0]);
        lemma_find_char(all, sep, 0, first.len() as int);
        lemma_split_behind(first + sep, tail, sep, 0);
        assert(all.subrange(0, first.len() as int) =~= first);
        assert(split(all, sep) =~= seq![first] + rest);
        assert(seq![first] + rest =~= pieces);
    }
}

/// Joining one more piece puts the separator and the piece behind the rest.
pub proof fn lemma_join_push(pieces: Seq<Seq<char>>, sep: Seq<char>, piece: Seq<char>)
    requires
        pieces.len() > 0,
    ensures
        join(pieces.push(piece), sep) == join(pieces, sep) + sep + piece,
    decreases pieces.len(),
{
    let more = pieces.push(piece);
    if pieces.len() == 1 {
        assert(more.skip(1) =~= seq![piece]);
        assert(join(more.skip(1), sep) == piece);
    } else {
        lemma_join_push(pieces.skip(1), sep, piece);
        assert(more.skip(1) =~= pieces.skip(1).push(piece));
        assert(join(more, sep) =~= join(pieces, sep) + sep + piece);
    }
}

/// `s` without the whitespace at its two ends.
pub open spec fn trim(s: Seq<char>) -> Seq<char> {
    let a = run_end(s, 0, CharClass::Whitespace);
    s.subrange(a, run_start(s, a, s.len() as int, CharClass::Whitespace))
}

/// What is left of `s` when the whitespace at its two ends is taken away: it begins and
/// ends with a character that is no whitespace, or it is empty.
pub proof fn lemma_trim(s: Seq<char>)
    ensures
        exists|a: int, b: int|
            {
                &&& 0 <= a <= b <= s.len()
                &&& #[trigger] s.subrange(a, b) == trim(s)
                &&& forall|k: int| 0 <= k < a || b <= k < s.len() ==> is_whitespace(s[k])
                &&& a < b ==> !is_whitespace(s[a]) && !is_whitespace(s[b - 1])
            },
{
    let a = run_end(s, 0, CharClass::Whitespace);
    lemma_run_end(s, 0, CharClass::Whitespace);
    let b = run_start(s, a, s.len() as int, CharClass::Whitespace);
    lemma_run_start(s, a, s.len() as int, CharClass::Whitespace);
    assert(s.subrange(a, b) == trim(s));
    assert forall|k: int| 0 <= k < a || b <= k < s.len() implies is_whitespace(s[k]) by {
        assert(CharClass::Whitespace.has(s[k]));
    }
}

/// `s` without the whitespace at its two ends.
pub fn trimmed<'a>(s: &'a [char]) -> (r: &'a [char])
    ensures
        r@ == trim(s@),
{
    let a = scan_run(s, 0, CharClass::Whitespace);
    let b = scan_run_back(s, a, s.len(), CharClass::Whitespace);
    part(s, a, b)
}

/// A line without the carriage return that may end it.
pub open spec fn without_cr(line: Seq<char>) -> Seq<char> {
    if line.len() > 0 && line.last() == '\r' {
        line.drop_last()
    } else {
        line
    }
}

/// The lines of `s` from position `i` on. A line ends at a line feed, which is dropped
/// together with a carriage return before it; the last line needs no line feed.
pub open spec fn lines_from(s: Seq<char>, i: int) -> Seq<Seq<char>>
    decreases s.len() - i,
{
    if i < 0 || i >= s.len() {
        Seq::empty()
    } else {
        let e = run_end(s, i, CharClass::LineText);
        if e >= s.len() {
            seq![s.subrange(i, s.len() as int)]
        } else if e < i {
            Seq::empty()
        } else {
            seq![without_cr(s.subrange(i, e))] + lines_from(s, e + 1)
        }
    }
}

/// The lines of `s`.
pub open spec fn lines(s: Seq<char>) -> Seq<Seq<char>> {
    lines_from(s, 0)
}

/// The lines of `s`.
pub fn split_lines<'a>(s: &'a [char]) -> (r: Vec<&'a [char]>)
    ensures
        views(r@) == lines(s@),
{
    let mut r: Vec<&'a [char]> = Vec::new();
    let mut i: usize = 0;
    assert(views(r@) =~= Seq::<Seq<char>>::empty());
    while i < s.len()
        invariant
            i <= s.len(),
            lines(s@) == views(r@) + lines_from(s@, i as int),
        decreases s.len() - i,
    {
        let e = scan_run(s, i, CharClass::LineText);
        let ghost before = views(r@);
        if e >= s.len() {
            r.push(part(s, i, s.len()));
            assert(views(r@) =~= before + seq![s@.subrange(i as int, s@.len() as int)]);
            i = s.len();
        } else {
            let line = if e > i && s[e - 1] == '\r' {
                part(s, i, e - 1)
            } else {
                part(s, i, e)
            };
            assert(line@ =~= without_cr(s@.subrange(i as int, e as int)));
            r.push(line);
            assert(views(r@) =~= before + seq![line@]);
            assert(before + (seq![line@] + lines_from(s@, e + 1)) =~= views(r@) + lines_from(
                s@,
                e + 1,
            ));
            i = e + 1;
        }
    }
    r
}

/// The words of `s` from position `i` on: the longest runs without whitespace.
pub open spec fn words_from(s: Seq<char>, i: int) -> Seq<Seq<char>>
    decreases s.len() - i,
{
    let a = run_end(s, i, CharClass::Whitespace);
    if i < 0 || a < i || a >= s.len() {
        Seq::empty()
    } else {
        let e = run_end(s, a, CharClass::Word);
        if e <= a || e > s.len() {
            Seq::empty()
        } else {
            seq![s.subrange(a, e)] + words_from(s, e)
        }
    }
}

/// The words of `s`.
pub open spec fn words(s: Seq<char>) -> Seq<Seq<char>> {
    words_from(s, 0)
}

/// The words of `s`.
pub fn split_words<'a>(s: &'a [char]) -> (r: Vec<&'a [char]>)
    ensures
        views(r@) == words(s@),
{
    let mut r: Vec<&'a [char]> = Vec::new();
    let mut i: usize = 0;
    assert(views(r@) =~= Seq::<Seq<char>>::empty());
    loop
        invariant_except_break
            i <= s.len(),
            words(s@) == views(r@) + words_from(s@, i as int),
        ensures
            views(r@) == words(s@),
        decreases s.len() - i,
    {
        let a = scan_run(s, i, CharClass::Whitespace);
        if a >= s.len() {
            break;
        }
        let e = scan_run(s, a, CharClass::Word);
        proof {
            lemma_run_end(s@, i as int, CharClass::Whitespace);
            lemma_run_end(s@, a + 1, CharClass::Word);
            assert(e > a);
        }
        let ghost before = views(r@);
        r.push(part(s, a, e));
        assert(views(r@) =~= before + seq![s@.subrange(a as int, e as int)]);
        assert(before + (seq![s@.subrange(a as int, e as int)] + words_from(s@, e as int))
            =~= views(r@) + words_from(s@, e as int));
        i = e;
    }
    r
}

} // verus!
