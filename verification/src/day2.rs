//! Cube games: each line records a game, its id and the grabs of cubes made in it. A game
//! is possible when no grab shows more cubes of a colour than the bag holds.
//!
//! The record of a game is `Game <id>: <grab>; <grab>; ...`, a grab is
//! `<count> <colour>, <count> <colour>, ...`. A parser reads the longest such text that
//! starts at a position and leaves the rest.

use vstd::prelude::*;
use vstd::string::StrSliceExecFns;
use crate::text::chars::{
    chars_of, has_at, lemma_run_end, part, run_end, scan_run, starts_at, CharClass,
};
use crate::text::number::{all_digits, digits_value, parse_decimal};

verus! {

/// A game: its id and its grabs in order.
#[derive(Debug, PartialEq)]
pub struct Game {
    pub id: i32,
    pub grabs: Vec<Grab>,
}

/// A single grab within a game: the numbers of red, green and blue cubes.
#[derive(Debug, PartialEq, Clone, Copy)]
pub struct Grab {
    pub blue: i32,
    pub red: i32,
    pub green: i32,
}

/// A colour of cubes.
#[derive(Debug, PartialEq, Clone, Copy)]
pub enum Color {
    Red,
    Green,
    Blue,
}

/// Why a text is no record.
#[derive(Debug, PartialEq, Clone, Copy)]
pub enum ParseError {
    /// The text does not have the form of the record.
    NoMatch,
    /// The text has the form, but one of its numbers does not fit in 32 bits with sign.
    Overflow,
}

/// A game as a value.
pub struct GameView {
    pub id: i32,
    pub grabs: Seq<Grab>,
}

impl View for Game {
    type V = GameView;

    open spec fn view(&self) -> GameView {
        GameView { id: self.id, grabs: self.grabs@ }
    }
}

impl Default for Grab {
    /// The grab that shows no cube.
    fn default() -> (r: Grab)
        ensures
            r == (Grab { blue: 0, red: 0, green: 0 }),
    {
        Grab { blue: 0, red: 0, green: 0 }
    }
}

impl Grab {
    /// The bag holds 12 red, 13 green and 14 blue cubes: the grab shows no more.
    pub open spec fn possible(self) -> bool {
        self.red <= 12 && self.green <= 13 && self.blue <= 14
    }

    /// The grab with `number` cubes of `color`.
    pub open spec fn with(self, color: Color, number: i32) -> Grab {
        match color {
            Color::Red => Grab { red: number, ..self },
            Color::Green => Grab { green: number, ..self },
            Color::Blue => Grab { blue: number, ..self },
        }
    }

    /// Sets the number of cubes of `color`.
    fn set(&mut self, color: Color, number: i32)
        ensures
            *final(self) == old(self).with(color, number),
    {
        match color {
            Color::Red => self.red = number,
            Color::Green => self.green = number,
            Color::Blue => self.blue = number,
        }
    }
}

impl GameView {
    /// Every grab of the game is possible.
    pub open spec fn possible(self) -> bool {
        forall|i: int| 0 <= i < self.grabs.len() ==> (#[trigger] self.grabs[i]).possible()
    }
}

/// Whether the grab shows no more cubes than the bag holds.
pub fn is_possible_grab(grab: &Grab) -> (r: bool)
    ensures
        r == grab.possible(),
{
    grab.red <= 12 && grab.green <= 13 && grab.blue <= 14
}

/// Whether every grab of the game is possible.
pub fn is_possible_game(game: &Game) -> (r: bool)
    ensures
        r == game@.possible(),
{
    let mut i: usize = 0;
    while i < game.grabs.len()
        invariant
            i <= game.grabs@.len(),
            forall|k: int| 0 <= k < i ==> (#[trigger] game.grabs@[k]).possible(),
        decreases game.grabs@.len() - i,
    {
        if !is_possible_grab(&game.grabs[i]) {
            assert(!game@.grabs[i as int].possible());
            return false;
        }
        i += 1;
    }
    true
}

/// The run of `s` from `i` to `e` is the word `w`.
pub open spec fn is_word(s: Seq<char>, i: int, e: int, w: Seq<char>) -> bool {
    e == i + w.len() && has_at(s, i, w)
}

/// A colour at position `i`: the longest run of letters and digits there, which has to be
/// `red`, `green` or `blue`. The result is the position behind it and the colour.
pub open spec fn color_at(s: Seq<char>, i: int) -> Result<(int, Color), ParseError> {
    let e = run_end(s, i, CharClass::Alphanumeric);
    if is_word(s, i, e, "red"@) {
        Ok((e, Color::Red))
    } else if is_word(s, i, e, "green"@) {
        Ok((e, Color::Green))
    } else if is_word(s, i, e, "blue"@) {
        Ok((e, Color::Blue))
    } else {
        Err(ParseError::NoMatch)
    }
}

/// A count and a colour at position `i`: digits, one or more blanks, and a colour.
pub open spec fn number_color_at(s: Seq<char>, i: int) -> Result<(int, (i32, Color)), ParseError> {
    let e = run_end(s, i, CharClass::Digit);
    let b = run_end(s, e, CharClass::Blank);
    if i < 0 || e <= i || b <= e {
        Err(ParseError::NoMatch)
    } else {
        match color_at(s, b) {
            Err(err) => Err(err),
            Ok((p, color)) => if digits_value(s.subrange(i, e)) <= i32::MAX {
                Ok((p, (digits_value(s.subrange(i, e)) as i32, color)))
            } else {
                Err(ParseError::Overflow)
            },
        }
    }
}

/// The separator `mark` at position `i`, with blanks before and behind it as they come.
pub open spec fn separator_at(s: Seq<char>, i: int, mark: char) -> Option<int> {
    let a = run_end(s, i, CharClass::Blank);
    if 0 <= a < s.len() && s[a] == mark {
        Some(run_end(s, a + 1, CharClass::Blank))
    } else {
        None
    }
}

/// The rest of a grab behind position `p`: as many times a comma and a count with its
/// colour as there are. A colour that comes again replaces the earlier count.
pub open spec fn grab_rest(s: Seq<char>, p: int, acc: Grab) -> Result<(int, Grab), ParseError>
    decreases s.len() - p,
{
    match separator_at(s, p, ',') {
        None => Ok((p, acc)),
        Some(q) => match number_color_at(s, q) {
            Err(ParseError::NoMatch) => Ok((p, acc)),
            Err(ParseError::Overflow) => Err(ParseError::Overflow),
            Ok((next, (number, color))) => if p < next <= s.len() {
                grab_rest(s, next, acc.with(color, number))
            } else {
                Ok((p, acc))
            },
        },
    }
}

/// A grab at position `i`: one or more counts with their colours, commas between them.
pub open spec fn grab_at(s: Seq<char>, i: int) -> Result<(int, Grab), ParseError> {
    match number_color_at(s, i) {
        Err(err) => Err(err),
        Ok((p, (number, color))) => grab_rest(
            s,
            p,
            (Grab { blue: 0, red: 0, green: 0 }).with(color, number),
        ),
    }
}

/// The rest of a list of grabs behind position `p`: as many times a semicolon and a grab
/// as there are.
pub open spec fn grabs_rest(s: Seq<char>, p: int, acc: Seq<Grab>) -> Result<
    (int, Seq<Grab>),
    ParseError,
>
    decreases s.len() - p,
{
    match separator_at(s, p, ';') {
        None => Ok((p, acc)),
        Some(q) => match grab_at(s, q) {
            Err(ParseError::NoMatch) => Ok((p, acc)),
            Err(ParseError::Overflow) => Err(ParseError::Overflow),
            Ok((next, grab)) => if p < next <= s.len() {
                grabs_rest(s, next, acc.push(grab))
            } else {
                Ok((p, acc))
            },
        },
    }
}

/// A game at position `i`: blanks as they come, `Game`, blanks, the id in digits, `:`,
/// blanks, and one or more grabs with semicolons between them.
pub open spec fn game_at(s: Seq<char>, i: int) -> Result<(int, GameView), ParseError> {
    let word = run_end(s, i, CharClass::Blank);
    let id = run_end(s, word + "Game"@.len(), CharClass::Blank);
    let colon = run_end(s, id, CharClass::Digit);
    let first = run_end(s, colon + 1, CharClass::Blank);
    if !has_at(s, word, "Game"@) || id <= word + "Game"@.len() || colon <= id || colon >= s.len()
        || s[colon] != ':' || first <= colon + 1 {
        Err(ParseError::NoMatch)
    } else {
        game_with(s, id, colon, grabs_at(s, first))
    }
}

/// One or more grabs at position `i`, semicolons between them.
pub open spec fn grabs_at(s: Seq<char>, i: int) -> Result<(int, Seq<Grab>), ParseError> {
    match grab_at(s, i) {
        Err(err) => Err(err),
        Ok((p, grab)) => grabs_rest(s, p, seq![grab]),
    }
}

/// The game whose id is written from `id` to `colon` and whose grabs are `list`.
pub open spec fn game_with(
    s: Seq<char>,
    id: int,
    colon: int,
    list: Result<(int, Seq<Grab>), ParseError>,
) -> Result<(int, GameView), ParseError> {
    match list {
        Err(err) => Err(err),
        Ok((end, grabs)) => if digits_value(s.subrange(id, colon)) <= i32::MAX {
            Ok((end, GameView { id: digits_value(s.subrange(id, colon)) as i32, grabs }))
        } else {
            Err(ParseError::Overflow)
        },
    }
}

/// The rest of a list of games behind position `p`: as many times a line feed and a game
/// as there are.
pub open spec fn games_rest(s: Seq<char>, p: int, acc: Seq<GameView>) -> Result<
    (int, Seq<GameView>),
    ParseError,
>
    decreases s.len() - p,
{
    if 0 <= p < s.len() && s[p] == '\n' {
        match game_at(s, p + 1) {
            Err(ParseError::NoMatch) => Ok((p, acc)),
            Err(ParseError::Overflow) => Err(ParseError::Overflow),
            Ok((next, game)) => if p < next <= s.len() {
                games_rest(s, next, acc.push(game))
            } else {
                Ok((p, acc))
            },
        }
    } else {
        Ok((p, acc))
    }
}

/// The games at position `i`: one or more, each on a line of its own.
pub open spec fn games_at(s: Seq<char>, i: int) -> Result<(int, Seq<GameView>), ParseError> {
    match game_at(s, i) {
        Err(err) => Err(err),
        Ok((p, game)) => games_rest(s, p, seq![game]),
    }
}

/// The views of a list of games.
pub open spec fn game_views(games: Seq<Game>) -> Seq<GameView> {
    Seq::new(games.len(), |i: int| games[i]@)
}

/// A colour behind position `i` ends behind `i` and within the text.
pub proof fn lemma_color_bounds(s: Seq<char>, i: int)
    requires
        0 <= i <= s.len(),
    ensures
        color_at(s, i) matches Ok((p, _)) ==> i < p <= s.len(),
{
    reveal_strlit("red");
    reveal_strlit("green");
    reveal_strlit("blue");
    lemma_run_end(s, i, CharClass::Alphanumeric);
}

/// A count with its colour ends behind its start and within the text.
pub proof fn lemma_number_color_bounds(s: Seq<char>, i: int)
    requires
        0 <= i <= s.len(),
    ensures
        number_color_at(s, i) matches Ok((p, _)) ==> i < p <= s.len(),
{
    lemma_run_end(s, i, CharClass::Digit);
    let e = run_end(s, i, CharClass::Digit);
    lemma_run_end(s, e, CharClass::Blank);
    lemma_color_bounds(s, run_end(s, e, CharClass::Blank));
}

/// A separator ends behind its start and within the text.
pub proof fn lemma_separator_bounds(s: Seq<char>, i: int, mark: char)
    requires
        0 <= i <= s.len(),
    ensures
        separator_at(s, i, mark) matches Some(q) ==> i < q <= s.len(),
{
    lemma_run_end(s, i, CharClass::Blank);
    let a = run_end(s, i, CharClass::Blank);
    if a < s.len() {
        lemma_run_end(s, a + 1, CharClass::Blank);
    }
}

/// The rest of a grab ends at or behind its start and within the text.
pub proof fn lemma_grab_rest_bounds(s: Seq<char>, p: int, acc: Grab)
    requires
        0 <= p <= s.len(),
    ensures
        grab_rest(s, p, acc) matches Ok((end, _)) ==> p <= end <= s.len(),
    decreases s.len() - p,
{
    lemma_separator_bounds(s, p, ',');
    if let Some(q) = separator_at(s, p, ',') {
        lemma_number_color_bounds(s, q);
        if let Ok((next, (number, color))) = number_color_at(s, q) {
            lemma_grab_rest_bounds(s, next, acc.with(color, number));
        }
    }
}

/// A grab ends behind its start and within the text.
pub proof fn lemma_grab_bounds(s: Seq<char>, i: int)
    requires
        0 <= i <= s.len(),
    ensures
        grab_at(s, i) matches Ok((end, _)) ==> i < end <= s.len(),
{
    lemma_number_color_bounds(s, i);
    if let Ok((p, (number, color))) = number_color_at(s, i) {
        lemma_grab_rest_bounds(s, p, (Grab { blue: 0, red: 0, green: 0 }).with(color, number));
    }
}

/// The rest of a list of grabs ends at or behind its start and within the text.
pub proof fn lemma_grabs_rest_bounds(s: Seq<char>, p: int, acc: Seq<Grab>)
    requires
        0 <= p <= s.len(),
    ensures
        grabs_rest(s, p, acc) matches Ok((end, _)) ==> p <= end <= s.len(),
    decreases s.len() - p,
{
    lemma_separator_bounds(s, p, ';');
    if let Some(q) = separator_at(s, p, ';') {
        lemma_grab_bounds(s, q);
        if let Ok((next, grab)) = grab_at(s, q) {
            lemma_grabs_rest_bounds(s, next, acc.push(grab));
        }
    }
}

/// A game ends behind its start and within the text.
pub proof fn lemma_game_bounds(s: Seq<char>, i: int)
    requires
        0 <= i <= s.len(),
    ensures
        game_at(s, i) matches Ok((end, _)) ==> i < end <= s.len(),
{
    reveal_strlit("Game");
    lemma_run_end(s, i, CharClass::Blank);
    let word = run_end(s, i, CharClass::Blank);
    if has_at(s, word, "Game"@) {
        lemma_run_end(s, word + 4, CharClass::Blank);
        let id = run_end(s, word + 4, CharClass::Blank);
        lemma_run_end(s, id, CharClass::Digit);
        let colon = run_end(s, id, CharClass::Digit);
        if colon < s.len() {
            lemma_run_end(s, colon + 1, CharClass::Blank);
            let first = run_end(s, colon + 1, CharClass::Blank);
            lemma_grab_bounds(s, first);
            if let Ok((p, grab)) = grab_at(s, first) {
                lemma_grabs_rest_bounds(s, p, seq![grab]);
            }
        }
    }
}

/// What a parser returned is what the grammar gives: the same end and the same value, or
/// the same error.
pub open spec fn agrees<T>(r: Result<(usize, T), ParseError>, spec: Result<(int, T), ParseError>) -> bool {
    match (r, spec) {
        (Ok((end, value)), Ok((p, v))) => end == p && value == v,
        (Err(e), Err(err)) => e == err,
        _ => false,
    }
}

/// What a parser on a string returned is what the grammar gives from its start: the rest of
/// the string and the same value, or the same error.
pub open spec fn agrees_on<T>(
    input: Seq<char>,
    r: Result<(&str, T), ParseError>,
    spec: Result<(int, T), ParseError>,
) -> bool {
    match (r, spec) {
        (Ok((rest, value)), Ok((p, v))) => rest@ == input.skip(p) && value == v,
        (Err(e), Err(err)) => e == err,
        _ => false,
    }
}

/// Whether the run of `s` from `i` to `e` is the word `word`.
fn is_run(s: &[char], i: usize, e: usize, word: &str) -> (r: bool)
    requires
        i <= e <= s.len(),
    ensures
        r == is_word(s@, i as int, e as int, word@),
{
    let w = chars_of(word);
    e - i == w.len() && starts_at(s, i, w.as_slice())
}

/// The colour at position `i` of `s`.
pub fn scan_color(s: &[char], i: usize) -> (r: Result<(usize, Color), ParseError>)
    requires
        i <= s.len(),
    ensures
        agrees(r, color_at(s@, i as int)),
        r matches Ok((end, _)) ==> i < end <= s.len(),
{
    proof {
        lemma_color_bounds(s@, i as int);
    }
    let e = scan_run(s, i, CharClass::Alphanumeric);
    if is_run(s, i, e, "red") {
        Ok((e, Color::Red))
    } else if is_run(s, i, e, "green") {
        Ok((e, Color::Green))
    } else if is_run(s, i, e, "blue") {
        Ok((e, Color::Blue))
    } else {
        Err(ParseError::NoMatch)
    }
}

/// The number that the digits of `s` from `i` to `e` write, if it fits in 32 bits with
/// sign.
fn number_between(s: &[char], i: usize, e: usize) -> (r: Option<i32>)
    requires
        i < e <= s.len(),
        e == run_end(s@, i as int, CharClass::Digit),
    ensures
        r is Some <==> digits_value(s@.subrange(i as int, e as int)) <= i32::MAX,
        r matches Some(n) ==> n == digits_value(s@.subrange(i as int, e as int)),
{
    let digits = part(s, i, e);
    proof {
        lemma_run_end(s@, i as int, CharClass::Digit);
        assert forall|k: int| 0 <= k < digits@.len() implies CharClass::Digit.has(
            #[trigger] digits@[k],
        ) by {
            assert(digits@[k] == s@[i + k]);
        }
        assert(all_digits(digits@));
    }
    match parse_decimal(digits, i32::MAX as u64) {
        Some(n) => Some(n as i32),
        None => None,
    }
}

/// The count and the colour at position `i` of `s`.
pub fn scan_number_color(s: &[char], i: usize) -> (r: Result<(usize, (i32, Color)), ParseError>)
    requires
        i <= s.len(),
    ensures
        agrees(r, number_color_at(s@, i as int)),
        r matches Ok((end, _)) ==> i < end <= s.len(),
{
    proof {
        lemma_number_color_bounds(s@, i as int);
    }
    let e = scan_run(s, i, CharClass::Digit);
    if e == i {
        return Err(ParseError::NoMatch);
    }
    let b = scan_run(s, e, CharClass::Blank);
    if b == e {
        return Err(ParseError::NoMatch);
    }
    let (end, color) = match scan_color(s, b) {
        Ok(found) => found,
        Err(err) => { return Err(err); },
    };
    match number_between(s, i, e) {
        Some(number) => Ok((end, (number, color))),
        None => Err(ParseError::Overflow),
    }
}

/// The separator `mark` at position `i` of `s`, with the blanks around it.
fn scan_separator(s: &[char], i: usize, mark: char) -> (r: Option<usize>)
    requires
        i <= s.len(),
    ensures
        r matches Some(end) ==> separator_at(s@, i as int, mark) == Some(end as int) && i < end
            <= s.len(),
        r is None ==> separator_at(s@, i as int, mark) is None,
{
    let a = scan_run(s, i, CharClass::Blank);
    if a < s.len() && s[a] == mark {
        Some(scan_run(s, a + 1, CharClass::Blank))
    } else {
        None
    }
}

/// A comma at position `i` of `s`, with the blanks around it.
pub fn comma(s: &[char], i: usize) -> (r: Option<usize>)
    requires
        i <= s.len(),
    ensures
        r matches Some(end) ==> separator_at(s@, i as int, ',') == Some(end as int) && i < end
            <= s.len(),
        r is None ==> separator_at(s@, i as int, ',') is None,
{
    scan_separator(s, i, ',')
}

/// A semicolon at position `i` of `s`, with the blanks around it.
pub fn semicolon(s: &[char], i: usize) -> (r: Option<usize>)
    requires
        i <= s.len(),
    ensures
        r matches Some(end) ==> separator_at(s@, i as int, ';') == Some(end as int) && i < end
            <= s.len(),
        r is None ==> separator_at(s@, i as int, ';') is None,
{
    scan_separator(s, i, ';')
}

/// The grab at position `i` of `s`.
pub fn scan_grab(s: &[char], i: usize) -> (r: Result<(usize, Grab), ParseError>)
    requires
        i <= s.len(),
    ensures
        agrees(r, grab_at(s@, i as int)),
        r matches Ok((end, _)) ==> i < end <= s.len(),
{
    let (first, (number, color)) = match scan_number_color(s, i) {
        Ok(found) => found,
        Err(err) => { return Err(err); },
    };
    let mut grab = Grab::default();
    grab.set(color, number);
    let mut p = first;
    loop
        invariant
            i < p <= s.len(),
            grab_at(s@, i as int) == grab_rest(s@, p as int, grab),
        decreases s.len() - p,
    {
        let q = match comma(s, p) {
            Some(q) => q,
            None => { return Ok((p, grab)); },
        };
        match scan_number_color(s, q) {
            Err(ParseError::NoMatch) => { return Ok((p, grab)); },
            Err(ParseError::Overflow) => { return Err(ParseError::Overflow); },
            Ok((next, (number, color))) => {
                grab.set(color, number);
                p = next;
            },
        }
    }
}

/// What `scan_game` returned is what the grammar gives.
pub open spec fn game_agrees(
    r: Result<(usize, Game), ParseError>,
    spec: Result<(int, GameView), ParseError>,
) -> bool {
    match (r, spec) {
        (Ok((end, game)), Ok((p, v))) => end == p && game@ == v,
        (Err(e), Err(err)) => e == err,
        _ => false,
    }
}

/// The game at position `i` of `s`.
pub fn scan_game(s: &[char], i: usize) -> (r: Result<(usize, Game), ParseError>)
    requires
        i <= s.len(),
    ensures
        game_agrees(r, game_at(s@, i as int)),
        r matches Ok((end, _)) ==> i < end <= s.len(),
{
    proof {
        reveal_strlit("Game");
        lemma_game_bounds(s@, i as int);
    }
    let word = scan_run(s, i, CharClass::Blank);
    let name = chars_of("Game");
    if !starts_at(s, word, name.as_slice()) {
        return Err(ParseError::NoMatch);
    }
    let id_start = scan_run(s, word + 4, CharClass::Blank);
    if id_start == word + 4 {
        return Err(ParseError::NoMatch);
    }
    let colon = scan_run(s, id_start, CharClass::Digit);
    if colon == id_start || colon >= s.len() || s[colon] != ':' {
        return Err(ParseError::NoMatch);
    }
    let first = scan_run(s, colon + 1, CharClass::Blank);
    if first == colon + 1 {
        return Err(ParseError::NoMatch);
    }
    let (after, grab) = match scan_grab(s, first) {
        Ok(found) => found,
        Err(err) => { return Err(err); },
    };
    let mut grabs: Vec<Grab> = Vec::new();
    grabs.push(grab);
    assert(grabs@ =~= seq![grab]);
    let mut p = after;
    loop
        invariant_except_break
            i < p <= s.len(),
            id_start < colon <= s.len(),
            colon == run_end(s@, id_start as int, CharClass::Digit),
            game_at(s@, i as int) == game_with(
                s@,
                id_start as int,
                colon as int,
                grabs_rest(s@, p as int, grabs@),
            ),
        ensures
            i < p <= s.len(),
            id_start < colon <= s.len(),
            colon == run_end(s@, id_start as int, CharClass::Digit),
            game_at(s@, i as int) == game_with(
                s@,
                id_start as int,
                colon as int,
                Ok((p as int, grabs@)),
            ),
        decreases s.len() - p,
    {
        let q = match semicolon(s, p) {
            Some(q) => q,
            None => { break ; },
        };
        match scan_grab(s, q) {
            Err(ParseError::NoMatch) => { break ; },
            Err(ParseError::Overflow) => { return Err(ParseError::Overflow); },
            Ok((next, grab)) => {
                grabs.push(grab);
                p = next;
            },
        }
    }
    match number_between(s, id_start, colon) {
        Some(id) => Ok((p, Game { id, grabs })),
        None => Err(ParseError::Overflow),
    }
}

/// What `scan_games` returned is what the grammar gives.
pub open spec fn games_agree(
    r: Result<(usize, Vec<Game>), ParseError>,
    spec: Result<(int, Seq<GameView>), ParseError>,
) -> bool {
    match (r, spec) {
        (Ok((end, games)), Ok((p, v))) => end == p && game_views(games@) == v,
        (Err(e), Err(err)) => e == err,
        _ => false,
    }
}

/// The games at position `i` of `s`, each on a line of its own.
pub fn scan_games(s: &[char], i: usize) -> (r: Result<(usize, Vec<Game>), ParseError>)
    requires
        i <= s.len(),
    ensures
        games_agree(r, games_at(s@, i as int)),
        r matches Ok((end, _)) ==> i < end <= s.len(),
{
    let (first, game) = match scan_game(s, i) {
        Ok(found) => found,
        Err(err) => { return Err(err); },
    };
    let mut games: Vec<Game> = Vec::new();
    games.push(game);
    assert(game_views(games@) =~= seq![games@[0]@]);
    let mut p = first;
    loop
        invariant
            i < p <= s.len(),
            games_at(s@, i as int) == games_rest(s@, p as int, game_views(games@)),
        decreases s.len() - p,
    {
        if !(p < s.len() && s[p] == '\n') {
            return Ok((p, games));
        }
        let ghost before = game_views(games@);
        match scan_game(s, p + 1) {
            Err(ParseError::NoMatch) => { return Ok((p, games)); },
            Err(ParseError::Overflow) => { return Err(ParseError::Overflow); },
            Ok((next, game)) => {
                games.push(game);
                assert(game_views(games@) =~= before.push(game@));
                p = next;
            },
        }
    }
}

/// What follows the first `end` characters of `input`.
fn rest_of<'a>(input: &'a str, end: usize, len: usize) -> (rest: &'a str)
    requires
        end <= len == input@.len(),
    ensures
        rest@ == input@.skip(end as int),
{
    let rest = input.substring_char(end, len);
    assert(rest@ =~= input@.skip(end as int));
    rest
}

/// The colour at the start of `input`, and what follows it.
pub fn color<'a>(input: &'a str) -> (r: Result<(&'a str, Color), ParseError>)
    ensures
        agrees_on(input@, r, color_at(input@, 0)),
{
    let chars = chars_of(input);
    match scan_color(chars.as_slice(), 0) {
        Ok((end, color)) => Ok((rest_of(input, end, chars.len()), color)),
        Err(err) => Err(err),
    }
}

/// The count and the colour at the start of `input`, and what follows them.
pub fn number_color<'a>(input: &'a str) -> (r: Result<(&'a str, (i32, Color)), ParseError>)
    ensures
        agrees_on(input@, r, number_color_at(input@, 0)),
{
    let chars = chars_of(input);
    match scan_number_color(chars.as_slice(), 0) {
        Ok((end, found)) => Ok((rest_of(input, end, chars.len()), found)),
        Err(err) => Err(err),
    }
}

/// The grab at the start of `input`, and what follows it.
pub fn grab<'a>(input: &'a str) -> (r: Result<(&'a str, Grab), ParseError>)
    ensures
        agrees_on(input@, r, grab_at(input@, 0)),
{
    let chars = chars_of(input);
    match scan_grab(chars.as_slice(), 0) {
        Ok((end, grab)) => Ok((rest_of(input, end, chars.len()), grab)),
        Err(err) => Err(err),
    }
}

/// The game at the start of `input`, and what follows it.
pub fn game<'a>(input: &'a str) -> (r: Result<(&'a str, Game), ParseError>)
    ensures
        match (r, game_at(input@, 0)) {
            (Ok((rest, game)), Ok((p, v))) => rest@ == input@.skip(p) && game@ == v,
            (Err(e), Err(err)) => e == err,
            _ => false,
        },
{
    let chars = chars_of(input);
    match scan_game(chars.as_slice(), 0) {
        Ok((end, game)) => Ok((rest_of(input, end, chars.len()), game)),
        Err(err) => Err(err),
    }
}

/// The games at the start of `input`, each on a line of its own, and what follows them.
pub fn games<'a>(input: &'a str) -> (r: Result<(&'a str, Vec<Game>), ParseError>)
    ensures
        match (r, games_at(input@, 0)) {
            (Ok((rest, games)), Ok((p, v))) => rest@ == input@.skip(p) && game_views(games@) == v,
            (Err(e), Err(err)) => e == err,
            _ => false,
        },
{
    let chars = chars_of(input);
    match scan_games(chars.as_slice(), 0) {
        Ok((end, games)) => Ok((rest_of(input, end, chars.len()), games)),
        Err(err) => Err(err),
    }
}

/// The games that `input` records, one on each line. What follows the last game that can
/// be read is left out.
pub fn parse_games(input: &str) -> (games: Vec<Game>)
    requires
        games_at(input@, 0) is Ok,
    ensures
        games_at(input@, 0) matches Ok((_, v)) && game_views(games@) == v,
{
    let chars = chars_of(input);
    scan_games(chars.as_slice(), 0).unwrap().1
}

/// The sum of the ids of the possible games among `games`.
pub open spec fn possible_ids_sum(games: Seq<GameView>) -> int
    decreases games.len(),
{
    if games.len() == 0 {
        0
    } else {
        possible_ids_sum(games.drop_last()) + if games.last().possible() {
            games.last().id as int
        } else {
            0
        }
    }
}

/// The sum of the ids of all of `games`.
pub open spec fn ids_sum(games: Seq<GameView>) -> int
    decreases games.len(),
{
    if games.len() == 0 {
        0
    } else {
        ids_sum(games.drop_last()) + games.last().id
    }
}

/// A number that a 32 bit integer with sign can hold.
pub open spec fn fits_i32(n: int) -> bool {
    i32::MIN <= n <= i32::MAX
}

/// The sum of the ids of the possible games among `games`; `None` if the sum, taken from
/// the first game on, leaves the range of 32 bits at some game.
pub fn sum_of_possible_ids(games: &Vec<Game>) -> (r: Option<i32>)
    ensures
        r matches Some(sum) ==> sum == possible_ids_sum(game_views(games@)),
        r is None <==> exists|k: int|
            0 <= k <= games@.len() && !fits_i32(
                possible_ids_sum(#[trigger] game_views(games@).take(k)),
            ),
{
    let ghost all = game_views(games@);
    let mut sum: i32 = 0;
    let mut i: usize = 0;
    assert(all.take(0) =~= Seq::<GameView>::empty());
    while i < games.len()
        invariant
            i <= games@.len(),
            all == game_views(games@),
            sum == possible_ids_sum(all.take(i as int)),
            forall|k: int| 0 <= k <= i ==> fits_i32(possible_ids_sum(#[trigger] all.take(k))),
        decreases games@.len() - i,
    {
        proof {
            assert(all.take(i + 1).drop_last() =~= all.take(i as int));
            assert(all.take(i + 1).last() == games@[i as int]@);
        }
        if is_possible_game(&games[i]) {
            sum = match sum.checked_add(games[i].id) {
                Some(sum) => sum,
                None => {
                    assert(!fits_i32(possible_ids_sum(all.take(i + 1))));
                    return None;
                },
            };
        }
        i += 1;
    }
    assert(all.take(i as int) =~= all);
    Some(sum)
}

/// One grab that shows more cubes of a colour than the bag holds makes its game
/// impossible, whatever the other grabs show.
pub proof fn lemma_one_grab_spoils_the_game(game: GameView, i: int)
    requires
        0 <= i < game.grabs.len(),
        game.grabs[i].red > 12 || game.grabs[i].green > 13 || game.grabs[i].blue > 14,
    ensures
        !game.possible(),
{
    assert(!game.grabs[i].possible());
}

/// The sum of the ids of the possible games of a list is the sum of the ids of the list
/// without its impossible games.
pub proof fn lemma_sum_counts_only_possible_games(games: Seq<GameView>)
    ensures
        possible_ids_sum(games) == ids_sum(games.filter(|game: GameView| game.possible())),
    decreases games.len(),
{
    reveal(Seq::filter);
    let possible = |game: GameView| game.possible();
    if games.len() > 0 {
        lemma_sum_counts_only_possible_games(games.drop_last());
        if games.last().possible() {
            assert(games.filter(possible).drop_last() =~= games.drop_last().filter(possible));
        }
    }
}

} // verus!
