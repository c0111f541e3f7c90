//! The engine schematic: a grid of characters in which runs of digits are numbers and
//! every other character but `.` is a symbol. A number counts when one of its cells
//! touches a symbol.

use vstd::prelude::*;
use crate::text::chars::{
    char_is_digit, chars_of, is_digit, lemma_run_end, lemma_run_end_is, run_end, CharClass,
};
use crate::text::lines::{lines, split_lines, views};
use crate::text::number::{all_digits, digits_value, parse_decimal};

verus! {

/// A cell of the grid: column `x` of row `y`.
#[derive(Debug, PartialEq, Eq, Structural, Clone, Copy)]
pub struct Pos {
    pub x: usize,
    pub y: usize,
}

/// A run of digits: its value, the cell of its first digit and the number of its digits.
#[derive(Debug, PartialEq, Clone, Copy)]
pub struct Number {
    pub value: u32,
    pub pos: Pos,
    pub size: usize,
}

/// A symbol and its cell.
#[derive(Debug, PartialEq, Clone, Copy)]
pub struct Symbol {
    pub value: char,
    pub pos: Pos,
}

impl Pos {
    /// `self` is one of the eight cells around `other`.
    pub open spec fn near(self, other: Pos) -> bool {
        &&& self != other
        &&& self.x - other.x <= 1
        &&& other.x - self.x <= 1
        &&& self.y - other.y <= 1
        &&& other.y - self.y <= 1
    }

    /// `self` comes before `other` when cells are ordered by column, then by row.
    pub open spec fn before(self, other: Pos) -> bool {
        self.x < other.x || (self.x == other.x && self.y < other.y)
    }
}

impl Number {
    /// The cell of the digit at offset `i`.
    pub open spec fn cell(self, i: int) -> Pos {
        Pos { x: (self.pos.x + i) as usize, y: self.pos.y }
    }

    /// The cells that the digits take, from left to right.
    pub open spec fn cells(self) -> Seq<Pos> {
        Seq::new(self.size as nat, |i: int| self.cell(i))
    }

    /// The cells of the number have columns that a `usize` can hold.
    pub open spec fn in_bounds(self) -> bool {
        self.pos.x + self.size <= usize::MAX
    }

    /// Some cell of the number touches some symbol of `symbols`.
    pub open spec fn engaged(self, symbols: Seq<Symbol>) -> bool {
        exists|i: int, k: int|
            0 <= i < self.size && 0 <= k < symbols.len() && #[trigger] self.cell(i).near(
                symbols[k].pos,
            )
    }

    /// The cells that the digits take, from left to right.
    pub fn all_taken_positions(&self) -> (positions: Vec<Pos>)
        requires
            self.in_bounds(),
        ensures
            positions@ == self.cells(),
    {
        let mut positions: Vec<Pos> = Vec::new();
        let end = self.pos.x + self.size;
        let mut x = self.pos.x;
        while x < end
            invariant
                self.pos.x <= x <= end,
                end == self.pos.x + self.size,
                positions@.len() == x - self.pos.x,
                forall|i: int| 0 <= i < positions@.len() ==> positions@[i] == self.cell(i),
            decreases end - x,
        {
            positions.push(Pos { x, y: self.pos.y });
            x += 1;
        }
        assert(positions@ =~= self.cells());
        positions
    }
}

impl Symbol {
    /// The cells around the symbol have columns and rows that a `usize` can hold.
    pub open spec fn in_bounds(self) -> bool {
        self.pos.x < usize::MAX && self.pos.y < usize::MAX
    }

    /// The cells around the symbol, at most eight: at an edge of the grid there are fewer.
    pub fn all_nearby_positions(&self) -> (positions: Vec<Pos>)
        requires
            self.in_bounds(),
        ensures
            forall|p: Pos| positions@.contains(p) <==> p.near(self.pos),
            forall|i: int, j: int|
                0 <= i < j < positions@.len() ==> positions@[i].before(positions@[j]),
    {
        let mut positions: Vec<Pos> = Vec::new();
        let minx = if self.pos.x == 0 { 0 } else { self.pos.x - 1 };
        let miny = if self.pos.y == 0 { 0 } else { self.pos.y - 1 };
        let columns = self.pos.x + 1 - minx + 1;
        let rows = self.pos.y + 1 - miny + 1;
        let mut i: usize = 0;
        while i < columns
            invariant
                i <= columns,
                self.pos.x < usize::MAX,
                self.pos.y < usize::MAX,
                minx == if self.pos.x == 0 { 0 } else { self.pos.x - 1 },
                miny == if self.pos.y == 0 { 0 } else { self.pos.y - 1 },
                columns == self.pos.x + 1 - minx + 1,
                rows == self.pos.y + 1 - miny + 1,
                forall|p: Pos| positions@.contains(p) <==> p.near(self.pos) && p.x < minx + i,
                forall|a: int, b: int|
                    0 <= a < b < positions@.len() ==> positions@[a].before(positions@[b]),
            decreases columns - i,
        {
            let x = minx + i;
            let mut j: usize = 0;
            while j < rows
                invariant
                    i < columns,
                    j <= rows,
                    self.pos.x < usize::MAX,
                    self.pos.y < usize::MAX,
                    x == minx + i,
                    minx == if self.pos.x == 0 { 0 } else { self.pos.x - 1 },
                    miny == if self.pos.y == 0 { 0 } else { self.pos.y - 1 },
                    columns == self.pos.x + 1 - minx + 1,
                    rows == self.pos.y + 1 - miny + 1,
                    forall|p: Pos|
                        positions@.contains(p) <==> p.near(self.pos) && (p.x < x || (p.x == x
                            && p.y < miny + j)),
                    forall|a: int, b: int|
                        0 <= a < b < positions@.len() ==> positions@[a].before(positions@[b]),
                decreases rows - j,
            {
                let y = miny + j;
                let ghost before = positions@;
                if !(x == self.pos.x && y == self.pos.y) {
                    let p = Pos { x, y };
                    assert(forall|a: int|
                        0 <= a < positions@.len() ==> positions@.contains(positions@[a]));
                    positions.push(p);
                    proof {
                        lemma_push_contains(before, p);
                    }
                }
                j += 1;
            }
            i += 1;
        }
        positions
    }
}

/// A list with one more value holds that value and what it held before.
proof fn lemma_push_contains<T>(s: Seq<T>, v: T)
    ensures
        forall|x: T| #[trigger] s.push(v).contains(x) <==> v == x || s.contains(x),
{
    assert forall|x: T| #[trigger] s.push(v).contains(x) <==> v == x || s.contains(x) by {
        vstd::seq_lib::lemma_seq_contains_after_push(s, v, x);
    }
}

/// Whether `p` is one of `positions`.
fn holds(positions: &Vec<Pos>, p: Pos) -> (r: bool)
    ensures
        r == positions@.contains(p),
{
    let mut i: usize = 0;
    while i < positions.len()
        invariant
            i <= positions.len(),
            forall|j: int| 0 <= j < i ==> positions@[j] != p,
        decreases positions.len() - i,
    {
        if positions[i] == p {
            return true;
        }
        i += 1;
    }
    false
}

/// Whether a cell of `number` touches one of `symbols`.
pub fn is_adjusted_to_one_of_symbols(number: &Number, symbols: &[Symbol]) -> (r: bool)
    requires
        number.in_bounds(),
        forall|k: int| 0 <= k < symbols@.len() ==> (#[trigger] symbols@[k]).in_bounds(),
    ensures
        r == number.engaged(symbols@),
{
    let number_positions = number.all_taken_positions();
    let mut symbol_positions: Vec<Pos> = Vec::new();
    let mut k: usize = 0;
    while k < symbols.len()
        invariant
            k <= symbols@.len(),
            forall|j: int| 0 <= j < symbols@.len() ==> (#[trigger] symbols@[j]).in_bounds(),
            forall|p: Pos|
                symbol_positions@.contains(p) <==> exists|j: int|
                    0 <= j < k && p.near(#[trigger] symbols@[j].pos),
        decreases symbols@.len() - k,
    {
        let around = symbols[k].all_nearby_positions();
        let mut a: usize = 0;
        assert(around@.take(0) =~= Seq::<Pos>::empty());
        while a < around.len()
            invariant
                a <= around@.len(),
                k < symbols@.len(),
                forall|p: Pos| around@.contains(p) <==> p.near(symbols@[k as int].pos),
                forall|p: Pos|
                    symbol_positions@.contains(p) <==> (exists|j: int|
                        0 <= j < k && p.near(#[trigger] symbols@[j].pos)) || around@.take(
                        a as int,
                    ).contains(p),
            decreases around@.len() - a,
        {
            let ghost before = symbol_positions@;
            symbol_positions.push(around[a]);
            proof {
                let v = around@[a as int];
                assert(around@.take(a + 1) =~= around@.take(a as int).push(v));
                assert forall|p: Pos|
                    symbol_positions@.contains(p) <==> (exists|j: int|
                        0 <= j < k && p.near(#[trigger] symbols@[j].pos)) || around@.take(
                        a + 1,
                    ).contains(p) by {
                    vstd::seq_lib::lemma_seq_contains_after_push(before, v, p);
                    vstd::seq_lib::lemma_seq_contains_after_push(around@.take(a as int), v, p);
                }
            }
            a += 1;
        }
        assert(around@.take(a as int) =~= around@);
        k += 1;
    }
    let mut i: usize = 0;
    while i < number_positions.len()
        invariant
            i <= number_positions@.len(),
            number_positions@ == number.cells(),
            forall|p: Pos|
                symbol_positions@.contains(p) <==> exists|j: int|
                    0 <= j < symbols@.len() && p.near(#[trigger] symbols@[j].pos),
            forall|a: int, j: int|
                0 <= a < i && 0 <= j < symbols@.len() ==> !#[trigger] number.cell(a).near(
                    symbols@[j].pos,
                ),
        decreases number_positions@.len() - i,
    {
        if holds(&symbol_positions, number_positions[i]) {
            assert(number_positions@[i as int] == number.cell(i as int));
            return true;
        }
        assert(number_positions@[i as int] == number.cell(i as int));
        i += 1;
    }
    false
}

/// What the tokenizer holds between two characters.
#[derive(Debug)]
pub enum StateMachine {
    /// Nothing.
    Empty,
    /// A number that may still grow: the cell of its first digit and its digits so far.
    Number(Pos, Vec<char>),
    /// A symbol that was read and not yet put out.
    Symbol(Pos, char),
}

/// A token that the tokenizer puts out.
#[derive(Debug, PartialEq, Clone, Copy)]
pub enum Output {
    Number(Number),
    Symbol(Symbol),
}

/// The tokenizer's state as a value: `StateMachine` with the digits as a sequence.
pub enum State {
    Empty,
    Number(Pos, Seq<char>),
    Symbol(Pos, char),
}

impl State {
    /// A number in progress is made of one or more digits.
    pub open spec fn wf(self) -> bool {
        self matches State::Number(_, digits) ==> digits.len() > 0 && all_digits(digits)
    }

    /// What is held can be put out: a number in progress fits in 32 bits.
    pub open spec fn ready(self) -> bool {
        self matches State::Number(_, digits) ==> digits_value(digits) <= u32::MAX
    }

    /// The token that is held.
    pub open spec fn held(self) -> Option<Output> {
        match self {
            State::Empty => None,
            State::Number(pos, digits) => Some(
                Output::Number(
                    Number {
                        value: digits_value(digits) as u32,
                        pos,
                        size: digits.len() as usize,
                    },
                ),
            ),
            State::Symbol(pos, value) => Some(Output::Symbol(Symbol { value, pos })),
        }
    }

    /// The transition: the state after the character `c` of cell `(x, y)`, and the token
    /// that this character completes. A digit starts or extends a number, `.` leaves nothing
    /// behind, any other character is a symbol; whatever was held before is put out, except a
    /// number that the digit extends.
    pub open spec fn step(self, x: usize, y: usize, c: char) -> (State, Option<Output>) {
        if is_digit(c) {
            match self {
                State::Number(pos, digits) => (State::Number(pos, digits.push(c)), None),
                _ => (State::Number(Pos { x, y }, seq![c]), self.held()),
            }
        } else if c == '.' {
            (State::Empty, self.held())
        } else {
            (State::Symbol(Pos { x, y }, c), self.held())
        }
    }
}

impl View for StateMachine {
    type V = State;

    open spec fn view(&self) -> State {
        match self {
            StateMachine::Empty => State::Empty,
            StateMachine::Number(pos, digits) => State::Number(*pos, digits@),
            StateMachine::Symbol(pos, value) => State::Symbol(*pos, *value),
        }
    }
}

impl Default for StateMachine {
    /// The state before the first character.
    fn default() -> (r: StateMachine)
        ensures
            r@ == State::Empty,
    {
        StateMachine::Empty
    }
}

/// The number that the digits `s` write, first digit in cell `pos`.
pub fn output_number(pos: Pos, s: Vec<char>) -> (r: Option<Output>)
    requires
        s@.len() > 0,
        all_digits(s@),
        digits_value(s@) <= u32::MAX,
    ensures
        r == State::Number(pos, s@).held(),
{
    let size = s.len();
    let parsed = parse_decimal(s.as_slice(), u32::MAX as u64);
    let value = parsed.unwrap() as u32;
    Some(Output::Number(Number { pos, size, value }))
}

/// The symbol `value` of cell `pos`.
pub fn output_symbol(pos: Pos, value: char) -> (r: Option<Output>)
    ensures
        r == State::Symbol(pos, value).held(),
{
    Some(Output::Symbol(Symbol { pos, value }))
}

impl StateMachine {
    /// Whether what is held can be put out.
    pub fn is_ready(&self) -> (r: bool)
        requires
            self@.wf(),
        ensures
            r == self@.ready(),
    {
        match self {
            StateMachine::Number(_, digits) => parse_decimal(
                digits.as_slice(),
                u32::MAX as u64,
            ).is_some(),
            _ => true,
        }
    }

    /// Takes the character `input_char` of cell `(x, y)` and returns the token that it
    /// completes, if any.
    pub fn feed_char(&mut self, x: usize, y: usize, input_char: char) -> (r: Option<Output>)
        requires
            old(self)@.wf(),
            !is_digit(input_char) ==> old(self)@.ready(),
        ensures
            (final(self)@, r) == old(self)@.step(x, y, input_char),
            final(self)@.wf(),
    {
        let mut current_state = StateMachine::Empty;
        core::mem::swap(self, &mut current_state);
        let digit = char_is_digit(input_char);
        let (new_state, res) = match current_state {
            StateMachine::Empty => {
                if digit {
                    let mut s: Vec<char> = Vec::new();
                    s.push(input_char);
                    assert(s@ =~= seq![input_char]);
                    (StateMachine::Number(Pos { x, y }, s), None)
                } else if input_char == '.' {
                    (StateMachine::Empty, None)
                } else {
                    (StateMachine::Symbol(Pos { x, y }, input_char), None)
                }
            },
            StateMachine::Number(num_pos, mut num_str) => {
                if digit {
                    num_str.push(input_char);
                    (StateMachine::Number(num_pos, num_str), None)
                } else if input_char == '.' {
                    (StateMachine::Empty, output_number(num_pos, num_str))
                } else {
                    (
                        StateMachine::Symbol(Pos { x, y }, input_char),
                        output_number(num_pos, num_str),
                    )
                }
            },
            StateMachine::Symbol(sym_pos, sym_ch) => {
                if digit {
                    let mut s: Vec<char> = Vec::new();
                    s.push(input_char);
                    assert(s@ =~= seq![input_char]);
                    (StateMachine::Number(Pos { x, y }, s), output_symbol(sym_pos, sym_ch))
                } else if input_char == '.' {
                    (StateMachine::Empty, output_symbol(sym_pos, sym_ch))
                } else {
                    (
                        StateMachine::Symbol(Pos { x, y }, input_char),
                        output_symbol(sym_pos, sym_ch),
                    )
                }
            },
        };
        *self = new_state;
        res
    }

    /// Puts out what is held and leaves the state empty: the end of a row ends a number.
    pub fn flush(&mut self) -> (r: Option<Output>)
        requires
            old(self)@.wf(),
            old(self)@.ready(),
        ensures
            r == old(self)@.held(),
            final(self)@ == State::Empty,
    {
        let mut state = StateMachine::Empty;
        core::mem::swap(self, &mut state);
        match state {
            StateMachine::Empty => None,
            StateMachine::Symbol(pos, value) => output_symbol(pos, value),
            StateMachine::Number(pos, s) => output_number(pos, s),
        }
    }
}

/// A symbol is any character but a digit and `.`.
pub open spec fn is_symbol(c: char) -> bool {
    !is_digit(c) && c != '.'
}

/// The number that the digits of `row` from `x` to `e` write, as a token of row `y`.
pub open spec fn number_at(row: Seq<char>, y: usize, x: int, e: int) -> Number {
    Number {
        value: digits_value(row.subrange(x, e)) as u32,
        pos: Pos { x: x as usize, y },
        size: (e - x) as usize,
    }
}

/// The numbers of row `y` from column `x` on: one for each longest run of digits.
pub open spec fn row_numbers_from(row: Seq<char>, y: usize, x: int) -> Seq<Number>
    decreases row.len() - x,
{
    if x < 0 || x >= row.len() {
        Seq::empty()
    } else if is_digit(row[x]) {
        let e = run_end(row, x, CharClass::Digit);
        if e <= x || e > row.len() {
            Seq::empty()
        } else {
            seq![number_at(row, y, x, e)] + row_numbers_from(row, y, e)
        }
    } else {
        row_numbers_from(row, y, x + 1)
    }
}

/// Every number of the row from column `x` on fits in 32 bits.
pub open spec fn row_fits_from(row: Seq<char>, x: int) -> bool
    decreases row.len() - x,
{
    if x < 0 || x >= row.len() {
        true
    } else if is_digit(row[x]) {
        let e = run_end(row, x, CharClass::Digit);
        if e <= x || e > row.len() {
            true
        } else {
            digits_value(row.subrange(x, e)) <= u32::MAX && row_fits_from(row, e)
        }
    } else {
        row_fits_from(row, x + 1)
    }
}

/// The symbol in column `x` of `row`, as a token of row `y`.
pub open spec fn symbol_at(row: Seq<char>, y: usize, x: int) -> Symbol {
    Symbol { value: row[x], pos: Pos { x: x as usize, y } }
}

/// The symbols of row `y` from column `x` on.
pub open spec fn row_symbols_from(row: Seq<char>, y: usize, x: int) -> Seq<Symbol>
    decreases row.len() - x,
{
    if x < 0 || x >= row.len() {
        Seq::empty()
    } else if is_symbol(row[x]) {
        seq![symbol_at(row, y, x)] + row_symbols_from(row, y, x + 1)
    } else {
        row_symbols_from(row, y, x + 1)
    }
}

/// The digits of `row` from `a` to `b` are a longest run of digits: every character of it
/// is a digit, and no digit stands before or behind it.
pub open spec fn is_digit_run(row: Seq<char>, a: int, b: int) -> bool {
    &&& 0 <= a < b <= row.len()
    &&& forall|k: int| a <= k < b ==> is_digit(row[k])
    &&& a > 0 ==> !is_digit(row[a - 1])
    &&& b < row.len() ==> !is_digit(row[b])
}

/// Column `x` does not lie inside a run of digits.
pub open spec fn between_runs(row: Seq<char>, x: int) -> bool {
    0 <= x <= row.len() && (x == 0 || x == row.len() || !is_digit(row[x - 1]) || !is_digit(row[x]))
}

/// The numbers of a row are its longest runs of digits, from left to right: every number
/// is such a run, every such run is a number, and a later number lies behind an earlier
/// one.
pub proof fn lemma_row_numbers_are_the_runs(row: Seq<char>, y: usize, x: int)
    requires
        row.len() <= usize::MAX,
        between_runs(row, x),
    ensures
        forall|k: int|
            0 <= k < row_numbers_from(row, y, x).len() ==> {
                let n = #[trigger] row_numbers_from(row, y, x)[k];
                &&& x <= n.pos.x
                &&& n.pos.y == y
                &&& is_digit_run(row, n.pos.x as int, n.pos.x + n.size)
                &&& n == number_at(row, y, n.pos.x as int, n.pos.x + n.size)
            },
        forall|a: int, b: int|
            x <= a && is_digit_run(row, a, b) ==> row_numbers_from(row, y, x).contains(
                #[trigger] number_at(row, y, a, b),
            ),
        forall|j: int, k: int|
            0 <= j < k < row_numbers_from(row, y, x).len() ==> row_numbers_from(row, y, x)[j].pos.x
                + row_numbers_from(row, y, x)[j].size < row_numbers_from(row, y, x)[k].pos.x,
    decreases row.len() - x,
{
    let numbers = row_numbers_from(row, y, x);
    if x >= row.len() {
    } else if is_digit(row[x]) {
        let e = run_end(row, x, CharClass::Digit);
        lemma_run_end(row, x, CharClass::Digit);
        let first = number_at(row, y, x, e);
        let rest = row_numbers_from(row, y, e);
        lemma_row_numbers_are_the_runs(row, y, e);
        assert(is_digit_run(row, x, e));
        assert(numbers == seq![first] + rest);
        assert(numbers.len() == rest.len() + 1 && numbers[0] == first);
        assert forall|k: int| 0 <= k < numbers.len() implies {
            let n = #[trigger] numbers[k];
            &&& x <= n.pos.x
            &&& n.pos.y == y
            &&& is_digit_run(row, n.pos.x as int, n.pos.x + n.size)
            &&& n == number_at(row, y, n.pos.x as int, n.pos.x + n.size)
        } by {
            if k > 0 {
                assert(numbers[k] == rest[k - 1]);
            }
        }
        assert forall|a: int, b: int| x <= a && is_digit_run(row, a, b) implies numbers.contains(
            #[trigger] number_at(row, y, a, b),
        ) by {
            if a == x {
                lemma_run_end_is(row, x, b, CharClass::Digit);
                assert(numbers[0] == number_at(row, y, a, b));
            } else {
                if a <= e {
                    assert(is_digit(row[a - 1]));
                }
                assert(rest.contains(number_at(row, y, a, b)));
                let k = choose|k: int| 0 <= k < rest.len() && rest[k] == number_at(row, y, a, b);
                assert(numbers[k + 1] == rest[k]);
            }
        }
        assert forall|j: int, k: int| 0 <= j < k < numbers.len() implies numbers[j].pos.x
            + numbers[j].size < numbers[k].pos.x by {
            assert(numbers[k] == rest[k - 1]);
            if j > 0 {
                assert(numbers[j] == rest[j - 1]);
            } else {
                let n = rest[k - 1];
                assert(is_digit_run(row, n.pos.x as int, n.pos.x + n.size));
                assert(is_digit(row[n.pos.x as int]));
            }
        }
    } else {
        lemma_row_numbers_are_the_runs(row, y, x + 1);
        assert(numbers == row_numbers_from(row, y, x + 1));
        assert forall|a: int, b: int| x <= a && is_digit_run(row, a, b) implies numbers.contains(
            #[trigger] number_at(row, y, a, b),
        ) by {
            assert(is_digit(row[a]));
        }
    }
}

/// The symbols of a row are its characters that are symbols, from left to right.
pub proof fn lemma_row_symbols_are_the_symbols(row: Seq<char>, y: usize, x: int)
    requires
        row.len() <= usize::MAX,
        0 <= x <= row.len(),
    ensures
        forall|k: int|
            0 <= k < row_symbols_from(row, y, x).len() ==> {
                let s = #[trigger] row_symbols_from(row, y, x)[k];
                &&& x <= s.pos.x < row.len()
                &&& s.pos.y == y
                &&& is_symbol(row[s.pos.x as int])
                &&& s.value == row[s.pos.x as int]
            },
        forall|a: int|
            x <= a < row.len() && is_symbol(row[a]) ==> row_symbols_from(row, y, x).contains(
                #[trigger] symbol_at(row, y, a),
            ),
        forall|j: int, k: int|
            0 <= j < k < row_symbols_from(row, y, x).len() ==> row_symbols_from(row, y, x)[j].pos.x
                < row_symbols_from(row, y, x)[k].pos.x,
    decreases row.len() - x,
{
    let symbols = row_symbols_from(row, y, x);
    if x < row.len() {
        let rest = row_symbols_from(row, y, x + 1);
        lemma_row_symbols_are_the_symbols(row, y, x + 1);
        if is_symbol(row[x]) {
            let first = symbol_at(row, y, x);
            assert(symbols == seq![first] + rest);
            assert(symbols.len() == rest.len() + 1 && symbols[0] == first);
            assert forall|k: int| 0 <= k < symbols.len() implies {
                let s = #[trigger] symbols[k];
                &&& x <= s.pos.x < row.len()
                &&& s.pos.y == y
                &&& is_symbol(row[s.pos.x as int])
                &&& s.value == row[s.pos.x as int]
            } by {
                if k > 0 {
                    assert(symbols[k] == rest[k - 1]);
                }
            }
            assert forall|a: int| x <= a < row.len() && is_symbol(row[a]) implies symbols.contains(
                #[trigger] symbol_at(row, y, a),
            ) by {
                let symbol = symbol_at(row, y, a);
                if a == x {
                    assert(symbols[0] == symbol);
                } else {
                    assert(rest.contains(symbol));
                    let k = choose|k: int| 0 <= k < rest.len() && rest[k] == symbol;
                    assert(symbols[k + 1] == rest[k]);
                }
            }
            assert forall|j: int, k: int| 0 <= j < k < symbols.len() implies symbols[j].pos.x
                < symbols[k].pos.x by {
                assert(symbols[k] == rest[k - 1]);
                if j > 0 {
                    assert(symbols[j] == rest[j - 1]);
                }
            }
        }
    }
}

/// The numbers of the rows from row `y` on, row by row.
pub open spec fn grid_numbers_from(rows: Seq<Seq<char>>, y: int) -> Seq<Number>
    decreases rows.len() - y,
{
    if y < 0 || y >= rows.len() {
        Seq::empty()
    } else {
        row_numbers_from(rows[y], y as usize, 0) + grid_numbers_from(rows, y + 1)
    }
}

/// The symbols of the rows from row `y` on, row by row.
pub open spec fn grid_symbols_from(rows: Seq<Seq<char>>, y: int) -> Seq<Symbol>
    decreases rows.len() - y,
{
    if y < 0 || y >= rows.len() {
        Seq::empty()
    } else {
        row_symbols_from(rows[y], y as usize, 0) + grid_symbols_from(rows, y + 1)
    }
}

/// The numbers of a grid given as text, one row on each line.
pub open spec fn numbers_of(input: Seq<char>) -> Seq<Number> {
    grid_numbers_from(lines(input), 0)
}

/// The symbols of a grid given as text.
pub open spec fn symbols_of(input: Seq<char>) -> Seq<Symbol> {
    grid_symbols_from(lines(input), 0)
}

/// Every number of the grid fits in 32 bits.
pub open spec fn grid_fits(input: Seq<char>) -> bool {
    forall|y: int| 0 <= y < lines(input).len() ==> row_fits_from(#[trigger] lines(input)[y], 0)
}

/// The symbol that a state holds, as a list.
pub open spec fn held_symbol(state: State) -> Seq<Symbol> {
    match state {
        State::Symbol(pos, value) => seq![Symbol { value, pos }],
        _ => Seq::empty(),
    }
}

/// Where the numbers that are not yet put out begin, before column `x`.
pub open spec fn pending_from(state: State, x: int) -> int {
    match state {
        State::Number(pos, _) => pos.x as int,
        _ => x,
    }
}

/// The tokenizer in row `y` before column `x`: a number in progress is the run of digits
/// that ends there.
pub open spec fn in_row(state: State, row: Seq<char>, y: usize, x: int) -> bool {
    &&& state.wf()
    &&& state matches State::Number(pos, digits) ==> pos.y == y && pos.x < x && digits
        == row.subrange(pos.x as int, x)
    &&& state matches State::Symbol(pos, _) ==> pos.y == y && pos.x < x
}

/// Every token has cells that a `usize` can hold.
pub open spec fn tokens_in_bounds(numbers: Seq<Number>, symbols: Seq<Symbol>) -> bool {
    &&& forall|i: int| 0 <= i < numbers.len() ==> (#[trigger] numbers[i]).in_bounds()
    &&& forall|k: int| 0 <= k < symbols.len() ==> (#[trigger] symbols[k]).in_bounds()
}

/// A run of digits from `a` that stops at `x` is the first number from `a` on.
proof fn lemma_run_closed(row: Seq<char>, y: usize, a: int, x: int)
    requires
        0 <= a < x <= row.len(),
        all_digits(row.subrange(a, x)),
        x < row.len() ==> !is_digit(row[x]),
    ensures
        row_numbers_from(row, y, a) == seq![number_at(row, y, a, x)] + row_numbers_from(row, y, x),
        row_fits_from(row, a) == (digits_value(row.subrange(a, x)) <= u32::MAX && row_fits_from(
            row,
            x,
        )),
{
    assert forall|k: int| a <= k < x implies CharClass::Digit.has(#[trigger] row[k]) by {
        assert(row.subrange(a, x)[k - a] == row[k]);
    }
    lemma_run_end_is(row, a, x, CharClass::Digit);
}

/// Puts a token that came out on the list of its kind.
fn handle_output(output: Option<Output>, numbers: &mut Vec<Number>, symbols: &mut Vec<Symbol>)
    ensures
        final(numbers)@ == match output {
            Some(Output::Number(number)) => old(numbers)@.push(number),
            _ => old(numbers)@,
        },
        final(symbols)@ == match output {
            Some(Output::Symbol(symbol)) => old(symbols)@.push(symbol),
            _ => old(symbols)@,
        },
{
    match output {
        Some(Output::Number(number)) => numbers.push(number),
        Some(Output::Symbol(symbol)) => symbols.push(symbol),
        None => {},
    }
}

/// The numbers and the symbols of the grid, or `None` if a number does not fit in 32 bits.
pub fn try_parse(input: &str) -> (r: Option<(Vec<Number>, Vec<Symbol>)>)
    ensures
        r is Some <==> grid_fits(input@),
        r matches Some((numbers, symbols)) ==> numbers@ == numbers_of(input@) && symbols@
            == symbols_of(input@) && tokens_in_bounds(numbers@, symbols@),
{
    let chars = chars_of(input);
    let rows = split_lines(chars.as_slice());
    let mut numbers: Vec<Number> = Vec::new();
    let mut symbols: Vec<Symbol> = Vec::new();
    let mut state = StateMachine::default();
    let ghost grid = lines(input@);
    let mut y: usize = 0;
    while y < rows.len()
        invariant
            y <= rows@.len(),
            grid == lines(input@),
            views(rows@) == grid,
            state@ == State::Empty,
            tokens_in_bounds(numbers@, symbols@),
            numbers_of(input@) == numbers@ + grid_numbers_from(grid, y as int),
            symbols_of(input@) == symbols@ + grid_symbols_from(grid, y as int),
            forall|k: int| 0 <= k < y ==> row_fits_from(#[trigger] grid[k], 0),
        decreases rows@.len() - y,
    {
        let row = rows[y];
        let ghost line = row@;
        assert(line == grid[y as int]);
        let ghost goal_n = numbers@ + row_numbers_from(line, y, 0);
        let ghost goal_s = symbols@ + row_symbols_from(line, y, 0);
        let mut x: usize = 0;
        assert(symbols@ + held_symbol(state@) =~= symbols@);
        while x < row.len()
            invariant
                x <= row@.len(),
                line == row@,
                grid == lines(input@),
                y < grid.len(),
                line == grid[y as int],
                y < rows@.len() <= usize::MAX,
                tokens_in_bounds(numbers@, symbols@),
                in_row(state@, line, y, x as int),
                goal_n == numbers@ + row_numbers_from(line, y, pending_from(state@, x as int)),
                goal_s == symbols@ + held_symbol(state@) + row_symbols_from(line, y, x as int),
                row_fits_from(line, 0) == row_fits_from(line, pending_from(state@, x as int)),
            decreases row@.len() - x,
        {
            let c = row[x];
            proof {
                if let State::Number(pos, digits) = state@ {
                    if !is_digit(c) {
                        lemma_run_closed(line, y, pos.x as int, x as int);
                    }
                }
            }
            if !char_is_digit(c) && !state.is_ready() {
                assert(!row_fits_from(grid[y as int], 0));
                return None;
            }
            let ghost before = state@;
            let ghost symbols_before = symbols@;
            proof {
                if let State::Number(pos, digits) = before {
                    assert(pos.x + digits.len() == x);
                }
            }
            let out = state.feed_char(x, y, c);
            handle_output(out, &mut numbers, &mut symbols);
            proof {
                assert(symbols@ == symbols_before + held_symbol(before));
                if is_digit(c) {
                    if let State::Number(pos, digits) = before {
                        assert(digits.push(c) =~= line.subrange(pos.x as int, x + 1));
                    } else {
                        assert(seq![c] =~= line.subrange(x as int, x + 1));
                    }
                    assert(goal_s == symbols@ + held_symbol(state@) + row_symbols_from(
                        line,
                        y,
                        x + 1,
                    ));
                } else {
                    assert(row_numbers_from(line, y, x as int) == row_numbers_from(line, y, x + 1));
                    assert(goal_n == numbers@ + row_numbers_from(line, y, x + 1));
                    assert(goal_s =~= symbols@ + held_symbol(state@) + row_symbols_from(
                        line,
                        y,
                        x + 1,
                    ));
                }
            }
            x += 1;
        }
        proof {
            if let State::Number(pos, digits) = state@ {
                lemma_run_closed(line, y, pos.x as int, x as int);
            }
        }
        if !state.is_ready() {
            assert(!row_fits_from(grid[y as int], 0));
            return None;
        }
        let out = state.flush();
        handle_output(out, &mut numbers, &mut symbols);
        proof {
            assert(numbers@ =~= goal_n);
            assert(symbols@ =~= goal_s);
            assert(numbers_of(input@) =~= goal_n + grid_numbers_from(grid, y + 1));
            assert(symbols_of(input@) =~= goal_s + grid_symbols_from(grid, y + 1));
        }
        y += 1;
    }
    let out = state.flush();
    handle_output(out, &mut numbers, &mut symbols);
    assert(numbers@ =~= numbers_of(input@));
    assert(symbols@ =~= symbols_of(input@));
    Some((numbers, symbols))
}

/// The numbers and the symbols of the grid.
pub fn parse(input: &str) -> (r: (Vec<Number>, Vec<Symbol>))
    requires
        grid_fits(input@),
    ensures
        r.0@ == numbers_of(input@),
        r.1@ == symbols_of(input@),
        tokens_in_bounds(r.0@, r.1@),
{
    try_parse(input).unwrap()
}

/// The sum of the values of the numbers that touch a symbol.
pub open spec fn engaged_sum(numbers: Seq<Number>, symbols: Seq<Symbol>) -> nat
    decreases numbers.len(),
{
    if numbers.len() == 0 {
        0
    } else {
        engaged_sum(numbers.drop_last(), symbols) + if numbers.last().engaged(symbols) {
            numbers.last().value as nat
        } else {
            0
        }
    }
}

/// The sum over the first numbers is at most the sum over all of them.
pub proof fn lemma_engaged_sum_grows(numbers: Seq<Number>, symbols: Seq<Symbol>, k: int)
    requires
        0 <= k <= numbers.len(),
    ensures
        engaged_sum(numbers.take(k), symbols) <= engaged_sum(numbers, symbols),
    decreases numbers.len() - k,
{
    if k < numbers.len() {
        lemma_engaged_sum_grows(numbers, symbols, k + 1);
        assert(numbers.take(k + 1).drop_last() =~= numbers.take(k));
    } else {
        assert(numbers.take(k) =~= numbers);
    }
}

/// The answer for a grid given as text: the sum of its numbers that touch a symbol.
pub open spec fn part_sum(input: Seq<char>) -> nat {
    engaged_sum(numbers_of(input), symbols_of(input))
}

/// The sum of the numbers of the grid that touch a symbol; `None` if a number or the sum
/// does not fit in 32 bits.
pub fn try_compute(input: &str) -> (r: Option<u32>)
    ensures
        r is Some <==> grid_fits(input@) && part_sum(input@) <= u32::MAX,
        r matches Some(sum) ==> sum == part_sum(input@),
{
    let (numbers, symbols) = match try_parse(input) {
        Some(tokens) => tokens,
        None => { return None; },
    };
    let mut sum: u32 = 0;
    let mut i: usize = 0;
    assert(numbers@.take(0) =~= Seq::<Number>::empty());
    while i < numbers.len()
        invariant
            i <= numbers@.len(),
            tokens_in_bounds(numbers@, symbols@),
            numbers@ == numbers_of(input@),
            symbols@ == symbols_of(input@),
            grid_fits(input@),
            sum == engaged_sum(numbers@.take(i as int), symbols@),
        decreases numbers@.len() - i,
    {
        proof {
            assert(numbers@.take(i + 1).drop_last() =~= numbers@.take(i as int));
            assert(numbers@.take(i + 1).last() == numbers@[i as int]);
            lemma_engaged_sum_grows(numbers@, symbols@, i + 1);
        }
        if is_adjusted_to_one_of_symbols(&numbers[i], symbols.as_slice()) {
            match sum.checked_add(numbers[i].value) {
                Some(next) => { sum = next; },
                None => { return None; },
            }
        }
        i += 1;
    }
    assert(numbers@.take(i as int) =~= numbers@);
    Some(sum)
}

/// The sum of the numbers of the grid that touch a symbol.
pub fn compute(input: &str) -> (sum: u32)
    requires
        grid_fits(input@),
        part_sum(input@) <= u32::MAX,
    ensures
        sum == part_sum(input@),
{
    try_compute(input).unwrap()
}

} // verus!
