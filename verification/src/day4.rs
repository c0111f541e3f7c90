//! Scratchcards: each card lists winning numbers and the player's numbers. A card scores by
//! the number of the player's numbers that win, and wins copies of the cards that follow it.

use vstd::prelude::*;
use crate::text::chars::chars_of;
use crate::text::lines::{lines, split, split_at_sep, split_lines, trim, trimmed, views};
use crate::text::number::{at_most, decimal, parse_decimal, parse_unsigned, unsigned};

verus! {

/// Whether `c` belongs to one of Unicode's categories of numbers.
pub uninterp spec fn is_numeric(c: char) -> bool;

/// `char::is_numeric` of the standard library: whether the character belongs to one of
/// Unicode's categories of numbers (`Nd`, `Nl`, `No`). Nothing more is claimed of it than
/// that it gives the same answer for the same character.
#[verifier::external_body]
fn char_is_numeric(c: char) -> (r: bool)
    ensures
        r == is_numeric(c),
{
    c.is_numeric()
}

/// A scratchcard.
#[derive(Debug, Clone)]
pub struct Card {
    pub id: usize,
    pub winning_numbers: Vec<u32>,
    pub player_numbers: Vec<u32>,
}

/// A scratchcard as a value.
pub struct CardView {
    pub id: usize,
    pub winning_numbers: Seq<u32>,
    pub player_numbers: Seq<u32>,
}

impl View for Card {
    type V = CardView;

    open spec fn view(&self) -> CardView {
        CardView {
            id: self.id,
            winning_numbers: self.winning_numbers@,
            player_numbers: self.player_numbers@,
        }
    }
}

/// The characters of `s` that are numeric, in order.
pub open spec fn numeric_chars(s: Seq<char>) -> Seq<char>
    decreases s.len(),
{
    if s.len() == 0 {
        Seq::empty()
    } else if is_numeric(s.last()) {
        numeric_chars(s.drop_last()).push(s.last())
    } else {
        numeric_chars(s.drop_last())
    }
}

/// The numbers that the chunks write, empty chunks left out; `None` if a chunk that is not
/// empty writes no number of 32 bits once the whitespace around it is gone.
pub open spec fn chunk_numbers(chunks: Seq<Seq<char>>) -> Option<Seq<u32>>
    decreases chunks.len(),
{
    if chunks.len() == 0 {
        Some(Seq::empty())
    } else {
        match chunk_numbers(chunks.drop_last()) {
            None => None,
            Some(before) => if chunks.last().len() == 0 {
                Some(before)
            } else {
                match at_most(unsigned(trim(chunks.last())), u32::MAX as u64) {
                    Some(n) => Some(before.push(n as u32)),
                    None => None,
                }
            },
        }
    }
}

/// The numbers of a list in which spaces part the numbers.
pub open spec fn numbers_in(part: Seq<char>) -> Option<Seq<u32>> {
    chunk_numbers(split(part, " "@))
}

/// The card that a line writes: an id part, `:`, the winning numbers, `|` and the player's
/// numbers. The id is written by the numeric characters of the id part. `None` if a part is
/// missing or does not write what it should.
pub open spec fn parse_card(line: Seq<char>) -> Option<CardView> {
    let parts = split(line, ":"@);
    if parts.len() < 2 {
        None
    } else {
        let sides = split(trim(parts[1]), "|"@);
        if sides.len() < 2 {
            None
        } else {
            match (
                at_most(decimal(numeric_chars(trim(parts[0]))), usize::MAX as u64),
                numbers_in(trim(sides[0])),
                numbers_in(trim(sides[1])),
            ) {
                (Some(id), Some(winning_numbers), Some(player_numbers)) => Some(
                    CardView { id: id as usize, winning_numbers, player_numbers },
                ),
                _ => None,
            }
        }
    }
}

/// Once the first chunks fail, all of them fail.
pub proof fn lemma_chunk_numbers_fail(chunks: Seq<Seq<char>>, k: int)
    requires
        0 <= k <= chunks.len(),
        chunk_numbers(chunks.take(k)) is None,
    ensures
        chunk_numbers(chunks) is None,
    decreases chunks.len() - k,
{
    if k < chunks.len() {
        assert(chunks.take(k + 1).drop_last() =~= chunks.take(k));
        lemma_chunk_numbers_fail(chunks, k + 1);
    } else {
        assert(chunks.take(k) =~= chunks);
    }
}

/// How many of `numbers` occur in `winning`.
pub open spec fn count_in(numbers: Seq<u32>, winning: Seq<u32>) -> nat
    decreases numbers.len(),
{
    if numbers.len() == 0 {
        0
    } else {
        count_in(numbers.drop_last(), winning) + if winning.contains(numbers.last()) {
            1nat
        } else {
            0nat
        }
    }
}

/// Two to the power `k`.
pub open spec fn power_of_two(k: nat) -> nat
    decreases k,
{
    if k == 0 {
        1
    } else {
        2 * power_of_two((k - 1) as nat)
    }
}

impl CardView {
    /// How many of the player's numbers win.
    pub open spec fn matches(self) -> nat {
        count_in(self.player_numbers, self.winning_numbers)
    }

    /// The card's points: none without a match, one for the first match, doubled by each
    /// further match.
    pub open spec fn points(self) -> nat {
        if self.matches() == 0 {
            0
        } else {
            power_of_two((self.matches() - 1) as nat)
        }
    }
}

/// Counting over the first numbers gives at most the count over all.
pub proof fn lemma_count_in_grows(numbers: Seq<u32>, winning: Seq<u32>, k: int)
    requires
        0 <= k <= numbers.len(),
    ensures
        count_in(numbers.take(k), winning) <= count_in(numbers, winning),
        count_in(numbers.take(k), winning) <= k,
    decreases numbers.len() - k,
{
    lemma_count_in_at_most_len(numbers.take(k), winning);
    if k < numbers.len() {
        lemma_count_in_grows(numbers, winning, k + 1);
        assert(numbers.take(k + 1).drop_last() =~= numbers.take(k));
    } else {
        assert(numbers.take(k) =~= numbers);
    }
}

/// No more numbers can win than there are.
pub proof fn lemma_count_in_at_most_len(numbers: Seq<u32>, winning: Seq<u32>)
    ensures
        count_in(numbers, winning) <= numbers.len(),
    decreases numbers.len(),
{
    if numbers.len() > 0 {
        lemma_count_in_at_most_len(numbers.drop_last(), winning);
    }
}

/// The powers of two grow with the exponent.
pub proof fn lemma_power_of_two_grows(a: nat, b: nat)
    requires
        a <= b,
    ensures
        power_of_two(a) <= power_of_two(b),
        power_of_two(a) >= 1,
    decreases b,
{
    if a < b {
        lemma_power_of_two_grows(a, (b - 1) as nat);
    } else if a > 0 {
        lemma_power_of_two_grows((a - 1) as nat, (a - 1) as nat);
    }
}

/// Two to the power 31 and to the power 32.
pub proof fn lemma_power_of_two_32()
    ensures
        power_of_two(31) == 0x8000_0000,
        power_of_two(32) == 0x1_0000_0000,
{
    reveal_with_fuel(power_of_two, 33);
}

/// Whether `n` is one of `numbers`.
fn contains(numbers: &Vec<u32>, n: u32) -> (r: bool)
    ensures
        r == numbers@.contains(n),
{
    let mut i: usize = 0;
    while i < numbers.len()
        invariant
            i <= numbers.len(),
            forall|j: int| 0 <= j < i ==> numbers@[j] != n,
        decreases numbers.len() - i,
    {
        if numbers[i] == n {
            return true;
        }
        i += 1;
    }
    false
}

/// The numbers of a list in which spaces part the numbers.
fn parse_numbers(part: &[char]) -> (r: Option<Vec<u32>>)
    ensures
        r is Some <==> numbers_in(part@) is Some,
        r matches Some(numbers) ==> numbers@ == numbers_in(part@)->0,
{
    let space = chars_of(" ");
    proof {
        reveal_strlit(" ");
    }
    let chunks = split_at_sep(part, space.as_slice());
    let mut numbers: Vec<u32> = Vec::new();
    let mut i: usize = 0;
    let ghost all = split(part@, " "@);
    assert(all.take(0) =~= Seq::<Seq<char>>::empty());
    while i < chunks.len()
        invariant
            i <= chunks@.len(),
            views(chunks@) == all,
            all == split(part@, " "@),
            chunk_numbers(all.take(i as int)) == Some(numbers@),
        decreases chunks@.len() - i,
    {
        let chunk = chunks[i];
        proof {
            assert(all.take(i + 1).drop_last() =~= all.take(i as int));
            assert(all.take(i + 1).last() == chunk@);
        }
        if chunk.len() > 0 {
            match parse_unsigned(trimmed(chunk), u32::MAX as u64) {
                Some(n) => numbers.push(n as u32),
                None => {
                    proof {
                        assert(chunk_numbers(all.take(i + 1)) is None);
                        lemma_chunk_numbers_fail(all, i + 1);
                    }
                    return None;
                },
            }
        }
        i += 1;
    }
    assert(all.take(i as int) =~= all);
    Some(numbers)
}

/// The id that the numeric characters of `part` write.
fn parse_id(part: &[char]) -> (r: Option<usize>)
    ensures
        r is Some <==> at_most(decimal(numeric_chars(part@)), usize::MAX as u64) is Some,
        r matches Some(id) ==> id == decimal(numeric_chars(part@))->0,
{
    let mut digits: Vec<char> = Vec::new();
    let mut i: usize = 0;
    assert(part@.take(0) =~= Seq::<char>::empty());
    while i < part.len()
        invariant
            i <= part@.len(),
            digits@ == numeric_chars(part@.take(i as int)),
        decreases part@.len() - i,
    {
        proof {
            assert(part@.take(i + 1).drop_last() =~= part@.take(i as int));
            assert(part@.take(i + 1).last() == part@[i as int]);
        }
        if char_is_numeric(part[i]) {
            digits.push(part[i]);
        }
        i += 1;
    }
    assert(part@.take(i as int) =~= part@);
    match parse_decimal(digits.as_slice(), usize::MAX as u64) {
        Some(id) => Some(id as usize),
        None => None,
    }
}

impl Card {
    /// The card that the characters of a line write, or `None` if they write none.
    pub fn from_chars(line: &[char]) -> (r: Option<Card>)
        ensures
            r is Some <==> parse_card(line@) is Some,
            r matches Some(card) ==> card@ == parse_card(line@)->0,
    {
        let colon = chars_of(":");
        let bar = chars_of("|");
        proof {
            reveal_strlit(":");
            reveal_strlit("|");
        }
        let parts = split_at_sep(line, colon.as_slice());
        if parts.len() < 2 {
            return None;
        }
        let id_part = trimmed(parts[0]);
        assert(views(parts@)[0] == parts@[0]@ && views(parts@)[1] == parts@[1]@);
        let sides = split_at_sep(trimmed(parts[1]), bar.as_slice());
        if sides.len() < 2 {
            return None;
        }
        assert(views(sides@)[0] == sides@[0]@ && views(sides@)[1] == sides@[1]@);
        let winning_numbers_part = trimmed(sides[0]);
        let player_numbers_part = trimmed(sides[1]);
        let id = match parse_id(id_part) {
            Some(id) => id,
            None => { return None; },
        };
        let winning_numbers = match parse_numbers(winning_numbers_part) {
            Some(numbers) => numbers,
            None => { return None; },
        };
        let player_numbers = match parse_numbers(player_numbers_part) {
            Some(numbers) => numbers,
            None => { return None; },
        };
        Some(Card { id, winning_numbers, player_numbers })
    }

    /// The card that a line writes, or `None` if it writes none.
    pub fn try_parse(line: &str) -> (r: Option<Card>)
        ensures
            r is Some <==> parse_card(line@) is Some,
            r matches Some(card) ==> card@ == parse_card(line@)->0,
    {
        let chars = chars_of(line);
        Card::from_chars(chars.as_slice())
    }

    /// The card that a line writes.
    pub fn parse(line: &str) -> (card: Card)
        requires
            parse_card(line@) is Some,
        ensures
            card@ == parse_card(line@)->0,
    {
        Card::try_parse(line).unwrap()
    }

    /// How many of the player's numbers win, if the count fits in 32 bits.
    pub fn try_count_matches(&self) -> (r: Option<u32>)
        ensures
            r is Some <==> self@.matches() <= u32::MAX,
            r matches Some(matches) ==> matches == self@.matches(),
    {
        let mut matches: u32 = 0;
        let mut i: usize = 0;
        assert(self.player_numbers@.take(0) =~= Seq::<u32>::empty());
        while i < self.player_numbers.len()
            invariant
                i <= self.player_numbers@.len(),
                matches == count_in(self.player_numbers@.take(i as int), self.winning_numbers@),
            decreases self.player_numbers@.len() - i,
        {
            proof {
                assert(self.player_numbers@.take(i + 1).drop_last() =~= self.player_numbers@.take(
                    i as int,
                ));
                assert(self.player_numbers@.take(i + 1).last() == self.player_numbers@[i as int]);
                lemma_count_in_grows(self.player_numbers@, self.winning_numbers@, i + 1);
            }
            if contains(&self.winning_numbers, self.player_numbers[i]) {
                if matches == u32::MAX {
                    return None;
                }
                matches += 1;
            }
            i += 1;
        }
        assert(self.player_numbers@.take(i as int) =~= self.player_numbers@);
        Some(matches)
    }

    /// How many of the player's numbers win.
    pub fn count_matches(&self) -> (matches: u32)
        requires
            self@.matches() <= u32::MAX,
        ensures
            matches == self@.matches(),
    {
        self.try_count_matches().unwrap()
    }

    /// The card's points.
    pub fn count_points(&self) -> (points: u32)
        requires
            self@.matches() <= 32,
        ensures
            points == self@.points(),
    {
        let n = self.count_matches();
        if n == 0 {
            0
        } else {
            let mut points: u32 = 1;
            let mut k: u32 = 0;
            while k < n - 1
                invariant
                    1 <= n <= 32,
                    k <= n - 1,
                    points == power_of_two(k as nat),
                decreases n - 1 - k,
            {
                proof {
                    lemma_power_of_two_grows(k as nat + 1, 31);
                    lemma_power_of_two_32();
                }
                points = points * 2;
                k += 1;
            }
            points
        }
    }
}

/// The views of a list of cards.
pub open spec fn card_views(cards: Seq<Card>) -> Seq<CardView> {
    Seq::new(cards.len(), |i: int| cards[i]@)
}

/// The cards that the lines write, or `None` if one of the lines writes none.
pub open spec fn parse_cards(rows: Seq<Seq<char>>) -> Option<Seq<CardView>> {
    if forall|i: int| 0 <= i < rows.len() ==> parse_card(#[trigger] rows[i]) is Some {
        Some(Seq::new(rows.len(), |i: int| parse_card(rows[i])->0))
    } else {
        None
    }
}

/// The points of all the cards.
pub open spec fn total_points(cards: Seq<CardView>) -> nat
    decreases cards.len(),
{
    if cards.len() == 0 {
        0
    } else {
        total_points(cards.drop_last()) + cards.last().points()
    }
}

/// The points of the cards that the text writes, one card on each line.
pub open spec fn points_of(input: Seq<char>) -> Option<nat> {
    match parse_cards(lines(input)) {
        Some(cards) => Some(total_points(cards)),
        None => None,
    }
}

/// The points of the first cards are at most the points of all.
pub proof fn lemma_total_points_grows(cards: Seq<CardView>, k: int)
    requires
        0 <= k <= cards.len(),
    ensures
        total_points(cards.take(k)) <= total_points(cards),
    decreases cards.len() - k,
{
    if k < cards.len() {
        lemma_total_points_grows(cards, k + 1);
        assert(cards.take(k + 1).drop_last() =~= cards.take(k));
    } else {
        assert(cards.take(k) =~= cards);
    }
}

/// The cards that the text writes, one on each line; `None` if a line writes no card.
pub fn parse_all(input: &str) -> (r: Option<Vec<Card>>)
    ensures
        r is Some <==> parse_cards(lines(input@)) is Some,
        r matches Some(cards) ==> card_views(cards@) == parse_cards(lines(input@))->0,
{
    let chars = chars_of(input);
    let rows = split_lines(chars.as_slice());
    let mut cards: Vec<Card> = Vec::new();
    let mut i: usize = 0;
    while i < rows.len()
        invariant
            i <= rows@.len(),
            views(rows@) == lines(input@),
            cards@.len() == i,
            forall|k: int| 0 <= k < i ==> parse_card(#[trigger] lines(input@)[k]) == Some(cards@[k]@),
        decreases rows@.len() - i,
    {
        assert(views(rows@)[i as int] == rows@[i as int]@);
        match Card::from_chars(rows[i]) {
            Some(card) => cards.push(card),
            None => { return None; },
        }
        i += 1;
    }
    assert(card_views(cards@) =~= parse_cards(lines(input@))->0);
    Some(cards)
}

/// The points of the cards that the text writes; `None` if a line writes no card or the
/// points do not fit in 32 bits.
pub fn try_compute_part1(input: &str) -> (r: Option<u32>)
    ensures
        r is Some <==> points_of(input@) is Some && points_of(input@)->0 <= u32::MAX,
        r matches Some(total) ==> total == points_of(input@)->0,
{
    let cards = match parse_all(input) {
        Some(cards) => cards,
        None => { return None; },
    };
    let ghost all = card_views(cards@);
    let mut total: u32 = 0;
    let mut i: usize = 0;
    assert(all.take(0) =~= Seq::<CardView>::empty());
    while i < cards.len()
        invariant
            i <= cards@.len(),
            all == card_views(cards@),
            parse_cards(lines(input@)) == Some(all),
            total == total_points(all.take(i as int)),
        decreases cards@.len() - i,
    {
        proof {
            assert(all.take(i + 1).drop_last() =~= all.take(i as int));
            assert(all.take(i + 1).last() == cards@[i as int]@);
            lemma_total_points_grows(all, i + 1);
            lemma_power_of_two_32();
            if cards@[i as int]@.matches() > 32 {
                lemma_power_of_two_grows(32, (cards@[i as int]@.matches() - 1) as nat);
            }
        }
        let matches = match cards[i].try_count_matches() {
            Some(matches) => matches,
            None => { return None; },
        };
        if matches > 32 {
            return None;
        }
        let points = cards[i].count_points();
        total = match total.checked_add(points) {
            Some(sum) => sum,
            None => { return None; },
        };
        i += 1;
    }
    assert(all.take(i as int) =~= all);
    Some(total)
}

/// The points of the cards that the text writes.
pub fn compute_part1(input: &str) -> (total: u32)
    requires
        points_of(input@) is Some,
        points_of(input@)->0 <= u32::MAX,
    ensures
        total == points_of(input@)->0,
{
    try_compute_part1(input).unwrap()
}

/// How many of each card's numbers win.
pub open spec fn matches_of(cards: Seq<CardView>) -> Seq<nat> {
    Seq::new(cards.len(), |i: int| cards[i].matches())
}

/// How many copies of card `j` there are in the end, the card itself counted: one, and for
/// each earlier card whose matches reach as far as `j`, as many as there are of that card.
pub open spec fn copies(m: Seq<nat>, j: int) -> nat
    decreases j, 1int, 0int,
{
    if j < 0 {
        0
    } else {
        1 + reach(m, j, j)
    }
}

/// How many copies of card `j` the cards before card `k` have won.
pub open spec fn reach(m: Seq<nat>, j: int, k: int) -> nat
    decreases j, 0int, k,
{
    if k <= 0 || j < 0 {
        0
    } else if k > j {
        reach(m, j, j)
    } else {
        reach(m, j, k - 1) + if k - 1 < m.len() && j <= k - 1 + m[k - 1] {
            copies(m, k - 1)
        } else {
            0
        }
    }
}

/// How many cards there are in the end among the first `n`, copies counted.
pub open spec fn total_copies(m: Seq<nat>, n: int) -> nat
    decreases n,
{
    if n <= 0 {
        0
    } else {
        total_copies(m, n - 1) + copies(m, n - 1)
    }
}

/// No card wins copies of a card that is not there.
pub open spec fn wins_in_range(m: Seq<nat>) -> bool {
    forall|i: int| 0 <= i < m.len() ==> i + #[trigger] m[i] < m.len()
}

/// How many cards there are in the end, for the cards that the text writes; `None` if a
/// line writes no card, or a card wins copies of cards that are not there.
pub open spec fn cards_of(input: Seq<char>) -> Option<nat> {
    match parse_cards(lines(input)) {
        Some(cards) => if wins_in_range(matches_of(cards)) {
            Some(total_copies(matches_of(cards), cards.len() as int))
        } else {
            None
        },
        None => None,
    }
}

/// The cards before an earlier card have won no more than the cards before a later one.
pub proof fn lemma_reach_grows(m: Seq<nat>, j: int, a: int, b: int)
    requires
        0 <= a <= b,
    ensures
        reach(m, j, a) <= reach(m, j, b),
    decreases b - a,
{
    if a < b {
        lemma_reach_grows(m, j, a + 1, b);
        if j >= 0 && a + 1 > j && a > 0 {
            if a > j {
            } else {
                assert(a == j);
            }
        }
    }
}

/// There are at least as many cards in the end as there are of any one card, and at least
/// as many as at the start.
pub proof fn lemma_total_copies_bounds(m: Seq<nat>, n: int, j: int)
    requires
        0 <= j < n,
    ensures
        copies(m, j) <= total_copies(m, n),
        n <= total_copies(m, n),
    decreases n,
{
    if j < n - 1 {
        lemma_total_copies_bounds(m, n - 1, j);
    } else if n > 1 {
        lemma_total_copies_bounds(m, n - 1, n - 2);
    }
}

/// How many cards there are in the end, copies counted; `None` if a line writes no card, a
/// card wins copies of cards that are not there, or the count does not fit in 32 bits.
pub fn try_compute_part2(input: &str) -> (r: Option<u32>)
    ensures
        r is Some <==> cards_of(input@) is Some && cards_of(input@)->0 <= u32::MAX,
        r matches Some(total) ==> total == cards_of(input@)->0,
{
    let cards = match parse_all(input) {
        Some(cards) => cards,
        None => { return None; },
    };
    let n = cards.len();
    let ghost all = card_views(cards@);
    let ghost m = matches_of(all);
    let mut cards_count: Vec<u32> = Vec::new();
    while cards_count.len() < n
        invariant
            cards_count@.len() <= n,
            forall|j: int| 0 <= j < cards_count@.len() ==> cards_count@[j] == 1,
        decreases n - cards_count@.len(),
    {
        cards_count.push(1);
    }
    let mut card_index: usize = 0;
    while card_index < n
        invariant
            card_index <= n,
            n == cards@.len(),
            cards_count@.len() == n,
            all == card_views(cards@),
            m == matches_of(all),
            parse_cards(lines(input@)) == Some(all),
            forall|j: int| 0 <= j < n ==> cards_count@[j] == 1 + reach(m, j, card_index as int),
            forall|i: int| 0 <= i < card_index ==> i + #[trigger] m[i] < n,
        decreases n - card_index,
    {
        let copies_count = cards_count[card_index];
        assert(copies_count == copies(m, card_index as int));
        proof {
            lemma_total_copies_bounds(m, n as int, card_index as int);
        }
        let matches = match cards[card_index].try_count_matches() {
            Some(matches) => matches,
            None => {
                assert(m[card_index as int] > u32::MAX);
                return None;
            },
        };
        assert(matches == m[card_index as int]);
        // Add copies for the cards to the next cards
        let from_index = card_index + 1;
        if matches as usize > n - from_index {
            return None;
        }
        let to_index = from_index + matches as usize;
        let mut i = from_index;
        while i < to_index
            invariant
                from_index <= i <= to_index <= n,
                from_index == card_index + 1,
                to_index == from_index + m[card_index as int],
                cards_count@.len() == n,
                m == matches_of(all),
                parse_cards(lines(input@)) == Some(all),
                all.len() == n,
                copies_count == copies(m, card_index as int),
                forall|j: int|
                    0 <= j < n ==> cards_count@[j] == 1 + reach(
                        m,
                        j,
                        if from_index <= j < i {
                            card_index + 1
                        } else {
                            card_index as int
                        },
                    ),
            decreases to_index - i,
        {
            proof {
                lemma_reach_grows(m, i as int, card_index + 1, i as int);
                lemma_total_copies_bounds(m, n as int, i as int);
            }
            let sum = match cards_count[i].checked_add(copies_count) {
                Some(sum) => sum,
                None => { return None; },
            };
            cards_count.set(i, sum);
            i += 1;
        }
        assert forall|j: int| 0 <= j < n implies cards_count@[j] == 1 + reach(
            m,
            j,
            card_index + 1,
        ) by {
            if j <= card_index {
                if j < card_index {
                    assert(reach(m, j, card_index as int) == reach(m, j, j));
                }
            }
        }
        card_index += 1;
    }
    assert(wins_in_range(m));
    let mut total: u32 = 0;
    let mut k: usize = 0;
    while k < n
        invariant
            k <= n,
            cards_count@.len() == n,
            all.len() == n,
            m == matches_of(all),
            parse_cards(lines(input@)) == Some(all),
            wins_in_range(m),
            forall|j: int| 0 <= j < n ==> cards_count@[j] == copies(m, j),
            total == total_copies(m, k as int),
        decreases n - k,
    {
        proof {
            lemma_total_copies_grows(m, k + 1, n as int);
        }
        total = match total.checked_add(cards_count[k]) {
            Some(sum) => sum,
            None => { return None; },
        };
        k += 1;
    }
    Some(total)
}

/// The count over the first cards is at most the count over more of them.
pub proof fn lemma_total_copies_grows(m: Seq<nat>, a: int, b: int)
    requires
        a <= b,
    ensures
        total_copies(m, a) <= total_copies(m, b),
    decreases b - a,
{
    if a < b {
        lemma_total_copies_grows(m, a, b - 1);
    }
}

/// How many cards there are in the end, copies counted.
pub fn compute_part2(input: &str) -> (total: u32)
    requires
        cards_of(input@) is Some,
        cards_of(input@)->0 <= u32::MAX,
    ensures
        total == cards_of(input@)->0,
{
    try_compute_part2(input).unwrap()
}

} // verus!
