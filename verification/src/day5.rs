//! The almanac: seeds and a chain of maps. A map takes a number where the first of its
//! ranges that holds the number takes it, and leaves every other number as it is; the chain
//! of maps takes a seed to its location.

use vstd::prelude::*;
use crate::text::chars::{chars_of, ends_with, has_suffix, is_digit, is_text, string_of};
use crate::text::lines::{
    free_of, join, lemma_join_push, lemma_split_join, split, split_at_sep, split_words, trim,
    trimmed, views, words,
};
use crate::text::number::{
    at_most, decimal_digits, lemma_decimal_digits, parse_unsigned, push_decimal, unsigned,
};

verus! {

/// A range of a map: the `length` numbers from `source_start` on go, in order, to the
/// numbers from `destination_start` on.
#[derive(Debug, PartialEq, Eq, Structural, Clone, Copy)]
pub struct MapRange {
    pub destination_start: u64,
    pub source_start: u64,
    pub length: u64,
}

/// A map from one category to another, with its ranges in the order in which they are
/// tried.
#[derive(Debug)]
pub struct StageMap {
    pub full_name: String,
    pub source_category: String,
    pub destination_category: String,
    pub ranges: Vec<MapRange>,
}

/// The seeds and the maps of an almanac.
#[derive(Debug)]
pub struct Data {
    pub seeds: Vec<u64>,
    pub maps: Vec<StageMap>,
}

/// The maps of an almanac in the order in which a number goes through them.
#[derive(Debug)]
pub struct MapPipeline {
    pub maps: Vec<StageMap>,
}

/// A map as a value.
pub struct StageMapView {
    pub full_name: Seq<char>,
    pub source_category: Seq<char>,
    pub destination_category: Seq<char>,
    pub ranges: Seq<MapRange>,
}

/// An almanac as a value.
pub struct DataView {
    pub seeds: Seq<u64>,
    pub maps: Seq<StageMapView>,
}

impl View for StageMap {
    type V = StageMapView;

    open spec fn view(&self) -> StageMapView {
        StageMapView {
            full_name: self.full_name@,
            source_category: self.source_category@,
            destination_category: self.destination_category@,
            ranges: self.ranges@,
        }
    }
}

/// The views of a list of maps.
pub open spec fn map_views(maps: Seq<StageMap>) -> Seq<StageMapView> {
    Seq::new(maps.len(), |i: int| maps[i]@)
}

impl View for Data {
    type V = DataView;

    open spec fn view(&self) -> DataView {
        DataView { seeds: self.seeds@, maps: map_views(self.maps@) }
    }
}

impl View for MapPipeline {
    type V = Seq<StageMapView>;

    open spec fn view(&self) -> Seq<StageMapView> {
        map_views(self.maps@)
    }
}

impl MapRange {
    /// The range holds `source`: it lies in `[source_start, source_start + length)`.
    pub open spec fn holds(self, source: int) -> bool {
        self.source_start <= source < self.source_start + self.length
    }

    /// Where the range takes `source`: as far behind `destination_start` as `source` lies
    /// behind `source_start`.
    pub open spec fn image(self, source: int) -> int {
        self.destination_start + (source - self.source_start)
    }

    /// Whether the range holds `source`.
    pub fn contains(&self, source: u64) -> (r: bool)
        ensures
            r == self.holds(source as int),
    {
        self.source_start <= source && source - self.source_start < self.length
    }

    /// Where the range takes `source`.
    pub fn convert(&self, source: u64) -> (r: u64)
        requires
            self.source_start <= source,
            self.image(source as int) <= u64::MAX,
        ensures
            r == self.image(source as int),
    {
        let offset = source - self.source_start;
        self.destination_start + offset
    }
}

/// Where the ranges from the `k`-th on take `source`: the image under the first of them
/// that holds it, or `source` itself if none does.
pub open spec fn convert_from(ranges: Seq<MapRange>, k: int, source: int) -> int
    decreases ranges.len() - k,
{
    if k < 0 || k >= ranges.len() {
        source
    } else if ranges[k].holds(source) {
        ranges[k].image(source)
    } else {
        convert_from(ranges, k + 1, source)
    }
}

impl StageMapView {
    /// Where the map takes `source`.
    pub open spec fn convert(self, source: int) -> int {
        convert_from(self.ranges, 0, source)
    }
}

/// Where the maps from the `k`-th on take `source`, one after the other; `None` if a map
/// takes it out of the range of 64 bits.
pub open spec fn through(maps: Seq<StageMapView>, k: int, source: u64) -> Option<u64>
    decreases maps.len() - k,
{
    if k < 0 || k >= maps.len() {
        Some(source)
    } else if maps[k].convert(source as int) > u64::MAX {
        None
    } else {
        through(maps, k + 1, maps[k].convert(source as int) as u64)
    }
}

impl StageMap {
    /// Where the map takes `source`, or `None` if that is out of the range of 64 bits.
    pub fn try_convert(&self, source: u64) -> (r: Option<u64>)
        ensures
            r is Some <==> self@.convert(source as int) <= u64::MAX,
            r matches Some(v) ==> v == self@.convert(source as int),
    {
        let mut i: usize = 0;
        while i < self.ranges.len()
            invariant
                i <= self.ranges@.len(),
                self@.convert(source as int) == convert_from(self.ranges@, i as int, source as int),
            decreases self.ranges@.len() - i,
        {
            let range = &self.ranges[i];
            if range.contains(source) {
                return range.destination_start.checked_add(source - range.source_start);
            }
            i += 1;
        }
        Some(source)
    }

    /// Where the map takes `source`.
    pub fn convert(&self, source: u64) -> (r: u64)
        requires
            self@.convert(source as int) <= u64::MAX,
        ensures
            r == self@.convert(source as int),
    {
        self.try_convert(source).unwrap()
    }

    /// Where the map takes each of `sources`.
    pub fn convert_many(&self, sources: &[u64]) -> (r: Vec<u64>)
        requires
            forall|i: int|
                0 <= i < sources@.len() ==> self@.convert(#[trigger] sources@[i] as int)
                    <= u64::MAX,
        ensures
            r@.len() == sources@.len(),
            forall|i: int| 0 <= i < r@.len() ==> r@[i] == self@.convert(sources@[i] as int),
    {
        let mut converted: Vec<u64> = Vec::new();
        let mut i: usize = 0;
        while i < sources.len()
            invariant
                i <= sources@.len(),
                converted@.len() == i,
                forall|k: int|
                    0 <= k < sources@.len() ==> self@.convert(#[trigger] sources@[k] as int)
                        <= u64::MAX,
                forall|k: int| 0 <= k < i ==> converted@[k] == self@.convert(sources@[k] as int),
            decreases sources@.len() - i,
        {
            converted.push(self.convert(sources[i]));
            i += 1;
        }
        converted
    }
}

impl MapPipeline {
    /// Where the maps take `source`, one after the other; `None` if a map takes it out of
    /// the range of 64 bits.
    pub fn try_convert(&self, source: u64) -> (r: Option<u64>)
        ensures
            r == through(self@, 0, source),
    {
        let mut current = source;
        let mut i: usize = 0;
        while i < self.maps.len()
            invariant
                i <= self.maps@.len(),
                through(self@, 0, source) == through(self@, i as int, current),
            decreases self.maps@.len() - i,
        {
            current = match self.maps[i].try_convert(current) {
                Some(next) => next,
                None => { return None; },
            };
            i += 1;
        }
        Some(current)
    }

    /// Where the maps take `source`, one after the other.
    pub fn convert(&self, source: u64) -> (r: u64)
        requires
            through(self@, 0, source) is Some,
        ensures
            Some(r) == through(self@, 0, source),
    {
        self.try_convert(source).unwrap()
    }
}

/// The smaller of two numbers.
pub open spec fn lower(a: u64, b: u64) -> u64 {
    if b < a {
        b
    } else {
        a
    }
}

/// The lowest of `acc` and the locations of the seeds from the `k`-th on; `None` if a map
/// takes one of these seeds out of the range of 64 bits.
pub open spec fn lowest_from(maps: Seq<StageMapView>, seeds: Seq<u64>, k: int, acc: u64) -> Option<
    u64,
>
    decreases seeds.len() - k,
{
    if k < 0 || k >= seeds.len() {
        Some(acc)
    } else {
        match through(maps, 0, seeds[k]) {
            None => None,
            Some(location) => lowest_from(maps, seeds, k + 1, lower(acc, location)),
        }
    }
}

/// The lowest of `acc` and the locations of the seeds from `seed` up to `end`, `end` left
/// out; `None` if a map takes one of these seeds out of the range of 64 bits.
pub open spec fn lowest_between(maps: Seq<StageMapView>, seed: int, end: int, acc: u64) -> Option<
    u64,
>
    decreases end - seed,
{
    if seed < 0 || seed >= end || seed > u64::MAX {
        Some(acc)
    } else {
        match through(maps, 0, seed as u64) {
            None => None,
            Some(location) => lowest_between(maps, seed + 1, end, lower(acc, location)),
        }
    }
}

/// The lowest location of the `length` seeds from `start` on, `u64::MAX` if there is none;
/// `None` if the seeds do not all fit in 64 bits or a map takes one out of that range.
pub open spec fn lowest_in_range(maps: Seq<StageMapView>, start: u64, length: u64) -> Option<u64> {
    if start + length > u64::MAX {
        None
    } else {
        lowest_between(maps, start as int, start + length, u64::MAX)
    }
}

/// The lowest of `acc` and the locations of the seeds in the ranges that `seeds` lists from
/// its `k`-th number on, as pairs of a start and a length; `None` if a number is left
/// over, or a range has no lowest location.
pub open spec fn lowest_of_ranges_from(
    maps: Seq<StageMapView>,
    seeds: Seq<u64>,
    k: int,
    acc: u64,
) -> Option<u64>
    decreases seeds.len() - k,
{
    if k < 0 || k >= seeds.len() {
        Some(acc)
    } else if k + 1 >= seeds.len() {
        None
    } else {
        match lowest_in_range(maps, seeds[k], seeds[k + 1]) {
            None => None,
            Some(location) => lowest_of_ranges_from(maps, seeds, k + 2, lower(acc, location)),
        }
    }
}

impl DataView {
    /// The lowest location of the seeds, each number of the list being a seed.
    pub open spec fn lowest_location(self) -> Option<u64> {
        lowest_from(self.maps, self.seeds, 0, u64::MAX)
    }

    /// The lowest location of the seeds, the list giving ranges of seeds as pairs of a
    /// start and a length; `None` also if the list is empty.
    pub open spec fn lowest_location_of_ranges(self) -> Option<u64> {
        if self.seeds.len() == 0 {
            None
        } else {
            lowest_of_ranges_from(self.maps, self.seeds, 0, u64::MAX)
        }
    }
}

/// `lowest_between` gives the least of `acc` and the locations of the seeds it covers.
pub proof fn lemma_lowest_between_is_least(maps: Seq<StageMapView>, seed: int, end: int, acc: u64)
    requires
        0 <= seed <= end <= u64::MAX + 1,
    ensures
        lowest_between(maps, seed, end, acc) is None <==> exists|x: int|
            seed <= x < end && #[trigger] through(maps, 0, x as u64) is None,
        lowest_between(maps, seed, end, acc) matches Some(lowest) ==> {
            &&& lowest <= acc
            &&& forall|x: int|
                seed <= x < end ==> lowest <= (#[trigger] through(maps, 0, x as u64))->0
            &&& lowest == acc || exists|x: int|
                seed <= x < end && #[trigger] through(maps, 0, x as u64) == Some(lowest)
        },
    decreases end - seed,
{
    if seed < end {
        match through(maps, 0, seed as u64) {
            None => {},
            Some(location) => {
                lemma_lowest_between_is_least(maps, seed + 1, end, lower(acc, location));
                if let Some(lowest) = lowest_between(maps, seed, end, acc) {
                    if lowest != acc {
                        if lowest == lower(acc, location) {
                            assert(through(maps, 0, seed as u64) == Some(lowest));
                        } else {
                            let x = choose|x: int|
                                seed + 1 <= x < end && #[trigger] through(maps, 0, x as u64)
                                    == Some(lowest);
                            assert(seed <= x < end);
                        }
                    }
                } else {
                    let x = choose|x: int|
                        seed + 1 <= x < end && #[trigger] through(maps, 0, x as u64) is None;
                    assert(seed <= x < end);
                }
            },
        }
    }
}

/// `lowest_from` gives the least of `acc` and the locations of the seeds it covers.
pub proof fn lemma_lowest_from_is_least(
    maps: Seq<StageMapView>,
    seeds: Seq<u64>,
    k: int,
    acc: u64,
)
    requires
        0 <= k <= seeds.len(),
    ensures
        lowest_from(maps, seeds, k, acc) is None <==> exists|i: int|
            k <= i < seeds.len() && through(maps, 0, #[trigger] seeds[i]) is None,
        lowest_from(maps, seeds, k, acc) matches Some(lowest) ==> {
            &&& lowest <= acc
            &&& forall|i: int|
                k <= i < seeds.len() ==> lowest <= through(maps, 0, #[trigger] seeds[i])->0
            &&& lowest == acc || exists|i: int|
                k <= i < seeds.len() && through(maps, 0, #[trigger] seeds[i]) == Some(lowest)
        },
    decreases seeds.len() - k,
{
    if k < seeds.len() {
        match through(maps, 0, seeds[k]) {
            None => {},
            Some(location) => {
                lemma_lowest_from_is_least(maps, seeds, k + 1, lower(acc, location));
                if let Some(lowest) = lowest_from(maps, seeds, k, acc) {
                    if lowest != acc {
                        if lowest == lower(acc, location) {
                            assert(through(maps, 0, seeds[k]) == Some(lowest));
                        } else {
                            let i = choose|i: int|
                                k + 1 <= i < seeds.len() && through(maps, 0, #[trigger] seeds[i])
                                    == Some(lowest);
                            assert(k <= i < seeds.len());
                        }
                    }
                } else {
                    let i = choose|i: int|
                        k + 1 <= i < seeds.len() && through(maps, 0, #[trigger] seeds[i]) is None;
                    assert(k <= i < seeds.len());
                }
            },
        }
    }
}

impl MapPipeline {
    /// The lowest location of the seeds, each number of the list being a seed;
    /// `u64::MAX` if there is no seed.
    pub fn lowest_location(&self, seeds: &[u64]) -> (r: Option<u64>)
        ensures
            r == lowest_from(self@, seeds@, 0, u64::MAX),
    {
        let mut lowest_location = u64::MAX;
        let mut i: usize = 0;
        while i < seeds.len()
            invariant
                i <= seeds@.len(),
                lowest_from(self@, seeds@, 0, u64::MAX) == lowest_from(
                    self@,
                    seeds@,
                    i as int,
                    lowest_location,
                ),
            decreases seeds@.len() - i,
        {
            let result = match self.try_convert(seeds[i]) {
                Some(result) => result,
                None => { return None; },
            };
            if result < lowest_location {
                lowest_location = result;
            }
            i += 1;
        }
        Some(lowest_location)
    }

    /// The lowest location of the `length` seeds from `start` on: the work on one range of
    /// seeds, which needs nothing from the work on another.
    pub fn lowest_in_range(&self, start: u64, length: u64) -> (r: Option<u64>)
        ensures
            r == lowest_in_range(self@, start, length),
    {
        let end = match start.checked_add(length) {
            Some(end) => end,
            None => { return None; },
        };
        let mut lowest = u64::MAX;
        let mut seed = start;
        while seed < end
            invariant
                start <= seed <= end,
                lowest_in_range(self@, start, length) == lowest_between(
                    self@,
                    seed as int,
                    end as int,
                    lowest,
                ),
            decreases end - seed,
        {
            let location = match self.try_convert(seed) {
                Some(location) => location,
                None => { return None; },
            };
            if location < lowest {
                lowest = location;
            }
            seed += 1;
        }
        Some(lowest)
    }

    /// The lowest location of the seeds, the list giving ranges of seeds as pairs of a
    /// start and a length.
    pub fn lowest_location_of_ranges(&self, seeds: &[u64]) -> (r: Option<u64>)
        ensures
            r == lowest_of_ranges_from(self@, seeds@, 0, u64::MAX),
    {
        let mut lowest = u64::MAX;
        let mut i: usize = 0;
        while i < seeds.len()
            invariant
                i <= seeds@.len(),
                lowest_of_ranges_from(self@, seeds@, 0, u64::MAX) == lowest_of_ranges_from(
                    self@,
                    seeds@,
                    i as int,
                    lowest,
                ),
            decreases seeds@.len() - i,
        {
            if seeds.len() - i < 2 {
                return None;
            }
            let location = match self.lowest_in_range(seeds[i], seeds[i + 1]) {
                Some(location) => location,
                None => { return None; },
            };
            if location < lowest {
                lowest = location;
            }
            i += 2;
        }
        Some(lowest)
    }
}

/// The least of `acc` and the numbers from the `k`-th on.
pub open spec fn least_from(numbers: Seq<u64>, k: int, acc: u64) -> u64
    decreases numbers.len() - k,
{
    if k < 0 || k >= numbers.len() {
        acc
    } else {
        least_from(numbers, k + 1, lower(acc, numbers[k]))
    }
}

/// `least_from` gives a number that is `acc` or one of the numbers it covers, and no
/// larger than any of these.
pub proof fn lemma_least_from(numbers: Seq<u64>, k: int, acc: u64)
    requires
        0 <= k <= numbers.len(),
    ensures
        least_from(numbers, k, acc) <= acc,
        forall|i: int| k <= i < numbers.len() ==> least_from(numbers, k, acc) <= numbers[i],
        least_from(numbers, k, acc) == acc || exists|i: int|
            k <= i < numbers.len() && numbers[i] == least_from(numbers, k, acc),
    decreases numbers.len() - k,
{
    if k < numbers.len() {
        lemma_least_from(numbers, k + 1, lower(acc, numbers[k]));
        let least = least_from(numbers, k, acc);
        if least != acc && least != numbers[k] {
            let i = choose|i: int| k + 1 <= i < numbers.len() && numbers[i] == least;
            assert(k <= i < numbers.len());
        }
    }
}

/// The least of the numbers, or `None` if there is none: what the lowest locations of
/// several ranges of seeds come down to.
pub fn least(numbers: &[u64]) -> (r: Option<u64>)
    ensures
        r is None <==> numbers@.len() == 0,
        r matches Some(n) ==> n == least_from(numbers@, 0, u64::MAX),
{
    if numbers.len() == 0 {
        return None;
    }
    let mut lowest = u64::MAX;
    let mut i: usize = 0;
    while i < numbers.len()
        invariant
            i <= numbers@.len(),
            least_from(numbers@, 0, u64::MAX) == least_from(numbers@, i as int, lowest),
        decreases numbers@.len() - i,
    {
        if numbers[i] < lowest {
            lowest = numbers[i];
        }
        i += 1;
    }
    Some(lowest)
}

/// The lowest locations of the ranges that `seeds` lists from its `k`-th number on, range
/// by range; `None` if a number is left over or a range has no lowest location.
pub open spec fn range_lows_from(maps: Seq<StageMapView>, seeds: Seq<u64>, k: int) -> Option<
    Seq<u64>,
>
    decreases seeds.len() - k,
{
    if k < 0 || k >= seeds.len() {
        Some(Seq::empty())
    } else if k + 1 >= seeds.len() {
        None
    } else {
        match (lowest_in_range(maps, seeds[k], seeds[k + 1]), range_lows_from(maps, seeds, k + 2)) {
            (Some(lowest), Some(rest)) => Some(seq![lowest] + rest),
            _ => None,
        }
    }
}

/// The lowest location of ranges of seeds is the least of the lowest locations of the
/// ranges, each found on its own.
pub proof fn lemma_lowest_of_ranges_is_least(
    maps: Seq<StageMapView>,
    seeds: Seq<u64>,
    k: int,
    acc: u64,
)
    requires
        0 <= k <= seeds.len(),
    ensures
        lowest_of_ranges_from(maps, seeds, k, acc) is Some <==> range_lows_from(maps, seeds, k) is Some,
        range_lows_from(maps, seeds, k) matches Some(lows) ==> lowest_of_ranges_from(
            maps,
            seeds,
            k,
            acc,
        ) == Some(least_from(lows, 0, acc)),
    decreases seeds.len() - k,
{
    if k + 1 < seeds.len() {
        if let Some(lowest) = lowest_in_range(maps, seeds[k], seeds[k + 1]) {
            lemma_lowest_of_ranges_is_least(maps, seeds, k + 2, lower(acc, lowest));
            if let Some(rest) = range_lows_from(maps, seeds, k + 2) {
                let lows = seq![lowest] + rest;
                lemma_least_from_behind(seq![lowest], rest, 0, lower(acc, lowest));
                assert(least_from(lows, 1, lower(acc, lowest)) == least_from(
                    rest,
                    0,
                    lower(acc, lowest),
                ));
            }
        }
    }
}

/// What stands behind other numbers has the same least number as it has alone.
proof fn lemma_least_from_behind(front: Seq<u64>, numbers: Seq<u64>, k: int, acc: u64)
    requires
        0 <= k <= numbers.len(),
    ensures
        least_from(front + numbers, front.len() + k, acc) == least_from(numbers, k, acc),
    decreases numbers.len() - k,
{
    if k < numbers.len() {
        assert((front + numbers)[front.len() + k] == numbers[k]);
        lemma_least_from_behind(front, numbers, k + 1, lower(acc, numbers[k]));
    }
}

/// The lowest location of `seeds` under `maps`, each map taking all the numbers in turn.
pub fn compute_lowest_location(seeds: Vec<u64>, maps: Vec<StageMap>) -> (r: u64)
    requires
        seeds@.len() > 0,
        forall|i: int| 0 <= i < seeds@.len() ==> through(map_views(maps@), 0, #[trigger] seeds@[i]) is Some,
    ensures
        Some(r) == lowest_from(map_views(maps@), seeds@, 0, u64::MAX),
{
    let ghost chain = map_views(maps@);
    let mut current_values = seeds;
    let mut k: usize = 0;
    while k < maps.len()
        invariant
            k <= maps@.len(),
            chain == map_views(maps@),
            current_values@.len() == seeds@.len(),
            forall|i: int|
                0 <= i < seeds@.len() ==> through(chain, 0, #[trigger] seeds@[i]) is Some
                    && through(chain, 0, seeds@[i]) == through(
                    chain,
                    k as int,
                    current_values@[i],
                ),
        decreases maps@.len() - k,
    {
        assert forall|i: int| 0 <= i < current_values@.len() implies maps@[k as int]@.convert(
            #[trigger] current_values@[i] as int,
        ) <= u64::MAX by {
            assert(through(chain, 0, seeds@[i]) is Some);
        }
        let ghost before = current_values@;
        current_values = maps[k].convert_many(current_values.as_slice());
        assert forall|i: int| 0 <= i < seeds@.len() implies through(chain, 0, seeds@[i])
            == through(chain, k + 1, #[trigger] current_values@[i]) by {
            assert(through(chain, 0, seeds@[i]) == through(chain, k as int, before[i]));
        }
        k += 1;
    }
    let mut lowest = current_values[0];
    let mut i: usize = 1;
    assert(through(chain, 0, seeds@[0]) is Some);
    while i < current_values.len()
        invariant
            1 <= i <= current_values@.len(),
            current_values@.len() == seeds@.len(),
            chain == map_views(maps@),
            forall|j: int|
                0 <= j < seeds@.len() ==> through(chain, 0, #[trigger] seeds@[j]) == Some(
                    current_values@[j],
                ),
            lowest_from(chain, seeds@, 0, u64::MAX) == lowest_from(chain, seeds@, i as int, lowest),
        decreases current_values@.len() - i,
    {
        if current_values[i] < lowest {
            lowest = current_values[i];
        }
        i += 1;
    }
    lowest
}

/// The ranges are in the order of their source starts.
pub open spec fn in_order(ranges: Seq<MapRange>) -> bool {
    forall|i: int, j: int|
        0 <= i < j < ranges.len() ==> ranges[i].source_start <= ranges[j].source_start
}

/// `ranges` with `range` put behind the last range that does not start later.
pub open spec fn insert_sorted(ranges: Seq<MapRange>, range: MapRange) -> Seq<MapRange>
    decreases ranges.len(),
{
    if ranges.len() == 0 {
        seq![range]
    } else if ranges.last().source_start <= range.source_start {
        ranges.push(range)
    } else {
        insert_sorted(ranges.drop_last(), range).push(ranges.last())
    }
}

/// The ranges in the order of their source starts; ranges with the same start keep the
/// order they had.
pub open spec fn sort_by_source(ranges: Seq<MapRange>) -> Seq<MapRange>
    decreases ranges.len(),
{
    if ranges.len() == 0 {
        ranges
    } else {
        insert_sorted(sort_by_source(ranges.drop_last()), ranges.last())
    }
}

/// Where `insert_sorted` puts `range`: behind the last of `ranges` that does not start
/// later.
pub open spec fn slot(ranges: Seq<MapRange>, range: MapRange) -> int
    decreases ranges.len(),
{
    if ranges.len() == 0 {
        0
    } else if ranges.last().source_start <= range.source_start {
        ranges.len() as int
    } else {
        slot(ranges.drop_last(), range)
    }
}

/// `insert_sorted` puts the range at its slot and leaves the others as they are.
pub proof fn lemma_insert_sorted(ranges: Seq<MapRange>, range: MapRange)
    ensures
        0 <= slot(ranges, range) <= ranges.len(),
        insert_sorted(ranges, range) == ranges.insert(slot(ranges, range), range),
        slot(ranges, range) > 0 ==> ranges[slot(ranges, range) - 1].source_start
            <= range.source_start,
        forall|j: int|
            slot(ranges, range) <= j < ranges.len() ==> (#[trigger] ranges[j]).source_start
                > range.source_start,
        in_order(ranges) ==> in_order(insert_sorted(ranges, range)),
    decreases ranges.len(),
{
    let p = slot(ranges, range);
    let out = insert_sorted(ranges, range);
    if ranges.len() == 0 {
        assert(out =~= ranges.insert(p, range));
    } else if ranges.last().source_start <= range.source_start {
        assert(out =~= ranges.insert(p, range));
    } else {
        let front = ranges.drop_last();
        lemma_insert_sorted(front, range);
        assert(front.insert(p, range).push(ranges.last()) =~= ranges.insert(p, range));
        assert forall|j: int| p <= j < ranges.len() implies (#[trigger] ranges[j]).source_start
            > range.source_start by {
            if j < front.len() {
                assert(front[j] == ranges[j]);
            }
        }
        if p > 0 {
            assert(front[p - 1] == ranges[p - 1]);
        }
    }
    if in_order(ranges) {
        assert forall|i: int, j: int| 0 <= i < j < out.len() implies out[i].source_start
            <= out[j].source_start by {
            if j < p {
                assert(out[i] == ranges[i] && out[j] == ranges[j]);
            } else if j == p {
                assert(out[i] == ranges[i] && out[j] == range);
                if i < p - 1 {
                    assert(ranges[i].source_start <= ranges[p - 1].source_start);
                }
            } else if i < p {
                assert(out[i] == ranges[i] && out[j] == ranges[j - 1]);
            } else if i == p {
                assert(out[i] == range && out[j] == ranges[j - 1]);
            } else {
                assert(out[i] == ranges[i - 1] && out[j] == ranges[j - 1]);
            }
        }
    }
}

/// Sorting puts the ranges in order and keeps their number.
pub proof fn lemma_sort_by_source(ranges: Seq<MapRange>)
    ensures
        sort_by_source(ranges).len() == ranges.len(),
        in_order(sort_by_source(ranges)),
    decreases ranges.len(),
{
    if ranges.len() > 0 {
        lemma_sort_by_source(ranges.drop_last());
        lemma_insert_sorted(sort_by_source(ranges.drop_last()), ranges.last());
    }
}

/// Ranges that are in order stay as they are when they are sorted.
pub proof fn lemma_sort_of_ordered(ranges: Seq<MapRange>)
    requires
        in_order(ranges),
    ensures
        sort_by_source(ranges) == ranges,
    decreases ranges.len(),
{
    if ranges.len() > 0 {
        let front = ranges.drop_last();
        assert forall|i: int, j: int| 0 <= i < j < front.len() implies front[i].source_start
            <= front[j].source_start by {
            assert(front[i] == ranges[i] && front[j] == ranges[j]);
        }
        lemma_sort_of_ordered(front);
        if front.len() > 0 {
            assert(front.last() == ranges[ranges.len() - 2]);
        }
        assert(ranges =~= front.push(ranges.last()));
    }
}

/// Puts `range` behind the last of `ranges` that does not start later.
fn insert_range(ranges: &mut Vec<MapRange>, range: MapRange)
    ensures
        final(ranges)@ == insert_sorted(old(ranges)@, range),
{
    let ghost all = ranges@;
    let mut j: usize = ranges.len();
    assert(all.take(j as int) =~= all && all.skip(j as int) =~= Seq::<MapRange>::empty());
    assert(insert_sorted(all, range) =~= insert_sorted(all.take(j as int), range) + all.skip(
        j as int,
    ));
    while j > 0 && ranges[j - 1].source_start > range.source_start
        invariant
            j <= all.len(),
            ranges@ == all,
            insert_sorted(all, range) == insert_sorted(all.take(j as int), range) + all.skip(
                j as int,
            ),
        decreases j,
    {
        proof {
            let head = all.take(j as int);
            assert(head.last() == all[j - 1]);
            assert(head.drop_last() =~= all.take(j - 1));
            assert(insert_sorted(head, range) == insert_sorted(all.take(j - 1), range).push(
                all[j - 1],
            ));
            assert(insert_sorted(all.take(j - 1), range).push(all[j - 1]) + all.skip(j as int)
                =~= insert_sorted(all.take(j - 1), range) + all.skip(j - 1));
        }
        j -= 1;
    }
    proof {
        let head = all.take(j as int);
        if j > 0 {
            assert(head.last() == all[j - 1]);
        }
        assert(insert_sorted(head, range) =~= head.push(range));
        assert(head.push(range) + all.skip(j as int) =~= all.insert(j as int, range));
    }
    ranges.insert(j, range);
}

/// The ranges in the order of their source starts; ranges with the same start keep the
/// order they had.
pub fn sorted_by_source(ranges: &Vec<MapRange>) -> (sorted: Vec<MapRange>)
    ensures
        sorted@ == sort_by_source(ranges@),
{
    let mut sorted: Vec<MapRange> = Vec::new();
    let mut i: usize = 0;
    assert(ranges@.take(0) =~= Seq::<MapRange>::empty());
    while i < ranges.len()
        invariant
            i <= ranges@.len(),
            sorted@ == sort_by_source(ranges@.take(i as int)),
        decreases ranges@.len() - i,
    {
        proof {
            assert(ranges@.take(i + 1).drop_last() =~= ranges@.take(i as int));
            assert(ranges@.take(i + 1).last() == ranges@[i as int]);
        }
        insert_range(&mut sorted, ranges[i]);
        i += 1;
    }
    assert(ranges@.take(i as int) =~= ranges@);
    sorted
}

/// The range that a line writes: its destination start, its source start and its length,
/// one space between them. `None` if the line is not three numbers of 64 bits.
pub open spec fn range_of(raw: Seq<char>) -> Option<MapRange> {
    let parts = split(raw, " "@);
    if parts.len() != 3 {
        None
    } else {
        match (
            at_most(unsigned(parts[0]), u64::MAX),
            at_most(unsigned(parts[1]), u64::MAX),
            at_most(unsigned(parts[2]), u64::MAX),
        ) {
            (Some(destination_start), Some(source_start), Some(length)) => Some(
                MapRange { destination_start, source_start, length },
            ),
            _ => None,
        }
    }
}

/// The ranges that the lines write, or `None` if one of the lines writes none.
pub open spec fn ranges_of(rows: Seq<Seq<char>>) -> Option<Seq<MapRange>> {
    if forall|i: int| 0 <= i < rows.len() ==> range_of(#[trigger] rows[i]) is Some {
        Some(Seq::new(rows.len(), |i: int| range_of(rows[i])->0))
    } else {
        None
    }
}

/// The seeds that a text lists, whitespace between them; `None` if one of its words is no
/// number of 64 bits.
pub open spec fn seeds_of(raw: Seq<char>) -> Option<Seq<u64>> {
    let list = words(raw);
    if forall|i: int| 0 <= i < list.len() ==> at_most(unsigned(#[trigger] list[i]), u64::MAX) is Some {
        Some(Seq::new(list.len(), |i: int| at_most(unsigned(list[i]), u64::MAX)->0))
    } else {
        None
    }
}

/// The map that a header and a body write. The header begins with the two categories as
/// `<source>-to-<destination>`; the body has one range on each line. The ranges of the map
/// are sorted by their source starts.
pub open spec fn map_of(header: Seq<char>, body: Seq<char>) -> Option<StageMapView> {
    let names = split(split(header, " "@)[0], "-to-"@);
    if names.len() < 2 {
        None
    } else {
        match ranges_of(split(body, "\n"@)) {
            None => None,
            Some(ranges) => Some(
                StageMapView {
                    full_name: header,
                    source_category: names[0],
                    destination_category: names[1],
                    ranges: sort_by_source(ranges),
                },
            ),
        }
    }
}

/// An item of an almanac: the seeds or a map.
#[derive(Debug)]
pub enum Item {
    Seeds(Vec<u64>),
    Stage(StageMap),
}

/// An item of an almanac as a value.
pub enum ItemView {
    Seeds(Seq<u64>),
    Stage(StageMapView),
}

impl View for Item {
    type V = ItemView;

    open spec fn view(&self) -> ItemView {
        match self {
            Item::Seeds(seeds) => ItemView::Seeds(seeds@),
            Item::Stage(map) => ItemView::Stage(map@),
        }
    }
}

/// The item that a text writes: a header, `:` and a body, whitespace around each left
/// out. The header `seeds` is followed by the seeds, a header that ends in ` map` by the
/// ranges of a map.
pub open spec fn item_of(raw_item: Seq<char>) -> Option<ItemView> {
    let parts = split(trim(raw_item), ":"@);
    if parts.len() != 2 {
        None
    } else if trim(parts[0]) == "seeds"@ {
        match seeds_of(trim(parts[1])) {
            Some(seeds) => Some(ItemView::Seeds(seeds)),
            None => None,
        }
    } else if ends_with(trim(parts[0]), " map"@) {
        match map_of(trim(parts[0]), trim(parts[1])) {
            Some(map) => Some(ItemView::Stage(map)),
            None => None,
        }
    } else {
        None
    }
}

/// The almanac that the items from the `k`-th on complete, given the seeds and the maps
/// of the items before; `None` if an item writes nothing, the seeds come twice, or they do
/// not come.
pub open spec fn data_from(
    items: Seq<Seq<char>>,
    k: int,
    seeds: Option<Seq<u64>>,
    maps: Seq<StageMapView>,
) -> Option<DataView>
    decreases items.len() - k,
{
    if k < 0 || k >= items.len() {
        match seeds {
            Some(seeds) => Some(DataView { seeds, maps }),
            None => None,
        }
    } else {
        match item_of(items[k]) {
            None => None,
            Some(ItemView::Seeds(new_seeds)) => if seeds is Some {
                None
            } else {
                data_from(items, k + 1, Some(new_seeds), maps)
            },
            Some(ItemView::Stage(new_map)) => data_from(items, k + 1, seeds, maps.push(new_map)),
        }
    }
}

/// The almanac that a text writes: its items, an empty line between them.
pub open spec fn data_of(input: Seq<char>) -> Option<DataView> {
    data_from(split(input, "\n\n"@), 0, None, Seq::empty())
}

/// The number of 64 bits that `raw` writes.
fn parse_number(raw: &[char]) -> (r: Option<u64>)
    ensures
        r == at_most(unsigned(raw@), u64::MAX),
{
    parse_unsigned(raw, u64::MAX)
}

/// The range that a line writes.
pub fn parse_map_range(raw_range: &[char]) -> (r: Option<MapRange>)
    ensures
        r == range_of(raw_range@),
{
    let space = chars_of(" ");
    proof {
        reveal_strlit(" ");
    }
    let parts = split_at_sep(raw_range, space.as_slice());
    if parts.len() != 3 {
        return None;
    }
    assert(views(parts@)[0] == parts@[0]@ && views(parts@)[1] == parts@[1]@ && views(parts@)[2]
        == parts@[2]@);
    let destination_start = match parse_number(parts[0]) {
        Some(n) => n,
        None => { return None; },
    };
    let source_start = match parse_number(parts[1]) {
        Some(n) => n,
        None => { return None; },
    };
    let length = match parse_number(parts[2]) {
        Some(n) => n,
        None => { return None; },
    };
    Some(MapRange { destination_start, source_start, length })
}

/// The seeds that a text lists.
pub fn parse_seeds(raw_seeds: &[char]) -> (r: Option<Vec<u64>>)
    ensures
        r is Some <==> seeds_of(raw_seeds@) is Some,
        r matches Some(seeds) ==> seeds@ == seeds_of(raw_seeds@)->0,
{
    let list = split_words(raw_seeds);
    let mut seeds: Vec<u64> = Vec::new();
    let mut i: usize = 0;
    while i < list.len()
        invariant
            i <= list@.len(),
            views(list@) == words(raw_seeds@),
            seeds@.len() == i,
            forall|k: int|
                0 <= k < i ==> at_most(unsigned(#[trigger] words(raw_seeds@)[k]), u64::MAX)
                    == Some(seeds@[k]),
        decreases list@.len() - i,
    {
        assert(views(list@)[i as int] == list@[i as int]@);
        match parse_number(list[i]) {
            Some(seed) => seeds.push(seed),
            None => { return None; },
        }
        i += 1;
    }
    assert(seeds@ =~= seeds_of(raw_seeds@)->0);
    Some(seeds)
}

/// The map that a header and a body write.
pub fn parse_map(header: &[char], body: &[char]) -> (r: Option<StageMap>)
    ensures
        r is Some <==> map_of(header@, body@) is Some,
        r matches Some(map) ==> map@ == map_of(header@, body@)->0,
{
    let space = chars_of(" ");
    let dash_to = chars_of("-to-");
    let line_feed = chars_of("\n");
    proof {
        reveal_strlit(" ");
        reveal_strlit("-to-");
        reveal_strlit("\n");
    }
    let parts = split_at_sep(header, space.as_slice());
    let from_to = parts[0];
    assert(views(parts@)[0] == parts@[0]@);
    let from_to_parts = split_at_sep(from_to, dash_to.as_slice());
    if from_to_parts.len() < 2 {
        return None;
    }
    assert(views(from_to_parts@)[0] == from_to_parts@[0]@ && views(from_to_parts@)[1]
        == from_to_parts@[1]@);
    let from = from_to_parts[0];
    let to = from_to_parts[1];
    let rows = split_at_sep(body, line_feed.as_slice());
    let mut ranges: Vec<MapRange> = Vec::new();
    let mut i: usize = 0;
    while i < rows.len()
        invariant
            i <= rows@.len(),
            views(rows@) == split(body@, "\n"@),
            ranges@.len() == i,
            forall|k: int|
                0 <= k < i ==> range_of(#[trigger] split(body@, "\n"@)[k]) == Some(ranges@[k]),
        decreases rows@.len() - i,
    {
        assert(views(rows@)[i as int] == rows@[i as int]@);
        match parse_map_range(rows[i]) {
            Some(range) => ranges.push(range),
            None => { return None; },
        }
        i += 1;
    }
    assert(ranges@ =~= ranges_of(split(body@, "\n"@))->0);
    let ranges = sorted_by_source(&ranges);
    Some(
        StageMap {
            full_name: string_of(header),
            source_category: string_of(from),
            destination_category: string_of(to),
            ranges,
        },
    )
}

/// The item that a text writes.
pub fn parse_item(raw_item: &[char]) -> (r: Option<Item>)
    ensures
        r is Some <==> item_of(raw_item@) is Some,
        r matches Some(item) ==> item@ == item_of(raw_item@)->0,
{
    let colon = chars_of(":");
    proof {
        reveal_strlit(":");
    }
    let parts = split_at_sep(trimmed(raw_item), colon.as_slice());
    if parts.len() != 2 {
        return None;
    }
    assert(views(parts@)[0] == parts@[0]@ && views(parts@)[1] == parts@[1]@);
    let header = trimmed(parts[0]);
    let body = trimmed(parts[1]);
    if is_text(header, "seeds") {
        match parse_seeds(body) {
            Some(seeds) => Some(Item::Seeds(seeds)),
            None => None,
        }
    } else if has_suffix(header, " map") {
        match parse_map(header, body) {
            Some(map) => Some(Item::Stage(map)),
            None => None,
        }
    } else {
        None
    }
}

/// The almanac that a text writes, or `None` if it writes none.
pub fn try_parse(input: &str) -> (r: Option<Data>)
    ensures
        r is Some <==> data_of(input@) is Some,
        r matches Some(data) ==> data@ == data_of(input@)->0,
{
    let chars = chars_of(input);
    let empty_line = chars_of("\n\n");
    proof {
        reveal_strlit("\n\n");
    }
    let items = split_at_sep(chars.as_slice(), empty_line.as_slice());
    let mut seeds: Option<Vec<u64>> = None;
    let mut maps: Vec<StageMap> = Vec::new();
    let ghost all = split(input@, "\n\n"@);
    let mut i: usize = 0;
    assert(map_views(maps@) =~= Seq::<StageMapView>::empty());
    while i < items.len()
        invariant
            i <= items@.len(),
            views(items@) == all,
            all == split(input@, "\n\n"@),
            data_of(input@) == data_from(
                all,
                i as int,
                match seeds {
                    Some(seeds) => Some(seeds@),
                    None => None,
                },
                map_views(maps@),
            ),
        decreases items@.len() - i,
    {
        assert(views(items@)[i as int] == items@[i as int]@);
        let ghost before = map_views(maps@);
        match parse_item(items[i]) {
            None => { return None; },
            Some(Item::Seeds(new_seeds)) => {
                if seeds.is_some() {
                    return None;
                }
                seeds = Some(new_seeds);
            },
            Some(Item::Stage(new_map)) => {
                maps.push(new_map);
                assert(map_views(maps@) =~= before.push(new_map@));
            },
        }
        i += 1;
    }
    match seeds {
        Some(seeds) => Some(Data { seeds, maps }),
        None => None,
    }
}

/// The almanac that a text writes.
pub fn parse(input: &str) -> (data: Data)
    requires
        data_of(input@) is Some,
    ensures
        data@ == data_of(input@)->0,
{
    try_parse(input).unwrap()
}

/// The line that writes a range: its three numbers, one space between them.
pub open spec fn range_text(range: MapRange) -> Seq<char> {
    join(
        seq![
            decimal_digits(range.destination_start as nat),
            decimal_digits(range.source_start as nat),
            decimal_digits(range.length as nat),
        ],
        " "@,
    )
}

/// The lines that write the ranges.
pub open spec fn range_rows(ranges: Seq<MapRange>) -> Seq<Seq<char>> {
    Seq::new(ranges.len(), |i: int| range_text(ranges[i]))
}

/// The text that writes the ranges, one on each line.
pub open spec fn ranges_text(ranges: Seq<MapRange>) -> Seq<char> {
    join(range_rows(ranges), "\n"@)
}

/// The line that writes a range is read as that range, and it holds no line feed.
pub proof fn lemma_range_text(range: MapRange)
    ensures
        range_of(range_text(range)) == Some(range),
        free_of(range_text(range), '\n'),
{
    reveal_strlit(" ");
    let d = decimal_digits(range.destination_start as nat);
    let s = decimal_digits(range.source_start as nat);
    let l = decimal_digits(range.length as nat);
    lemma_decimal_digits(range.destination_start as nat);
    lemma_decimal_digits(range.source_start as nat);
    lemma_decimal_digits(range.length as nat);
    let pieces = seq![d, s, l];
    assert forall|k: int| 0 <= k < pieces.len() implies free_of(#[trigger] pieces[k], " "@[0]) by {
        assert(forall|j: int| 0 <= j < pieces[k].len() ==> is_digit(pieces[k][j]));
    }
    lemma_split_join(pieces, " "@);
    let text = range_text(range);
    assert(pieces.skip(1) =~= seq![s, l]);
    assert(pieces.skip(1).skip(1) =~= seq![l]);
    assert(join(seq![l], " "@) == l);
    assert(join(seq![s, l], " "@) == s + " "@ + l);
    assert(text == d + " "@ + (s + " "@ + l));
    assert forall|j: int| 0 <= j < text.len() implies text[j] != '\n' by {
        if j < d.len() {
            assert(is_digit(d[j]));
        } else if j == d.len() {
        } else if j < d.len() + 1 + s.len() {
            assert(text[j] == s[j - d.len() - 1]);
            assert(is_digit(s[j - d.len() - 1]));
        } else if j == d.len() + 1 + s.len() {
        } else {
            assert(text[j] == l[j - d.len() - s.len() - 2]);
            assert(is_digit(l[j - d.len() - s.len() - 2]));
        }
    }
}

/// The text that writes ranges is read, line by line, as those ranges.
pub proof fn lemma_ranges_text(ranges: Seq<MapRange>)
    requires
        ranges.len() > 0,
    ensures
        ranges_of(split(ranges_text(ranges), "\n"@)) == Some(ranges),
{
    reveal_strlit("\n");
    let rows = range_rows(ranges);
    assert forall|k: int| 0 <= k < rows.len() implies free_of(#[trigger] rows[k], "\n"@[0]) by {
        lemma_range_text(ranges[k]);
    }
    lemma_split_join(rows, "\n"@);
    assert forall|k: int| 0 <= k < rows.len() implies range_of(#[trigger] rows[k]) == Some(
        ranges[k],
    ) by {
        lemma_range_text(ranges[k]);
    }
    assert(ranges_of(rows)->0 =~= ranges);
}

/// Writing the ranges of a map as text and reading that text again as the body of a map
/// gives a map with the same ranges, which takes every number where the first map takes
/// it. The map has to have a range, and its ranges have to be in the order of their source
/// starts, as those of every map that was read are.
pub proof fn lemma_reread_map_converts_alike(header: Seq<char>, map: StageMapView)
    requires
        map.ranges.len() > 0,
        in_order(map.ranges),
        split(split(header, " "@)[0], "-to-"@).len() >= 2,
    ensures
        map_of(header, ranges_text(map.ranges)) is Some,
        map_of(header, ranges_text(map.ranges))->0.ranges == map.ranges,
        forall|source: int|
            map_of(header, ranges_text(map.ranges))->0.convert(source) == map.convert(source),
{
    lemma_ranges_text(map.ranges);
    lemma_sort_of_ordered(map.ranges);
}

/// The maps that were read have their ranges in the order of their source starts.
pub proof fn lemma_read_map_is_in_order(header: Seq<char>, body: Seq<char>)
    ensures
        map_of(header, body) matches Some(map) ==> in_order(map.ranges),
{
    if let Some(ranges) = ranges_of(split(body, "\n"@)) {
        lemma_sort_by_source(ranges);
    }
}

impl StageMap {
    /// The text that writes the ranges of the map, one on each line.
    pub fn ranges_text(&self) -> (text: String)
        ensures
            text@ == ranges_text(self.ranges@),
    {
        let mut out: Vec<char> = Vec::new();
        let ghost rows = range_rows(self.ranges@);
        let mut i: usize = 0;
        assert(rows.take(0) =~= Seq::<Seq<char>>::empty());
        while i < self.ranges.len()
            invariant
                i <= self.ranges@.len(),
                rows == range_rows(self.ranges@),
                out@ == join(rows.take(i as int), "\n"@),
            decreases self.ranges@.len() - i,
        {
            let range = &self.ranges[i];
            let ghost before = out@;
            if i > 0 {
                out.push('\n');
            }
            push_decimal(&mut out, range.destination_start);
            out.push(' ');
            push_decimal(&mut out, range.source_start);
            out.push(' ');
            push_decimal(&mut out, range.length);
            proof {
                reveal_strlit(" ");
                reveal_strlit("\n");
                let d = decimal_digits(range.destination_start as nat);
                let s = decimal_digits(range.source_start as nat);
                let l = decimal_digits(range.length as nat);
                let pieces = seq![d, s, l];
                assert(pieces.skip(1) =~= seq![s, l]);
                assert(pieces.skip(1).skip(1) =~= seq![l]);
                assert(join(seq![l], " "@) == l);
                assert(join(seq![s, l], " "@) == s + " "@ + l);
                let row = range_text(*range);
                assert(row == d + " "@ + (s + " "@ + l));
                assert(rows[i as int] == row);
                assert(rows.take(i + 1) =~= rows.take(i as int).push(row));
                if i > 0 {
                    lemma_join_push(rows.take(i as int), "\n"@, row);
                    assert(out@ =~= before + "\n"@ + row);
                } else {
                    assert(out@ =~= row);
                    assert(rows.take(1)[0] == row);
                }
            }
            i += 1;
        }
        assert(rows.take(i as int) =~= rows);
        string_of(out.as_slice())
    }
}

/// The lowest location of the seeds of the almanac that a text writes, each number of the
/// list being a seed.
pub open spec fn lowest_location_of(input: Seq<char>) -> Option<u64> {
    match data_of(input) {
        Some(data) => data.lowest_location(),
        None => None,
    }
}

/// The lowest location of the seeds of the almanac that a text writes, the list giving
/// ranges of seeds.
pub open spec fn lowest_location_of_ranges_of(input: Seq<char>) -> Option<u64> {
    match data_of(input) {
        Some(data) => data.lowest_location_of_ranges(),
        None => None,
    }
}

/// The lowest location of the seeds that the text lists; `None` if the text writes no
/// almanac or a map takes a seed out of the range of 64 bits.
pub fn try_compute_part1(input: &str) -> (r: Option<u64>)
    ensures
        r == lowest_location_of(input@),
{
    let data = match try_parse(input) {
        Some(data) => data,
        None => { return None; },
    };
    let Data { seeds, maps } = data;
    let pipeline = MapPipeline { maps };
    pipeline.lowest_location(seeds.as_slice())
}

/// The lowest location of the seeds that the text lists.
pub fn compute_part1(input: &str) -> (lowest_location: u64)
    requires
        lowest_location_of(input@) is Some,
    ensures
        Some(lowest_location) == lowest_location_of(input@),
{
    try_compute_part1(input).unwrap()
}

/// The lowest location of the seeds in the ranges that the text lists; `None` if the text
/// writes no almanac, lists no range or half a range, or a range has no lowest location.
pub fn try_compute_part2(input: &str) -> (r: Option<u64>)
    ensures
        r == lowest_location_of_ranges_of(input@),
{
    let data = match try_parse(input) {
        Some(data) => data,
        None => { return None; },
    };
    let Data { seeds, maps } = data;
    let pipeline = MapPipeline { maps };
    if seeds.len() == 0 {
        return None;
    }
    pipeline.lowest_location_of_ranges(seeds.as_slice())
}

/// The lowest location of the seeds in the ranges that the text lists.
pub fn compute_part2(input: &str) -> (lowest_location: u64)
    requires
        lowest_location_of_ranges_of(input@) is Some,
    ensures
        Some(lowest_location) == lowest_location_of_ranges_of(input@),
{
    try_compute_part2(input).unwrap()
}

} // verus!
