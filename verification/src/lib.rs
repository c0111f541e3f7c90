//! Verified solvers for five text puzzles: calibration values, cube games,
//! an engine schematic, scratchcards and an almanac of range maps.
//!
//! Every solver reads its input as a sequence of characters. What a function
//! accepts and what it returns is stated over `Seq<char>` by the spec
//! functions that stand beside it.

pub mod text;

pub mod day1;
pub mod day2;
pub mod day3;
pub mod day4;
pub mod day5;
