//! Character-level building blocks shared by the solvers: character classes,
//! trimming, splitting into lines and fields, and decimal numbers.

pub mod chars;
pub mod lines;

pub mod number;
