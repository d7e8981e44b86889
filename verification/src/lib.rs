//! Verified Advent of Code 2024 solutions (days 2 to 5) together with the
//! 128/256-bit reinterpretation helpers they were built around.

pub mod day2;
pub mod day3;
pub mod day4;
pub mod day5;
pub mod hacks;
