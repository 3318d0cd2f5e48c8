//! Verified solvers for a collection of small puzzles.
//!
//! The centrepiece is [`day21`], a layered indirect-control command
//! synthesizer: it computes how many physical button presses an operator
//! must make to type a code on a numeric keypad through a chain of
//! directional-pad controllers.  The other modules hold the pure logic of
//! further independent puzzles.

pub mod day01;
pub mod day02;
pub mod day04;
pub mod day06;
pub mod day07;
pub mod day08;
pub mod day09;
pub mod day10;
pub mod day12;
pub mod day13;
pub mod day14;
pub mod day15;
pub mod day16;
pub mod day17;
pub mod day18;
pub mod day19;
pub mod day21;
pub mod day22;
pub mod day24;
pub mod day25;
