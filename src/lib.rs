//! Calibration values of text lines: the first and the last digit of a
//! line, written as an ASCII digit or spelled out as an English word,
//! combined into a two-digit number.
pub mod digits;
pub mod scan;
pub mod totals;
