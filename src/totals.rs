//! The running totals of one pass over the lines of an input.
use vstd::prelude::*;

use crate::digits::calibration_value;
use crate::scan::extract_number;
use vstd::string::StringSliceAdditionalSpecFns;

verus! {

/// Time between two progress reports, in nanoseconds.
pub const REPORT_DELAY_NANOS: u128 = 10_000_000_000;

/// Whether a progress report is due, `elapsed_nanos` after the last one.
pub fn report_due(elapsed_nanos: u128) -> (r: bool)
    ensures
        r == (elapsed_nanos > REPORT_DELAY_NANOS),
{
    elapsed_nanos > REPORT_DELAY_NANOS
}

/// Counters of one run: lines read, lines without a calibration value, and
/// the sum of the calibration values found.
#[derive(Debug, Clone, Copy, PartialEq, Eq, Structural)]
pub struct RunTotals {
    pub parsed_lines: u32,
    pub incorrect_lines: u32,
    pub total_sum: u32,
}

impl RunTotals {
    /// The totals before any line is read.
    pub fn new() -> (t: RunTotals)
        ensures
            t.parsed_lines == 0,
            t.incorrect_lines == 0,
            t.total_sum == 0,
    {
        RunTotals { parsed_lines: 0, incorrect_lines: 0, total_sum: 0 }
    }

    /// One more line of any kind can be counted without overflow.
    pub open spec fn can_record(&self) -> bool {
        &&& self.parsed_lines < u32::MAX
        &&& self.incorrect_lines < u32::MAX
        &&& self.total_sum <= u32::MAX - 99
    }

    /// Whether one more line of any kind can be counted.
    pub fn has_room(&self) -> (r: bool)
        ensures
            r == self.can_record(),
    {
        self.parsed_lines < u32::MAX && self.incorrect_lines < u32::MAX && self.total_sum <= u32::MAX
            - 99
    }

    /// Counts a line that could not be read: it is neither summed nor
    /// counted as incorrect.
    pub fn record_unreadable_line(&mut self)
        requires
            old(self).parsed_lines < u32::MAX,
        ensures
            final(self).parsed_lines == old(self).parsed_lines + 1,
            final(self).incorrect_lines == old(self).incorrect_lines,
            final(self).total_sum == old(self).total_sum,
    {
        self.parsed_lines = self.parsed_lines + 1;
    }

    /// Counts `line`: an empty line, or one without a calibration value,
    /// is incorrect; otherwise its value is added to the sum.
    pub fn record_line(&mut self, line: &str)
        requires
            old(self).can_record(),
        ensures
            final(self).parsed_lines == old(self).parsed_lines + 1,
            line@.len() == 0 ==> {
                &&& final(self).incorrect_lines == old(self).incorrect_lines + 1
                &&& final(self).total_sum == old(self).total_sum
            },
            line@.len() > 0 ==> match calibration_value(line.spec_bytes()) {
                Some(v) => {
                    &&& final(self).incorrect_lines == old(self).incorrect_lines
                    &&& final(self).total_sum == old(self).total_sum + v
                },
                None => {
                    &&& final(self).incorrect_lines == old(self).incorrect_lines + 1
                    &&& final(self).total_sum == old(self).total_sum
                },
            },
    {
        self.parsed_lines = self.parsed_lines + 1;
        if line.is_empty() {
            self.incorrect_lines = self.incorrect_lines + 1;
            return;
        }
        match extract_number(line) {
            Some(amount) => {
                self.total_sum = self.total_sum + amount;
            },
            None => {
                self.incorrect_lines = self.incorrect_lines + 1;
            },
        }
    }
}

} // verus!
