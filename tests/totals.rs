use calibration::totals::{report_due, RunTotals};

#[test]
fn sample_lines_sum_to_expected_total() {
    let mut totals = RunTotals::new();
    for line in [
        "eightwothree",
        "abcone2threexyz",
        "treb7uchet",
        "7pqrstsixteen",
        "abcdefg",
    ] {
        assert!(totals.has_room());
        totals.record_line(line);
    }
    assert_eq!(totals.total_sum, 249);
    assert_eq!(totals.parsed_lines, 5);
    assert_eq!(totals.incorrect_lines, 1);
}

#[test]
fn empty_and_unreadable_lines() {
    let mut totals = RunTotals::new();
    totals.record_line("");
    assert_eq!(totals.parsed_lines, 1);
    assert_eq!(totals.incorrect_lines, 1);
    totals.record_unreadable_line();
    assert_eq!(totals.parsed_lines, 2);
    assert_eq!(totals.incorrect_lines, 1);
    assert_eq!(totals.total_sum, 0);
    totals.record_line("1abc2");
    assert_eq!(totals.total_sum, 12);
    assert_eq!(totals.incorrect_lines, 1);
}

#[test]
fn room_runs_out_near_the_limits() {
    let full = RunTotals {
        parsed_lines: 0,
        incorrect_lines: 0,
        total_sum: u32::MAX - 98,
    };
    assert!(!full.has_room());
    let edge = RunTotals {
        parsed_lines: u32::MAX - 1,
        incorrect_lines: 0,
        total_sum: u32::MAX - 99,
    };
    assert!(edge.has_room());
}

#[test]
fn reports_after_ten_seconds() {
    assert!(!report_due(0));
    assert!(!report_due(10_000_000_000));
    assert!(report_due(10_000_000_001));
}
