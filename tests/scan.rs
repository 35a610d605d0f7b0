use calibration::digits::{digit_char, head_table, spelled, tail_table};
use calibration::scan::{extract_number, find, r_find, SearchResult};

#[test]
fn test_find() {
    let strings = [
        "eightwothree",
        "abcone2threexyz",
        "treb7uchet",
        "7pqrstsixteen",
        "abcdefg",
    ];
    let expected = [
        SearchResult {
            number: Some('8'),
            last_parsed_position: 0,
        },
        SearchResult {
            number: Some('1'),
            last_parsed_position: 3,
        },
        SearchResult {
            number: Some('7'),
            last_parsed_position: 4,
        },
        SearchResult {
            number: Some('7'),
            last_parsed_position: 0,
        },
        SearchResult {
            number: None,
            last_parsed_position: 7,
        },
    ];

    for (pos, line) in strings.into_iter().enumerate() {
        let res = find(line);

        assert_eq!(res, expected[pos]);
    }
}

#[test]
fn test_r_find() {
    let strings = [
        ("eightwothree", 0),
        ("abcone2threexyz", 3),
        ("treb7uchet", 4),
        ("7pqrstsixteen", 0),
        ("abcdefg", 7),
        ("abcdefg", 0),
    ];
    let expected = [
        SearchResult {
            number: Some('3'),
            last_parsed_position: 7,
        },
        SearchResult {
            number: Some('3'),
            last_parsed_position: 7,
        },
        SearchResult {
            number: Some('7'),
            last_parsed_position: 5,
        },
        SearchResult {
            number: Some('6'),
            last_parsed_position: 6,
        },
        SearchResult {
            number: None,
            // the floor is the line length here
            last_parsed_position: 7,
        },
        SearchResult {
            number: None,
            last_parsed_position: 0,
        },
    ];

    for (pos, (line, found_pos)) in strings.into_iter().enumerate() {
        let res = r_find(line, found_pos);

        assert_eq!(res, expected[pos]);
    }
}

#[test]
fn test_extract_number() {
    let strings = [
        "eightwothree",
        "abcone2threexyz",
        "treb7uchet",
        "7pqrstsixteen",
        "abcdefg",
    ];
    let expected = [Some(83), Some(13), Some(77), Some(76), None];

    for (pos, line) in strings.into_iter().enumerate() {
        let result = extract_number(line);
        assert_eq!(result, expected[pos])
    }
}

#[test]
fn overlapping_words_give_nearest_match_each_way() {
    assert_eq!(extract_number("twone"), Some(21));
    assert_eq!(extract_number("oneight"), Some(18));
    assert_eq!(extract_number("xtwone3four"), Some(24));
    assert_eq!(extract_number("zoneight234"), Some(14));
    assert_eq!(extract_number("4nineeightseven2"), Some(42));
    assert_eq!(extract_number("two1nine"), Some(29));
    assert_eq!(
        r_find("twone", 0),
        SearchResult {
            number: Some('1'),
            last_parsed_position: 2,
        }
    );
}

#[test]
fn single_digit_counts_as_first_and_last() {
    assert_eq!(extract_number("7"), Some(77));
    assert_eq!(extract_number("one"), Some(11));
    assert_eq!(extract_number("xxsevenxx"), Some(77));
    assert_eq!(
        r_find("one", 0),
        SearchResult {
            number: Some('1'),
            last_parsed_position: 0,
        }
    );
}

#[test]
fn zero_is_only_a_literal_digit() {
    assert_eq!(extract_number("0"), Some(0));
    assert_eq!(extract_number("a1b0"), Some(10));
    assert_eq!(extract_number("zero"), None);
}

#[test]
fn lines_without_digits_have_no_value() {
    assert_eq!(extract_number(""), None);
    assert_eq!(extract_number("thre fiv eigh nin"), None);
    assert_eq!(extract_number("sevxn"), None);
    assert_eq!(
        find(""),
        SearchResult {
            number: None,
            last_parsed_position: 0,
        }
    );
}

#[test]
fn words_cut_short_at_line_end_do_not_count() {
    assert_eq!(extract_number("sev"), None);
    assert_eq!(extract_number("ab"), None);
    assert_eq!(extract_number("fo1"), Some(11));
    assert_eq!(
        find("xsev"),
        SearchResult {
            number: None,
            last_parsed_position: 4,
        }
    );
}

#[test]
fn backward_floor_past_the_end_is_the_length() {
    assert_eq!(
        r_find("abc", 10),
        SearchResult {
            number: None,
            last_parsed_position: 3,
        }
    );
    assert_eq!(
        r_find("9ab", 1),
        SearchResult {
            number: None,
            last_parsed_position: 1,
        }
    );
}

#[test]
fn positions_count_bytes() {
    assert_eq!(
        find("é1x"),
        SearchResult {
            number: Some('1'),
            last_parsed_position: 2,
        }
    );
    assert_eq!(extract_number("ésix€"), Some(66));
}

#[test]
fn scans_are_repeatable() {
    for line in ["eightwothree", "abcdefg", "treb7uchet", "twone"] {
        assert_eq!(find(line), find(line));
        assert_eq!(r_find(line, 0), r_find(line, 0));
        assert_eq!(extract_number(line), extract_number(line));
    }
}

#[test]
fn digit_tables_hold_nine_words() {
    let head = head_table();
    let tail = tail_table();
    assert_eq!(head.len(), 9);
    assert_eq!(tail.len(), 9);
    for entry in head.iter() {
        assert_eq!(entry.probe[..], entry.word[..3]);
    }
    for entry in tail.iter() {
        assert_eq!(entry.probe[..], entry.word[entry.word.len() - 3..]);
    }
    assert_eq!(spelled(4), b"four".to_vec());
    assert_eq!(spelled(8), b"eight".to_vec());
    assert_eq!(digit_char(5), '5');
}
