use contextdiff_parser::parser::parser::parse_file_diff_header;
use contextdiff_parser::parser::{ParserError, ParserErrorKind};
use contextdiff_parser::specification::{Timestamp, TimestampParseError};

#[test]
fn timestamps_at_other_offsets_name_the_same_instant() {
    let pacific = Timestamp::from_str("2002-02-21 23:30:39 -0800").unwrap();
    let utc = Timestamp::from_str("2002-02-22 07:30:39 +0000").unwrap();
    assert_eq!(pacific, utc);
    let later = Timestamp::from_str("2002-02-22 07:30:40 +0000").unwrap();
    assert_ne!(pacific, later);
}

#[test]
fn formatting_keeps_the_offset() {
    let timestamp = Timestamp::from_str("2002-02-21 23:30:39.942229878 -0800").unwrap();
    assert_eq!(timestamp.to_string(), "2002-02-21 23:30:39.942229878 -0800");
    let timestamp = Timestamp::from_str("2002-02-21 23:30:39 +0530").unwrap();
    assert_eq!(timestamp.to_string(), "2002-02-21 23:30:39 +0530");
}

#[test]
fn posix_timestamps_are_read_at_utc() {
    let timestamp = Timestamp::from_str("Fri Feb  1 00:00:00 2002").unwrap();
    assert_eq!(timestamp, Timestamp::from_unix(1012521600, 0).unwrap());
    assert_eq!(timestamp.to_string(), "2002-02-01 00:00:00 +0000");
}

#[test]
fn unix_instants_out_of_range_are_refused() {
    assert!(Timestamp::from_unix(i64::MAX, 0).is_none());
    assert!(Timestamp::from_unix(0, 2_000_000_000).is_none());
    assert!(Timestamp::from_unix(0, 0).is_some());
}

#[test]
fn a_digit_first_text_is_read_in_gnu_format() {
    assert!(matches!(
        Timestamp::from_str("21 Feb 2002"),
        Err(TimestampParseError::ChronoParseError(_))
    ));
}

#[test]
fn file_header_columns_count_bytes() {
    let value = parse_file_diff_header("*** é\tnot a time", 3, true);
    assert!(matches!(
        value,
        Err(ParserError { kind: ParserErrorKind::TimestampParseError(TimestampParseError::ChronoParseError(_)), line: 3, column: 7 })
    ));
    let value = parse_file_diff_header("--- p\t  ", 3, false);
    assert!(matches!(
        value,
        Err(ParserError { kind: ParserErrorKind::TimestampParseError(TimestampParseError::TimestampIsEmpty), line: 3, column: 6 })
    ));
}

#[test]
fn file_header_path_is_trimmed() {
    let header = parse_file_diff_header("---  a b \t 2002-02-21 23:30:39 -0800 ", 1, false).unwrap();
    assert_eq!(header.file_path, "a b");
    let header = parse_file_diff_header("*** \u{A0}p\u{3000}\t2002-02-21 23:30:39 -0800", 1, true).unwrap();
    assert_eq!(header.file_path, "p");
    assert_eq!(header.modification_time, Timestamp::from_str("2002-02-21 23:30:39 -0800").unwrap());
}

#[test]
fn unix_instants_at_the_edges_of_chrono_range() {
    assert!(Timestamp::from_unix(-8_334_601_228_800, 0).is_some());
    assert!(Timestamp::from_unix(-8_334_601_228_801, 999_999_999).is_none());
    assert!(Timestamp::from_unix(8_210_266_876_799, 999_999_999).is_some());
    assert!(Timestamp::from_unix(8_210_266_876_800, 0).is_none());
    assert!(Timestamp::from_unix(59, 1_500_000_000).is_some());
    assert!(Timestamp::from_unix(58, 1_500_000_000).is_none());
    assert!(Timestamp::from_unix(-1, 1_999_999_999).is_some());
    assert!(Timestamp::from_unix(-1, 2_000_000_000).is_none());
    assert!(Timestamp::from_unix(1, 1_000_000_000).is_none());
}
