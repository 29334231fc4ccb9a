use contextdiff_parser::specification::{HunkHeader, Timestamp, TimestampParseError};

#[test]
fn test_expected_hunk_length() {
    let hunk_header = HunkHeader {
        start_line: Some(10),
        end_line: 15,
    };

    assert_eq!(hunk_header.expected_hunk_length(), 6);

    let hunk_header = HunkHeader {
        start_line: None,
        end_line: 15,
    };

    assert_eq!(hunk_header.expected_hunk_length(), 1);
}

#[test]
fn test_valid_timestamps() {
    // Test GNU timestamps
    let correct_timestamp = Timestamp::from_unix(1014363039, 942229878).expect("Expected valid timestamp");
    match Timestamp::from_str("2002-02-21 23:30:39.942229878 -0800") {
        Ok(timestamp) => assert_eq!(timestamp, correct_timestamp),
        Err(e) => panic!("Expected Ok(Timestamp {{ value: 2002-02-21T23:30:39-08:00 }}), got Err({e:?})"),
    }

    let correct_timestamp = Timestamp::from_unix(1014363039, 0).expect("Expected valid timestamp");
    match Timestamp::from_str("2002-02-21 23:30:39 -0800") {
        Ok(timestamp) => assert_eq!(timestamp, correct_timestamp),
        Err(e) => panic!("Expected Ok(Timestamp {{ value: 2002-02-21T23:30:39-08:00 }}), got Err({e:?})"),
    }

    // Test POSIX timestamps
    let correct_timestamp = Timestamp::from_unix(1014334239, 0).expect("Expected valid timestamp");
    match Timestamp::from_str("Thu Feb 21 23:30:39 2002") {
        Ok(timestamp) => assert_eq!(timestamp, correct_timestamp),
        Err(e) => panic!("Expected Ok(Timestamp {{ value: 2002-02-21T23:30:39-00:00 }}), got Err({e:?})"),
    }
}

#[test]
fn test_invalid_timestamps() {
    // Test empty timestamp
    assert!(matches!(Timestamp::from_str(""), Err(TimestampParseError::TimestampIsEmpty)));

    // Test invalid format
    assert!(matches!(
        Timestamp::from_str("2002-02-21 23:30:39.942229878"),
        Err(TimestampParseError::ChronoParseError(_))
    ));
    assert!(matches!(
        Timestamp::from_str("2002-02-21 23:30:39. -0800"),
        Err(TimestampParseError::ChronoParseError(_))
    ));

    // Test invalid characters
    assert!(matches!(
        Timestamp::from_str("some invalid timestamp string"),
        Err(TimestampParseError::ChronoParseError(_))
    ));
    assert!(matches!(
        Timestamp::from_str("2002-02-21 23:30:39.942229878 -0800 invalid"),
        Err(TimestampParseError::ChronoParseError(_))
    ));
}

#[test]
fn test_timestamp_formatting() {
    let timestamp = Timestamp::from_unix(1014363039, 942229878).expect("Expected valid timestamp");

    assert_eq!(timestamp.to_string(), "2002-02-22 07:30:39.942229878 +0000");
}
