use contextdiff_parser::parser::segmenter::{split_hunk, HunkSegment};
use contextdiff_parser::specification::{Hunk, HunkHeader, LineValue, LineValueIndicator};

#[test]
fn only_to_hunk_simple() {
    let hunk = Hunk {
        from_file_header: HunkHeader {
            start_line: None,
            end_line: 0,
        },
        from_file_lines: Vec::new(),
        to_file_header: HunkHeader {
            start_line: Some(1),
            end_line: 2,
        },
        to_file_lines: Vec::from([
            LineValue::new("New line 1", LineValueIndicator::Inserted),
            LineValue::new("New line 2", LineValueIndicator::Inserted),
        ]),
    };

    let segments = split_hunk(hunk);

    assert_eq!(segments.len(), 1);
    assert_eq!(
        segments.get(0),
        Some(&HunkSegment::Change {
            from: Vec::new(),
            to: Vec::from([
                LineValue::new("New line 1", LineValueIndicator::Inserted),
                LineValue::new("New line 2", LineValueIndicator::Inserted),
            ]),
        })
    );
}

#[test]
fn from_and_to_hunk_simple() {
    let hunk = Hunk {
        from_file_header: HunkHeader {
            start_line: Some(1),
            end_line: 2,
        },
        from_file_lines: Vec::from([
            LineValue::new("Line 1", LineValueIndicator::Unchanged),
            LineValue::new("Line 2", LineValueIndicator::Unchanged),
        ]),
        to_file_header: HunkHeader {
            start_line: Some(1),
            end_line: 3,
        },
        to_file_lines: Vec::from([
            LineValue::new("Line 1", LineValueIndicator::Unchanged),
            LineValue::new("Line 2", LineValueIndicator::Unchanged),
            LineValue::new("New line 3", LineValueIndicator::Inserted),
        ]),
    };

    let segments = split_hunk(hunk);

    assert_eq!(segments.len(), 2);
    assert_eq!(
        segments.get(0),
        Some(&HunkSegment::Context(Vec::from([
            LineValue::new("Line 1", LineValueIndicator::Unchanged),
            LineValue::new("Line 2", LineValueIndicator::Unchanged),
        ])))
    );
    assert_eq!(
        segments.get(1),
        Some(&HunkSegment::Change {
            from: Vec::new(),
            to: Vec::from([LineValue::new("New line 3", LineValueIndicator::Inserted)]),
        })
    );
}

#[test]
fn from_and_to_hunk_changes() {
    let hunk = Hunk {
        from_file_header: HunkHeader {
            start_line: Some(1),
            end_line: 3,
        },
        from_file_lines: Vec::from([
            LineValue::new("Line 1", LineValueIndicator::Unchanged),
            LineValue::new("Line 2", LineValueIndicator::Unchanged),
            LineValue::new("Line 2", LineValueIndicator::Changed),
        ]),
        to_file_header: HunkHeader {
            start_line: Some(1),
            end_line: 3,
        },
        to_file_lines: Vec::from([
            LineValue::new("Line 1", LineValueIndicator::Unchanged),
            LineValue::new("Line 2", LineValueIndicator::Unchanged),
            LineValue::new("Line 3", LineValueIndicator::Changed),
        ]),
    };

    let segments = split_hunk(hunk);

    assert_eq!(segments.len(), 2);
    assert_eq!(
        segments.get(0),
        Some(&HunkSegment::Context(Vec::from([
            LineValue::new("Line 1", LineValueIndicator::Unchanged),
            LineValue::new("Line 2", LineValueIndicator::Unchanged),
        ])))
    );
    assert_eq!(
        segments.get(1),
        Some(&HunkSegment::Change {
            from: Vec::from([LineValue::new("Line 2", LineValueIndicator::Changed)]),
            to: Vec::from([LineValue::new("Line 3", LineValueIndicator::Changed)]),
        })
    );
}

#[test]
fn from_and_to_hunk_mixed() {
    let hunk = Hunk {
        from_file_header: HunkHeader {
            start_line: Some(1),
            end_line: 4,
        },
        from_file_lines: Vec::from([
            LineValue::new("Line 0", LineValueIndicator::Deleted),
            LineValue::new("Line 1", LineValueIndicator::Unchanged),
            LineValue::new("Line 2", LineValueIndicator::Unchanged),
            LineValue::new("Line 2", LineValueIndicator::Changed),
        ]),
        to_file_header: HunkHeader {
            start_line: Some(1),
            end_line: 4,
        },
        to_file_lines: Vec::from([
            LineValue::new("Line 1", LineValueIndicator::Unchanged),
            LineValue::new("Line 2", LineValueIndicator::Unchanged),
            LineValue::new("Line 3", LineValueIndicator::Changed),
            LineValue::new("Line 4", LineValueIndicator::Inserted),
        ]),
    };

    let segments = split_hunk(hunk);

    assert_eq!(segments.len(), 3);
    assert_eq!(
        segments.get(0),
        Some(&HunkSegment::Change {
            from: Vec::from([LineValue::new("Line 0", LineValueIndicator::Deleted)]),
            to: Vec::new(),
        })
    );
    assert_eq!(
        segments.get(1),
        Some(&HunkSegment::Context(Vec::from([
            LineValue::new("Line 1", LineValueIndicator::Unchanged),
            LineValue::new("Line 2", LineValueIndicator::Unchanged),
        ])))
    );
    assert_eq!(
        segments.get(2),
        Some(&HunkSegment::Change {
            from: Vec::from([LineValue::new("Line 2", LineValueIndicator::Changed)]),
            to: Vec::from([
                LineValue::new("Line 3", LineValueIndicator::Changed),
                LineValue::new("Line 4", LineValueIndicator::Inserted),
            ]),
        })
    );
}
