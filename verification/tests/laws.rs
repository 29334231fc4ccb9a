use contextdiff_parser::parser::parse_from_str;
use contextdiff_parser::parser::LineIterator;
use contextdiff_parser::parser::parser::{
    parse_checked, parse_hunk_header, parse_hunk_header_checked, parse_line_value, parse_next_file_diff,
    parse_next_file_diff_checked, parse_next_local_diff, parse_next_local_diff_checked,
};
use contextdiff_parser::parser::segmenter::{split_hunk, HunkSegment};
use contextdiff_parser::parser::{ParserError, ParserErrorKind};
use contextdiff_parser::specification::{Hunk, HunkHeader, LineValue, LineValueIndicator};
use contextdiff_parser::translator::unified::{hunk_is_translatable, is_translatable, translate_hunk};

fn line(text: &str, indicator: LineValueIndicator) -> LineValue {
    LineValue::new(text, indicator)
}

fn texts(lines: &[LineValue]) -> Vec<String> {
    lines.iter().map(|l| l.line_value.clone()).collect()
}

fn mixed_hunk() -> Hunk {
    Hunk {
        from_file_header: HunkHeader { start_line: Some(1), end_line: 6 },
        from_file_lines: vec![
            line("a", LineValueIndicator::Unchanged),
            line("b", LineValueIndicator::Changed),
            line("c", LineValueIndicator::Deleted),
            line("d", LineValueIndicator::Unchanged),
            line("e", LineValueIndicator::Unchanged),
            line("f", LineValueIndicator::Changed),
        ],
        to_file_header: HunkHeader { start_line: Some(1), end_line: 6 },
        to_file_lines: vec![
            line("a", LineValueIndicator::Unchanged),
            line("B", LineValueIndicator::Changed),
            line("d", LineValueIndicator::Unchanged),
            line("x", LineValueIndicator::Inserted),
            line("e", LineValueIndicator::Unchanged),
            line("F", LineValueIndicator::Changed),
        ],
    }
}

#[test]
fn split_keeps_every_line_in_order() {
    let hunk = mixed_hunk();
    let from: Vec<String> = texts(&hunk.from_file_lines);
    let to: Vec<String> = texts(&hunk.to_file_lines);
    let segments = split_hunk(hunk);
    let mut old_side = Vec::new();
    let mut new_side = Vec::new();
    for segment in &segments {
        match segment {
            HunkSegment::Context(lines) => {
                old_side.extend(texts(lines));
                new_side.extend(texts(lines));
            }
            HunkSegment::Change { from, to } => {
                old_side.extend(texts(from));
                new_side.extend(texts(to));
            }
        }
    }
    assert_eq!(old_side, from);
    assert_eq!(new_side, to);
}

#[test]
fn split_segments_alternate_and_hold_lines() {
    let segments = split_hunk(mixed_hunk());
    assert_eq!(segments.len(), 6);
    for (k, segment) in segments.iter().enumerate() {
        match segment {
            HunkSegment::Context(lines) => assert!(!lines.is_empty()),
            HunkSegment::Change { from, to } => {
                assert!(!from.is_empty() || !to.is_empty());
                assert!(from.iter().chain(to.iter()).all(|l| l.indicator != LineValueIndicator::Unchanged));
            }
        }
        if k > 0 {
            let before = matches!(segments[k - 1], HunkSegment::Context(_));
            let here = matches!(segment, HunkSegment::Context(_));
            assert_ne!(before, here);
        }
    }
    assert_eq!(
        segments[3],
        HunkSegment::Change { from: Vec::new(), to: vec![line("x", LineValueIndicator::Inserted)] }
    );
}

#[test]
fn split_only_new_side_with_context() {
    let hunk = Hunk {
        from_file_header: HunkHeader { start_line: None, end_line: 0 },
        from_file_lines: Vec::new(),
        to_file_header: HunkHeader { start_line: Some(1), end_line: 3 },
        to_file_lines: vec![
            line("one", LineValueIndicator::Inserted),
            line("two", LineValueIndicator::Unchanged),
            line("three", LineValueIndicator::Inserted),
        ],
    };
    let segments = split_hunk(hunk);
    assert_eq!(
        segments,
        vec![
            HunkSegment::Change { from: Vec::new(), to: vec![line("one", LineValueIndicator::Inserted)] },
            HunkSegment::Context(vec![line("two", LineValueIndicator::Unchanged)]),
            HunkSegment::Change { from: Vec::new(), to: vec![line("three", LineValueIndicator::Inserted)] },
        ]
    );
}

#[test]
fn split_empty_hunk_has_no_segment() {
    let hunk = Hunk {
        from_file_header: HunkHeader { start_line: None, end_line: 0 },
        from_file_lines: Vec::new(),
        to_file_header: HunkHeader { start_line: None, end_line: 0 },
        to_file_lines: Vec::new(),
    };
    assert!(split_hunk(hunk).is_empty());
}

#[test]
fn line_values_read_back_what_was_written() {
    let cases = [
        (' ', LineValueIndicator::Unchanged),
        ('!', LineValueIndicator::Changed),
        ('+', LineValueIndicator::Inserted),
        ('-', LineValueIndicator::Deleted),
    ];
    for (c, indicator) in cases {
        for text in ["", "x", " leading space", "tab\there", "ünïcödé"] {
            let written = format!("{} {}", c, text);
            let value = parse_line_value(&written, 7).unwrap();
            assert_eq!(value, LineValue::new(text, indicator));
        }
    }
}

#[test]
fn hunk_header_reads_plus_sign_and_rejects_overflow() {
    let value = parse_hunk_header("*** +5 ****", 3, true).unwrap();
    assert_eq!(value, HunkHeader { start_line: None, end_line: 5 });
    let value = parse_hunk_header("--- 0,18446744073709551615 ----", 3, false).unwrap();
    assert_eq!(value, HunkHeader { start_line: Some(0), end_line: 18446744073709551615 });
    let value = parse_hunk_header("*** 18446744073709551616 ****", 3, true);
    assert!(matches!(
        value,
        Err(ParserError { kind: ParserErrorKind::InvalidHunkLineNumber(_), line: 3, column: 4 })
    ));
    let value = parse_hunk_header("*** 1,-2 ****", 3, true);
    assert!(matches!(
        value,
        Err(ParserError { kind: ParserErrorKind::InvalidHunkLineNumber(_), line: 3, column: 6 })
    ));
}

#[test]
fn hunk_header_columns_count_bytes() {
    let value = parse_hunk_header("*** 1,2 é", 1, true);
    assert!(matches!(value, Err(ParserError { kind: ParserErrorKind::ExpectedHunkSuffix, line: 1, column: 5 })));
    let value = parse_hunk_header("*** é,2 ****", 1, true);
    assert!(matches!(
        value,
        Err(ParserError { kind: ParserErrorKind::InvalidHunkLineNumber(_), line: 1, column: 4 })
    ));
    let value = parse_hunk_header("*** 1,é ****", 1, true);
    assert!(matches!(
        value,
        Err(ParserError { kind: ParserErrorKind::InvalidHunkLineNumber(_), line: 1, column: 6 })
    ));
}

#[test]
fn hunk_header_start_after_end() {
    let value = parse_hunk_header("--- 7,3 ----", 9, false);
    assert!(matches!(
        value,
        Err(ParserError { kind: ParserErrorKind::HunkStartLineAfterEndLine, line: 9, column: 4 })
    ));
}

const HEADERS: &str = "*** a\t2002-02-21 23:30:39.000000000 -0000\n--- b\t2002-02-21 23:30:39.000000000 -0000\n";

#[test]
fn parsed_hunks_hold_announced_lines() {
    let input = format!("{}***************\n*** 1,2 ****\n  x\n! y\n--- 1,2 ----\n  x\n! z\n", HEADERS);
    let parsed = parse_from_str(&input).unwrap();
    let hunk = &parsed.diffs[0].hunks[0];
    assert_eq!(hunk.from_file_lines.len() as u64, hunk.from_file_header.expected_hunk_length());
    assert_eq!(hunk.to_file_lines.len() as u64, hunk.to_file_header.expected_hunk_length());
}

#[test]
fn new_side_count_mismatch_is_refused() {
    let input = format!("{}***************\n*** 1,2 ****\n  x\n! y\n--- 1,3 ----\n  x\n! z\n", HEADERS);
    match parse_from_str(&input) {
        Err(e) => {
            assert!(matches!(e.kind, ParserErrorKind::HunkHeaderAndLinesMismatch { expected: 3, found: 2 }));
            assert_eq!(e.line, 7);
            assert_eq!(e.column, 0);
        }
        Ok(parsed) => panic!("Expected an error, got {parsed:?}"),
    }
}

#[test]
fn old_side_count_is_free_when_new_side_only_inserts() {
    let input = format!("{}***************\n*** 1,5 ****\n--- 1,2 ----\n  x\n+ y\n", HEADERS);
    let parsed = parse_from_str(&input).unwrap();
    let hunk = &parsed.diffs[0].hunks[0];
    assert!(hunk.from_file_lines.is_empty());
    assert_eq!(hunk.to_file_lines.len(), 2);
}

#[test]
fn old_side_count_mismatch_is_refused() {
    let input = format!("{}***************\n*** 1,3 ****\n  x\n! y\n--- 1,2 ----\n  x\n! z\n", HEADERS);
    match parse_from_str(&input) {
        Err(e) => {
            assert!(matches!(e.kind, ParserErrorKind::HunkHeaderAndLinesMismatch { expected: 3, found: 2 }));
            assert_eq!(e.line, 4);
        }
        Ok(parsed) => panic!("Expected an error, got {parsed:?}"),
    }
}

#[test]
fn unified_header_counts_agree_with_body() {
    let input = format!(
        "{}***************\n*** 1,4 ****\n  a\n- b\n! c\n  d\n--- 1,4 ----\n  a\n! C\n+ e\n  d\n",
        HEADERS
    );
    let mut parsed = parse_from_str(&input).unwrap();
    let hunk = parsed.diffs.remove(0).hunks.remove(0);
    let text = translate_hunk(hunk);
    let mut lines = text.lines();
    assert_eq!(lines.next(), Some("@@ -1,4 +1,4 @@"));
    let body: Vec<&str> = lines.collect();
    let old_count = body.iter().filter(|l| l.starts_with(' ') || l.starts_with('-')).count();
    let new_count = body.iter().filter(|l| l.starts_with(' ') || l.starts_with('+')).count();
    assert_eq!(old_count, 4);
    assert_eq!(new_count, 4);
    assert_eq!(body, vec![" a", "-b", "-c", "+C", "+e", " d"]);
}

#[test]
fn crlf_lines_are_read_without_carriage_return() {
    let input = "comment\r\n*** a\t2002-02-21 23:30:39.000000000 -0000\r\n--- b\t2002-02-21 23:30:39.000000000 -0000\r\n***************\r\n*** 1 ****\r\n! x\r\n--- 1 ----\r\n! y\r\n";
    let parsed = parse_from_str(input).unwrap();
    assert_eq!(parsed.comment, "comment");
    let hunk = &parsed.diffs[0].hunks[0];
    assert_eq!(hunk.from_file_lines, vec![line("x", LineValueIndicator::Changed)]);
    assert_eq!(hunk.to_file_lines, vec![line("y", LineValueIndicator::Changed)]);
}

#[test]
fn comment_lines_are_joined() {
    let input = format!("first\n\nthird\n{}", HEADERS);
    let parsed = parse_from_str(&input).unwrap();
    assert_eq!(parsed.comment, "first\n\nthird");
    assert_eq!(parsed.diffs.len(), 1);
    assert!(parsed.diffs[0].hunks.is_empty());
}

#[test]
fn empty_input_is_an_empty_diff() {
    let parsed = parse_from_str("").unwrap();
    assert_eq!(parsed.comment, "");
    assert!(parsed.diffs.is_empty());
}

#[test]
fn missing_new_header_is_end_of_file() {
    let input = "*** a\t2002-02-21 23:30:39.000000000 -0000\n";
    match parse_from_str(input) {
        Err(e) => {
            assert!(matches!(e.kind, ParserErrorKind::UnexpectedEOF));
            assert_eq!(e.line, 1);
        }
        Ok(parsed) => panic!("Expected an error, got {parsed:?}"),
    }
}

#[test]
fn unterminated_old_side_is_end_of_file() {
    let input = format!("{}***************\n*** 1,2 ****\n  x\n  y\n", HEADERS);
    match parse_from_str(&input) {
        Err(e) => {
            assert!(matches!(e.kind, ParserErrorKind::UnexpectedEOF));
            assert_eq!(e.line, 4);
        }
        Ok(parsed) => panic!("Expected an error, got {parsed:?}"),
    }
}

#[test]
fn bad_line_in_hunk_is_reported_at_its_line() {
    let input = format!("{}***************\n*** 1 ****\n?x\n--- 1 ----\n  x\n", HEADERS);
    match parse_from_str(&input) {
        Err(e) => {
            assert!(matches!(e.kind, ParserErrorKind::InvalidLineIndicator('?')));
            assert_eq!(e.line, 5);
            assert_eq!(e.column, 0);
        }
        Ok(parsed) => panic!("Expected an error, got {parsed:?}"),
    }
}

#[test]
fn second_file_diff_follows_the_first() {
    let input = format!(
        "{}***************\n*** 1 ****\n! x\n--- 1 ----\n! y\n{}***************\n*** 2 ****\n- z\n--- 0 ----\n",
        HEADERS, HEADERS
    );
    let parsed = parse_from_str(&input).unwrap();
    assert_eq!(parsed.diffs.len(), 2);
    assert_eq!(parsed.diffs[1].hunks[0].from_file_lines, vec![line("z", LineValueIndicator::Deleted)]);
    assert!(parsed.diffs[1].hunks[0].to_file_lines.is_empty());
}

#[test]
fn hunk_headers_read_back_what_was_written() {
    let headers = [
        HunkHeader { start_line: Some(0), end_line: 0 },
        HunkHeader { start_line: Some(10), end_line: 15 },
        HunkHeader { start_line: Some(7), end_line: u64::MAX },
        HunkHeader { start_line: None, end_line: 0 },
        HunkHeader { start_line: None, end_line: 1234567890 },
    ];
    for header in headers {
        let numbers = match header.start_line {
            Some(start) => format!("{},{}", start, header.end_line),
            None => format!("{}", header.end_line),
        };
        let from = format!("*** {} ****", numbers);
        let to = format!("--- {} ----", numbers);
        assert_eq!(parse_hunk_header(&from, 1, true).unwrap(), header);
        assert_eq!(parse_hunk_header(&to, 1, false).unwrap(), header);
    }
}

#[test]
fn line_iterator_counts_the_lines_it_passes() {
    let mut it = LineIterator::from_lines("a\r\nb\n\nc\r");
    assert_eq!(it.index(), 0);
    assert_eq!(it.peek(), Some("a"));
    assert_eq!(it.index(), 0);
    assert_eq!(it.next(), Some(String::from("a")));
    assert_eq!(it.index(), 1);
    assert_eq!(it.next(), Some(String::from("b")));
    assert_eq!(it.next(), Some(String::from("")));
    assert_eq!(it.peek(), Some("c\r"));
    assert_eq!(it.next(), Some(String::from("c\r")));
    assert_eq!(it.index(), 4);
    assert_eq!(it.peek(), None);
    assert_eq!(it.next(), None);
    assert_eq!(it.index(), 4);
    let mut it = LineIterator::from_lines("\n");
    assert_eq!(it.next(), Some(String::new()));
    assert_eq!(it.next(), None);
}

#[test]
fn a_missing_hunk_separator_is_reported_as_such() {
    let input = format!("{}*** 1 ****\n! x\n--- 1 ----\n! y\n", HEADERS);
    let input = input.replacen("*** 1 ****", "some text", 1);
    match parse_from_str(&input) {
        Err(e) => {
            assert!(matches!(e.kind, ParserErrorKind::ExpectedHunkSeparator));
            assert_eq!(e.line, 3);
            assert_eq!(e.column, 0);
        }
        Ok(parsed) => panic!("Expected an error, got {parsed:?}"),
    }
}

#[test]
fn the_cursor_stops_after_the_line_that_failed() {
    let mut it = LineIterator::from_lines("not a separator\nmore\n");
    let r = parse_next_local_diff(&mut it);
    assert!(matches!(r, Err(ParserError { kind: ParserErrorKind::ExpectedHunkSeparator, line: 1, column: 0 })));
    assert_eq!(it.index(), 1);

    let mut it = LineIterator::from_lines("***************\n*** 1 ****\n?x\n--- 1 ----\n! y\n");
    let r = parse_next_local_diff(&mut it);
    assert!(matches!(r, Err(ParserError { kind: ParserErrorKind::InvalidLineIndicator('?'), line: 3, column: 0 })));
    assert_eq!(it.index(), 3);

    let mut it = LineIterator::from_lines("***************\n*** 1 ****\n! x\n--- 1,2 ----\n! y\n***************\n");
    let r = parse_next_local_diff(&mut it);
    assert!(matches!(r, Err(ParserError { kind: ParserErrorKind::HunkHeaderAndLinesMismatch { expected: 2, found: 1 }, line: 4, column: 0 })));
    assert_eq!(it.index(), 5);

    let mut it = LineIterator::from_lines("*** a\t2002-02-21 23:30:39 -0800\n--- b\tnot a time\n***************\n");
    let r = parse_next_file_diff(&mut it);
    assert!(matches!(r, Err(ParserError { kind: ParserErrorKind::TimestampParseError(_), line: 2, column: 6 })));
    assert_eq!(it.index(), 2);
}

#[test]
fn translatable_diffs_are_recognised() {
    let good = format!("{}***************\n*** 1,2 ****\n  x\n! y\n--- 1,2 ----\n  x\n! z\n", HEADERS);
    assert!(is_translatable(&parse_from_str(&good).unwrap()));

    // The unchanged lines differ, so the walk through both sides never ends.
    let stuck = format!("{}***************\n*** 1 ****\n  a\n--- 1 ----\n  b\n", HEADERS);
    let parsed = parse_from_str(&stuck).unwrap();
    assert!(!is_translatable(&parsed));
    assert!(!hunk_is_translatable(&parsed.diffs[0].hunks[0]));

    // An inserted line on the old side cannot be marked.
    let inserted_old = format!("{}***************\n*** 1 ****\n+ a\n--- 1 ----\n! b\n", HEADERS);
    assert!(!is_translatable(&parse_from_str(&inserted_old).unwrap()));

    // A new file whose lines are marked as deleted cannot be marked.
    let deleted_new = format!("{}***************\n*** 0 ****\n--- 1 ----\n- a\n", HEADERS);
    assert!(!is_translatable(&parse_from_str(&deleted_new).unwrap()));

    let new_file = format!("{}***************\n*** 0 ****\n--- 1,2 ----\n+ a\n+ b\n", HEADERS);
    assert!(is_translatable(&parse_from_str(&new_file).unwrap()));

    let header = Hunk {
        from_file_header: HunkHeader { start_line: Some(0), end_line: u64::MAX },
        from_file_lines: Vec::new(),
        to_file_header: HunkHeader { start_line: None, end_line: 0 },
        to_file_lines: Vec::new(),
    };
    assert!(!hunk_is_translatable(&header));
}

#[test]
fn checked_parsing_reports_where_the_computation_would_stop() {
    let bare_prefix = format!("{}***************\n*** \n--- 1 ----\n! y\n", HEADERS);
    assert!(parse_checked(&bare_prefix).is_none());

    let overlap = format!("{}***************\n*** ****\n--- 1 ----\n! y\n", HEADERS);
    assert!(parse_checked(&overlap).is_none());

    let overflow = format!("{}***************\n*** 0,18446744073709551615 ****\n! x\n--- 1 ----\n! y\n", HEADERS);
    assert!(parse_checked(&overflow).is_none());

    let good = format!("{}***************\n*** 1 ****\n! x\n--- 1 ----\n! y\n", HEADERS);
    let parsed = parse_checked(&good).unwrap().unwrap();
    assert_eq!(parsed.diffs[0].hunks[0].to_file_lines, vec![line("y", LineValueIndicator::Changed)]);

    let bad = format!("{}***************\n*** 1 ****\n?x\n--- 1 ----\n! y\n", HEADERS);
    match parse_checked(&bad) {
        Some(Err(e)) => assert!(matches!(e.kind, ParserErrorKind::InvalidLineIndicator('?'))),
        other => panic!("Expected an error, got {other:?}"),
    }

    assert!(parse_hunk_header_checked("*** ", 1, true).is_none());
    assert!(parse_hunk_header_checked("--- ----", 1, false).is_none());
    assert!(matches!(parse_hunk_header_checked("*** 1,2 ****", 1, true), Some(Ok(HunkHeader { start_line: Some(1), end_line: 2 }))));

    let mut it = LineIterator::from_lines("***************\n*** ****\n");
    assert!(parse_next_local_diff_checked(&mut it).is_none());
    let mut it = LineIterator::from_lines(&overlap);
    assert!(parse_next_file_diff_checked(&mut it).is_none());
}
