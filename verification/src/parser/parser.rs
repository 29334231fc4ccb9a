//! The context diff parser: a grammar over the lines of the input, stated as spec functions,
//! and the functions that follow it.
use vstd::prelude::*;

use crate::parser::error::{Failure, FailureKind, ParserError, ParserErrorKind, Result};
use crate::parser::iterator::{lines_of, LineIterator};
use crate::specification::file::{lemma_lines_view_push, length_is_computable};
use crate::specification::{
    ContextDiffFile, ContextDiffSpec, FileDiff, FileDiffHeader, FileDiffSpec, FileHeaderSpec,
    Hunk, HunkHeader, HunkSpec, LineSpec, LineValue, LineValueIndicator, Timestamp,
};
use crate::text::{
    chars_of, chars_with_len, decimal, ends_with, find, find_char, has_prefix, has_suffix,
    lemma_decimal_digits, lemma_decimal_reads_back, lemma_find_from_first, lemma_find_from_none,
    is_whitespace, lemma_push_then_append,
    parse_u64, starts_with, string_of_range, sub_vec, trim, trim_bounds, u64_reading, utf8_len,
    utf8_prefix_len,
};

verus! {

/// `*** `: the start of the header of the old file, and of the old side of a hunk.
pub open spec fn from_prefix() -> Seq<char> {
    seq!['*', '*', '*', ' ']
}

/// `--- `: the start of the header of the new file, and of the new side of a hunk.
pub open spec fn to_prefix() -> Seq<char> {
    seq!['-', '-', '-', ' ']
}

/// ` ****`: the end of the header of the old side of a hunk.
pub open spec fn from_hunk_suffix() -> Seq<char> {
    seq![' ', '*', '*', '*', '*']
}

/// ` ----`: the end of the header of the new side of a hunk.
pub open spec fn to_hunk_suffix() -> Seq<char> {
    seq![' ', '-', '-', '-', '-']
}

/// The line of fifteen `*` that opens a hunk.
pub open spec fn hunk_separator() -> Seq<char> {
    seq!['*', '*', '*', '*', '*', '*', '*', '*', '*', '*', '*', '*', '*', '*', '*']
}

fn from_prefix_chars() -> (r: Vec<char>)
    ensures
        r@ == from_prefix(),
{
    let r = vec!['*', '*', '*', ' '];
    assert(r@ =~= from_prefix());
    r
}

fn to_prefix_chars() -> (r: Vec<char>)
    ensures
        r@ == to_prefix(),
{
    let r = vec!['-', '-', '-', ' '];
    assert(r@ =~= to_prefix());
    r
}

fn from_hunk_suffix_chars() -> (r: Vec<char>)
    ensures
        r@ == from_hunk_suffix(),
{
    let r = vec![' ', '*', '*', '*', '*'];
    assert(r@ =~= from_hunk_suffix());
    r
}

fn to_hunk_suffix_chars() -> (r: Vec<char>)
    ensures
        r@ == to_hunk_suffix(),
{
    let r = vec![' ', '-', '-', '-', '-'];
    assert(r@ =~= to_hunk_suffix());
    r
}

/// A failure of the given kind at the given place.
pub open spec fn fail<T>(kind: FailureKind, line: u64, column: u64) -> core::result::Result<
    T,
    Failure,
> {
    Err(Failure { kind, line, column })
}

/// The outcome of an input on which the computation stops with a panic.
pub open spec fn abort<T>() -> core::result::Result<T, Failure> {
    Err(Failure { kind: FailureKind::Abort, line: 0, column: 0 })
}

/// Whether the outcome is a panic.
pub open spec fn aborts<T>(r: core::result::Result<T, Failure>) -> bool {
    r matches Err(f) && f.kind is Abort
}

/// The indicator that a line starts with.
pub open spec fn indicator_of(c: char) -> Option<LineValueIndicator> {
    if c == ' ' {
        Some(LineValueIndicator::Unchanged)
    } else if c == '!' {
        Some(LineValueIndicator::Changed)
    } else if c == '+' {
        Some(LineValueIndicator::Inserted)
    } else if c == '-' {
        Some(LineValueIndicator::Deleted)
    } else {
        None
    }
}

/// A line of a hunk: an indicator, a space, and the text of the line.
pub open spec fn line_value_spec(line: Seq<char>, line_num: u64) -> core::result::Result<
    LineSpec,
    Failure,
> {
    if line.len() == 0 {
        fail(FailureKind::UnexpectedEOL, line_num, 0)
    } else {
        match indicator_of(line[0]) {
            None => fail(FailureKind::InvalidLineIndicator(line[0]), line_num, 0),
            Some(indicator) => if line.len() == 1 {
                fail(FailureKind::UnexpectedEOL, line_num, 1)
            } else if line[1] != ' ' {
                fail(FailureKind::ExpectedSpaceAfterIndicator, line_num, 1)
            } else {
                Ok(LineSpec { text: line.skip(2), indicator })
            },
        }
    }
}

/// The line numbers of a hunk header: `end` or `start,end`, read as std reads a `u64`,
/// with the start not after the end.
pub open spec fn hunk_numbers_spec(value: Seq<char>, line_num: u64) -> core::result::Result<
    HunkHeader,
    Failure,
> {
    match find(value, ',') {
        Some(c) => {
            let start_text = value.take(c);
            let end_text = value.skip(c + 1);
            match u64_reading(start_text) {
                None => fail(FailureKind::InvalidHunkLineNumber, line_num, 4),
                Some(start) => match u64_reading(end_text) {
                    None => fail(
                        FailureKind::InvalidHunkLineNumber,
                        line_num,
                        (4 + utf8_len(start_text) + 1) as u64,
                    ),
                    Some(end) => if start > end {
                        fail(FailureKind::HunkStartLineAfterEndLine, line_num, 4)
                    } else {
                        Ok(HunkHeader { start_line: Some(start), end_line: end })
                    },
                },
            }
        },
        None => match u64_reading(value) {
            None => fail(FailureKind::InvalidHunkLineNumber, line_num, 4),
            Some(end) => Ok(HunkHeader { start_line: None, end_line: end }),
        },
    }
}

/// A hunk header: `*** numbers ****` on the old side, `--- numbers ----` on the new side.
/// Columns count bytes. The computation panics where the line is no more than the prefix,
/// or where prefix and suffix overlap.
pub open spec fn hunk_header_spec(line: Seq<char>, line_num: u64, is_from: bool) -> core::result::Result<
    HunkHeader,
    Failure,
> {
    let prefix = if is_from {
        from_prefix()
    } else {
        to_prefix()
    };
    let suffix = if is_from {
        from_hunk_suffix()
    } else {
        to_hunk_suffix()
    };
    if !has_prefix(line, prefix) {
        fail(FailureKind::ExpectedHunkPrefix, line_num, 0)
    } else if !has_suffix(line, suffix) {
        if utf8_len(line) < 5 {
            abort()
        } else {
            fail(FailureKind::ExpectedHunkSuffix, line_num, (utf8_len(line) - 5) as u64)
        }
    } else if line.len() < 9 {
        abort()
    } else {
        hunk_numbers_spec(line.subrange(4, line.len() - 5), line_num)
    }
}

/// A file header: `*** ` or `--- `, the path, a tab and the timestamp. Path and timestamp
/// are taken without surrounding white space; columns count bytes.
pub open spec fn file_header_spec(line: Seq<char>, line_num: u64, is_from: bool) -> core::result::Result<
    FileHeaderSpec,
    Failure,
> {
    let prefix = if is_from {
        from_prefix()
    } else {
        to_prefix()
    };
    if !has_prefix(line, prefix) {
        fail(FailureKind::ExpectedFileHeaderPrefix, line_num, 0)
    } else {
        let value = line.skip(4);
        match find(value, '\t') {
            None => fail(FailureKind::ExpectedTabInFileHeaderPrefix, line_num, 0),
            Some(t) => {
                let path = value.take(t);
                let stamp = value.skip(t);
                if trim(path).len() == 0 {
                    fail(FailureKind::EmptyFileNameInHeader, line_num, 4)
                } else {
                    match Timestamp::spec_from_text(trim(stamp)) {
                        Err(f) => fail(
                            FailureKind::TimestampParseError(f),
                            line_num,
                            (utf8_len(path) + 5) as u64,
                        ),
                        Ok(time) => Ok(FileHeaderSpec { path: trim(path), time }),
                    }
                }
            },
        }
    }
}


/// The prefixes of headers take four bytes.
proof fn lemma_prefix_bytes(line: Seq<char>)
    requires
        has_prefix(line, from_prefix()) || has_prefix(line, to_prefix()),
    ensures
        utf8_len(line.take(4)) == 4,
{
    assert(utf8_len(from_prefix()) == 4) by {
        reveal_with_fuel(vstd::utf8::encode_utf8, 5);
    }
    assert(utf8_len(to_prefix()) == 4) by {
        reveal_with_fuel(vstd::utf8::encode_utf8, 5);
    }
}

/// Parses a line value from the given line.
pub fn parse_line_value(line: &str, line_num: u64) -> (r: Result<LineValue>)
    ensures
        match r {
            Ok(v) => line_value_spec(line@, line_num) == Ok::<LineSpec, Failure>(v@),
            Err(e) => line_value_spec(line@, line_num) == Err::<LineSpec, Failure>(e@),
        },
{
    let chars = chars_of(line);
    // Match the indicator of the line
    if chars.len() == 0 {
        return Err(ParserError::new(line_num, 0, ParserErrorKind::UnexpectedEOL));
    }
    let indicator_char = chars[0];
    let indicator = match indicator_char {
        ' ' => LineValueIndicator::Unchanged,
        '!' => LineValueIndicator::Changed,
        '+' => LineValueIndicator::Inserted,
        '-' => LineValueIndicator::Deleted,
        _ => {
            return Err(
                ParserError::new(line_num, 0, ParserErrorKind::InvalidLineIndicator(indicator_char)),
            );
        },
    };
    // Check if second character of line is a space as expected
    if chars.len() < 2 {
        return Err(ParserError::new(line_num, 1, ParserErrorKind::UnexpectedEOL));
    }
    if chars[1] != ' ' {
        return Err(ParserError::new(line_num, 1, ParserErrorKind::ExpectedSpaceAfterIndicator));
    }
    // Extract line value from line
    let line_value = string_of_range(&chars, 2, chars.len());
    assert(chars@.subrange(2, chars@.len() as int) =~= line@.skip(2));
    Ok(LineValue { line_value, indicator })
}

/// Parses a hunk header from the given line, or gives `None` where the computation would
/// stop with a panic: where the line is shorter than the suffix, or where prefix and suffix
/// overlap.
pub fn parse_hunk_header_checked(line: &str, line_num: u64, is_from: bool) -> (r: Option<
    Result<HunkHeader>,
>)
    ensures
        r is None <==> aborts(hunk_header_spec(line@, line_num, is_from)),
        r matches Some(Ok(h)) ==> hunk_header_spec(line@, line_num, is_from) == Ok::<
            HunkHeader,
            Failure,
        >(h),
        r matches Some(Err(e)) ==> hunk_header_spec(line@, line_num, is_from) == Err::<
            HunkHeader,
            Failure,
        >(e@),
{
    let (chars, byte_len) = chars_with_len(line);
    // Check if line starts with the expected characters
    let prefix = if is_from {
        from_prefix_chars()
    } else {
        to_prefix_chars()
    };
    if !starts_with(&chars, &prefix) {
        return Some(Err(ParserError::new(line_num, 0, ParserErrorKind::ExpectedHunkPrefix)));
    }
    // Check if line ends with the expected characters
    let suffix = if is_from {
        from_hunk_suffix_chars()
    } else {
        to_hunk_suffix_chars()
    };
    if !ends_with(&chars, &suffix) {
        if byte_len < 5 {
            return None;
        }
        let column = (byte_len - 5) as u64;
        return Some(Err(ParserError::new(line_num, column, ParserErrorKind::ExpectedHunkSuffix)));
    }
    if chars.len() < 9 {
        return None;
    }
    // Extract line number value from hunk header
    let value = sub_vec(&chars, 4, chars.len() - 5);
    proof {
        crate::text::lemma_utf8_len_subrange(line@, 4, line@.len() - 5);
        lemma_prefix_bytes(line@);
    }
    // Extract line numbers from hunk
    let comma = find_char(&value, ',');
    let (start_line, end_text, start_line_len) = match comma {
        Some(c) => {
            let start = string_of_range(&value, 0, c);
            let end = string_of_range(&value, c + 1, value.len());
            proof {
                crate::text::lemma_utf8_len_subrange(value@, 0, c as int);
                assert(value@.subrange(0, c as int) =~= value@.take(c as int));
                assert(value@.take(c + 1) =~= value@.take(c as int).push(','));
                crate::text::lemma_utf8_len_push(value@.take(c as int), ',');
                crate::text::lemma_utf8_len_prefix(value@, c + 1);
                assert(crate::text::utf8_width(',') == 1);
                assert(value@.subrange(c + 1, value@.len() as int) =~= value@.skip(c + 1));
            }
            let start_len = utf8_prefix_len(&value, c) + 1;
            (Some(start), end, start_len)
        },
        None => {
            let end = string_of_range(&value, 0, value.len());
            assert(value@.subrange(0, value@.len() as int) =~= value@);
            (None, end, 0)
        },
    };
    assert(value@ == line@.subrange(4, line@.len() - 5));
    assert(match comma {
        Some(c) => {
            &&& start_line matches Some(t) && t@ == value@.take(c as int)
            &&& end_text@ == value@.skip(c + 1)
            &&& start_line_len == utf8_len(value@.take(c as int)) + 1
        },
        None => start_line is None && end_text@ == value@,
    });
    let start_line = match start_line {
        Some(text) => match parse_u64(text.as_str()) {
            Ok(n) => Some(n),
            Err(e) => {
                return Some(Err(ParserError::new(line_num, 4, ParserErrorKind::InvalidHunkLineNumber(e))));
            },
        },
        None => None,
    };
    let end_line = match parse_u64(end_text.as_str()) {
        Ok(n) => n,
        Err(e) => {
            return Some(Err(
                ParserError::new(
                    line_num,
                    4 + start_line_len as u64,
                    ParserErrorKind::InvalidHunkLineNumber(e),
                ),
            ));
        },
    };
    // Check if start line is before end line
    if let Some(start) = start_line {
        if start > end_line {
            return Some(Err(ParserError::new(line_num, 4, ParserErrorKind::HunkStartLineAfterEndLine)));
        }
    }
    Some(Ok(HunkHeader { start_line, end_line }))
}

/// Parses a hunk header from the given line.
/// Checks the prefix and suffix based on the `is_from` variable.
pub fn parse_hunk_header(line: &str, line_num: u64, is_from: bool) -> (r: Result<HunkHeader>)
    requires
        !aborts(hunk_header_spec(line@, line_num, is_from)),
    ensures
        match r {
            Ok(h) => hunk_header_spec(line@, line_num, is_from) == Ok::<HunkHeader, Failure>(h),
            Err(e) => hunk_header_spec(line@, line_num, is_from) == Err::<HunkHeader, Failure>(e@),
        },
{
    match parse_hunk_header_checked(line, line_num, is_from) {
        Some(r) => r,
        None => {
            assert(false);
            Err(ParserError::unexpected_eof(line_num))
        },
    }
}

/// Parses a file diff header from the given line.
/// Checks the prefix based on the `is_from` variable.
pub fn parse_file_diff_header(line: &str, line_num: u64, is_from: bool) -> (r: Result<
    FileDiffHeader,
>)
    ensures
        match r {
            Ok(h) => file_header_spec(line@, line_num, is_from) == Ok::<FileHeaderSpec, Failure>(
                h@,
            ),
            Err(e) => file_header_spec(line@, line_num, is_from) == Err::<FileHeaderSpec, Failure>(
                e@,
            ),
        },
{
    let (chars, byte_len) = chars_with_len(line);
    // Check if line starts with the correct prefix
    let prefix = if is_from {
        from_prefix_chars()
    } else {
        to_prefix_chars()
    };
    if !starts_with(&chars, &prefix) {
        return Err(ParserError::new(line_num, 0, ParserErrorKind::ExpectedFileHeaderPrefix));
    }
    // Split path and timestamp from header
    let value = sub_vec(&chars, 4, chars.len());
    assert(value@ =~= line@.skip(4));
    let tab_index = match find_char(&value, '\t') {
        Some(i) => i,
        None => {
            return Err(
                ParserError::new(line_num, 0, ParserErrorKind::ExpectedTabInFileHeaderPrefix),
            );
        },
    };
    // Check if path is not empty
    let (path_lo, path_hi) = trim_bounds(&value, 0, tab_index);
    assert(value@.subrange(0, tab_index as int) =~= value@.take(tab_index as int));
    if path_lo == path_hi {
        return Err(ParserError::new(line_num, 4, ParserErrorKind::EmptyFileNameInHeader));
    }
    let (stamp_lo, stamp_hi) = trim_bounds(&value, tab_index, value.len());
    assert(value@.subrange(tab_index as int, value@.len() as int) =~= value@.skip(
        tab_index as int,
    ));
    let stamp = string_of_range(&value, stamp_lo, stamp_hi);
    let modification_time = match Timestamp::from_str(stamp.as_str()) {
        Ok(t) => t,
        Err(e) => {
            proof {
                crate::text::lemma_utf8_len_subrange(line@, 4, line@.len() as int);
                assert(line@.subrange(4, line@.len() as int) =~= value@);
                assert(value@.take(tab_index as int + 1) =~= value@.take(tab_index as int).push(
                    '\t',
                ));
                crate::text::lemma_utf8_len_prefix(value@, tab_index + 1);
                crate::text::lemma_utf8_len_push(value@.take(tab_index as int), '\t');
                lemma_prefix_bytes(line@);
            }
            let path_bytes = utf8_prefix_len(&value, tab_index);
            let column = path_bytes as u64 + 4 + 1;
            return Err(
                ParserError::new(line_num, column, ParserErrorKind::from(e)),
            );
        },
    };
    let file_path = string_of_range(&value, path_lo, path_hi);
    Ok(FileDiffHeader { file_path, modification_time })
}


/// The lines of the old side of a hunk, from `p` up to the line that starts with `--- `;
/// running out of lines is an unexpected end of file, reported at `eof_line`.
pub open spec fn from_lines_spec(lines: Seq<Seq<char>>, p: int, eof_line: u64) -> core::result::Result<
    (Seq<LineSpec>, int),
    Failure,
>
    decreases lines.len() - p,
{
    if p < 0 || p >= lines.len() {
        fail(FailureKind::UnexpectedEOF, eof_line, 0)
    } else if has_prefix(lines[p], to_prefix()) {
        Ok((Seq::empty(), p))
    } else {
        match line_value_spec(lines[p], (p + 1) as u64) {
            Err(f) => Err(f),
            Ok(v) => match from_lines_spec(lines, p + 1, eof_line) {
                Err(f) => Err(f),
                Ok((rest, q)) => Ok((seq![v] + rest, q)),
            },
        }
    }
}

/// Whether a line closes the new side of a hunk: a file header or a hunk separator.
pub open spec fn closes_hunk(line: Seq<char>) -> bool {
    has_prefix(line, from_prefix()) || line == hunk_separator()
}

/// The lines of the new side of a hunk, from `p` up to the end of the input or the line
/// that closes the hunk.
pub open spec fn to_lines_spec(lines: Seq<Seq<char>>, p: int) -> core::result::Result<
    (Seq<LineSpec>, int),
    Failure,
>
    decreases lines.len() - p,
{
    if p < 0 || p >= lines.len() || closes_hunk(lines[p]) {
        Ok((Seq::empty(), p))
    } else {
        match line_value_spec(lines[p], (p + 1) as u64) {
            Err(f) => Err(f),
            Ok(v) => match to_lines_spec(lines, p + 1) {
                Err(f) => Err(f),
                Ok((rest, q)) => Ok((seq![v] + rest, q)),
            },
        }
    }
}

/// Whether all lines are unchanged or inserted.
pub open spec fn only_insertions(lines: Seq<LineSpec>) -> bool {
    forall|i: int|
        0 <= i < lines.len() ==> (#[trigger] lines[i]).indicator == LineValueIndicator::Unchanged
            || lines[i].indicator == LineValueIndicator::Inserted
}

/// A hunk that starts at line `p`: the separator, the header and the lines of the old
/// side, the header and the lines of the new side. The old side must hold as many lines as
/// its header announces, unless the new side holds only unchanged and inserted lines; the new
/// side must always hold as many as its header announces.
pub open spec fn hunk_spec(lines: Seq<Seq<char>>, p: int) -> core::result::Result<
    (HunkSpec, int),
    Failure,
> {
    if p < 0 || p >= lines.len() {
        fail(FailureKind::UnexpectedEOF, p as u64, 0)
    } else if lines[p] != hunk_separator() {
        fail(FailureKind::ExpectedHunkSeparator, (p + 1) as u64, 0)
    } else if p + 1 >= lines.len() {
        fail(FailureKind::UnexpectedEOF, (p + 2) as u64, 0)
    } else {
        match hunk_header_spec(lines[p + 1], (p + 2) as u64, true) {
            Err(f) => Err(f),
            Ok(from_header) => match from_lines_spec(lines, p + 2, (p + 2) as u64) {
                Err(f) => Err(f),
                Ok((from_lines, q)) => match hunk_header_spec(lines[q], (q + 1) as u64, false) {
                    Err(f) => Err(f),
                    Ok(to_header) => hunk_tail(lines, p, from_header, from_lines, q, to_header),
                },
            },
        }
    }
}

/// The end of a hunk, once both headers and the old side are known: the lines of the new
/// side from line `q + 1`, and the checks of both line counts.
pub open spec fn hunk_tail(
    lines: Seq<Seq<char>>,
    p: int,
    from_header: HunkHeader,
    from_lines: Seq<LineSpec>,
    q: int,
    to_header: HunkHeader,
) -> core::result::Result<(HunkSpec, int), Failure> {
    match to_lines_spec(lines, q + 1) {
        Err(f) => Err(f),
        Ok((to_lines, r)) => if !from_header.length_computable() {
            abort()
        } else if from_lines.len() != from_header.expected_length() && !only_insertions(
            to_lines,
        ) {
            fail(
                FailureKind::HunkHeaderAndLinesMismatch {
                    expected: from_header.expected_length() as u64,
                    found: from_lines.len() as u64,
                },
                (p + 2) as u64,
                0,
            )
        } else if !to_header.length_computable() {
            abort()
        } else if to_lines.len() != to_header.expected_length() {
            fail(
                FailureKind::HunkHeaderAndLinesMismatch {
                    expected: to_header.expected_length() as u64,
                    found: to_lines.len() as u64,
                },
                (q + 1) as u64,
                0,
            )
        } else {
            Ok((HunkSpec { from_header, from_lines, to_header, to_lines }, r))
        },
    }
}

/// The hunks of a file diff, from line `p` up to the end of the input or the next file
/// header.
pub open spec fn hunks_spec(lines: Seq<Seq<char>>, p: int) -> core::result::Result<
    (Seq<HunkSpec>, int),
    Failure,
>
    decreases lines.len() - p,
{
    if p < 0 || p >= lines.len() || has_prefix(lines[p], from_prefix()) {
        Ok((Seq::empty(), p))
    } else {
        match hunk_spec(lines, p) {
            Err(f) => Err(f),
            Ok((h, q)) => if p < q <= lines.len() {
                match hunks_spec(lines, q) {
                    Err(f) => Err(f),
                    Ok((rest, r)) => Ok((seq![h] + rest, r)),
                }
            } else {
                Ok((seq![h], q))
            },
        }
    }
}

/// Where the cursor stands after reading the old side of a hunk from line `p`: at the line
/// that starts with `--- `, just after a line that is not a hunk line, or at the end of the
/// input.
pub open spec fn from_lines_stop(lines: Seq<Seq<char>>, p: int) -> int
    decreases lines.len() - p,
{
    if p < 0 || p >= lines.len() || has_prefix(lines[p], to_prefix()) {
        p
    } else {
        match line_value_spec(lines[p], (p + 1) as u64) {
            Err(_) => p + 1,
            Ok(_) => from_lines_stop(lines, p + 1),
        }
    }
}

/// Where the cursor stands after reading the new side of a hunk from line `p`: at the line
/// that closes the hunk, just after a line that is not a hunk line, or at the end of the
/// input.
pub open spec fn to_lines_stop(lines: Seq<Seq<char>>, p: int) -> int
    decreases lines.len() - p,
{
    if p < 0 || p >= lines.len() || closes_hunk(lines[p]) {
        p
    } else {
        match line_value_spec(lines[p], (p + 1) as u64) {
            Err(_) => p + 1,
            Ok(_) => to_lines_stop(lines, p + 1),
        }
    }
}

/// Where the cursor stands after reading a hunk from line `p`, whether it was read or not:
/// just after the line where reading failed, or, once both headers are read, after the lines
/// of the new side.
pub open spec fn hunk_stop(lines: Seq<Seq<char>>, p: int) -> int {
    if p < 0 || p >= lines.len() {
        p
    } else if lines[p] != hunk_separator() || p + 1 >= lines.len() {
        p + 1
    } else {
        match hunk_header_spec(lines[p + 1], (p + 2) as u64, true) {
            Err(_) => p + 2,
            Ok(_) => match from_lines_spec(lines, p + 2, (p + 2) as u64) {
                Err(_) => from_lines_stop(lines, p + 2),
                Ok((_, q)) => match hunk_header_spec(lines[q], (q + 1) as u64, false) {
                    Err(_) => q + 1,
                    Ok(_) => to_lines_stop(lines, q + 1),
                },
            },
        }
    }
}

/// Where the cursor stands after reading the hunks of a file diff from line `p`, whether
/// they were read or not.
pub open spec fn hunks_stop(lines: Seq<Seq<char>>, p: int) -> int
    decreases lines.len() - p,
{
    if p < 0 || p >= lines.len() || has_prefix(lines[p], from_prefix()) {
        p
    } else {
        match hunk_spec(lines, p) {
            Err(_) => hunk_stop(lines, p),
            Ok((_, q)) => if p < q <= lines.len() {
                hunks_stop(lines, q)
            } else {
                q
            },
        }
    }
}

/// Where the cursor stands after reading a file diff from line `p`, whether it was read or
/// not: just after the header that could not be read, or after its hunks.
pub open spec fn file_diff_stop(lines: Seq<Seq<char>>, p: int) -> int {
    if p < 0 || p >= lines.len() {
        p
    } else {
        match file_header_spec(lines[p], (p + 1) as u64, true) {
            Err(_) => p + 1,
            Ok(_) => if p + 1 >= lines.len() {
                p + 1
            } else {
                match file_header_spec(lines[p + 1], (p + 2) as u64, false) {
                    Err(_) => p + 2,
                    Ok(_) => hunks_stop(lines, p + 2),
                }
            },
        }
    }
}

/// A file diff that starts at line `p`: the header of the old file, that of the new file,
/// and the hunks.
pub open spec fn file_diff_spec(lines: Seq<Seq<char>>, p: int) -> core::result::Result<
    (FileDiffSpec, int),
    Failure,
> {
    if p < 0 || p >= lines.len() {
        fail(FailureKind::UnexpectedEOF, p as u64, 0)
    } else {
        match file_header_spec(lines[p], (p + 1) as u64, true) {
            Err(f) => Err(f),
            Ok(from_header) => if p + 1 >= lines.len() {
                fail(FailureKind::UnexpectedEOF, (p + 1) as u64, 0)
            } else {
                match file_header_spec(lines[p + 1], (p + 2) as u64, false) {
                    Err(f) => Err(f),
                    Ok(to_header) => match hunks_spec(lines, p + 2) {
                        Err(f) => Err(f),
                        Ok((hunks, q)) => Ok((FileDiffSpec { from_header, to_header, hunks }, q)),
                    },
                }
            },
        }
    }
}

/// The file diffs from line `p` to the end of the input.
pub open spec fn files_spec(lines: Seq<Seq<char>>, p: int) -> core::result::Result<
    Seq<FileDiffSpec>,
    Failure,
>
    decreases lines.len() - p,
{
    if p < 0 || p >= lines.len() {
        Ok(Seq::empty())
    } else {
        match file_diff_spec(lines, p) {
            Err(f) => Err(f),
            Ok((d, q)) => if p < q <= lines.len() {
                match files_spec(lines, q) {
                    Err(f) => Err(f),
                    Ok(rest) => Ok(seq![d] + rest),
                }
            } else {
                Ok(seq![d])
            },
        }
    }
}

/// The first line at or after `k` that starts with `*** `, or the number of lines.
pub open spec fn first_file_header(lines: Seq<Seq<char>>, k: int) -> int
    decreases lines.len() - k,
{
    if k < 0 || k >= lines.len() {
        lines.len() as int
    } else if has_prefix(lines[k], from_prefix()) {
        k
    } else {
        first_file_header(lines, k + 1)
    }
}

/// The comment made of the given lines: each line is appended, after a line break when the
/// comment is not empty so far.
pub open spec fn comment_text(lines: Seq<Seq<char>>) -> Seq<char>
    decreases lines.len(),
{
    if lines.len() == 0 {
        Seq::empty()
    } else {
        let before = comment_text(lines.drop_last());
        let joined = if before.len() == 0 {
            before
        } else {
            before.push('\n')
        };
        joined + lines.last()
    }
}

/// A context diff: the lines before the first line that starts with `*** ` make the
/// comment, the rest are file diffs.
pub open spec fn parse_spec(input: Seq<char>) -> core::result::Result<ContextDiffSpec, Failure> {
    let lines = lines_of(input);
    let k = first_file_header(lines, 0);
    match files_spec(lines, k) {
        Err(f) => Err(f),
        Ok(diffs) => Ok(ContextDiffSpec { comment: comment_text(lines.take(k)), diffs }),
    }
}

/// The old side of a hunk ends at a line that starts with `--- `, after its start.
pub proof fn lemma_from_lines_bounds(lines: Seq<Seq<char>>, p: int, eof_line: u64)
    requires
        0 <= p,
    ensures
        from_lines_spec(lines, p, eof_line) matches Ok((v, q)) ==> p <= q < lines.len()
            && has_prefix(lines[q], to_prefix()) && v.len() == q - p,
    decreases lines.len() - p,
{
    if 0 <= p < lines.len() && !has_prefix(lines[p], to_prefix()) {
        lemma_from_lines_bounds(lines, p + 1, eof_line);
    }
}

/// The new side of a hunk ends at or after its start, and not after the last line.
pub proof fn lemma_to_lines_bounds(lines: Seq<Seq<char>>, p: int)
    requires
        0 <= p <= lines.len(),
    ensures
        to_lines_spec(lines, p) matches Ok((v, q)) ==> p <= q <= lines.len() && v.len() == q - p,
    decreases lines.len() - p,
{
    if 0 <= p < lines.len() && !closes_hunk(lines[p]) {
        lemma_to_lines_bounds(lines, p + 1);
    }
}

/// A hunk takes at least one line.
pub proof fn lemma_hunk_bounds(lines: Seq<Seq<char>>, p: int)
    requires
        0 <= p,
    ensures
        hunk_spec(lines, p) matches Ok((h, q)) ==> p < q <= lines.len(),
{
    if 0 <= p && p + 1 < lines.len() && lines[p] == hunk_separator() {
        lemma_from_lines_bounds(lines, p + 2, (p + 2) as u64);
        if let Ok((v, q)) = from_lines_spec(lines, p + 2, (p + 2) as u64) {
            lemma_to_lines_bounds(lines, q + 1);
        }
    }
}

/// The hunks of a file diff end at or after their start, and not after the last line.
pub proof fn lemma_hunks_bounds(lines: Seq<Seq<char>>, p: int)
    requires
        0 <= p <= lines.len(),
    ensures
        hunks_spec(lines, p) matches Ok((v, q)) ==> p <= q <= lines.len(),
    decreases lines.len() - p,
{
    if 0 <= p < lines.len() && !has_prefix(lines[p], from_prefix()) {
        lemma_hunk_bounds(lines, p);
        if let Ok((h, q)) = hunk_spec(lines, p) {
            lemma_hunks_bounds(lines, q);
        }
    }
}

/// A file diff takes at least two lines.
pub proof fn lemma_file_diff_bounds(lines: Seq<Seq<char>>, p: int)
    requires
        0 <= p,
    ensures
        file_diff_spec(lines, p) matches Ok((d, q)) ==> p + 2 <= q <= lines.len(),
{
    if p + 1 < lines.len() {
        lemma_hunks_bounds(lines, p + 2);
    }
}


/// Whether the line starts with the given characters.
fn line_starts_with(line: &str, prefix: &Vec<char>) -> (r: bool)
    ensures
        r == has_prefix(line@, prefix@),
{
    let chars = chars_of(line);
    starts_with(&chars, prefix)
}

/// Whether the line is the hunk separator.
fn is_hunk_separator(line: &str) -> (r: bool)
    ensures
        r == (line@ == hunk_separator()),
{
    let chars = chars_of(line);
    let separator = vec!['*', '*', '*', '*', '*', '*', '*', '*', '*', '*', '*', '*', '*', '*', '*'];
    assert(separator@ =~= hunk_separator());
    let r = chars.len() == separator.len() && starts_with(&chars, &separator);
    proof {
        if chars.len() == separator.len() {
            assert(chars@ =~= chars@.take(separator@.len() as int));
        }
    }
    r
}

/// Whether the line closes the new side of a hunk.
fn line_closes_hunk(line: &str) -> (r: bool)
    ensures
        r == closes_hunk(line@),
{
    let from = from_prefix_chars();
    line_starts_with(line, &from) || is_hunk_separator(line)
}

/// Whether a pushed sequence holds only unchanged and inserted lines.
proof fn lemma_only_insertions_push(ls: Seq<LineSpec>, x: LineSpec)
    ensures
        only_insertions(ls.push(x)) == (only_insertions(ls) && (x.indicator
            == LineValueIndicator::Unchanged || x.indicator == LineValueIndicator::Inserted)),
{
    if only_insertions(ls.push(x)) {
        assert forall|i: int| 0 <= i < ls.len() implies (#[trigger] ls[i]).indicator
            == LineValueIndicator::Unchanged || ls[i].indicator
            == LineValueIndicator::Inserted by {
            assert(ls.push(x)[i] == ls[i]);
        }
        assert(ls.push(x)[ls.len() as int] == x);
    }
}

/// Parses the next local diff from the given iterator, or gives `None` where the computation
/// would stop with a panic: a hunk header that is no longer than its prefix or whose prefix
/// and suffix overlap, or a header whose number of lines does not fit in a `u64`.
pub fn parse_next_local_diff_checked(iterator: &mut LineIterator) -> (r: Option<Result<Hunk>>)
    requires
        old(iterator)@.index <= old(iterator)@.lines.len() < usize::MAX,
    ensures
        final(iterator)@.lines == old(iterator)@.lines,
        final(iterator)@.index <= final(iterator)@.lines.len(),
        r is None <==> aborts(hunk_spec(old(iterator)@.lines, old(iterator)@.index)),
        r is Some ==> final(iterator)@.index == hunk_stop(
            old(iterator)@.lines,
            old(iterator)@.index,
        ),
        r matches Some(Ok(h)) ==> hunk_spec(old(iterator)@.lines, old(iterator)@.index) == Ok::<
            (HunkSpec, int),
            Failure,
        >((h@, final(iterator)@.index)),
        r matches Some(Err(e)) ==> hunk_spec(old(iterator)@.lines, old(iterator)@.index) == Err::<
            (HunkSpec, int),
            Failure,
        >(e@),
{
    let ghost lines = iterator@.lines;
    let ghost p = iterator@.index;
    // Check if next line is the expected separator
    let separator_line = match iterator.next() {
        Some(l) => l,
        None => {
            return Some(Err(ParserError::unexpected_eof(iterator.index() as u64)));
        },
    };
    if !is_hunk_separator(separator_line.as_str()) {
        return Some(Err(
            ParserError::new(iterator.index() as u64, 0, ParserErrorKind::ExpectedHunkSeparator),
        ));
    }
    // Parse from hunk
    let from_file_hunk_line = iterator.index() as u64 + 1;
    let from_file_hunk_header = match iterator.next() {
        Some(l) => l,
        None => {
            return Some(Err(ParserError::unexpected_eof(from_file_hunk_line)));
        },
    };
    let from_file_hunk_header = match parse_hunk_header_checked(
        from_file_hunk_header.as_str(),
        from_file_hunk_line,
        true,
    ) {
        Some(Ok(h)) => h,
        Some(Err(e)) => {
            return Some(Err(e));
        },
        None => {
            return None;
        },
    };
    // Parse lines of from file until the to hunk is found
    let mut from_file_lines: Vec<LineValue> = Vec::new();
    let line = iterator.index() as u64;
    let to_hunk_prefix = to_prefix_chars();
    proof {
        lemma_from_lines_bounds(lines, p + 2, line);
    }
    loop
        invariant
            iterator@.lines == lines,
            lines == old(iterator)@.lines,
            p == old(iterator)@.index,
            p + 2 <= iterator@.index <= lines.len() < usize::MAX,
            line == p + 2,
            to_hunk_prefix@ == to_prefix(),
            0 <= p,
            hunk_stop(lines, p) == (match from_lines_spec(lines, p + 2, line) {
                Err(_) => from_lines_stop(lines, p + 2),
                Ok((_, q)) => match hunk_header_spec(lines[q], (q + 1) as u64, false) {
                    Err(_) => q + 1,
                    Ok(_) => to_lines_stop(lines, q + 1),
                },
            }),
            from_lines_stop(lines, p + 2) == from_lines_stop(lines, iterator@.index),
            hunk_spec(lines, p) == (match from_lines_spec(lines, p + 2, line) {
                Err(f) => Err(f),
                Ok((from_lines, q)) => match hunk_header_spec(lines[q], (q + 1) as u64, false) {
                    Err(f) => Err(f),
                    Ok(to_header) => hunk_tail(
                        lines,
                        p,
                        from_file_hunk_header,
                        from_lines,
                        q,
                        to_header,
                    ),
                },
            }),
            match from_lines_spec(lines, iterator@.index, line) {
                Err(f) => from_lines_spec(lines, p + 2, line) == Err::<(Seq<LineSpec>, int), Failure>(
                    f,
                ),
                Ok((rest, q)) => from_lines_spec(lines, p + 2, line) == Ok::<
                    (Seq<LineSpec>, int),
                    Failure,
                >((crate::specification::file::lines_view(from_file_lines@) + rest, q)),
            },
        ensures
            iterator@.index < lines.len(),
            has_prefix(lines[iterator@.index], to_prefix()),
        decreases lines.len() - iterator@.index,
    {
        let stop = match iterator.peek() {
            Some(l) => line_starts_with(l, &to_hunk_prefix),
            None => {
                return Some(Err(ParserError::unexpected_eof(line)));
            },
        };
        if stop {
            break ;
        }
        let ghost i = iterator@.index;
        let next_line = match iterator.next() {
            Some(l) => l,
            None => {
                return Some(Err(ParserError::unexpected_eof(line)));
            },
        };
        match parse_line_value(next_line.as_str(), iterator.index() as u64) {
            Ok(v) => {
                proof {
                    lemma_lines_view_push(from_file_lines@, v);
                    lemma_from_lines_bounds(lines, i + 1, line);
                    if let Ok((rest, r)) = from_lines_spec(lines, i + 1, line) {
                        lemma_push_then_append(
                            crate::specification::file::lines_view(from_file_lines@),
                            v@,
                            rest,
                        );
                    }
                }
                from_file_lines.push(v);
            },
            Err(e) => {
                return Some(Err(e));
            },
        }
    }
    assert(from_lines_spec(lines, iterator@.index, line) == Ok::<(Seq<LineSpec>, int), Failure>(
        (Seq::empty(), iterator@.index),
    ));
    assert(crate::specification::file::lines_view(from_file_lines@) + Seq::<LineSpec>::empty()
        =~= crate::specification::file::lines_view(from_file_lines@));
    // Parse to hunk
    let to_file_hunk_line = iterator.index() as u64 + 1;
    let to_file_hunk_header = match iterator.next() {
        Some(l) => l,
        None => {
            return Some(Err(ParserError::unexpected_eof(to_file_hunk_line)));
        },
    };
    let to_file_hunk_header = match parse_hunk_header_checked(
        to_file_hunk_header.as_str(),
        to_file_hunk_line,
        false,
    ) {
        Some(Ok(h)) => h,
        Some(Err(e)) => {
            return Some(Err(e));
        },
        None => {
            return None;
        },
    };
    let ghost q = (to_file_hunk_line - 1) as int;
    // Parse lines of to hunk until a new file or hunk separator is found
    let mut to_file_lines: Vec<LineValue> = Vec::new();
    let mut only_insertions_so_far = true;
    proof {
        lemma_to_lines_bounds(lines, q + 1);
    }
    loop
        invariant
            iterator@.lines == lines,
            lines == old(iterator)@.lines,
            p == old(iterator)@.index,
            q + 1 <= iterator@.index <= lines.len() < usize::MAX,
            0 <= p,
            hunk_stop(lines, p) == to_lines_stop(lines, q + 1),
            to_lines_stop(lines, q + 1) == to_lines_stop(lines, iterator@.index),
            hunk_spec(lines, p) == hunk_tail(
                lines,
                p,
                from_file_hunk_header,
                crate::specification::file::lines_view(from_file_lines@),
                q,
                to_file_hunk_header,
            ),
            only_insertions_so_far == only_insertions(
                crate::specification::file::lines_view(to_file_lines@),
            ),
            match to_lines_spec(lines, iterator@.index) {
                Err(f) => to_lines_spec(lines, q + 1) == Err::<(Seq<LineSpec>, int), Failure>(f),
                Ok((rest, r)) => to_lines_spec(lines, q + 1) == Ok::<
                    (Seq<LineSpec>, int),
                    Failure,
                >((crate::specification::file::lines_view(to_file_lines@) + rest, r)),
            },
        ensures
            iterator@.index >= lines.len() || closes_hunk(lines[iterator@.index]),
        decreases lines.len() - iterator@.index,
    {
        let closes = match iterator.peek() {
            Some(l) => line_closes_hunk(l),
            None => true,
        };
        if closes {
            break ;
        }
        assert(iterator@.index < lines.len() && !closes_hunk(lines[iterator@.index]));
        let ghost i = iterator@.index;
        let next_line = match iterator.next() {
            Some(l) => l,
            None => {
                break ;
            },
        };
        match parse_line_value(next_line.as_str(), iterator.index() as u64) {
            Ok(v) => {
                if !(v.indicator == LineValueIndicator::Unchanged || v.indicator
                    == LineValueIndicator::Inserted) {
                    only_insertions_so_far = false;
                }
                proof {
                    lemma_lines_view_push(to_file_lines@, v);
                    lemma_to_lines_bounds(lines, i + 1);
                    lemma_only_insertions_push(
                        crate::specification::file::lines_view(to_file_lines@),
                        v@,
                    );
                    if let Ok((rest, r)) = to_lines_spec(lines, i + 1) {
                        lemma_push_then_append(
                            crate::specification::file::lines_view(to_file_lines@),
                            v@,
                            rest,
                        );
                    }
                }
                to_file_lines.push(v);
            },
            Err(e) => {
                return Some(Err(e));
            },
        }
    }
    assert(to_lines_spec(lines, iterator@.index) == Ok::<(Seq<LineSpec>, int), Failure>(
        (Seq::empty(), iterator@.index),
    ));
    assert(crate::specification::file::lines_view(to_file_lines@) + Seq::<LineSpec>::empty()
        =~= crate::specification::file::lines_view(to_file_lines@));
    // Check if from hunk contains the expected number of lines
    if !length_is_computable(&from_file_hunk_header) {
        return None;
    }
    let from_expected = from_file_hunk_header.expected_hunk_length();
    if from_file_lines.len() as u64 != from_expected && !only_insertions_so_far {
        return Some(Err(
            ParserError::new(
                from_file_hunk_line,
                0,
                ParserErrorKind::HunkHeaderAndLinesMismatch {
                    expected: from_expected,
                    found: from_file_lines.len() as u64,
                },
            ),
        ));
    }
    // Check if to hunk contains the expected number of lines
    if !length_is_computable(&to_file_hunk_header) {
        return None;
    }
    let to_expected = to_file_hunk_header.expected_hunk_length();
    if to_file_lines.len() as u64 != to_expected {
        return Some(Err(
            ParserError::new(
                to_file_hunk_line,
                0,
                ParserErrorKind::HunkHeaderAndLinesMismatch {
                    expected: to_expected,
                    found: to_file_lines.len() as u64,
                },
            ),
        ));
    }
    Some(Ok(Hunk { from_file_header: from_file_hunk_header, from_file_lines, to_file_header: to_file_hunk_header, to_file_lines }))
}


/// Parses the next local diff from the given iterator.
pub fn parse_next_local_diff(iterator: &mut LineIterator) -> (r: Result<Hunk>)
    requires
        old(iterator)@.index <= old(iterator)@.lines.len() < usize::MAX,
        !aborts(hunk_spec(old(iterator)@.lines, old(iterator)@.index)),
    ensures
        final(iterator)@.lines == old(iterator)@.lines,
        final(iterator)@.index <= final(iterator)@.lines.len(),
        final(iterator)@.index == hunk_stop(old(iterator)@.lines, old(iterator)@.index),
        match r {
            Ok(h) => hunk_spec(old(iterator)@.lines, old(iterator)@.index) == Ok::<
                (HunkSpec, int),
                Failure,
            >((h@, final(iterator)@.index)),
            Err(e) => hunk_spec(old(iterator)@.lines, old(iterator)@.index) == Err::<
                (HunkSpec, int),
                Failure,
            >(e@),
        },
{
    match parse_next_local_diff_checked(iterator) {
        Some(r) => r,
        None => {
            assert(false);
            Err(ParserError::unexpected_eof(0))
        },
    }
}

/// Parses the next file diff from the given iterator, or gives `None` where the computation
/// would stop with a panic in one of its hunks.
pub fn parse_next_file_diff_checked(iterator: &mut LineIterator) -> (r: Option<Result<FileDiff>>)
    requires
        old(iterator)@.index <= old(iterator)@.lines.len() < usize::MAX,
    ensures
        final(iterator)@.lines == old(iterator)@.lines,
        final(iterator)@.index <= final(iterator)@.lines.len(),
        r is None <==> aborts(file_diff_spec(old(iterator)@.lines, old(iterator)@.index)),
        r is Some ==> final(iterator)@.index == file_diff_stop(
            old(iterator)@.lines,
            old(iterator)@.index,
        ),
        r matches Some(Ok(d)) ==> file_diff_spec(old(iterator)@.lines, old(iterator)@.index)
            == Ok::<(FileDiffSpec, int), Failure>((d@, final(iterator)@.index)),
        r matches Some(Err(e)) ==> file_diff_spec(old(iterator)@.lines, old(iterator)@.index)
            == Err::<(FileDiffSpec, int), Failure>(e@),
{
    let ghost lines = iterator@.lines;
    let ghost p = iterator@.index;
    // Parse file headers
    let from_header = match iterator.next() {
        Some(l) => l,
        None => {
            return Some(Err(ParserError::unexpected_eof(iterator.index() as u64)));
        },
    };
    let from_header = match parse_file_diff_header(
        from_header.as_str(),
        iterator.index() as u64,
        true,
    ) {
        Ok(h) => h,
        Err(e) => {
            return Some(Err(e));
        },
    };
    let to_header = match iterator.next() {
        Some(l) => l,
        None => {
            return Some(Err(ParserError::unexpected_eof(iterator.index() as u64)));
        },
    };
    let to_header = match parse_file_diff_header(to_header.as_str(), iterator.index() as u64, false)
    {
        Ok(h) => h,
        Err(e) => {
            return Some(Err(e));
        },
    };
    // Parse local diffs of the file until a new file is found
    let mut hunks: Vec<Hunk> = Vec::new();
    let from_file_prefix = from_prefix_chars();
    proof {
        lemma_hunks_bounds(lines, p + 2);
    }
    loop
        invariant
            iterator@.lines == lines,
            lines == old(iterator)@.lines,
            p == old(iterator)@.index,
            p + 2 <= iterator@.index <= lines.len() < usize::MAX,
            from_file_prefix@ == from_prefix(),
            file_diff_stop(lines, p) == hunks_stop(lines, p + 2),
            hunks_stop(lines, p + 2) == hunks_stop(lines, iterator@.index),
            file_diff_spec(lines, p) == (match hunks_spec(lines, p + 2) {
                Err(f) => Err(f),
                Ok((hs, q)) => Ok::<(FileDiffSpec, int), Failure>(
                    (FileDiffSpec { from_header: from_header@, to_header: to_header@, hunks: hs }, q),
                ),
            }),
            match hunks_spec(lines, iterator@.index) {
                Err(f) => hunks_spec(lines, p + 2) == Err::<(Seq<HunkSpec>, int), Failure>(f),
                Ok((rest, q)) => hunks_spec(lines, p + 2) == Ok::<(Seq<HunkSpec>, int), Failure>(
                    (hunks@.map_values(|h: Hunk| h@) + rest, q),
                ),
            },
        ensures
            iterator@.index >= lines.len() || has_prefix(lines[iterator@.index], from_prefix()),
        decreases lines.len() - iterator@.index,
    {
        let stop = match iterator.peek() {
            Some(l) => line_starts_with(l, &from_file_prefix),
            None => true,
        };
        if stop {
            break ;
        }
        let ghost i = iterator@.index;
        proof {
            lemma_hunk_bounds(lines, i);
        }
        match parse_next_local_diff_checked(iterator) {
            Some(Ok(h)) => {
                proof {
                    let q = iterator@.index;
                    lemma_hunks_bounds(lines, q);
                    assert(hunks@.push(h).map_values(|h: Hunk| h@) =~= hunks@.map_values(
                        |h: Hunk| h@,
                    ).push(h@));
                    if let Ok((rest, r)) = hunks_spec(lines, q) {
                        lemma_push_then_append(hunks@.map_values(|h: Hunk| h@), h@, rest);
                    }
                }
                hunks.push(h);
            },
            Some(Err(e)) => {
                return Some(Err(e));
            },
            None => {
                return None;
            },
        }
    }
    assert(hunks@.map_values(|h: Hunk| h@) + Seq::<HunkSpec>::empty() =~= hunks@.map_values(
        |h: Hunk| h@,
    ));
    Some(Ok(FileDiff { from_header, to_header, hunks }))
}

/// Parses the next file diff from the given iterator.
pub fn parse_next_file_diff(iterator: &mut LineIterator) -> (r: Result<FileDiff>)
    requires
        old(iterator)@.index <= old(iterator)@.lines.len() < usize::MAX,
        !aborts(file_diff_spec(old(iterator)@.lines, old(iterator)@.index)),
    ensures
        final(iterator)@.lines == old(iterator)@.lines,
        final(iterator)@.index <= final(iterator)@.lines.len(),
        final(iterator)@.index == file_diff_stop(old(iterator)@.lines, old(iterator)@.index),
        match r {
            Ok(d) => file_diff_spec(old(iterator)@.lines, old(iterator)@.index) == Ok::<
                (FileDiffSpec, int),
                Failure,
            >((d@, final(iterator)@.index)),
            Err(e) => file_diff_spec(old(iterator)@.lines, old(iterator)@.index) == Err::<
                (FileDiffSpec, int),
                Failure,
            >(e@),
        },
{
    match parse_next_file_diff_checked(iterator) {
        Some(r) => r,
        None => {
            assert(false);
            Err(ParserError::unexpected_eof(0))
        },
    }
}

/// Parses a context diff file from a string, or gives `None` where the computation would
/// stop with a panic in one of its hunks.
pub fn parse_checked(input: &str) -> (r: Option<Result<ContextDiffFile>>)
    requires
        input@.len() < usize::MAX,
    ensures
        r is None <==> aborts(parse_spec(input@)),
        r matches Some(Ok(f)) ==> parse_spec(input@) == Ok::<ContextDiffSpec, Failure>(f@),
        r matches Some(Err(e)) ==> parse_spec(input@) == Err::<ContextDiffSpec, Failure>(e@),
{
    let mut iterator = LineIterator::from_lines(input);
    let ghost lines = iterator@.lines;
    let mut comment = String::new();
    let from_file_prefix = from_prefix_chars();
    // The lines before the first file header make the comment
    assert(lines.take(0) =~= Seq::<Seq<char>>::empty());
    loop
        invariant
            iterator@.lines == lines,
            lines == lines_of(input@),
            iterator@.index <= lines.len() < usize::MAX,
            from_file_prefix@ == from_prefix(),
            first_file_header(lines, 0) == first_file_header(lines, iterator@.index),
            comment@ == comment_text(lines.take(iterator@.index)),
        ensures
            iterator@.index == first_file_header(lines, 0),
        decreases lines.len() - iterator@.index,
    {
        let stop = match iterator.peek() {
            Some(l) => line_starts_with(l, &from_file_prefix),
            None => true,
        };
        if stop {
            break ;
        }
        let ghost i = iterator@.index;
        let line = match iterator.next() {
            Some(l) => l,
            None => {
                break ;
            },
        };
        if !comment.as_str().is_empty() {
            crate::text::string_push(&mut comment, '\n');
        }
        crate::text::push_str(&mut comment, line.as_str());
        assert(lines.take(i + 1).drop_last() =~= lines.take(i as int));
    }
    let ghost k = iterator@.index;
    let mut diffs: Vec<FileDiff> = Vec::new();
    assert(diffs@.map_values(|d: FileDiff| d@) =~= Seq::<FileDiffSpec>::empty());
    loop
        invariant
            iterator@.lines == lines,
            lines == lines_of(input@),
            k <= iterator@.index <= lines.len() < usize::MAX,
            k == first_file_header(lines, 0),
            comment@ == comment_text(lines.take(k)),
            match files_spec(lines, iterator@.index) {
                Err(f) => files_spec(lines, k) == Err::<Seq<FileDiffSpec>, Failure>(f),
                Ok(rest) => files_spec(lines, k) == Ok::<Seq<FileDiffSpec>, Failure>(
                    diffs@.map_values(|d: FileDiff| d@) + rest,
                ),
            },
        ensures
            iterator@.index >= lines.len(),
        decreases lines.len() - iterator@.index,
    {
        if iterator.peek().is_none() {
            break ;
        }
        let ghost i = iterator@.index;
        proof {
            lemma_file_diff_bounds(lines, i);
        }
        match parse_next_file_diff_checked(&mut iterator) {
            Some(Ok(d)) => {
                proof {
                    let q = iterator@.index;
                    assert(diffs@.push(d).map_values(|d: FileDiff| d@) =~= diffs@.map_values(
                        |d: FileDiff| d@,
                    ).push(d@));
                    if let Ok(rest) = files_spec(lines, q) {
                        lemma_push_then_append(diffs@.map_values(|d: FileDiff| d@), d@, rest);
                    }
                }
                diffs.push(d);
            },
            Some(Err(e)) => {
                return Some(Err(e));
            },
            None => {
                return None;
            },
        }
    }
    assert(diffs@.map_values(|d: FileDiff| d@) + Seq::<FileDiffSpec>::empty() =~= diffs@.map_values(
        |d: FileDiff| d@,
    ));
    Some(Ok(ContextDiffFile { comment, diffs }))
}

/// Parses a context diff file from a string.
pub fn parse_from_str(input: &str) -> (r: Result<ContextDiffFile>)
    requires
        input@.len() < usize::MAX,
        !aborts(parse_spec(input@)),
    ensures
        match r {
            Ok(f) => parse_spec(input@) == Ok::<ContextDiffSpec, Failure>(f@),
            Err(e) => parse_spec(input@) == Err::<ContextDiffSpec, Failure>(e@),
        },
{
    match parse_checked(input) {
        Some(r) => r,
        None => {
            assert(false);
            Err(ParserError::unexpected_eof(0))
        },
    }
}


/// Whether the sides of a hunk hold as many lines as its headers announce: both headers
/// announce a number that can be computed, the new side always holds that many lines, and
/// the old side does unless the new side holds only unchanged and inserted lines.
pub open spec fn counts_match_headers(hunk: HunkSpec) -> bool {
    &&& hunk.from_header.length_computable()
    &&& hunk.to_header.length_computable()
    &&& hunk.to_lines.len() == hunk.to_header.expected_length()
    &&& only_insertions(hunk.to_lines) || hunk.from_lines.len() == hunk.from_header.expected_length()
}

/// Whether every hunk of every file diff holds as many lines as its headers announce.
pub open spec fn all_counts_match(diffs: Seq<FileDiffSpec>) -> bool {
    forall|f: int, h: int|
        0 <= f < diffs.len() && 0 <= h < diffs[f].hunks.len() ==> counts_match_headers(
            #[trigger] diffs[f].hunks[h],
        )
}

/// The hunks read from line `p` each hold as many lines as their headers announce.
proof fn lemma_hunks_counts(lines: Seq<Seq<char>>, p: int)
    ensures
        hunks_spec(lines, p) matches Ok((hs, q)) ==> forall|h: int|
            0 <= h < hs.len() ==> counts_match_headers(#[trigger] hs[h]),
    decreases lines.len() - p,
{
    if 0 <= p < lines.len() && !has_prefix(lines[p], from_prefix()) {
        if let Ok((h0, q)) = hunk_spec(lines, p) {
            assert(counts_match_headers(h0));
            if p < q <= lines.len() {
                lemma_hunks_counts(lines, q);
                if let Ok((rest, r)) = hunks_spec(lines, q) {
                    let hs = seq![h0] + rest;
                    assert forall|h: int| 0 <= h < hs.len() implies counts_match_headers(
                        #[trigger] hs[h],
                    ) by {
                        if h > 0 {
                            assert(hs[h] == rest[h - 1]);
                        }
                    }
                }
            }
        }
    }
}

/// The file diffs read from line `p` have hunks that each hold as many lines as their
/// headers announce.
proof fn lemma_files_counts(lines: Seq<Seq<char>>, p: int)
    ensures
        files_spec(lines, p) matches Ok(ds) ==> all_counts_match(ds),
    decreases lines.len() - p,
{
    if 0 <= p < lines.len() {
        lemma_hunks_counts(lines, p + 2);
        if let Ok((d, q)) = file_diff_spec(lines, p) {
            assert(forall|h: int| 0 <= h < d.hunks.len() ==> counts_match_headers(
                #[trigger] d.hunks[h],
            ));
            if p < q <= lines.len() {
                lemma_files_counts(lines, q);
                if let Ok(rest) = files_spec(lines, q) {
                    let ds = seq![d] + rest;
                    assert forall|f: int, h: int|
                        0 <= f < ds.len() && 0 <= h < ds[f].hunks.len() implies counts_match_headers(
                        #[trigger] ds[f].hunks[h],
                    ) by {
                        if f > 0 {
                            assert(ds[f] == rest[f - 1]);
                        } else {
                            assert(ds[f] == d);
                        }
                    }
                }
            } else {
                let ds = seq![d];
                assert forall|f: int, h: int|
                    0 <= f < ds.len() && 0 <= h < ds[f].hunks.len() implies counts_match_headers(
                    #[trigger] ds[f].hunks[h],
                ) by {
                    assert(ds[f] == d);
                }
            }
        }
    }
}

/// The parser accepts no hunk whose lines disagree with its headers: in a parsed context
/// diff, both headers of every hunk announce a number of lines that can be computed, every
/// hunk holds on its new side as many lines as its header announces, and on its old side as
/// many as its header announces unless its new side holds only unchanged and inserted lines.
pub proof fn lemma_parsed_counts_match_headers(input: Seq<char>)
    ensures
        parse_spec(input) matches Ok(d) ==> all_counts_match(d.diffs),
{
    lemma_files_counts(lines_of(input), first_file_header(lines_of(input), 0));
}

/// The character that starts a line with the given indicator.
pub open spec fn indicator_char(indicator: LineValueIndicator) -> char {
    match indicator {
        LineValueIndicator::Unchanged => ' ',
        LineValueIndicator::Changed => '!',
        LineValueIndicator::Inserted => '+',
        LineValueIndicator::Deleted => '-',
    }
}

/// A hunk line as it is written: the indicator's character, a space and the text.
pub open spec fn line_text(line: LineSpec) -> Seq<char> {
    seq![indicator_char(line.indicator), ' '] + line.text
}

/// Reading a hunk line gives back what was written, and what is read is what was written:
/// a line written from an indicator and a text reads as that indicator and that text, and a
/// line that reads as a value is the text written from that value.
pub proof fn lemma_line_round_trip(value: LineSpec, line: Seq<char>, line_num: u64)
    ensures
        line_value_spec(line_text(value), line_num) == Ok::<LineSpec, Failure>(value),
        line_value_spec(line, line_num) matches Ok(v) ==> line_text(v) == line,
{
    let t = line_text(value);
    assert(t[0] == indicator_char(value.indicator));
    assert(t[1] == ' ');
    assert(t.skip(2) =~= value.text);
    if let Ok(v) = line_value_spec(line, line_num) {
        assert(indicator_char(v.indicator) == line[0]);
        assert(line_text(v) =~= line);
    }
}


/// A hunk header as it is written: `*** ` and ` ****` around the line numbers on the old
/// side, `--- ` and ` ----` on the new side; the numbers are `start,end`, or the end line
/// alone, in decimal.
pub open spec fn hunk_header_line(header: HunkHeader, is_from: bool) -> Seq<char> {
    let numbers = match header.start_line {
        Some(start) => decimal(start as nat) + seq![','] + decimal(header.end_line as nat),
        None => decimal(header.end_line as nat),
    };
    if is_from {
        from_prefix() + numbers + from_hunk_suffix()
    } else {
        to_prefix() + numbers + to_hunk_suffix()
    }
}

/// A hunk header written with its line numbers in decimal reads back as that header, on
/// either side, where its start line is not after its end line.
pub proof fn lemma_hunk_header_round_trip(header: HunkHeader, is_from: bool, line_num: u64)
    requires
        header.start_line matches Some(start) ==> start <= header.end_line,
    ensures
        hunk_header_spec(hunk_header_line(header, is_from), line_num, is_from) == Ok::<
            HunkHeader,
            Failure,
        >(header),
{
    let prefix = if is_from {
        from_prefix()
    } else {
        to_prefix()
    };
    let suffix = if is_from {
        from_hunk_suffix()
    } else {
        to_hunk_suffix()
    };
    let end = header.end_line;
    let numbers = match header.start_line {
        Some(start) => decimal(start as nat) + seq![','] + decimal(end as nat),
        None => decimal(end as nat),
    };
    let line = hunk_header_line(header, is_from);
    lemma_decimal_digits(end as nat);
    lemma_decimal_reads_back(end);
    assert(line =~= prefix + numbers + suffix);
    assert(line.take(4) =~= prefix);
    assert(line.skip(line.len() - 5) =~= suffix);
    assert(line.subrange(4, line.len() - 5) =~= numbers);
    match header.start_line {
        Some(start) => {
            lemma_decimal_digits(start as nat);
            lemma_decimal_reads_back(start);
            let k = decimal(start as nat).len() as int;
            assert(numbers[k] == ',');
            assert forall|j: int| 0 <= j < k implies numbers[j] != ',' by {
                assert(numbers[j] == decimal(start as nat)[j]);
                assert('0' <= decimal(start as nat)[j] <= '9');
            }
            lemma_find_from_first(numbers, ',', 0, k);
            assert(numbers.take(k) =~= decimal(start as nat));
            assert(numbers.skip(k + 1) =~= decimal(end as nat));
        },
        None => {
            assert forall|j: int| 0 <= j < numbers.len() implies numbers[j] != ',' by {
                assert('0' <= numbers[j] <= '9');
            }
            lemma_find_from_none(numbers, ',', 0);
        },
    }
}


/// The lines read for the old side of a hunk are the input lines from `p` on, as written.
proof fn lemma_from_lines_text(lines: Seq<Seq<char>>, p: int, eof_line: u64)
    requires
        0 <= p,
    ensures
        from_lines_spec(lines, p, eof_line) matches Ok((v, q)) ==> forall|i: int|
            0 <= i < v.len() ==> line_text(#[trigger] v[i]) == lines[p + i],
    decreases lines.len() - p,
{
    if 0 <= p < lines.len() && !has_prefix(lines[p], to_prefix()) {
        lemma_from_lines_text(lines, p + 1, eof_line);
        if let Ok(val) = line_value_spec(lines[p], (p + 1) as u64) {
            lemma_line_round_trip(val, lines[p], (p + 1) as u64);
            if let Ok((rest, q)) = from_lines_spec(lines, p + 1, eof_line) {
                let v = seq![val] + rest;
                assert forall|i: int| 0 <= i < v.len() implies line_text(#[trigger] v[i])
                    == lines[p + i] by {
                    if i > 0 {
                        assert(v[i] == rest[i - 1]);
                    }
                }
            }
        }
    }
}

/// The lines read for the new side of a hunk are the input lines from `p` on, as written.
proof fn lemma_to_lines_text(lines: Seq<Seq<char>>, p: int)
    requires
        0 <= p,
    ensures
        to_lines_spec(lines, p) matches Ok((v, q)) ==> forall|i: int|
            0 <= i < v.len() ==> line_text(#[trigger] v[i]) == lines[p + i],
    decreases lines.len() - p,
{
    if 0 <= p < lines.len() && !closes_hunk(lines[p]) {
        lemma_to_lines_text(lines, p + 1);
        if let Ok(val) = line_value_spec(lines[p], (p + 1) as u64) {
            lemma_line_round_trip(val, lines[p], (p + 1) as u64);
            if let Ok((rest, q)) = to_lines_spec(lines, p + 1) {
                let v = seq![val] + rest;
                assert forall|i: int| 0 <= i < v.len() implies line_text(#[trigger] v[i])
                    == lines[p + i] by {
                    if i > 0 {
                        assert(v[i] == rest[i - 1]);
                    }
                }
            }
        }
    }
}

/// Each line of a parsed hunk is an input line, read as it was written: line `i` of the old
/// side is the input line `i` places after the old header, and line `i` of the new side the
/// input line `i` places after the new header, which follows the old side.
pub proof fn lemma_hunk_lines_are_input_lines(lines: Seq<Seq<char>>, p: int)
    requires
        0 <= p,
    ensures
        hunk_spec(lines, p) matches Ok((h, r)) ==> {
            &&& forall|i: int|
                0 <= i < h.from_lines.len() ==> line_text(#[trigger] h.from_lines[i]) == lines[p + 2
                    + i]
            &&& forall|i: int|
                0 <= i < h.to_lines.len() ==> line_text(#[trigger] h.to_lines[i]) == lines[p + 3
                    + h.from_lines.len() + i]
            &&& r == p + 3 + h.from_lines.len() + h.to_lines.len()
        },
{
    if 0 <= p && p + 1 < lines.len() && lines[p] == hunk_separator() {
        lemma_from_lines_bounds(lines, p + 2, (p + 2) as u64);
        lemma_from_lines_text(lines, p + 2, (p + 2) as u64);
        if let Ok((v, q)) = from_lines_spec(lines, p + 2, (p + 2) as u64) {
            lemma_to_lines_bounds(lines, q + 1);
            lemma_to_lines_text(lines, q + 1);
        }
    }
}


/// Taking white space off a text that neither starts nor ends with white space leaves it.
proof fn lemma_trim_unchanged(s: Seq<char>)
    requires
        s.len() > 0,
        !is_whitespace(s[0]),
        !is_whitespace(s.last()),
    ensures
        trim(s) == s,
{
}

/// White space in front of a text does not change what trimming leaves of it.
proof fn lemma_trim_after_space(c: char, s: Seq<char>)
    requires
        is_whitespace(c),
    ensures
        trim(seq![c] + s) == trim(s),
{
    assert((seq![c] + s).drop_first() =~= s);
}

/// A file header as it is written: `*** ` (old file) or `--- ` (new file), the path, a tab
/// and the timestamp.
pub open spec fn file_header_line(path: Seq<char>, stamp: Seq<char>, is_from: bool) -> Seq<char> {
    (if is_from {
        from_prefix()
    } else {
        to_prefix()
    }) + path + seq!['\t'] + stamp
}

/// A file header reads back the path it was written with, whole (no part of it is cut
/// off), and the time its timestamp text denotes: where the path is not empty, holds no tab
/// and neither starts nor ends with white space, and the timestamp text is read as a time.
pub proof fn lemma_file_header_round_trip(
    path: Seq<char>,
    stamp: Seq<char>,
    is_from: bool,
    line_num: u64,
)
    requires
        path.len() > 0,
        forall|i: int| 0 <= i < path.len() ==> path[i] != '\t',
        !is_whitespace(path[0]),
        !is_whitespace(path.last()),
        Timestamp::spec_from_text(trim(stamp)) is Ok,
    ensures
        file_header_spec(file_header_line(path, stamp, is_from), line_num, is_from) == Ok::<
            FileHeaderSpec,
            Failure,
        >(FileHeaderSpec { path, time: Timestamp::spec_from_text(trim(stamp))->Ok_0 }),
{
    let prefix = if is_from {
        from_prefix()
    } else {
        to_prefix()
    };
    let line = file_header_line(path, stamp, is_from);
    assert(line.take(4) =~= prefix);
    let value = line.skip(4);
    assert(value =~= path + seq!['\t'] + stamp);
    assert(value[path.len() as int] == '\t');
    assert forall|j: int| 0 <= j < path.len() implies value[j] != '\t' by {
        assert(value[j] == path[j]);
    }
    lemma_find_from_first(value, '\t', 0, path.len() as int);
    assert(value.take(path.len() as int) =~= path);
    assert(value.skip(path.len() as int) =~= seq!['\t'] + stamp);
    lemma_trim_unchanged(path);
    lemma_trim_after_space('\t', stamp);
}

} // verus!
