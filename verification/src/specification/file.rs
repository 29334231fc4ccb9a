//! The parts of a context diff file, and the values that contracts speak of for them.
use vstd::prelude::*;

use crate::specification::timestamp::Timestamp;

verus! {

/// Represents a context diff file, consisting of the separate diffs for each file.
#[derive(Debug)]
pub struct ContextDiffFile {
    pub comment: String,
    pub diffs: Vec<FileDiff>,
}

/// Represents all changes for one file in a context diff file.
#[derive(Debug)]
pub struct FileDiff {
    pub from_header: FileDiffHeader,
    pub to_header: FileDiffHeader,
    pub hunks: Vec<Hunk>,
}

/// Represents a header of a file diff.
#[derive(Debug, PartialEq, Eq)]
pub struct FileDiffHeader {
    pub file_path: String,
    pub modification_time: Timestamp,
}

/// Represents a hunk, containing all changes to one local block in a file.
#[derive(Debug)]
pub struct Hunk {
    pub from_file_header: HunkHeader,
    pub from_file_lines: Vec<LineValue>,
    pub to_file_header: HunkHeader,
    pub to_file_lines: Vec<LineValue>,
}

/// Represents a header of a hunk of a local diff.
#[derive(Clone, Copy, Debug, PartialEq, Eq)]
pub struct HunkHeader {
    pub start_line: Option<u64>,
    pub end_line: u64,
}

/// Represents the value of one line in a local diff.
#[derive(Debug, PartialEq, Eq)]
pub struct LineValue {
    pub line_value: String,
    pub indicator: LineValueIndicator,
}

/// Represents all possible indicators of a line in a local diff.
#[derive(Clone, Copy, Debug, PartialEq, Eq, Structural)]
pub enum LineValueIndicator {
    /// ' ' indicator, line was not changed.
    Unchanged,
    /// '!' indicator, line was changed.
    Changed,
    /// '+' indicator, line was inserted.
    Inserted,
    /// '-' indicator, line was deleted.
    Deleted,
}

/// A line of a hunk: its text and its indicator.
pub struct LineSpec {
    pub text: Seq<char>,
    pub indicator: LineValueIndicator,
}

/// A hunk: its two headers and the lines of each side.
pub struct HunkSpec {
    pub from_header: HunkHeader,
    pub from_lines: Seq<LineSpec>,
    pub to_header: HunkHeader,
    pub to_lines: Seq<LineSpec>,
}

/// The header of one side of a file diff: the path and the modification time.
pub struct FileHeaderSpec {
    pub path: Seq<char>,
    pub time: Timestamp,
}

/// All changes to one file.
pub struct FileDiffSpec {
    pub from_header: FileHeaderSpec,
    pub to_header: FileHeaderSpec,
    pub hunks: Seq<HunkSpec>,
}

/// A whole context diff: the comment before the first file and the file diffs.
pub struct ContextDiffSpec {
    pub comment: Seq<char>,
    pub diffs: Seq<FileDiffSpec>,
}

/// The lines of a vector of line values.
pub open spec fn lines_view(v: Seq<LineValue>) -> Seq<LineSpec> {
    v.map_values(|l: LineValue| l@)
}

/// The lines of a vector with one more line pushed.
pub proof fn lemma_lines_view_push(v: Seq<LineValue>, x: LineValue)
    ensures
        lines_view(v.push(x)) == lines_view(v).push(x@),
{
    assert(lines_view(v.push(x)) =~= lines_view(v).push(x@));
}

impl View for LineValue {
    type V = LineSpec;

    open spec fn view(&self) -> LineSpec {
        LineSpec { text: self.line_value@, indicator: self.indicator }
    }
}

impl View for Hunk {
    type V = HunkSpec;

    open spec fn view(&self) -> HunkSpec {
        HunkSpec {
            from_header: self.from_file_header,
            from_lines: lines_view(self.from_file_lines@),
            to_header: self.to_file_header,
            to_lines: lines_view(self.to_file_lines@),
        }
    }
}

impl View for FileDiffHeader {
    type V = FileHeaderSpec;

    open spec fn view(&self) -> FileHeaderSpec {
        FileHeaderSpec { path: self.file_path@, time: self.modification_time }
    }
}

impl View for FileDiff {
    type V = FileDiffSpec;

    open spec fn view(&self) -> FileDiffSpec {
        FileDiffSpec {
            from_header: self.from_header@,
            to_header: self.to_header@,
            hunks: self.hunks@.map_values(|h: Hunk| h@),
        }
    }
}

impl View for ContextDiffFile {
    type V = ContextDiffSpec;

    open spec fn view(&self) -> ContextDiffSpec {
        ContextDiffSpec { comment: self.comment@, diffs: self.diffs@.map_values(|f: FileDiff| f@) }
    }
}

impl HunkHeader {
    /// The number of lines that the header announces: the lines from the start line to the
    /// end line; a header with a single number announces one line, or none when that
    /// number is 0 (the side of a file that does not exist).
    pub open spec fn expected_length(self) -> int {
        match self.start_line {
            Some(start) => self.end_line - start + 1,
            None => if self.end_line == 0 {
                0
            } else {
                1
            },
        }
    }

    /// Whether the announced number of lines can be computed: the start line, where there
    /// is one, is not after the end line and the count fits in a `u64`.
    pub open spec fn length_computable(self) -> bool {
        match self.start_line {
            Some(start) => start <= self.end_line && self.end_line - start + 1 <= u64::MAX,
            None => true,
        }
    }

    /// Calculates the expected length of the hunk.
    pub fn expected_hunk_length(&self) -> (n: u64)
        requires
            self.length_computable(),
        ensures
            n == self.expected_length(),
    {
        match self.start_line {
            Some(start_line) => self.end_line - start_line + 1,
            None => if self.end_line == 0 {
                0
            } else {
                1
            },
        }
    }
}

/// Whether the number of lines a hunk header announces can be computed.
pub(crate) fn length_is_computable(header: &HunkHeader) -> (r: bool)
    ensures
        r == header.length_computable(),
{
    match header.start_line {
        Some(start) => start <= header.end_line && !(start == 0 && header.end_line == u64::MAX),
        None => true,
    }
}

impl LineValue {
    /// Creates a new `LineValue` with the given value and indicator
    pub fn new(line_value: &str, indicator: LineValueIndicator) -> (r: LineValue)
        ensures
            r@ == (LineSpec { text: line_value@, indicator }),
    {
        LineValue { line_value: line_value.to_owned(), indicator }
    }
}

impl Clone for FileDiffHeader {
    fn clone(&self) -> (r: FileDiffHeader)
        ensures
            r@ == self@,
    {
        FileDiffHeader {
            file_path: self.file_path.clone(),
            modification_time: self.modification_time,
        }
    }
}

impl Clone for LineValue {
    fn clone(&self) -> (r: LineValue)
        ensures
            r == *self,
    {
        LineValue { line_value: self.line_value.clone(), indicator: self.indicator }
    }
}

} // verus!
