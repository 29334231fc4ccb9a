//! Translation of context diffs into unified diffs.
use vstd::prelude::*;
use vstd::std_specs::iter::IteratorSpec;

use crate::parser::parser::{counts_match_headers, only_insertions};
use crate::parser::segmenter::{
    continues, extend, group, lemma_group_push, lemma_split_keeps_lines, new_side, old_side,
    only_to_steps, opt_seq, paired_steps, same_line, segments_spec, split_hunk, step_segment,
    HunkSegment, SegmentSpec, Step,
};
use crate::specification::file::{length_is_computable, lines_view};
use crate::specification::{
    ContextDiffFile, ContextDiffSpec, FileDiff, FileDiffHeader, FileDiffSpec, FileHeaderSpec,
    Hunk, HunkHeader, HunkSpec, LineSpec, LineValue, LineValueIndicator,
};
use crate::text::{
    count_char, decimal, lemma_count_char_concat, lemma_decimal_reads_back, push_decimal, push_str,
    string_push, u64_reading,
};

verus! {

/// A line of the unified diff: the marker, the text and a line break.
pub open spec fn marked_line(marker: char, text: Seq<char>) -> Seq<char> {
    seq![marker] + text + seq!['\n']
}

/// The lines, each with the marker.
pub open spec fn marked_lines(marker: char, lines: Seq<LineSpec>) -> Seq<char>
    decreases lines.len(),
{
    if lines.len() == 0 {
        Seq::empty()
    } else {
        marked_lines(marker, lines.drop_last()) + marked_line(marker, lines.last().text)
    }
}

/// A segment in unified format: context lines marked with a space; the changed lines of the
/// old side marked with `-`, then those of the new side marked with `+`.
pub open spec fn segment_text(seg: SegmentSpec) -> Seq<char> {
    match seg {
        SegmentSpec::Context(lines) => marked_lines(' ', lines),
        SegmentSpec::Change(from, to) => marked_lines('-', from) + marked_lines('+', to),
    }
}

/// The segments in unified format, one after the other.
pub open spec fn segments_text(segs: Seq<SegmentSpec>) -> Seq<char>
    decreases segs.len(),
{
    if segs.len() == 0 {
        Seq::empty()
    } else {
        segments_text(segs.drop_last()) + segment_text(segs.last())
    }
}

/// The first line of a side of a hunk: its start line, or its single line number.
pub open spec fn start_of(header: HunkHeader) -> u64 {
    match header.start_line {
        Some(start) => start,
        None => header.end_line,
    }
}

/// The unified hunk header: `@@ -start,length +start,length @@`.
pub open spec fn hunk_header_text(hunk: HunkSpec) -> Seq<char> {
    seq!['@', '@', ' ', '-'] + decimal(start_of(hunk.from_header) as nat) + seq![','] + decimal(
        hunk.from_header.expected_length() as nat,
    ) + seq![' ', '+'] + decimal(start_of(hunk.to_header) as nat) + seq![','] + decimal(
        hunk.to_header.expected_length() as nat,
    ) + seq![' ', '@', '@', '\n']
}

/// Whether a hunk can be translated: both headers announce a number of lines that can be
/// computed, splitting it ends, and every change segment holds only changed or deleted lines
/// on its old side and changed or inserted lines on its new side.
pub open spec fn translatable(hunk: HunkSpec) -> bool {
    &&& hunk.from_header.length_computable()
    &&& hunk.to_header.length_computable()
    &&& segments_spec(hunk) matches Some(segs)
    &&& forall|k: int| 0 <= k < segs.len() ==> #[trigger] change_lines_valid(segs[k])
}

/// Whether a segment holds only lines that the unified format can mark.
pub open spec fn change_lines_valid(seg: SegmentSpec) -> bool {
    match seg {
        SegmentSpec::Context(_) => true,
        SegmentSpec::Change(from, to) => {
            &&& forall|x: int|
                0 <= x < from.len() ==> (#[trigger] from[x]).indicator
                    == LineValueIndicator::Changed || from[x].indicator
                    == LineValueIndicator::Deleted
            &&& forall|x: int|
                0 <= x < to.len() ==> (#[trigger] to[x]).indicator == LineValueIndicator::Changed
                    || to[x].indicator == LineValueIndicator::Inserted
        },
    }
}

/// A hunk in unified format: its header and its segments.
pub open spec fn hunk_text(hunk: HunkSpec) -> Seq<char> {
    hunk_header_text(hunk) + segments_text(segments_spec(hunk).unwrap())
}

/// A file header in unified format: `---` for the old file, `+++` for the new one, the path,
/// a tab and the timestamp in GNU format.
pub open spec fn file_header_text(header: FileHeaderSpec, is_from: bool) -> Seq<char> {
    (if is_from {
        seq!['-', '-', '-']
    } else {
        seq!['+', '+', '+']
    }) + seq![' '] + header.path + seq!['\t'] + header.time.gnu_text() + seq!['\n']
}

/// The hunks in unified format, one after the other.
pub open spec fn hunks_text(hunks: Seq<HunkSpec>) -> Seq<char>
    decreases hunks.len(),
{
    if hunks.len() == 0 {
        Seq::empty()
    } else {
        hunks_text(hunks.drop_last()) + hunk_text(hunks.last())
    }
}

/// A file diff in unified format.
pub open spec fn file_text(diff: FileDiffSpec) -> Seq<char> {
    file_header_text(diff.from_header, true) + file_header_text(diff.to_header, false)
        + hunks_text(diff.hunks)
}

/// The file diffs in unified format, one after the other.
pub open spec fn files_text(diffs: Seq<FileDiffSpec>) -> Seq<char>
    decreases diffs.len(),
{
    if diffs.len() == 0 {
        Seq::empty()
    } else {
        files_text(diffs.drop_last()) + file_text(diffs.last())
    }
}

/// A context diff in unified format: the comment and a line break when there is a comment,
/// then the file diffs.
pub open spec fn unified_text(diff: ContextDiffSpec) -> Seq<char> {
    (if diff.comment.len() == 0 {
        Seq::empty()
    } else {
        diff.comment.push('\n')
    }) + files_text(diff.diffs)
}

/// Whether every hunk of the context diff can be translated.
pub open spec fn all_translatable(diff: ContextDiffSpec) -> bool {
    forall|f: int, h: int|
        0 <= f < diff.diffs.len() && 0 <= h < diff.diffs[f].hunks.len() ==> translatable(
            #[trigger] diff.diffs[f].hunks[h],
        )
}

/// Formats a line with the given marker in unified diff format.
fn format_marked(marker: char, value: &str) -> (r: String)
    ensures
        r@ == marked_line(marker, value@),
{
    let mut s = String::new();
    string_push(&mut s, marker);
    push_str(&mut s, value);
    string_push(&mut s, '\n');
    assert(s@ =~= marked_line(marker, value@));
    s
}

/// Formats a context line in unified diff format.
pub fn format_context(value: &str) -> (r: String)
    ensures
        r@ == marked_line(' ', value@),
{
    format_marked(' ', value)
}

/// Formats a deletion line in unified diff format.
pub fn format_deletion(value: &str) -> (r: String)
    ensures
        r@ == marked_line('-', value@),
{
    format_marked('-', value)
}

/// Formats an insertion line in unified diff format.
pub fn format_insertion(value: &str) -> (r: String)
    ensures
        r@ == marked_line('+', value@),
{
    format_marked('+', value)
}

/// Translates a file diff header to unified diff format.
pub fn translate_file_header(header: FileDiffHeader, is_from: bool) -> (r: String)
    ensures
        r@ == file_header_text(header@, is_from),
{
    let mut s = String::new();
    if is_from {
        string_push(&mut s, '-');
        string_push(&mut s, '-');
        string_push(&mut s, '-');
    } else {
        string_push(&mut s, '+');
        string_push(&mut s, '+');
        string_push(&mut s, '+');
    }
    string_push(&mut s, ' ');
    push_str(&mut s, header.file_path.as_str());
    string_push(&mut s, '\t');
    let timestamp = header.modification_time.to_string();
    push_str(&mut s, timestamp.as_str());
    string_push(&mut s, '\n');
    assert(s@ =~= file_header_text(header@, is_from));
    s
}

/// Appends the lines of a vector as context lines (marker ` `), deletions (`-`) or
/// insertions (`+`).
fn push_marked_lines(s: &mut String, marker: char, lines: &Vec<LineValue>)
    requires
        marker == ' ' || marker == '-' || marker == '+',
    ensures
        final(s)@ == old(s)@ + marked_lines(marker, lines_view(lines@)),
{
    let mut k: usize = 0;
    while k < lines.len()
        invariant
            k <= lines.len(),
            marker == ' ' || marker == '-' || marker == '+',
            s@ == old(s)@ + marked_lines(marker, lines_view(lines@).take(k as int)),
        decreases lines.len() - k,
    {
        let value = lines[k].line_value.as_str();
        let line = if marker == ' ' {
            format_context(value)
        } else if marker == '-' {
            format_deletion(value)
        } else {
            format_insertion(value)
        };
        proof {
            let t = lines_view(lines@).take(k + 1);
            assert(t.drop_last() =~= lines_view(lines@).take(k as int));
            assert(t.last() == lines@[k as int]@);
        }
        push_str(s, line.as_str());
        k = k + 1;
    }
    assert(lines_view(lines@).take(lines.len() as int) =~= lines_view(lines@));
}

/// Translates a hunk to unified diff format.
pub fn translate_hunk(hunk: Hunk) -> (r: String)
    requires
        translatable(hunk@),
    ensures
        r@ == hunk_text(hunk@),
{
    let ghost h = hunk@;
    let mut translated_hunk = String::new();
    let old_start = match hunk.from_file_header.start_line {
        Some(start) => start,
        None => hunk.from_file_header.end_line,
    };
    let new_start = match hunk.to_file_header.start_line {
        Some(start) => start,
        None => hunk.to_file_header.end_line,
    };
    let old_length = hunk.from_file_header.expected_hunk_length();
    let new_length = hunk.to_file_header.expected_hunk_length();
    string_push(&mut translated_hunk, '@');
    string_push(&mut translated_hunk, '@');
    string_push(&mut translated_hunk, ' ');
    string_push(&mut translated_hunk, '-');
    push_decimal(&mut translated_hunk, old_start);
    string_push(&mut translated_hunk, ',');
    push_decimal(&mut translated_hunk, old_length);
    string_push(&mut translated_hunk, ' ');
    string_push(&mut translated_hunk, '+');
    push_decimal(&mut translated_hunk, new_start);
    string_push(&mut translated_hunk, ',');
    push_decimal(&mut translated_hunk, new_length);
    string_push(&mut translated_hunk, ' ');
    string_push(&mut translated_hunk, '@');
    string_push(&mut translated_hunk, '@');
    string_push(&mut translated_hunk, '\n');
    assert(translated_hunk@ =~= hunk_header_text(h));
    // Translate hunk segments
    let segments = split_hunk(hunk);
    let ghost segs = segments_spec(h).unwrap();
    let mut k: usize = 0;
    while k < segments.len()
        invariant
            k <= segments.len(),
            segs == crate::parser::segmenter::segments_view(segments@),
            forall|x: int| 0 <= x < segs.len() ==> #[trigger] change_lines_valid(segs[x]),
            translated_hunk@ == hunk_header_text(h) + segments_text(segs.take(k as int)),
        decreases segments.len() - k,
    {
        let ghost before = translated_hunk@;
        assert(segs[k as int] == segments@[k as int]@);
        assert(change_lines_valid(segs[k as int]));
        match &segments[k] {
            HunkSegment::Context(lines) => {
                push_marked_lines(&mut translated_hunk, ' ', lines);
            },
            HunkSegment::Change { from, to } => {
                push_marked_lines(&mut translated_hunk, '-', from);
                push_marked_lines(&mut translated_hunk, '+', to);
            },
        }
        proof {
            let t = segs.take(k + 1);
            assert(t.drop_last() =~= segs.take(k as int));
            assert(t.last() == segs[k as int]);
        }
        k = k + 1;
    }
    assert(segs.take(segments.len() as int) =~= segs);
    translated_hunk
}


/// Translates a context diff to a unified diff.
pub fn translate_to_unified_diff(context_diff: ContextDiffFile) -> (r: String)
    requires
        all_translatable(context_diff@),
    ensures
        r@ == unified_text(context_diff@),
{
    let ghost diff = context_diff@;
    let mut string = String::new();
    // Add comments
    if !context_diff.comment.as_str().is_empty() {
        push_str(&mut string, context_diff.comment.as_str());
        string_push(&mut string, '\n');
    }
    let ghost head = string@;
    assert(head == (if diff.comment.len() == 0 {
        Seq::<char>::empty()
    } else {
        diff.comment.push('\n')
    }));
    let ghost files = diff.diffs;
    proof {
        vstd::std_specs::vec::axiom_spec_into_iter(context_diff.diffs);
    }
    // Add all file diffs
    for file in it: context_diff.diffs
        invariant
            it.seq() == context_diff.diffs@,
            files == context_diff.diffs@.map_values(|d: FileDiff| d@),
            all_translatable(diff),
            diff.diffs == files,
            string@ == head + files_text(files.take(it.index() as int)),
    {
        let ghost f = it.index() as int;
        let ghost before = string@;
        assert(file@ == files[f]);
        let from_text = translate_file_header(file.from_header, true);
        push_str(&mut string, from_text.as_str());
        let to_text = translate_file_header(file.to_header, false);
        push_str(&mut string, to_text.as_str());
        let ghost hunks = file@.hunks;
        let ghost mid = string@;
        proof {
            vstd::std_specs::vec::axiom_spec_into_iter(file.hunks);
        }
        // Add all hunks
        for hunk in hit: file.hunks
            invariant
                hit.seq() == file.hunks@,
                hunks == file.hunks@.map_values(|h: Hunk| h@),
                forall|h: int| 0 <= h < hunks.len() ==> translatable(#[trigger] hunks[h]),
                string@ == mid + hunks_text(hunks.take(hit.index() as int)),
        {
            let ghost h = hit.index() as int;
            assert(hunk@ == hunks[h]);
            let hunk_text = translate_hunk(hunk);
            push_str(&mut string, hunk_text.as_str());
            proof {
                let t = hunks.take(h + 1);
                assert(t.drop_last() =~= hunks.take(h));
                assert(t.last() == hunks[h]);
            }
        }
        proof {
            assert(hunks.take(hunks.len() as int) =~= hunks);
            let t = files.take(f + 1);
            assert(t.drop_last() =~= files.take(f));
            assert(t.last() == files[f]);
        }
    }
    assert(files.take(files.len() as int) =~= files);
    string
}


/// The unified header of a parsed hunk agrees with its body. The lines written with a space
/// or a `+` (the new side of the segments) are as many as the header announces for the new
/// side; where the hunk has lines on its old side and its new side does not hold only
/// unchanged and inserted lines, the lines written with a space or a `-` (the old side of the
/// segments) are as many as the header announces for the old side.
pub proof fn lemma_unified_header_counts(hunk: HunkSpec)
    requires
        counts_match_headers(hunk),
        segments_spec(hunk) is Some,
    ensures
        new_side(segments_spec(hunk).unwrap()).len() == hunk.to_header.expected_length(),
        hunk.from_lines.len() > 0 && !only_insertions(hunk.to_lines) ==> old_side(
            segments_spec(hunk).unwrap(),
        ).len() == hunk.from_header.expected_length(),
{
    lemma_split_keeps_lines(hunk);
}


/// Whether the changed lines that a step moves past can be marked in unified format: on the
/// old side changed or deleted lines, on the new side changed or inserted lines.
pub open spec fn step_markable(s: Step) -> bool {
    match s {
        Step::Pair(_) => true,
        Step::Moves(a, b) => {
            &&& a matches Some(l) ==> l.indicator == LineValueIndicator::Changed || l.indicator
                == LineValueIndicator::Deleted
            &&& b matches Some(l) ==> l.indicator == LineValueIndicator::Changed || l.indicator
                == LineValueIndicator::Inserted
        },
    }
}

/// Whether every segment holds only lines that the unified format can mark.
pub open spec fn segments_markable(segs: Seq<SegmentSpec>) -> bool {
    forall|k: int| 0 <= k < segs.len() ==> #[trigger] change_lines_valid(segs[k])
}

/// Whether every step moves past lines that the unified format can mark.
pub open spec fn steps_markable(steps: Seq<Step>) -> bool {
    forall|k: int| 0 <= k < steps.len() ==> #[trigger] step_markable(steps[k])
}

/// Whether the walk through the sides of a hunk from line `i` of the old side and line `j`
/// of the new side ends, moving past only lines that the unified format can mark.
pub open spec fn walk_markable(from: Seq<LineSpec>, to: Seq<LineSpec>, i: int, j: int) -> bool {
    paired_steps(from, to, i, j) matches Some(steps) && steps_markable(steps)
}

proof fn lemma_segments_markable_push(g: Seq<SegmentSpec>, x: SegmentSpec)
    ensures
        segments_markable(g.push(x)) == (segments_markable(g) && change_lines_valid(x)),
{
    let n = g.push(x);
    if segments_markable(g) && change_lines_valid(x) {
        assert forall|k: int| 0 <= k < n.len() implies #[trigger] change_lines_valid(n[k]) by {
            if k < g.len() {
                assert(n[k] == g[k]);
            }
        }
    }
    if segments_markable(n) {
        assert(n[g.len() as int] == x);
        assert(change_lines_valid(n[g.len() as int]));
        assert forall|k: int| 0 <= k < g.len() implies #[trigger] change_lines_valid(g[k]) by {
            assert(n[k] == g[k]);
            assert(change_lines_valid(n[k]));
        }
    }
}

proof fn lemma_steps_markable_push(p: Seq<Step>, s: Step)
    ensures
        steps_markable(p.push(s)) == (steps_markable(p) && step_markable(s)),
{
    let n = p.push(s);
    if steps_markable(p) && step_markable(s) {
        assert forall|k: int| 0 <= k < n.len() implies #[trigger] step_markable(n[k]) by {
            if k < p.len() {
                assert(n[k] == p[k]);
            }
        }
    }
    if steps_markable(n) {
        assert(n[p.len() as int] == s);
        assert(step_markable(n[p.len() as int]));
        assert forall|k: int| 0 <= k < p.len() implies #[trigger] step_markable(p[k]) by {
            assert(n[k] == p[k]);
            assert(step_markable(n[k]));
        }
    }
}

proof fn lemma_steps_markable_prepend(s: Step, rest: Seq<Step>)
    ensures
        steps_markable(seq![s] + rest) == (step_markable(s) && steps_markable(rest)),
{
    let n = seq![s] + rest;
    if step_markable(s) && steps_markable(rest) {
        assert forall|k: int| 0 <= k < n.len() implies #[trigger] step_markable(n[k]) by {
            if k > 0 {
                assert(n[k] == rest[k - 1]);
            }
        }
    }
    if steps_markable(n) {
        assert(n[0] == s);
        assert(step_markable(n[0]));
        assert forall|k: int| 0 <= k < rest.len() implies #[trigger] step_markable(rest[k]) by {
            assert(n[k + 1] == rest[k]);
            assert(step_markable(n[k + 1]));
        }
    }
}

/// Grouping steps into segments: the segments hold only lines that the unified format can
/// mark exactly when the steps move past only such lines.
proof fn lemma_group_markable(steps: Seq<Step>)
    ensures
        segments_markable(group(steps)) == steps_markable(steps),
    decreases steps.len(),
{
    if steps.len() == 0 {
        assert(group(steps) =~= Seq::<SegmentSpec>::empty());
    } else {
        let p = steps.drop_last();
        let s = steps.last();
        lemma_group_markable(p);
        assert(steps =~= p.push(s));
        lemma_group_push(p, s);
        lemma_steps_markable_push(p, s);
        let g = group(p);
        if g.len() > 0 && continues(g.last(), s) {
            let g0 = g.drop_last();
            let last = g.last();
            let x = extend(last, s);
            assert(g =~= g0.push(last));
            lemma_segments_markable_push(g0, last);
            lemma_segments_markable_push(g0, x);
            match (last, s) {
                (SegmentSpec::Change(f, t), Step::Moves(a, b)) => {
                    let nf = f + opt_seq(a);
                    let nt = t + opt_seq(b);
                    if change_lines_valid(last) && step_markable(s) {
                        assert forall|y: int| 0 <= y < nf.len() implies (#[trigger] nf[y]).indicator
                            == LineValueIndicator::Changed || nf[y].indicator
                            == LineValueIndicator::Deleted by {
                            if y >= f.len() {
                                assert(nf[y] == a->0);
                            } else {
                                assert(nf[y] == f[y]);
                            }
                        }
                        assert forall|y: int| 0 <= y < nt.len() implies (#[trigger] nt[y]).indicator
                            == LineValueIndicator::Changed || nt[y].indicator
                            == LineValueIndicator::Inserted by {
                            if y >= t.len() {
                                assert(nt[y] == b->0);
                            } else {
                                assert(nt[y] == t[y]);
                            }
                        }
                    }
                    if change_lines_valid(x) {
                        assert forall|y: int| 0 <= y < f.len() implies (#[trigger] f[y]).indicator
                            == LineValueIndicator::Changed || f[y].indicator
                            == LineValueIndicator::Deleted by {
                            assert(nf[y] == f[y]);
                        }
                        assert forall|y: int| 0 <= y < t.len() implies (#[trigger] t[y]).indicator
                            == LineValueIndicator::Changed || t[y].indicator
                            == LineValueIndicator::Inserted by {
                            assert(nt[y] == t[y]);
                        }
                        if a is Some {
                            assert(nf[f.len() as int] == a->0);
                        }
                        if b is Some {
                            assert(nt[t.len() as int] == b->0);
                        }
                    }
                },
                _ => {},
            }
            assert(change_lines_valid(x) == (change_lines_valid(last) && step_markable(s)));
        } else {
            let x = step_segment(s);
            lemma_segments_markable_push(g, x);
            match s {
                Step::Pair(_) => {},
                Step::Moves(a, b) => {
                    if step_markable(s) {
                        assert forall|y: int| 0 <= y < opt_seq(a).len() implies (
                        #[trigger] opt_seq(a)[y]).indicator == LineValueIndicator::Changed
                            || opt_seq(a)[y].indicator == LineValueIndicator::Deleted by {
                            assert(opt_seq(a)[y] == a->0);
                        }
                        assert forall|y: int| 0 <= y < opt_seq(b).len() implies (
                        #[trigger] opt_seq(b)[y]).indicator == LineValueIndicator::Changed
                            || opt_seq(b)[y].indicator == LineValueIndicator::Inserted by {
                            assert(opt_seq(b)[y] == b->0);
                        }
                    }
                    if change_lines_valid(x) {
                        if a is Some {
                            assert(opt_seq(a)[0] == a->0);
                        }
                        if b is Some {
                            assert(opt_seq(b)[0] == b->0);
                        }
                    }
                },
            }
            assert(change_lines_valid(x) == step_markable(s));
        }
    }
}


/// Where both sides hold the same line, the walk goes on past both.
proof fn lemma_walk_pair(from: Seq<LineSpec>, to: Seq<LineSpec>, i: int, j: int)
    requires
        0 <= i < from.len(),
        0 <= j < to.len(),
        from[i] == to[j],
    ensures
        walk_markable(from, to, i, j) == walk_markable(from, to, i + 1, j + 1),
{
    if let Some(rest) = paired_steps(from, to, i + 1, j + 1) {
        lemma_steps_markable_prepend(Step::Pair(from[i]), rest);
    }
}

/// Where the sides differ, the walk moves past the line of each side that is not unchanged,
/// and stops without an end where neither can move.
proof fn lemma_walk_move(from: Seq<LineSpec>, to: Seq<LineSpec>, i: int, j: int, a: bool, b: bool)
    requires
        0 <= i <= from.len(),
        0 <= j <= to.len(),
        !(i < from.len() && j < to.len() && from[i] == to[j]),
        !(i >= from.len() && j >= to.len()),
        a == (i < from.len() && from[i].indicator != LineValueIndicator::Unchanged),
        b == (j < to.len() && to[j].indicator != LineValueIndicator::Unchanged),
    ensures
        !a && !b ==> !walk_markable(from, to, i, j),
        a || b ==> walk_markable(from, to, i, j) == (step_markable(
            Step::Moves(
                if a {
                    Some(from[i])
                } else {
                    None
                },
                if b {
                    Some(to[j])
                } else {
                    None
                },
            ),
        ) && walk_markable(
            from,
            to,
            if a {
                i + 1
            } else {
                i
            },
            if b {
                j + 1
            } else {
                j
            },
        )),
{
    let ni = if a {
        i + 1
    } else {
        i
    };
    let nj = if b {
        j + 1
    } else {
        j
    };
    let step = Step::Moves(
        if a {
            Some(from[i])
        } else {
            None
        },
        if b {
            Some(to[j])
        } else {
            None
        },
    );
    if a || b {
        if let Some(rest) = paired_steps(from, to, ni, nj) {
            lemma_steps_markable_prepend(step, rest);
        }
    }
}

/// Whether the walk through both sides of a hunk ends, moving past only lines that the
/// unified format can mark.
fn walk_is_markable(from: &Vec<LineValue>, to: &Vec<LineValue>) -> (r: bool)
    ensures
        r == walk_markable(lines_view(from@), lines_view(to@), 0, 0),
{
    let ghost f = lines_view(from@);
    let ghost t = lines_view(to@);
    let mut i: usize = 0;
    let mut j: usize = 0;
    loop
        invariant
            i <= from.len(),
            j <= to.len(),
            f == lines_view(from@),
            t == lines_view(to@),
            walk_markable(f, t, 0, 0) == walk_markable(f, t, i as int, j as int),
        decreases (from.len() - i) + (to.len() - j),
    {
        if i < from.len() && j < to.len() && same_line(&from[i], &to[j]) {
            proof {
                assert(from@[i as int]@ == f[i as int]);
                assert(to@[j as int]@ == t[j as int]);
                lemma_walk_pair(f, t, i as int, j as int);
            }
            i = i + 1;
            j = j + 1;
            continue ;
        }
        proof {
            assert(i < from.len() ==> from@[i as int]@ == f[i as int]);
            assert(j < to.len() ==> to@[j as int]@ == t[j as int]);
        }
        if i >= from.len() && j >= to.len() {
            proof {
                assert(paired_steps(f, t, i as int, j as int) == Some(Seq::<Step>::empty()));
            }
            return true;
        }
        let move_from = i < from.len() && from[i].indicator != LineValueIndicator::Unchanged;
        let move_to = j < to.len() && to[j].indicator != LineValueIndicator::Unchanged;
        proof {
            lemma_walk_move(f, t, i as int, j as int, move_from, move_to);
        }
        if !move_from && !move_to {
            return false;
        }
        let from_ok = !move_from || from[i].indicator == LineValueIndicator::Changed
            || from[i].indicator == LineValueIndicator::Deleted;
        let to_ok = !move_to || to[j].indicator == LineValueIndicator::Changed || to[j].indicator
            == LineValueIndicator::Inserted;
        if !(from_ok && to_ok) {
            return false;
        }
        if move_from {
            i = i + 1;
        }
        if move_to {
            j = j + 1;
        }
    }
}

/// The steps of a hunk whose old side is empty move past only lines that the unified format
/// can mark exactly when its new side holds no deleted line.
proof fn lemma_only_to_markable(to_lines: Seq<LineSpec>)
    ensures
        steps_markable(only_to_steps(to_lines)) == (forall|x: int|
            0 <= x < to_lines.len() ==> (#[trigger] to_lines[x]).indicator
                != LineValueIndicator::Deleted),
{
    let st = only_to_steps(to_lines);
    if steps_markable(st) {
        assert forall|x: int| 0 <= x < to_lines.len() implies (#[trigger] to_lines[x]).indicator
            != LineValueIndicator::Deleted by {
            assert(step_markable(st[x]));
        }
    }
}

/// Whether the lines hold no deleted line.
fn no_deleted_line(lines: &Vec<LineValue>) -> (r: bool)
    ensures
        r == (forall|x: int|
            0 <= x < lines_view(lines@).len() ==> (#[trigger] lines_view(lines@)[x]).indicator
                != LineValueIndicator::Deleted),
{
    let mut k: usize = 0;
    while k < lines.len()
        invariant
            k <= lines.len(),
            forall|x: int| 0 <= x < k ==> (#[trigger] lines_view(lines@)[x]).indicator
                != LineValueIndicator::Deleted,
        decreases lines.len() - k,
    {
        if lines[k].indicator == LineValueIndicator::Deleted {
            assert(lines_view(lines@)[k as int].indicator == LineValueIndicator::Deleted);
            return false;
        }
        k = k + 1;
    }
    true
}

/// Whether a hunk can be translated to unified format: both headers announce a number of
/// lines that can be computed, splitting it ends, and no change holds a line that the
/// unified format cannot mark.
pub fn hunk_is_translatable(hunk: &Hunk) -> (r: bool)
    ensures
        r == translatable(hunk@),
{
    if !length_is_computable(&hunk.from_file_header) || !length_is_computable(
        &hunk.to_file_header,
    ) {
        return false;
    }
    let ghost h = hunk@;
    if hunk.from_file_lines.len() == 0 {
        let r = no_deleted_line(&hunk.to_file_lines);
        proof {
            lemma_only_to_markable(h.to_lines);
            lemma_group_markable(only_to_steps(h.to_lines));
            assert(h.from_lines.len() == 0);
            assert(segments_spec(h) == Some(group(only_to_steps(h.to_lines))));
            assert(h.from_header.length_computable());
            assert(h.to_header.length_computable());
            let segs = group(only_to_steps(h.to_lines));
            assert(segments_markable(segs) ==> translatable(h));
            if translatable(h) {
                assert forall|k: int| 0 <= k < segs.len() implies #[trigger] change_lines_valid(
                    segs[k],
                ) by {
                    assert(segments_spec(h)->0 == segs);
                }
            }
        }
        r
    } else {
        let r = walk_is_markable(&hunk.from_file_lines, &hunk.to_file_lines);
        proof {
            assert(h.from_lines.len() > 0);
            if let Some(steps) = paired_steps(h.from_lines, h.to_lines, 0, 0) {
                lemma_group_markable(steps);
                assert(segments_spec(h) == Some(group(steps)));
                if translatable(h) {
                    let segs = group(steps);
                    assert forall|k: int| 0 <= k < segs.len() implies #[trigger] change_lines_valid(
                        segs[k],
                    ) by {
                        assert(segments_spec(h)->0 == segs);
                    }
                }
            } else {
                assert(segments_spec(h) is None);
            }
        }
        r
    }
}

/// Whether a context diff can be translated to unified format: every hunk of every file
/// diff can.
pub fn is_translatable(context_diff: &ContextDiffFile) -> (r: bool)
    ensures
        r == all_translatable(context_diff@),
{
    let ghost d = context_diff@;
    let mut f: usize = 0;
    while f < context_diff.diffs.len()
        invariant
            f <= context_diff.diffs.len(),
            d == context_diff@,
            forall|x: int, y: int|
                0 <= x < f && 0 <= y < d.diffs[x].hunks.len() ==> translatable(
                    #[trigger] d.diffs[x].hunks[y],
                ),
        decreases context_diff.diffs.len() - f,
    {
        let hunks = &context_diff.diffs[f].hunks;
        assert(d.diffs[f as int] == context_diff.diffs@[f as int]@);
        let mut h: usize = 0;
        while h < hunks.len()
            invariant
                f < context_diff.diffs.len(),
                h <= hunks.len(),
                d == context_diff@,
                hunks@ == context_diff.diffs@[f as int].hunks@,
                d.diffs[f as int].hunks == hunks@.map_values(|x: Hunk| x@),
                forall|x: int, y: int|
                    0 <= x < f && 0 <= y < d.diffs[x].hunks.len() ==> translatable(
                        #[trigger] d.diffs[x].hunks[y],
                    ),
                forall|y: int| 0 <= y < h ==> translatable(#[trigger] d.diffs[f as int].hunks[y]),
            decreases hunks.len() - h,
        {
            assert(d.diffs[f as int].hunks[h as int] == hunks@[h as int]@);
            if !hunk_is_translatable(&hunks[h]) {
                assert(!translatable(d.diffs[f as int].hunks[h as int]));
                return false;
            }
            h = h + 1;
        }
        assert forall|x: int, y: int|
            0 <= x < f + 1 && 0 <= y < d.diffs[x].hunks.len() implies translatable(
            #[trigger] d.diffs[x].hunks[y],
        ) by {
            if x == f {
                assert(translatable(d.diffs[f as int].hunks[y]));
            }
        }
        f = f + 1;
    }
    true
}


/// Every line of a side is written, once and in order, whatever its text (an empty one
/// too): the marked lines are, for each line one after the other, the marker, the text of
/// the line and a line break. So where neither the marker nor a text is a line break, the
/// marked lines hold exactly one line break per line.
pub proof fn lemma_marked_lines_each_line(marker: char, lines: Seq<LineSpec>)
    ensures
        marked_lines(marker, lines) == lines.map_values(
            |l: LineSpec| seq![marker] + l.text + seq!['\n'],
        ).flatten(),
        marker != '\n' && (forall|i: int|
            0 <= i < lines.len() ==> count_char(#[trigger] lines[i].text, '\n') == 0) ==> count_char(
            marked_lines(marker, lines),
            '\n',
        ) == lines.len(),
    decreases lines.len(),
{
    if lines.len() == 0 {
        assert(lines.map_values(|l: LineSpec| seq![marker] + l.text + seq!['\n']) =~= Seq::<
            Seq<char>,
        >::empty());
    } else {
        let p = lines.drop_last();
        let l = lines.last();
        lemma_marked_lines_each_line(marker, p);
        let m = |l: LineSpec| seq![marker] + l.text + seq!['\n'];
        assert(lines.map_values(m) =~= p.map_values(m).push(m(l)));
        p.map_values(m).lemma_flatten_push(m(l));
        assert(marked_line(marker, l.text) == m(l));
        if marker != '\n' && forall|i: int|
            0 <= i < lines.len() ==> count_char(#[trigger] lines[i].text, '\n') == 0 {
            assert forall|i: int| 0 <= i < p.len() implies count_char(#[trigger] p[i].text, '\n')
                == 0 by {
                assert(p[i] == lines[i]);
            }
            assert(lines[lines.len() - 1] == l);
            lemma_count_char_concat(marked_lines(marker, p), m(l), '\n');
            lemma_count_char_concat(seq![marker] + l.text, seq!['\n'], '\n');
            lemma_count_char_concat(seq![marker], l.text, '\n');
            assert(seq![marker].drop_last() =~= Seq::<char>::empty());
            assert(seq!['\n'].drop_last() =~= Seq::<char>::empty());
            assert(count_char(Seq::<char>::empty(), '\n') == 0);
            assert(count_char(seq![marker], '\n') == 0);
            assert(count_char(seq!['\n'], '\n') == 1);
        }
    }
}


/// The unified header of a hunk names, after `-` and `+`, the start line of each side as
/// its context header gives it (the single line number where it gives no range), in decimal
/// that reads back as that number, and the number of lines each header announces; the body
/// follows it.
pub proof fn lemma_unified_header_names_start_lines(hunk: HunkSpec)
    ensures
        ({
            let old_start = match hunk.from_header.start_line {
                Some(s) => s,
                None => hunk.from_header.end_line,
            };
            let new_start = match hunk.to_header.start_line {
                Some(s) => s,
                None => hunk.to_header.end_line,
            };
            &&& hunk_text(hunk) == seq!['@', '@', ' ', '-'] + decimal(old_start as nat) + seq![',']
                + decimal(hunk.from_header.expected_length() as nat) + seq![' ', '+'] + decimal(
                new_start as nat,
            ) + seq![','] + decimal(hunk.to_header.expected_length() as nat) + seq![
                ' ',
                '@',
                '@',
                '\n',
            ] + segments_text(segments_spec(hunk).unwrap())
            &&& u64_reading(decimal(old_start as nat)) == Some(old_start)
            &&& u64_reading(decimal(new_start as nat)) == Some(new_start)
        }),
{
    let old_start = match hunk.from_header.start_line {
        Some(s) => s,
        None => hunk.from_header.end_line,
    };
    let new_start = match hunk.to_header.start_line {
        Some(s) => s,
        None => hunk.to_header.end_line,
    };
    lemma_decimal_reads_back(old_start);
    lemma_decimal_reads_back(new_start);
}


/// The number of lines a segment is written with in unified format: each context line once,
/// each changed line of either side once.
pub open spec fn written_lines(seg: SegmentSpec) -> nat {
    match seg {
        SegmentSpec::Context(lines) => lines.len(),
        SegmentSpec::Change(from, to) => from.len() + to.len(),
    }
}

/// Whether no line of a segment holds a line break in its text.
pub open spec fn texts_unbroken(seg: SegmentSpec) -> bool {
    match seg {
        SegmentSpec::Context(lines) => forall|i: int|
            0 <= i < lines.len() ==> count_char(#[trigger] lines[i].text, '\n') == 0,
        SegmentSpec::Change(from, to) => {
            &&& forall|i: int|
                0 <= i < from.len() ==> count_char(#[trigger] from[i].text, '\n') == 0
            &&& forall|i: int| 0 <= i < to.len() ==> count_char(#[trigger] to[i].text, '\n') == 0
        },
    }
}

/// The body of a unified hunk writes every line of every segment, and each as one line:
/// where no text holds a line break, the body holds as many line breaks as the segments hold
/// lines (context lines once, changed lines of both sides).
pub proof fn lemma_unified_body_line_count(segs: Seq<SegmentSpec>)
    requires
        forall|k: int| 0 <= k < segs.len() ==> texts_unbroken(#[trigger] segs[k]),
    ensures
        count_char(segments_text(segs), '\n') == segs.fold_left(
            0nat,
            |n: nat, seg: SegmentSpec| n + written_lines(seg),
        ),
    decreases segs.len(),
{
    if segs.len() > 0 {
        let p = segs.drop_last();
        let last = segs.last();
        assert forall|k: int| 0 <= k < p.len() implies texts_unbroken(#[trigger] p[k]) by {
            assert(p[k] == segs[k]);
        }
        assert(texts_unbroken(segs[segs.len() - 1]));
        lemma_unified_body_line_count(p);
        lemma_count_char_concat(segments_text(p), segment_text(last), '\n');
        match last {
            SegmentSpec::Context(lines) => {
                lemma_marked_lines_each_line(' ', lines);
            },
            SegmentSpec::Change(from, to) => {
                lemma_marked_lines_each_line('-', from);
                lemma_marked_lines_each_line('+', to);
                lemma_count_char_concat(marked_lines('-', from), marked_lines('+', to), '\n');
            },
        }
    }
}

} // verus!
