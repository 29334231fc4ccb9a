//! Segmenter to split context diff hunks into segments, with each
//! segment being either a pair of changes or context lines.
use vstd::prelude::*;

use crate::specification::file::{lemma_lines_view_push, lines_view};
use crate::text::lemma_push_then_append;
use crate::specification::{Hunk, HunkSpec, LineSpec, LineValue, LineValueIndicator};

verus! {

/// Represents a segment of a hunk, consisting of either context lines or change lines.
#[derive(Debug, PartialEq, Eq)]
pub enum HunkSegment {
    Context(Vec<LineValue>),
    Change { from: Vec<LineValue>, to: Vec<LineValue> },
}

/// A segment of a hunk: context lines, or the changed lines of the old and the new side.
pub enum SegmentSpec {
    Context(Seq<LineSpec>),
    Change(Seq<LineSpec>, Seq<LineSpec>),
}

impl View for HunkSegment {
    type V = SegmentSpec;

    open spec fn view(&self) -> SegmentSpec {
        match self {
            HunkSegment::Context(lines) => SegmentSpec::Context(lines_view(lines@)),
            HunkSegment::Change { from, to } => SegmentSpec::Change(
                lines_view(from@),
                lines_view(to@),
            ),
        }
    }
}

/// One step of the walk through a hunk: a line that both sides hold (context), or the
/// changed lines that each side moves past.
pub enum Step {
    Pair(LineSpec),
    Moves(Option<LineSpec>, Option<LineSpec>),
}

/// The line, if any, as a sequence.
pub open spec fn opt_seq(l: Option<LineSpec>) -> Seq<LineSpec> {
    match l {
        Some(l) => seq![l],
        None => Seq::empty(),
    }
}

/// The segment that holds one step.
pub open spec fn step_segment(s: Step) -> SegmentSpec {
    match s {
        Step::Pair(l) => SegmentSpec::Context(seq![l]),
        Step::Moves(a, b) => SegmentSpec::Change(opt_seq(a), opt_seq(b)),
    }
}

/// Whether a step continues a segment: context after context, changes after changes.
pub open spec fn continues(seg: SegmentSpec, s: Step) -> bool {
    match (seg, s) {
        (SegmentSpec::Context(_), Step::Pair(_)) => true,
        (SegmentSpec::Change(_, _), Step::Moves(_, _)) => true,
        _ => false,
    }
}

/// A segment with one more step, of its own kind.
pub open spec fn extend(seg: SegmentSpec, s: Step) -> SegmentSpec {
    match (seg, s) {
        (SegmentSpec::Context(c), Step::Pair(l)) => SegmentSpec::Context(c.push(l)),
        (SegmentSpec::Change(f, t), Step::Moves(a, b)) => SegmentSpec::Change(
            f + opt_seq(a),
            t + opt_seq(b),
        ),
        _ => seg,
    }
}

/// The steps grouped into maximal runs of one kind.
pub open spec fn group(steps: Seq<Step>) -> Seq<SegmentSpec>
    decreases steps.len(),
{
    if steps.len() == 0 {
        Seq::empty()
    } else {
        let g = group(steps.drop_last());
        let s = steps.last();
        if g.len() > 0 && continues(g.last(), s) {
            g.drop_last().push(extend(g.last(), s))
        } else {
            g.push(step_segment(s))
        }
    }
}

/// The steps of a hunk whose old side is empty: an unchanged line is context, any other
/// line is a change of the new side.
pub open spec fn only_to_steps(to_lines: Seq<LineSpec>) -> Seq<Step> {
    to_lines.map_values(
        |l: LineSpec|
            if l.indicator == LineValueIndicator::Unchanged {
                Step::Pair(l)
            } else {
                Step::Moves(None, Some(l))
            },
    )
}

/// The steps of a hunk from line `i` of the old side and line `j` of the new side: where
/// both sides hold the same line, it is context and both move on; otherwise each side moves
/// past its line if that line is not unchanged. Where neither can move and lines are left,
/// there is no walk (`None`): the segmentation would not end.
pub open spec fn paired_steps(from: Seq<LineSpec>, to: Seq<LineSpec>, i: int, j: int) -> Option<
    Seq<Step>,
>
    decreases (from.len() - i) + (to.len() - j),
{
    if i < 0 || j < 0 || i > from.len() || j > to.len() {
        None
    } else if i < from.len() && j < to.len() && from[i] == to[j] {
        match paired_steps(from, to, i + 1, j + 1) {
            Some(rest) => Some(seq![Step::Pair(from[i])] + rest),
            None => None,
        }
    } else if i >= from.len() && j >= to.len() {
        Some(Seq::empty())
    } else {
        let a = i < from.len() && from[i].indicator != LineValueIndicator::Unchanged;
        let b = j < to.len() && to[j].indicator != LineValueIndicator::Unchanged;
        if !a && !b {
            None
        } else {
            let ni = if a {
                i + 1
            } else {
                i
            };
            let nj = if b {
                j + 1
            } else {
                j
            };
            let step = Step::Moves(
                if a {
                    Some(from[i])
                } else {
                    None
                },
                if b {
                    Some(to[j])
                } else {
                    None
                },
            );
            match paired_steps(from, to, ni, nj) {
                Some(rest) => Some(seq![step] + rest),
                None => None,
            }
        }
    }
}

/// The segments of a hunk, or `None` where splitting it would not end.
pub open spec fn segments_spec(hunk: HunkSpec) -> Option<Seq<SegmentSpec>> {
    if hunk.from_lines.len() == 0 {
        Some(group(only_to_steps(hunk.to_lines)))
    } else {
        match paired_steps(hunk.from_lines, hunk.to_lines, 0, 0) {
            Some(steps) => Some(group(steps)),
            None => None,
        }
    }
}

/// The segment that is being built, if it holds lines.
pub open spec fn pending(sync: bool, from: Seq<LineSpec>, to: Seq<LineSpec>) -> Seq<SegmentSpec> {
    if from.len() == 0 && to.len() == 0 {
        Seq::empty()
    } else if sync {
        seq![SegmentSpec::Context(from)]
    } else {
        seq![SegmentSpec::Change(from, to)]
    }
}

/// The segment that is being built when the old side is empty: context lines, or changes
/// of the new side.
pub open spec fn pending_new_side(sync: bool, lines: Seq<LineSpec>) -> Seq<SegmentSpec> {
    if sync {
        pending(true, lines, Seq::empty())
    } else {
        pending(false, Seq::empty(), lines)
    }
}

/// The segments of a vector.
pub open spec fn segments_view(v: Seq<HunkSegment>) -> Seq<SegmentSpec> {
    v.map_values(|s: HunkSegment| s@)
}

proof fn lemma_segments_view_push(v: Seq<HunkSegment>, s: HunkSegment)
    ensures
        segments_view(v.push(s)) == segments_view(v).push(s@),
{
    assert(segments_view(v.push(s)) =~= segments_view(v).push(s@));
}

/// Grouping one more step: it extends the last segment where it is of the same kind, and
/// opens a segment of its own otherwise.
pub proof fn lemma_group_push(steps: Seq<Step>, s: Step)
    ensures
        group(steps.push(s)) == (if group(steps).len() > 0 && continues(group(steps).last(), s) {
            group(steps).drop_last().push(extend(group(steps).last(), s))
        } else {
            group(steps).push(step_segment(s))
        }),
{
    assert(steps.push(s).drop_last() =~= steps);
    assert(steps.push(s).last() == s);
}

/// What a context step does to the segments built so far and the one being built.
proof fn lemma_context_step(
    done: Seq<Step>,
    built: Seq<SegmentSpec>,
    sync: bool,
    from: Seq<LineSpec>,
    to: Seq<LineSpec>,
    l: LineSpec,
)
    requires
        group(done) == built + pending(sync, from, to),
        sync ==> to.len() == 0 && done.len() > 0,
        done.len() > 0 ==> from.len() > 0 || to.len() > 0,
    ensures
        sync ==> group(done.push(Step::Pair(l))) == built + pending(true, from.push(l), to),
        !sync && (from.len() > 0 || to.len() > 0) ==> group(done.push(Step::Pair(l))) == built.push(
            SegmentSpec::Change(from, to),
        ) + pending(true, seq![l], Seq::empty()),
        !sync && from.len() == 0 && to.len() == 0 ==> group(done.push(Step::Pair(l))) == built
            + pending(true, seq![l], Seq::empty()),
{
    lemma_group_push(done, Step::Pair(l));
    if done.len() == 0 {
        assert(built =~= Seq::<SegmentSpec>::empty());
    }
    if sync {
        assert(group(done).last() == SegmentSpec::Context(from));
        assert(group(done).drop_last() =~= built);
        assert(group(done.push(Step::Pair(l))) =~= built + pending(true, from.push(l), to));
    } else if from.len() > 0 || to.len() > 0 {
        assert(group(done).last() == SegmentSpec::Change(from, to));
        assert(group(done.push(Step::Pair(l))) =~= built.push(SegmentSpec::Change(from, to))
            + pending(true, seq![l], Seq::empty()));
    } else {
        assert(group(done.push(Step::Pair(l))) =~= built + pending(true, seq![l], Seq::empty()));
    }
}

/// What a change step does to the segments built so far and the one being built.
proof fn lemma_change_step(
    done: Seq<Step>,
    built: Seq<SegmentSpec>,
    sync: bool,
    from: Seq<LineSpec>,
    to: Seq<LineSpec>,
    a: Option<LineSpec>,
    b: Option<LineSpec>,
)
    requires
        group(done) == built + pending(sync, from, to),
        sync ==> to.len() == 0 && done.len() > 0,
        done.len() > 0 ==> from.len() > 0 || to.len() > 0,
        a is Some || b is Some,
    ensures
        sync ==> group(done.push(Step::Moves(a, b))) == built.push(SegmentSpec::Context(from))
            + pending(false, opt_seq(a), opt_seq(b)),
        !sync ==> group(done.push(Step::Moves(a, b))) == built + pending(
            false,
            from + opt_seq(a),
            to + opt_seq(b),
        ),
{
    lemma_group_push(done, Step::Moves(a, b));
    if done.len() == 0 {
        assert(built =~= Seq::<SegmentSpec>::empty());
    }
    assert(opt_seq(a).len() > 0 || opt_seq(b).len() > 0);
    if sync {
        assert(group(done).last() == SegmentSpec::Context(from));
        assert(group(done.push(Step::Moves(a, b))) =~= built.push(SegmentSpec::Context(from))
            + pending(false, opt_seq(a), opt_seq(b)));
    } else if from.len() > 0 || to.len() > 0 {
        assert(group(done).last() == SegmentSpec::Change(from, to));
        assert(group(done).drop_last() =~= built);
        assert(group(done.push(Step::Moves(a, b))) =~= built + pending(
            false,
            from + opt_seq(a),
            to + opt_seq(b),
        ));
    } else {
        assert(from + opt_seq(a) =~= opt_seq(a));
        assert(to + opt_seq(b) =~= opt_seq(b));
        assert(group(done.push(Step::Moves(a, b))) =~= built + pending(
            false,
            from + opt_seq(a),
            to + opt_seq(b),
        ));
    }
}

/// One line of a hunk whose old side is empty: an unchanged line continues or opens a
/// context segment, any other continues or opens a change of the new side.
proof fn lemma_new_side_step(
    before: Seq<Step>,
    built: Seq<SegmentSpec>,
    sync: bool,
    cur: Seq<LineSpec>,
    l: LineSpec,
)
    requires
        group(before) == built + pending_new_side(sync, cur),
        before.len() > 0 ==> cur.len() > 0,
        sync ==> before.len() > 0,
    ensures
        l.indicator == LineValueIndicator::Unchanged ==> group(before.push(Step::Pair(l))) == (if !sync
            && cur.len() > 0 {
            built.push(SegmentSpec::Change(Seq::empty(), cur))
        } else {
            built
        }) + pending_new_side(
            true,
            if sync {
                cur.push(l)
            } else {
                seq![l]
            },
        ),
        l.indicator != LineValueIndicator::Unchanged ==> group(before.push(Step::Moves(None, Some(l))))
            == (if sync && cur.len() > 0 {
            built.push(SegmentSpec::Context(cur))
        } else {
            built
        }) + pending_new_side(
            false,
            if !sync {
                cur.push(l)
            } else {
                seq![l]
            },
        ),
{
    assert(Seq::<LineSpec>::empty().push(l) =~= seq![l]);
    assert(opt_seq(Some(l)) =~= seq![l]);
    assert(Seq::<LineSpec>::empty() + opt_seq(None) =~= Seq::<LineSpec>::empty());
    assert(cur + opt_seq(Some(l)) =~= cur.push(l));
    assert(Seq::<LineSpec>::empty() + opt_seq(Some(l)) =~= seq![l]);
    if l.indicator == LineValueIndicator::Unchanged {
        if sync {
            lemma_context_step(before, built, sync, cur, Seq::empty(), l);
        } else {
            lemma_context_step(before, built, sync, Seq::empty(), cur, l);
            if cur.len() == 0 {
                assert(cur =~= Seq::<LineSpec>::empty());
            }
        }
    } else {
        if sync {
            lemma_change_step(before, built, sync, cur, Seq::empty(), None, Some(l));
        } else {
            lemma_change_step(before, built, sync, Seq::empty(), cur, None, Some(l));
        }
    }
}

/// Whether two lines are the same line.
pub(crate) fn same_line(a: &LineValue, b: &LineValue) -> (r: bool)
    ensures
        r == (a@ == b@),
{
    let r = a.line_value == b.line_value && a.indicator == b.indicator;
    proof {
        if a.line_value@ == b.line_value@ && a.indicator == b.indicator {
            assert(a@ == b@);
        }
    }
    r
}

/// Splits a hunk into hunk segments.
pub fn split_hunk(hunk: Hunk) -> (r: Vec<HunkSegment>)
    requires
        segments_spec(hunk@) is Some,
    ensures
        Some(segments_view(r@)) == segments_spec(hunk@),
{
    if hunk.from_file_lines.len() == 0 {
        split_only_to_hunk(hunk)
    } else {
        split_to_and_from_hunk(hunk)
    }
}

/// Splits the hunk into segments when the hunk contains only to lines.
fn split_only_to_hunk(hunk: Hunk) -> (r: Vec<HunkSegment>)
    ensures
        segments_view(r@) == group(only_to_steps(hunk@.to_lines)),
{
    let ghost steps = only_to_steps(hunk@.to_lines);
    let mut blocks: Vec<HunkSegment> = Vec::new();
    let mut sync = false;
    let mut current_block: Vec<LineValue> = Vec::new();
    let lines = &hunk.to_file_lines;
    let mut k: usize = 0;
    assert(steps.take(0) =~= Seq::<Step>::empty());
    while k < lines.len()
        invariant
            k <= lines.len(),
            lines@ == hunk.to_file_lines@,
            steps == only_to_steps(lines_view(lines@)),
            steps.len() == lines.len(),
            group(steps.take(k as int)) == segments_view(blocks@) + pending_new_side(
                sync,
                lines_view(current_block@),
            ),
            k > 0 ==> current_block.len() > 0,
            sync ==> k > 0,
        decreases lines.len() - k,
    {
        let to_line = &lines[k];
        let ghost before = steps.take(k as int);
        let ghost built = segments_view(blocks@);
        let ghost cur = lines_view(current_block@);
        let ghost l = to_line@;
        let ghost old_sync = sync;
        proof {
            assert(steps.take(k + 1) =~= before.push(steps[k as int]));
            assert(lines_view(lines@)[k as int] == l);
            assert(steps[k as int] == (if l.indicator == LineValueIndicator::Unchanged {
                Step::Pair(l)
            } else {
                Step::Moves(None, Some(l))
            }));
            assert(lines_view(Seq::<LineValue>::empty()) =~= Seq::<LineSpec>::empty());
            lemma_new_side_step(before, built, sync, cur, l);
        }
        if to_line.indicator == LineValueIndicator::Unchanged {
            // Store change block
            if !sync && current_block.len() > 0 {
                let block = HunkSegment::Change { from: Vec::new(), to: current_block };
                proof {
                    lemma_segments_view_push(blocks@, block);
                }
                blocks.push(block);
                current_block = Vec::new();
            }
            // Add line to context block
            sync = true;
        } else {
            // Store context block
            if sync && current_block.len() > 0 {
                let block = HunkSegment::Context(current_block);
                proof {
                    lemma_segments_view_push(blocks@, block);
                }
                blocks.push(block);
                current_block = Vec::new();
            }
            // Add line to change block
            sync = false;
        }
        proof {
            lemma_lines_view_push(current_block@, *to_line);
            assert(Seq::<LineSpec>::empty().push(l) =~= seq![l]);
        }
        current_block.push(to_line.clone());
        proof {
            if l.indicator == LineValueIndicator::Unchanged {
                assert(segments_view(blocks@) == (if !old_sync && cur.len() > 0 {
                    built.push(SegmentSpec::Change(Seq::empty(), cur))
                } else {
                    built
                }));
                assert(lines_view(current_block@) == (if old_sync {
                    cur.push(l)
                } else {
                    seq![l]
                }));
            } else {
                assert(segments_view(blocks@) == (if old_sync && cur.len() > 0 {
                    built.push(SegmentSpec::Context(cur))
                } else {
                    built
                }));
                assert(lines_view(current_block@) == (if !old_sync {
                    cur.push(l)
                } else {
                    seq![l]
                }));
            }
        }
        k = k + 1;
    }
    // Add last block
    assert(lines_view(Seq::<LineValue>::empty()) =~= Seq::<LineSpec>::empty());
    if current_block.len() > 0 {
        let block = if sync {
            HunkSegment::Context(current_block)
        } else {
            HunkSegment::Change { from: Vec::new(), to: current_block }
        };
        proof {
            lemma_segments_view_push(blocks@, block);
        }
        blocks.push(block);
    }
    assert(steps.take(lines.len() as int) =~= steps);
    assert(segments_view(blocks@) =~= group(steps));
    blocks
}

/// Splits the hunk into segments when the hunk contains both from and to lines.
fn split_to_and_from_hunk(hunk: Hunk) -> (r: Vec<HunkSegment>)
    requires
        paired_steps(hunk@.from_lines, hunk@.to_lines, 0, 0) is Some,
    ensures
        segments_view(r@) == group(paired_steps(hunk@.from_lines, hunk@.to_lines, 0, 0).unwrap()),
{
    let ghost from = hunk@.from_lines;
    let ghost to = hunk@.to_lines;
    let ghost all = paired_steps(from, to, 0, 0).unwrap();
    let mut blocks: Vec<HunkSegment> = Vec::new();
    let mut sync = false;
    let mut current_block_from: Vec<LineValue> = Vec::new();
    let mut current_block_to: Vec<LineValue> = Vec::new();
    let from_lines = &hunk.from_file_lines;
    let to_lines = &hunk.to_file_lines;
    let mut i: usize = 0;
    let mut j: usize = 0;
    let ghost mut done: Seq<Step> = Seq::empty();
    assert(all =~= done + paired_steps(from, to, 0, 0).unwrap());
    assert(lines_view(Seq::<LineValue>::empty()) =~= Seq::<LineSpec>::empty());
    loop
        invariant_except_break
            group(done) == segments_view(blocks@) + pending(
                sync,
                lines_view(current_block_from@),
                lines_view(current_block_to@),
            ),
            sync ==> current_block_to.len() == 0,
            sync ==> done.len() > 0,
            done.len() > 0 ==> current_block_from.len() > 0 || current_block_to.len() > 0,
        invariant
            from == lines_view(from_lines@),
            to == lines_view(to_lines@),
            i <= from_lines.len(),
            j <= to_lines.len(),
            paired_steps(from, to, i as int, j as int) is Some,
            all == done + paired_steps(from, to, i as int, j as int).unwrap(),
        ensures
            segments_view(blocks@) == group(all),
        decreases (from_lines.len() - i) + (to_lines.len() - j),
    {
        let ghost built0 = segments_view(blocks@);
        let ghost sync0 = sync;
        let ghost cf0 = lines_view(current_block_from@);
        let ghost ct0 = lines_view(current_block_to@);
        proof {
            assert(lines_view(Seq::<LineValue>::empty()) =~= Seq::<LineSpec>::empty());
            assert(sync0 ==> ct0 =~= Seq::<LineSpec>::empty());
        }
        // Check both lines available and detect sync block
        if i < from_lines.len() && j < to_lines.len() && same_line(&from_lines[i], &to_lines[j]) {
            let ghost l = from[i as int];
            let ghost step = Step::Pair(l);
            proof {
                assert(from_lines@[i as int]@ == l);
                lemma_context_step(done, built0, sync0, cf0, ct0, l);
                lemma_push_then_append(done, step, paired_steps(from, to, i + 1, j + 1).unwrap());
            }
            // Store change block
            if !sync && (current_block_from.len() > 0 || current_block_to.len() > 0) {
                let block = HunkSegment::Change { from: current_block_from, to: current_block_to };
                proof {
                    lemma_segments_view_push(blocks@, block);
                }
                blocks.push(block);
                current_block_from = Vec::new();
                current_block_to = Vec::new();
            }
            // Add lines to context block
            sync = true;
            proof {
                lemma_lines_view_push(current_block_from@, from_lines@[i as int]);
                assert(Seq::<LineSpec>::empty().push(l) =~= seq![l]);
            }
            current_block_from.push(from_lines[i].clone());
            i = i + 1;
            j = j + 1;
            proof {
                assert(segments_view(blocks@) == (if !sync0 && (cf0.len() > 0 || ct0.len() > 0) {
                    built0.push(SegmentSpec::Change(cf0, ct0))
                } else {
                    built0
                }));
                assert(lines_view(current_block_from@) == (if sync0 {
                    cf0.push(l)
                } else {
                    seq![l]
                }));
                assert(lines_view(current_block_to@) == ct0 || lines_view(current_block_to@)
                    == Seq::<LineSpec>::empty());
                done = done.push(step);
            }
            continue ;
        }
        proof {
            assert(i < from_lines.len() && j < to_lines.len() ==> from[i as int] != to[j as int]);
        }
        // Store context block
        if sync && (current_block_from.len() > 0 || current_block_to.len() > 0) {
            let block = HunkSegment::Context(current_block_from);
            proof {
                lemma_segments_view_push(blocks@, block);
            }
            blocks.push(block);
            current_block_from = Vec::new();
            current_block_to = Vec::new();
        }
        sync = false;
        // Stop loop and store last block if no lines left
        if i >= from_lines.len() && j >= to_lines.len() {
            if current_block_from.len() > 0 || current_block_to.len() > 0 {
                let block = if sync {
                    HunkSegment::Context(current_block_from)
                } else {
                    HunkSegment::Change { from: current_block_from, to: current_block_to }
                };
                proof {
                    lemma_segments_view_push(blocks@, block);
                }
                blocks.push(block);
            }
            proof {
                assert(all =~= done);
                assert(segments_view(blocks@) =~= group(done));
            }
            break ;
        }
        let move_from = i < from_lines.len() && from_lines[i].indicator
            != LineValueIndicator::Unchanged;
        let move_to = j < to_lines.len() && to_lines[j].indicator != LineValueIndicator::Unchanged;
        let ghost a = if move_from {
            Some(from[i as int])
        } else {
            None
        };
        let ghost b = if move_to {
            Some(to[j as int])
        } else {
            None
        };
        let ghost step = Step::Moves(a, b);
        let ghost next_i: int = if move_from {
            i + 1
        } else {
            i as int
        };
        let ghost next_j: int = if move_to {
            j + 1
        } else {
            j as int
        };
        proof {
            assert(move_from ==> from_lines@[i as int]@ == from[i as int]);
            assert(move_to ==> to_lines@[j as int]@ == to[j as int]);
            assert(move_from || move_to);
            lemma_change_step(done, built0, sync0, cf0, ct0, a, b);
            lemma_push_then_append(done, step, paired_steps(from, to, next_i, next_j).unwrap());
        }
        let ghost cf1 = lines_view(current_block_from@);
        let ghost ct1 = lines_view(current_block_to@);
        // Add from line to change block if it is a change
        if move_from {
            proof {
                lemma_lines_view_push(current_block_from@, from_lines@[i as int]);
            }
            current_block_from.push(from_lines[i].clone());
            i = i + 1;
        }
        // Add to line to change block if it is a change
        if move_to {
            proof {
                lemma_lines_view_push(current_block_to@, to_lines@[j as int]);
            }
            current_block_to.push(to_lines[j].clone());
            j = j + 1;
        }
        proof {
            assert(lines_view(current_block_from@) =~= cf1 + opt_seq(a));
            assert(lines_view(current_block_to@) =~= ct1 + opt_seq(b));
            assert(sync0 ==> segments_view(blocks@) == built0.push(SegmentSpec::Context(cf0)) && cf1
                =~= Seq::<LineSpec>::empty() && ct1 =~= Seq::<LineSpec>::empty());
            assert(!sync0 ==> segments_view(blocks@) == built0 && cf1 == cf0 && ct1 == ct0);
            done = done.push(step);
        }
    }
    blocks
}


/// The lines of the old side that a segment holds: its context lines, or the changed lines
/// of the old side.
pub open spec fn old_side_of(seg: SegmentSpec) -> Seq<LineSpec> {
    match seg {
        SegmentSpec::Context(lines) => lines,
        SegmentSpec::Change(from, _) => from,
    }
}

/// The lines of the new side that a segment holds: its context lines, or the changed lines
/// of the new side.
pub open spec fn new_side_of(seg: SegmentSpec) -> Seq<LineSpec> {
    match seg {
        SegmentSpec::Context(lines) => lines,
        SegmentSpec::Change(_, to) => to,
    }
}

/// The old side of each segment.
pub open spec fn old_sides(segs: Seq<SegmentSpec>) -> Seq<Seq<LineSpec>> {
    segs.map_values(|seg: SegmentSpec| old_side_of(seg))
}

/// The new side of each segment.
pub open spec fn new_sides(segs: Seq<SegmentSpec>) -> Seq<Seq<LineSpec>> {
    segs.map_values(|seg: SegmentSpec| new_side_of(seg))
}

/// The lines of the old side, read through the segments one after the other.
pub open spec fn old_side(segs: Seq<SegmentSpec>) -> Seq<LineSpec> {
    old_sides(segs).flatten()
}

/// The lines of the new side, read through the segments one after the other.
pub open spec fn new_side(segs: Seq<SegmentSpec>) -> Seq<LineSpec> {
    new_sides(segs).flatten()
}

/// The lines of the old side that a step moves past.
pub open spec fn step_old(s: Step) -> Seq<LineSpec> {
    match s {
        Step::Pair(l) => seq![l],
        Step::Moves(a, _) => opt_seq(a),
    }
}

/// The lines of the new side that a step moves past.
pub open spec fn step_new(s: Step) -> Seq<LineSpec> {
    match s {
        Step::Pair(l) => seq![l],
        Step::Moves(_, b) => opt_seq(b),
    }
}

/// The lines of the old side that the steps move past, in order.
pub open spec fn steps_old(steps: Seq<Step>) -> Seq<LineSpec> {
    steps.map_values(|s: Step| step_old(s)).flatten()
}

/// The lines of the new side that the steps move past, in order.
pub open spec fn steps_new(steps: Seq<Step>) -> Seq<LineSpec> {
    steps.map_values(|s: Step| step_new(s)).flatten()
}

/// Grouping steps into segments keeps the lines of both sides, in order.
proof fn lemma_group_sides(steps: Seq<Step>)
    ensures
        old_side(group(steps)) == steps_old(steps),
        new_side(group(steps)) == steps_new(steps),
    decreases steps.len(),
{
    if steps.len() > 0 {
        let p = steps.drop_last();
        let s = steps.last();
        lemma_group_sides(p);
        assert(steps =~= p.push(s));
        lemma_group_push(p, s);
        assert(steps.map_values(|s: Step| step_old(s)) =~= p.map_values(|s: Step| step_old(s)).push(
            step_old(s),
        ));
        assert(steps.map_values(|s: Step| step_new(s)) =~= p.map_values(|s: Step| step_new(s)).push(
            step_new(s),
        ));
        p.map_values(|s: Step| step_old(s)).lemma_flatten_push(step_old(s));
        p.map_values(|s: Step| step_new(s)).lemma_flatten_push(step_new(s));
        let g = group(p);
        if g.len() > 0 && continues(g.last(), s) {
            let g0 = g.drop_last();
            let x = extend(g.last(), s);
            assert(g =~= g0.push(g.last()));
            assert(old_sides(g) =~= old_sides(g0).push(old_side_of(g.last())));
            assert(new_sides(g) =~= new_sides(g0).push(new_side_of(g.last())));
            assert(old_sides(g0.push(x)) =~= old_sides(g0).push(old_side_of(x)));
            assert(new_sides(g0.push(x)) =~= new_sides(g0).push(new_side_of(x)));
            old_sides(g0).lemma_flatten_push(old_side_of(g.last()));
            new_sides(g0).lemma_flatten_push(new_side_of(g.last()));
            old_sides(g0).lemma_flatten_push(old_side_of(x));
            new_sides(g0).lemma_flatten_push(new_side_of(x));
            match (g.last(), s) {
                (SegmentSpec::Context(c), Step::Pair(l)) => {
                    assert(c.push(l) =~= c + seq![l]);
                },
                _ => {},
            }
            assert(old_side_of(x) =~= old_side_of(g.last()) + step_old(s));
            assert(new_side_of(x) =~= new_side_of(g.last()) + step_new(s));
            assert(old_side(g0.push(x)) =~= old_side(g) + step_old(s));
            assert(new_side(g0.push(x)) =~= new_side(g) + step_new(s));
        } else {
            let x = step_segment(s);
            assert(old_sides(g.push(x)) =~= old_sides(g).push(old_side_of(x)));
            assert(new_sides(g.push(x)) =~= new_sides(g).push(new_side_of(x)));
            old_sides(g).lemma_flatten_push(old_side_of(x));
            new_sides(g).lemma_flatten_push(new_side_of(x));
            assert(old_side_of(x) == step_old(s));
            assert(new_side_of(x) == step_new(s));
        }
    }
}

/// The steps of a hunk whose old side is empty move past all lines of its new side.
proof fn lemma_only_to_sides(to_lines: Seq<LineSpec>)
    ensures
        steps_new(only_to_steps(to_lines)) == to_lines,
    decreases to_lines.len(),
{
    if to_lines.len() > 0 {
        let p = to_lines.drop_last();
        let l = to_lines.last();
        lemma_only_to_sides(p);
        assert(to_lines =~= p.push(l));
        let st = only_to_steps(p);
        assert(only_to_steps(to_lines) =~= st.push(only_to_steps(to_lines).last()));
        assert(only_to_steps(to_lines).map_values(|s: Step| step_new(s)) =~= st.map_values(
            |s: Step| step_new(s),
        ).push(step_new(only_to_steps(to_lines).last())));
        st.map_values(|s: Step| step_new(s)).lemma_flatten_push(
            step_new(only_to_steps(to_lines).last()),
        );
        assert(step_new(only_to_steps(to_lines).last()) =~= seq![l]);
        assert(p + seq![l] =~= to_lines);
    }
}

/// Prepending a step prepends the lines it moves past.
proof fn lemma_sides_prepend(s: Step, rest: Seq<Step>)
    ensures
        steps_old(seq![s] + rest) == step_old(s) + steps_old(rest),
        steps_new(seq![s] + rest) == step_new(s) + steps_new(rest),
{
    let all = seq![s] + rest;
    let mo = all.map_values(|s: Step| step_old(s));
    let mn = all.map_values(|s: Step| step_new(s));
    assert(mo.drop_first() =~= rest.map_values(|s: Step| step_old(s)));
    assert(mn.drop_first() =~= rest.map_values(|s: Step| step_new(s)));
    assert(mo.first() == step_old(s));
    assert(mn.first() == step_new(s));
}

/// The steps from line `i` of the old side and line `j` of the new side move past the rest
/// of both sides.
proof fn lemma_paired_sides(from: Seq<LineSpec>, to: Seq<LineSpec>, i: int, j: int)
    requires
        paired_steps(from, to, i, j) is Some,
    ensures
        steps_old(paired_steps(from, to, i, j).unwrap()) == from.subrange(i, from.len() as int),
        steps_new(paired_steps(from, to, i, j).unwrap()) == to.subrange(j, to.len() as int),
    decreases (from.len() - i) + (to.len() - j),
{
    if i < from.len() && j < to.len() && from[i] == to[j] {
        let rest = paired_steps(from, to, i + 1, j + 1).unwrap();
        lemma_paired_sides(from, to, i + 1, j + 1);
        lemma_sides_prepend(Step::Pair(from[i]), rest);
        assert(from.subrange(i, from.len() as int) =~= seq![from[i]] + from.subrange(
            i + 1,
            from.len() as int,
        ));
        assert(to.subrange(j, to.len() as int) =~= seq![to[j]] + to.subrange(j + 1, to.len() as int));
    } else if i >= from.len() && j >= to.len() {
        let e = Seq::<Step>::empty();
        assert(e.map_values(|s: Step| step_old(s)) =~= Seq::<Seq<LineSpec>>::empty());
        assert(e.map_values(|s: Step| step_new(s)) =~= Seq::<Seq<LineSpec>>::empty());
        assert(from.subrange(i, from.len() as int) =~= Seq::<LineSpec>::empty());
        assert(to.subrange(j, to.len() as int) =~= Seq::<LineSpec>::empty());
    } else {
        let a = i < from.len() && from[i].indicator != LineValueIndicator::Unchanged;
        let b = j < to.len() && to[j].indicator != LineValueIndicator::Unchanged;
        let ni = if a {
            i + 1
        } else {
            i
        };
        let nj = if b {
            j + 1
        } else {
            j
        };
        let step = Step::Moves(
            if a {
                Some(from[i])
            } else {
                None
            },
            if b {
                Some(to[j])
            } else {
                None
            },
        );
        let rest = paired_steps(from, to, ni, nj).unwrap();
        lemma_paired_sides(from, to, ni, nj);
        lemma_sides_prepend(step, rest);
        if a {
            assert(from.subrange(i, from.len() as int) =~= seq![from[i]] + from.subrange(
                i + 1,
                from.len() as int,
            ));
        } else {
            assert(from.subrange(i, from.len() as int) =~= Seq::<LineSpec>::empty()
                + from.subrange(i, from.len() as int));
        }
        if b {
            assert(to.subrange(j, to.len() as int) =~= seq![to[j]] + to.subrange(
                j + 1,
                to.len() as int,
            ));
        } else {
            assert(to.subrange(j, to.len() as int) =~= Seq::<LineSpec>::empty() + to.subrange(
                j,
                to.len() as int,
            ));
        }
    }
}

/// Splitting a hunk into segments neither drops, adds nor reorders a line: read through the
/// segments one after the other, the context lines and the changed lines of the new side are
/// the lines of the new side of the hunk, and, where the hunk has lines on its old side, the
/// context lines and the changed lines of the old side are those lines.
pub proof fn lemma_split_keeps_lines(hunk: HunkSpec)
    requires
        segments_spec(hunk) is Some,
    ensures
        new_side(segments_spec(hunk).unwrap()) == hunk.to_lines,
        hunk.from_lines.len() > 0 ==> old_side(segments_spec(hunk).unwrap()) == hunk.from_lines,
{
    if hunk.from_lines.len() == 0 {
        lemma_group_sides(only_to_steps(hunk.to_lines));
        lemma_only_to_sides(hunk.to_lines);
    } else {
        let steps = paired_steps(hunk.from_lines, hunk.to_lines, 0, 0).unwrap();
        lemma_group_sides(steps);
        lemma_paired_sides(hunk.from_lines, hunk.to_lines, 0, 0);
        assert(hunk.from_lines.subrange(0, hunk.from_lines.len() as int) =~= hunk.from_lines);
        assert(hunk.to_lines.subrange(0, hunk.to_lines.len() as int) =~= hunk.to_lines);
    }
}


/// Whether a segment holds a line: a context line, or a changed line on either side.
pub open spec fn holds_lines(seg: SegmentSpec) -> bool {
    match seg {
        SegmentSpec::Context(lines) => lines.len() > 0,
        SegmentSpec::Change(from, to) => from.len() > 0 || to.len() > 0,
    }
}

/// Whether no changed line of a segment is an unchanged line.
pub open spec fn changes_marked(seg: SegmentSpec) -> bool {
    match seg {
        SegmentSpec::Context(_) => true,
        SegmentSpec::Change(from, to) => {
            &&& forall|x: int|
                0 <= x < from.len() ==> (#[trigger] from[x]).indicator
                    != LineValueIndicator::Unchanged
            &&& forall|x: int|
                0 <= x < to.len() ==> (#[trigger] to[x]).indicator != LineValueIndicator::Unchanged
        },
    }
}

/// Whether segments are well shaped: each holds a line and marks its changes, and context and
/// changes take turns.
pub open spec fn well_shaped(segs: Seq<SegmentSpec>) -> bool {
    &&& forall|k: int|
        0 <= k < segs.len() ==> holds_lines(#[trigger] segs[k]) && changes_marked(segs[k])
    &&& forall|k: int, n: int|
        0 <= k && n == k + 1 && n < segs.len() ==> ((#[trigger] segs[k]) is Context) != ((
        #[trigger] segs[n]) is Context)
}

/// Whether a step moves past a line, and any changed line it moves past is not unchanged.
pub open spec fn step_ok(s: Step) -> bool {
    match s {
        Step::Pair(_) => true,
        Step::Moves(a, b) => {
            &&& a is Some || b is Some
            &&& a matches Some(l) ==> l.indicator != LineValueIndicator::Unchanged
            &&& b matches Some(l) ==> l.indicator != LineValueIndicator::Unchanged
        },
    }
}

/// Grouping steps that each move past a line gives well shaped segments.
proof fn lemma_group_shape(steps: Seq<Step>)
    requires
        forall|k: int| 0 <= k < steps.len() ==> step_ok(#[trigger] steps[k]),
    ensures
        well_shaped(group(steps)),
    decreases steps.len(),
{
    if steps.len() > 0 {
        let p = steps.drop_last();
        let s = steps.last();
        assert forall|k: int| 0 <= k < p.len() implies step_ok(#[trigger] p[k]) by {
            assert(p[k] == steps[k]);
        }
        assert(step_ok(steps[steps.len() - 1]));
        lemma_group_shape(p);
        assert(steps =~= p.push(s));
        lemma_group_push(p, s);
        let g = group(p);
        if g.len() > 0 && continues(g.last(), s) {
            let g0 = g.drop_last();
            let last = g.last();
            let x = extend(last, s);
            assert(holds_lines(last) && changes_marked(last));
            assert(holds_lines(x)) by {
                match (last, s) {
                    (SegmentSpec::Context(c), Step::Pair(l)) => {},
                    (SegmentSpec::Change(f, t), Step::Moves(a, b)) => {},
                    _ => {},
                }
            }
            assert(changes_marked(x)) by {
                match (last, s) {
                    (SegmentSpec::Change(f, t), Step::Moves(a, b)) => {
                        let nf = f + opt_seq(a);
                        let nt = t + opt_seq(b);
                        assert forall|y: int| 0 <= y < nf.len() implies (#[trigger] nf[y]).indicator
                            != LineValueIndicator::Unchanged by {
                            if y >= f.len() {
                                assert(nf[y] == a->0);
                            } else {
                                assert(nf[y] == f[y]);
                            }
                        }
                        assert forall|y: int| 0 <= y < nt.len() implies (#[trigger] nt[y]).indicator
                            != LineValueIndicator::Unchanged by {
                            if y >= t.len() {
                                assert(nt[y] == b->0);
                            } else {
                                assert(nt[y] == t[y]);
                            }
                        }
                    },
                    _ => {},
                }
            }
            assert((x is Context) == (last is Context));
            let ng = g0.push(x);
            assert forall|k: int| 0 <= k < ng.len() implies holds_lines(#[trigger] ng[k])
                && changes_marked(ng[k]) by {
                if k < g0.len() {
                    assert(ng[k] == g[k]);
                }
            }
            assert forall|k: int, n: int|
                0 <= k && n == k + 1 && n < ng.len() implies ((#[trigger] ng[k]) is Context) != ((
            #[trigger] ng[n]) is Context) by {
                assert(g[k] == ng[k] || n == ng.len() - 1);
                if n < g0.len() {
                    assert(ng[n] == g[n]);
                    assert(ng[k] == g[k]);
                } else {
                    assert(ng[k] == g[k]);
                    assert(g[n] == last);
                }
            }
        } else {
            let x = step_segment(s);
            let ng = g.push(x);
            assert(holds_lines(x) && changes_marked(x)) by {
                match s {
                    Step::Pair(l) => {},
                    Step::Moves(a, b) => {
                        assert forall|y: int| 0 <= y < opt_seq(a).len() implies (
                        #[trigger] opt_seq(a)[y]).indicator != LineValueIndicator::Unchanged by {
                            assert(opt_seq(a)[y] == a->0);
                        }
                        assert forall|y: int| 0 <= y < opt_seq(b).len() implies (
                        #[trigger] opt_seq(b)[y]).indicator != LineValueIndicator::Unchanged by {
                            assert(opt_seq(b)[y] == b->0);
                        }
                    },
                }
            }
            assert forall|k: int| 0 <= k < ng.len() implies holds_lines(#[trigger] ng[k])
                && changes_marked(ng[k]) by {
                if k < g.len() {
                    assert(ng[k] == g[k]);
                }
            }
            assert forall|k: int, n: int|
                0 <= k && n == k + 1 && n < ng.len() implies ((#[trigger] ng[k]) is Context) != ((
            #[trigger] ng[n]) is Context) by {
                assert(ng[k] == g[k]);
                if n < g.len() {
                    assert(ng[n] == g[n]);
                } else {
                    assert(g[k] == g.last());
                    assert(!continues(g.last(), s));
                }
            }
        }
    }
}

/// The steps of a hunk whose old side is empty each move past a line, and move past a
/// changed line only where it is not unchanged.
proof fn lemma_only_to_steps_ok(to_lines: Seq<LineSpec>)
    ensures
        forall|k: int|
            0 <= k < only_to_steps(to_lines).len() ==> step_ok(#[trigger] only_to_steps(to_lines)[k]),
{
}

/// The steps of the walk through a hunk each move past a line, and move past a changed line
/// only where it is not unchanged.
proof fn lemma_paired_steps_ok(from: Seq<LineSpec>, to: Seq<LineSpec>, i: int, j: int)
    requires
        paired_steps(from, to, i, j) is Some,
    ensures
        forall|k: int|
            0 <= k < paired_steps(from, to, i, j).unwrap().len() ==> step_ok(
                #[trigger] paired_steps(from, to, i, j).unwrap()[k],
            ),
    decreases (from.len() - i) + (to.len() - j),
{
    let all = paired_steps(from, to, i, j).unwrap();
    if i < from.len() && j < to.len() && from[i] == to[j] {
        lemma_paired_steps_ok(from, to, i + 1, j + 1);
        let rest = paired_steps(from, to, i + 1, j + 1).unwrap();
        assert forall|k: int| 0 <= k < all.len() implies step_ok(#[trigger] all[k]) by {
            if k > 0 {
                assert(all[k] == rest[k - 1]);
            }
        }
    } else if i >= from.len() && j >= to.len() {
    } else {
        let a = i < from.len() && from[i].indicator != LineValueIndicator::Unchanged;
        let b = j < to.len() && to[j].indicator != LineValueIndicator::Unchanged;
        let ni = if a {
            i + 1
        } else {
            i
        };
        let nj = if b {
            j + 1
        } else {
            j
        };
        lemma_paired_steps_ok(from, to, ni, nj);
        let rest = paired_steps(from, to, ni, nj).unwrap();
        assert forall|k: int| 0 <= k < all.len() implies step_ok(#[trigger] all[k]) by {
            if k > 0 {
                assert(all[k] == rest[k - 1]);
            }
        }
    }
}

/// Each segment of a split hunk holds at least one line, no changed line of a segment is an
/// unchanged line, and context segments and change segments take turns.
pub proof fn lemma_split_shape(hunk: HunkSpec)
    requires
        segments_spec(hunk) is Some,
    ensures
        well_shaped(segments_spec(hunk).unwrap()),
{
    if hunk.from_lines.len() == 0 {
        lemma_only_to_steps_ok(hunk.to_lines);
        lemma_group_shape(only_to_steps(hunk.to_lines));
    } else {
        lemma_paired_steps_ok(hunk.from_lines, hunk.to_lines, 0, 0);
        lemma_group_shape(paired_steps(hunk.from_lines, hunk.to_lines, 0, 0).unwrap());
    }
}


/// The unchanged lines of a side, in order.
pub open spec fn unchanged_lines(lines: Seq<LineSpec>) -> Seq<LineSpec>
    decreases lines.len(),
{
    if lines.len() == 0 {
        Seq::empty()
    } else if lines[0].indicator == LineValueIndicator::Unchanged {
        seq![lines[0]] + unchanged_lines(lines.drop_first())
    } else {
        unchanged_lines(lines.drop_first())
    }
}

/// The rest of a side from line `i`, without its first line.
proof fn lemma_rest_drop_first(s: Seq<LineSpec>, i: int)
    requires
        0 <= i < s.len(),
    ensures
        s.subrange(i, s.len() as int).drop_first() == s.subrange(i + 1, s.len() as int),
        s.subrange(i, s.len() as int)[0] == s[i],
        s.subrange(i, s.len() as int).len() > 0,
{
    assert(s.subrange(i, s.len() as int).drop_first() =~= s.subrange(i + 1, s.len() as int));
}

/// Where the rests of both sides hold the same unchanged lines in order, the walk from there
/// ends.
proof fn lemma_walk_ends(from: Seq<LineSpec>, to: Seq<LineSpec>, i: int, j: int)
    requires
        0 <= i <= from.len(),
        0 <= j <= to.len(),
        unchanged_lines(from.subrange(i, from.len() as int)) == unchanged_lines(
            to.subrange(j, to.len() as int),
        ),
    ensures
        paired_steps(from, to, i, j) is Some,
    decreases (from.len() - i) + (to.len() - j),
{
    let fr = from.subrange(i, from.len() as int);
    let tr = to.subrange(j, to.len() as int);
    if i < from.len() {
        lemma_rest_drop_first(from, i);
    } else {
        assert(fr.len() == 0);
    }
    if j < to.len() {
        lemma_rest_drop_first(to, j);
    } else {
        assert(tr.len() == 0);
    }
    if i < from.len() && j < to.len() && from[i] == to[j] {
        let uf = unchanged_lines(from.subrange(i + 1, from.len() as int));
        let ut = unchanged_lines(to.subrange(j + 1, to.len() as int));
        if from[i].indicator == LineValueIndicator::Unchanged {
            assert(unchanged_lines(fr) == seq![from[i]] + uf);
            assert(unchanged_lines(tr) == seq![from[i]] + ut);
            assert(uf =~= (seq![from[i]] + uf).drop_first());
            assert(ut =~= (seq![from[i]] + ut).drop_first());
        } else {
            assert(unchanged_lines(fr) == uf);
            assert(unchanged_lines(tr) == ut);
        }
        lemma_walk_ends(from, to, i + 1, j + 1);
    } else if i >= from.len() && j >= to.len() {
    } else {
        let a = i < from.len() && from[i].indicator != LineValueIndicator::Unchanged;
        let b = j < to.len() && to[j].indicator != LineValueIndicator::Unchanged;
        if a {
            assert(unchanged_lines(fr) == unchanged_lines(from.subrange(i + 1, from.len() as int)));
        }
        if b {
            assert(unchanged_lines(tr) == unchanged_lines(to.subrange(j + 1, to.len() as int)));
        }
        if !a && !b {
            // Both current lines are unchanged (where present), so they head the unchanged
            // lines of their sides, which agree: the lines are equal, or both sides ended.
            if i < from.len() {
                assert(unchanged_lines(fr)[0] == from[i]);
            }
            if j < to.len() {
                assert(unchanged_lines(tr)[0] == to[j]);
            }
            assert(false);
        } else {
            let ni = if a {
                i + 1
            } else {
                i
            };
            let nj = if b {
                j + 1
            } else {
                j
            };
            lemma_walk_ends(from, to, ni, nj);
        }
    }
}

/// A hunk can be split (the splitting ends) where its old side is empty, or where the
/// unchanged lines of its old side and of its new side agree, in order.
pub proof fn lemma_split_ends(hunk: HunkSpec)
    requires
        hunk.from_lines.len() == 0 || unchanged_lines(hunk.from_lines) == unchanged_lines(
            hunk.to_lines,
        ),
    ensures
        segments_spec(hunk) is Some,
{
    if hunk.from_lines.len() > 0 {
        assert(hunk.from_lines.subrange(0, hunk.from_lines.len() as int) =~= hunk.from_lines);
        assert(hunk.to_lines.subrange(0, hunk.to_lines.len() as int) =~= hunk.to_lines);
        lemma_walk_ends(hunk.from_lines, hunk.to_lines, 0, 0);
    }
}

} // verus!
