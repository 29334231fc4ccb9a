//! The lines of a text, and a cursor over them that counts the lines it has passed.
use vstd::prelude::*;

use crate::text::{chars_of, string_of_range};

verus! {

/// `line` without one carriage return at its end.
pub open spec fn strip_cr(line: Seq<char>) -> Seq<char> {
    if line.len() > 0 && line.last() == '\r' {
        line.drop_last()
    } else {
        line
    }
}

/// The lines that `s` has ended so far, and the line that it has started.
pub open spec fn line_split(s: Seq<char>) -> (Seq<Seq<char>>, Seq<char>)
    decreases s.len(),
{
    if s.len() == 0 {
        (Seq::empty(), Seq::empty())
    } else {
        let (done, current) = line_split(s.drop_last());
        if s.last() == '\n' {
            (done.push(strip_cr(current)), Seq::empty())
        } else {
            (done, current.push(s.last()))
        }
    }
}

/// The lines of a text, as std's `str::lines` gives them: a line ends at `\n`, and a `\r`
/// just before that `\n` is not part of it; the last line need not end with `\n`, and there
/// is no empty line after a final `\n`.
pub open spec fn lines_of(s: Seq<char>) -> Seq<Seq<char>> {
    let (done, current) = line_split(s);
    if current.len() == 0 {
        done
    } else {
        done.push(current)
    }
}

/// A text has at most as many lines as characters.
pub proof fn lemma_line_count(s: Seq<char>)
    ensures
        lines_of(s).len() <= s.len(),
        line_split(s).0.len() + line_split(s).1.len() <= s.len(),
    decreases s.len(),
{
    if s.len() > 0 {
        lemma_line_count(s.drop_last());
    }
}

/// What a line cursor stands at: all lines of the text and how many have been passed.
pub struct LineCursor {
    pub lines: Seq<Seq<char>>,
    pub index: int,
}

/// The line that a call of `next` gives at a cursor: the line at its index, or none past
/// the last line.
pub open spec fn next_line(c: LineCursor) -> Option<Seq<char>> {
    if 0 <= c.index < c.lines.len() {
        Some(c.lines[c.index])
    } else {
        None
    }
}

/// The cursor after a call of `next`: one line further, or unchanged past the last line.
pub open spec fn next_cursor(c: LineCursor) -> LineCursor {
    if 0 <= c.index < c.lines.len() {
        LineCursor { lines: c.lines, index: c.index + 1 }
    } else {
        c
    }
}

/// The cursor after `k` calls of `next`.
pub open spec fn cursor_after(c: LineCursor, k: nat) -> LineCursor
    decreases k,
{
    if k == 0 {
        c
    } else {
        next_cursor(cursor_after(c, (k - 1) as nat))
    }
}

/// A fresh cursor over a text gives its lines one after the other, then nothing: after `k`
/// calls of `next` it stands at line `k` (or after the last line), and call number `k + 1`
/// gives line `k` of the text, or nothing once all lines were given.
pub proof fn lemma_lines_in_order(text: Seq<char>, k: nat)
    ensures
        cursor_after(LineCursor { lines: lines_of(text), index: 0 }, k) == (LineCursor {
            lines: lines_of(text),
            index: if k < lines_of(text).len() {
                k as int
            } else {
                lines_of(text).len() as int
            },
        }),
        next_line(cursor_after(LineCursor { lines: lines_of(text), index: 0 }, k)) == (if k
            < lines_of(text).len() {
            Some(lines_of(text)[k as int])
        } else {
            None
        }),
    decreases k,
{
    if k > 0 {
        lemma_lines_in_order(text, (k - 1) as nat);
    }
}

/// Iterator to iterate over lines and keep the current line index.
pub struct LineIterator {
    lines: Vec<String>,
    current_index: usize,
}

impl View for LineIterator {
    type V = LineCursor;

    closed spec fn view(&self) -> LineCursor {
        LineCursor {
            lines: self.lines@.map_values(|l: String| l@),
            index: self.current_index as int,
        }
    }
}

impl LineIterator {
    /// Creates a new LineIterator, iterating over the lines in the given string.
    pub fn from_lines(string: &str) -> (r: LineIterator)
        ensures
            r@.lines == lines_of(string@),
            r@.index == 0,
            r@.lines.len() <= string@.len(),
    {
        let chars = chars_of(string);
        let mut lines: Vec<String> = Vec::new();
        let mut start: usize = 0;
        let mut i: usize = 0;
        while i < chars.len()
            invariant
                start <= i <= chars.len(),
                chars@ == string@,
                line_split(chars@.take(i as int)).0 == lines@.map_values(|l: String| l@),
                line_split(chars@.take(i as int)).1 == chars@.subrange(start as int, i as int),
            decreases chars.len() - i,
        {
            let ghost before = chars@.take(i as int);
            assert(chars@.take(i + 1).drop_last() =~= before);
            if chars[i] == '\n' {
                let end = if i > start && chars[i - 1] == '\r' {
                    i - 1
                } else {
                    i
                };
                let line = string_of_range(&chars, start, end);
                proof {
                    let cur = chars@.subrange(start as int, i as int);
                    if i > start && chars@[i - 1] == '\r' {
                        assert(cur.drop_last() =~= chars@.subrange(start as int, end as int));
                    } else {
                        assert(cur =~= chars@.subrange(start as int, end as int));
                    }
                }
                lines.push(line);
                start = i + 1;
            }
            i = i + 1;
            assert(lines@.map_values(|l: String| l@) =~= line_split(chars@.take(i as int)).0);
            assert(line_split(chars@.take(i as int)).1 =~= chars@.subrange(start as int, i as int));
        }
        proof {
            assert(chars@.take(i as int) =~= string@);
            lemma_line_count(string@);
        }
        if start < chars.len() {
            let line = string_of_range(&chars, start, chars.len());
            lines.push(line);
        }
        assert(lines@.map_values(|l: String| l@) =~= lines_of(string@));
        LineIterator { lines, current_index: 0 }
    }

    /// Returns a reference to the next() value without advancing the iterator.
    pub fn peek(&self) -> (r: Option<&str>)
        ensures
            0 <= self@.index < self@.lines.len() ==> (r matches Some(l) && l@ == self@.lines[self@.index]),
            !(0 <= self@.index < self@.lines.len()) ==> r is None,
            r is None ==> self@.index >= self@.lines.len(),
            self@.index >= 0,
    {
        if self.current_index < self.lines.len() {
            Some(self.lines[self.current_index].as_str())
        } else {
            None
        }
    }

    /// Advances the iterator and returns the next value.
    pub fn next(&mut self) -> (r: Option<String>)
        ensures
            final(self)@ == next_cursor(old(self)@),
            match r {
                Some(l) => next_line(old(self)@) == Some(l@),
                None => next_line(old(self)@) is None,
            },
            0 <= old(self)@.index < old(self)@.lines.len() ==> {
                &&& (r matches Some(l) && l@ == old(self)@.lines[old(self)@.index])
                &&& final(self)@.index == old(self)@.index + 1
            },
            !(0 <= old(self)@.index < old(self)@.lines.len()) ==> r is None && final(self)@.index
                == old(self)@.index,
            final(self)@.lines == old(self)@.lines,
            r is None ==> old(self)@.index >= old(self)@.lines.len(),
            final(self)@.index >= 0,
    {
        if self.current_index < self.lines.len() {
            let line = self.lines[self.current_index].clone();
            self.current_index = self.current_index + 1;
            Some(line)
        } else {
            None
        }
    }

    /// Returns the current line index of the iterator.
    pub fn index(&self) -> (r: usize)
        ensures
            r == self@.index,
            self@.index >= 0,
    {
        self.current_index
    }
}

} // verus!
