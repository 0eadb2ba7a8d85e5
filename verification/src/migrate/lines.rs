//! Which lines of the source each config entry owns.
//!
//! A migration slices the original lines and does not write a parsed tree
//! anew. This module says where an entry starts and ends.
use crate::text::{
    join, join_of, push_text, starts_with, texts, trim, trim_of, trim_start, trim_start_of,
};
use vstd::prelude::*;

verus! {

/// The line range that one config entry owns.
#[derive(Clone, Copy)]
pub struct Extent {
    /// First line of the comment block above the key, or the key itself.
    pub lead_start: usize,
    /// Last line of the value, comments below it excluded.
    pub body_end: usize,
}

/// A comment, indented or not.
pub open spec fn is_comment(line: Seq<char>) -> bool {
    "#"@.is_prefix_of(trim_start_of(line))
}

/// Nothing but white space.
pub open spec fn is_blank(line: Seq<char>) -> bool {
    trim_of(line).len() == 0
}

/// Whether a line is a comment, indented or not.
pub fn comment(line: &str) -> (b: bool)
    ensures
        b == is_comment(line@),
{
    starts_with(&trim_start(line), "#")
}

/// Line `n`, counted from 1; empty where there is none.
pub open spec fn line_at(lines: Seq<Seq<char>>, n: int) -> Seq<char> {
    if 1 <= n <= lines.len() {
        lines[n - 1]
    } else {
        Seq::empty()
    }
}

/// Where the run of comments directly above line `lead` starts. It does not
/// reach line `above`.
pub open spec fn lead_from(lines: Seq<Seq<char>>, lead: int, above: int) -> int
    decreases lead,
{
    if lead > above + 1 && lead > 1 && is_comment(line_at(lines, lead - 1)) {
        lead_from(lines, lead - 1, above)
    } else {
        lead
    }
}

/// Where entry `i` of a level starts, its comments included. `above` is the
/// last line before the level.
pub open spec fn lead_of(lines: Seq<Seq<char>>, starts: Seq<int>, i: int, above: int) -> int {
    lead_from(
        lines,
        starts[i],
        if i == 0 {
            above
        } else {
            starts[i - 1]
        },
    )
}

/// The last line that is not blank, down to `start`.
pub open spec fn without_blanks(lines: Seq<Seq<char>>, start: int, end: int) -> int
    decreases end - start,
{
    if end > start && is_blank(line_at(lines, end)) {
        without_blanks(lines, start, end - 1)
    } else {
        end
    }
}

/// The last line that is not a comment, down to `start`.
pub open spec fn without_notes(lines: Seq<Seq<char>>, start: int, end: int) -> int
    decreases end - start,
{
    if end > start && is_comment(line_at(lines, end)) {
        without_notes(lines, start, end - 1)
    } else {
        end
    }
}

/// The last line of a value: without the blank lines at its end, and without
/// the comment blocks there that a blank line separates from it.
pub open spec fn settled(lines: Seq<Seq<char>>, start: int, end: int) -> int
    decreases end - start,
{
    let last = without_blanks(lines, start, end);
    let probe = without_notes(lines, start, last);
    if start <= probe < last <= end && is_blank(line_at(lines, probe)) {
        settled(lines, start, probe)
    } else {
        last
    }
}

/// Where entry `i` of a level ends. `level_end` is the last line of the level.
pub open spec fn end_of(
    lines: Seq<Seq<char>>,
    starts: Seq<int>,
    i: int,
    above: int,
    level_end: int,
) -> int {
    let limit = if i + 1 < starts.len() {
        lead_of(lines, starts, i + 1, above) - 1
    } else {
        level_end
    };
    settled(
        lines,
        starts[i],
        if limit > starts[i] {
            limit
        } else {
            starts[i]
        },
    )
}

proof fn blanks_stay_in_range(lines: Seq<Seq<char>>, start: int, end: int)
    requires
        start <= end,
    ensures
        start <= without_blanks(lines, start, end) <= end,
        start <= without_notes(lines, start, end) <= end,
    decreases end - start,
{
    if end > start {
        blanks_stay_in_range(lines, start, end - 1);
    }
}

/// A value ends between its first line and the end of its level.
pub proof fn settled_in_range(lines: Seq<Seq<char>>, start: int, end: int)
    requires
        start <= end,
    ensures
        start <= settled(lines, start, end) <= end,
    decreases end - start,
{
    blanks_stay_in_range(lines, start, end);
    let last = without_blanks(lines, start, end);
    blanks_stay_in_range(lines, start, last);
    let probe = without_notes(lines, start, last);
    if start <= probe < last <= end && is_blank(line_at(lines, probe)) {
        settled_in_range(lines, start, probe);
    }
}

/// The comments of an entry start at or above it, and not before line 1.
pub proof fn lead_in_range(lines: Seq<Seq<char>>, lead: int, above: int)
    requires
        lead >= 1,
    ensures
        1 <= lead_from(lines, lead, above) <= lead,
    decreases lead,
{
    if lead > above + 1 && lead > 1 && is_comment(line_at(lines, lead - 1)) {
        lead_in_range(lines, lead - 1, above);
    }
}

fn line_text(lines: &Vec<String>, n: usize) -> (line: String)
    ensures
        line@ == line_at(texts(lines@), n as int),
{
    if n >= 1 && n <= lines.len() {
        assert(texts(lines@)[n - 1] == lines@[n - 1]@);
        lines[n - 1].clone()
    } else {
        let line = String::new();
        assert(line@ =~= Seq::empty());
        line
    }
}

fn lead_line(lines: &Vec<String>, start: usize, above: usize) -> (lead: usize)
    ensures
        lead == lead_from(texts(lines@), start as int, above as int),
{
    let ghost model = texts(lines@);
    let mut lead: usize = start;
    while lead > 1 && lead - 1 > above && comment(&line_text(lines, lead - 1))
        invariant
            model == texts(lines@),
            lead_from(model, lead as int, above as int) == lead_from(
                model,
                start as int,
                above as int,
            ),
        decreases lead,
    {
        lead = lead - 1;
    }
    lead
}

fn settle(lines: &Vec<String>, start: usize, end: usize) -> (last: usize)
    requires
        start <= end,
    ensures
        last == settled(texts(lines@), start as int, end as int),
    decreases end - start,
{
    let ghost model = texts(lines@);
    let mut last: usize = end;
    while last > start && trim(&line_text(lines, last)).as_str().is_empty()
        invariant
            start <= last <= end,
            model == texts(lines@),
            without_blanks(model, start as int, last as int) == without_blanks(
                model,
                start as int,
                end as int,
            ),
        decreases last,
    {
        last = last - 1;
    }
    let mut probe: usize = last;
    while probe > start && comment(&line_text(lines, probe))
        invariant
            start <= probe <= last,
            model == texts(lines@),
            without_notes(model, start as int, probe as int) == without_notes(
                model,
                start as int,
                last as int,
            ),
        decreases probe,
    {
        probe = probe - 1;
    }
    if probe < last && trim(&line_text(lines, probe)).as_str().is_empty() {
        settle(lines, start, probe)
    } else {
        last
    }
}

/// What a list of extents holds.
pub open spec fn are_extents(
    v: Seq<Extent>,
    lines: Seq<Seq<char>>,
    starts: Seq<int>,
    above: int,
    level_end: int,
) -> bool {
    &&& v.len() == starts.len()
    &&& forall|i: int|
        0 <= i < v.len() ==> (#[trigger] v[i]).lead_start == lead_of(lines, starts, i, above)
            && v[i].body_end == end_of(lines, starts, i, above, level_end)
}

/// Splits a level into one extent per entry. All lines count from 1; `above`
/// is the last line before the level and `level_end` its last line.
///
/// The run of comment lines directly above a key, with no blank line in
/// between, documents that key and moves with it. Anything below a key stays
/// with the key above it, but for a comment block that a blank line separates
/// from the value: that belongs to neither key.
pub fn extents(lines: &Vec<String>, starts: &Vec<usize>, above: usize, level_end: usize) -> (out:
    Vec<Extent>)
    ensures
        are_extents(
            out@,
            texts(lines@),
            starts@.map_values(|n: usize| n as int),
            above as int,
            level_end as int,
        ),
{
    let ghost model = texts(lines@);
    let ghost first = starts@.map_values(|n: usize| n as int);
    let mut out: Vec<Extent> = Vec::new();
    let mut i: usize = 0;
    while i < starts.len()
        invariant
            i <= starts.len(),
            out.len() == i,
            model == texts(lines@),
            first == starts@.map_values(|n: usize| n as int),
            forall|j: int|
                0 <= j < i ==> (#[trigger] out@[j]).lead_start == lead_of(
                    model,
                    first,
                    j,
                    above as int,
                ) && out@[j].body_end == end_of(
                    model,
                    first,
                    j,
                    above as int,
                    level_end as int,
                ),
        decreases starts.len() - i,
    {
        let start = starts[i];
        let lead_start = lead_line(
            lines,
            start,
            if i == 0 {
                above
            } else {
                starts[i - 1]
            },
        );
        let limit = if i + 1 < starts.len() {
            let next = lead_line(lines, starts[i + 1], start);
            if next > 0 {
                next - 1
            } else {
                0
            }
        } else {
            level_end
        };
        let body_end = settle(
            lines,
            start,
            if limit > start {
                limit
            } else {
                start
            },
        );
        out.push(Extent { lead_start, body_end });
        i = i + 1;
    }
    out
}

/// Lines `from` to `to`, counted from 1, without a line break at the end.
pub open spec fn sliced(lines: Seq<Seq<char>>, from: int, to: int) -> Seq<char> {
    join_of(lines.subrange(from - 1, to), "\n"@)
}

/// Lines `from` to `to`, counted from 1, without a line break at the end.
pub fn slice(lines: &Vec<String>, from: usize, to: usize) -> (out: String)
    requires
        1 <= from,
        from - 1 <= to <= lines.len(),
    ensures
        out@ == sliced(texts(lines@), from as int, to as int),
{
    let ghost model = texts(lines@);
    let mut part: Vec<String> = Vec::new();
    let mut i: usize = from - 1;
    assert(texts(part@) =~= model.subrange(from - 1, i as int));
    while i < to
        invariant
            1 <= from,
            from - 1 <= i <= to <= lines.len(),
            model == texts(lines@),
            texts(part@) == model.subrange(from - 1, i as int),
        decreases to - i,
    {
        assert(model[i as int] == lines@[i as int]@);
        push_text(&mut part, lines[i].clone());
        i = i + 1;
        assert(texts(part@) =~= model.subrange(from - 1, i as int));
    }
    join(&part, "\n")
}

} // verus!
