//! What a migration takes over: which lines belong to a setting, and which
//! settings are kept.
use crate::migrate::decide::{
    decision, filtered_upto, in_flow_style, nested_of, starts_of, under_header, DecisionV,
};
use crate::migrate::lines::{
    end_of, is_blank, is_comment, lead_from, lead_of, line_at, settled, sliced, without_blanks,
    without_notes,
};
use crate::migrate::{entries_migrated, with_entry, SettingsV};
use crate::text::{found_in_the_middle, has_text, middle_is_found};
use crate::yaml::NodeV;
use vstd::prelude::*;

verus! {

// ---------------------------------------------------------------------------- lines

proof fn a_lead_is_all_comments(lines: Seq<Seq<char>>, lead: int, above: int)
    ensures
        ({
            let from = lead_from(lines, lead, above);
            &&& from <= lead
            &&& lead > above && lead >= 1 ==> from > above && from >= 1
            &&& forall|k: int| from <= k < lead ==> is_comment(#[trigger] line_at(lines, k))
            &&& from > above + 1 && from > 1 ==> !is_comment(line_at(lines, from - 1))
        }),
    decreases lead,
{
    if lead > above + 1 && lead > 1 && is_comment(line_at(lines, lead - 1)) {
        a_lead_is_all_comments(lines, lead - 1, above);
    }
}

/// A setting owns the comments directly above it: all of them, up to the
/// setting before it, and nothing else above its line.
pub proof fn a_setting_owns_the_comments_above_it(
    lines: Seq<Seq<char>>,
    starts: Seq<int>,
    i: int,
    above: int,
)
    requires
        0 <= i < starts.len(),
        0 <= above,
        i == 0 ==> above < starts[0],
        i > 0 ==> 1 <= starts[i - 1] < starts[i],
    ensures
        ({
            let lead = lead_of(lines, starts, i, above);
            let limit = if i == 0 {
                above
            } else {
                starts[i - 1]
            };
            &&& limit < lead <= starts[i]
            &&& forall|k: int| lead <= k < starts[i] ==> is_comment(#[trigger] line_at(lines, k))
            &&& lead == limit + 1 || !is_comment(line_at(lines, lead - 1))
        }),
{
    let limit = if i == 0 {
        above
    } else {
        starts[i - 1]
    };
    a_lead_is_all_comments(lines, starts[i], limit);
}

/// A line is left out behind a setting: it is blank or a comment.
pub open spec fn says_nothing(line: Seq<char>) -> bool {
    is_blank(line) || is_comment(line)
}

proof fn blanks_are_left_out(lines: Seq<Seq<char>>, start: int, end: int)
    requires
        start <= end,
    ensures
        ({
            let last = without_blanks(lines, start, end);
            &&& start <= last <= end
            &&& forall|k: int| last < k <= end ==> is_blank(#[trigger] line_at(lines, k))
            &&& last == start || !is_blank(line_at(lines, last))
        }),
    decreases end - start,
{
    if end > start && is_blank(line_at(lines, end)) {
        blanks_are_left_out(lines, start, end - 1);
    }
}

proof fn notes_are_left_out(lines: Seq<Seq<char>>, start: int, end: int)
    requires
        start <= end,
    ensures
        ({
            let last = without_notes(lines, start, end);
            &&& start <= last <= end
            &&& forall|k: int| last < k <= end ==> is_comment(#[trigger] line_at(lines, k))
        }),
    decreases end - start,
{
    if end > start && is_comment(line_at(lines, end)) {
        notes_are_left_out(lines, start, end - 1);
    }
}

proof fn only_empty_lines_are_left_out(lines: Seq<Seq<char>>, start: int, end: int)
    requires
        start <= end,
    ensures
        ({
            let last = settled(lines, start, end);
            &&& start <= last <= end
            &&& forall|k: int| last < k <= end ==> says_nothing(#[trigger] line_at(lines, k))
            &&& last == start || !is_blank(line_at(lines, last))
        }),
    decreases end - start,
{
    let last = without_blanks(lines, start, end);
    let probe = without_notes(lines, start, last);
    blanks_are_left_out(lines, start, end);
    notes_are_left_out(lines, start, last);
    if start <= probe < last <= end && is_blank(line_at(lines, probe)) {
        only_empty_lines_are_left_out(lines, start, probe);
    }
}

/// A setting owns its lines down to the next one: only blank lines and comments
/// are left out at its end, it does not end in a blank line, and no line belongs
/// to two settings.
pub proof fn a_setting_owns_its_lines(
    lines: Seq<Seq<char>>,
    starts: Seq<int>,
    i: int,
    above: int,
    level_end: int,
)
    requires
        0 <= i < starts.len(),
        0 <= above < starts[0],
        forall|a: int, b: int| 0 <= a < b < starts.len() ==> #[trigger] starts[a] < #[trigger] starts[b],
        starts.last() <= level_end,
    ensures
        ({
            let end = end_of(lines, starts, i, above, level_end);
            let limit = if i + 1 < starts.len() {
                lead_of(lines, starts, i + 1, above) - 1
            } else {
                level_end
            };
            &&& starts[i] <= end <= limit
            &&& forall|k: int| end < k <= limit ==> says_nothing(#[trigger] line_at(lines, k))
            &&& end == starts[i] || !is_blank(line_at(lines, end))
        }),
{
    let limit = if i + 1 < starts.len() {
        lead_of(lines, starts, i + 1, above) - 1
    } else {
        level_end
    };
    if i > 0 {
        assert(starts[0] < starts[i]);
    }
    if i + 1 < starts.len() {
        assert(starts[i] < starts[i + 1]);
        a_setting_owns_the_comments_above_it(lines, starts, i + 1, above);
    } else {
        assert(starts.last() == starts[i]);
    }
    only_empty_lines_are_left_out(lines, starts[i], limit);
}

// ------------------------------------------------------------------------- settings

proof fn children_are_kept_or_dropped(
    lines: Seq<Seq<char>>,
    section: Seq<char>,
    parent_line: int,
    section_end: int,
    entries: Seq<(NodeV, NodeV)>,
    n: nat,
    from: Seq<char>,
    i: int,
)
    requires
        0 <= i < n <= entries.len(),
        filtered_upto(lines, section, parent_line, section_end, entries, n, from) is Ok,
    ensures
        ({
            let all = filtered_upto(
                lines,
                section,
                parent_line,
                section_end,
                entries,
                n,
                from,
            )->Ok_0;
            let starts = starts_of(entries);
            &&& entries[i].0.text() is Some
            &&& decision(entries[i].0.text()->Some_0, entries[i].1, Some(section)) matches
                DecisionV::Drop(reason) ==> exists|d: int|
                0 <= d < all.dropped.len() && (#[trigger] all.dropped[d]).key == section + "."@
                    + entries[i].0.text()->Some_0 && all.dropped[d].line == entries[i].0.line()
                    && all.dropped[d].reason == reason
            &&& !(decision(entries[i].0.text()->Some_0, entries[i].1, Some(section)) is Drop)
                ==> exists|b: int|
                0 <= b < all.blocks.len() && #[trigger] all.blocks[b] == sliced(
                    lines,
                    lead_of(lines, starts, i, parent_line),
                    end_of(lines, starts, i, parent_line, section_end),
                )
            &&& all.blocks.len() + all.dropped.len() == n
        }),
    decreases n,
{
    let m = (n - 1) as nat;
    let all = filtered_upto(lines, section, parent_line, section_end, entries, n, from)->Ok_0;
    let before = filtered_upto(lines, section, parent_line, section_end, entries, m, from)->Ok_0;
    if n > 1 {
        let j = if i < n - 1 {
            i
        } else {
            0
        };
        children_are_kept_or_dropped(
            lines,
            section,
            parent_line,
            section_end,
            entries,
            m,
            from,
            j,
        );
    }
    let starts = starts_of(entries);
    let block = sliced(
        lines,
        lead_of(lines, starts, i, parent_line),
        end_of(lines, starts, i, parent_line, section_end),
    );
    if i < n - 1 {
        let verdict = decision(entries[i].0.text()->Some_0, entries[i].1, Some(section));
        if let DecisionV::Drop(reason) = verdict {
            let d = choose|d: int|
                0 <= d < before.dropped.len() && (#[trigger] before.dropped[d]).key == section
                    + "."@ + entries[i].0.text()->Some_0 && before.dropped[d].line
                    == entries[i].0.line() && before.dropped[d].reason == reason;
            assert(all.dropped[d] == before.dropped[d]);
        } else {
            let b = choose|b: int| 0 <= b < before.blocks.len() && #[trigger] before.blocks[b]
                == block;
            assert(all.blocks[b] == before.blocks[b]);
        }
    } else {
        let verdict = decision(entries[i].0.text()->Some_0, entries[i].1, Some(section));
        if verdict is Drop {
            assert(all.dropped == before.dropped.push(all.dropped[before.dropped.len() as int]));
        } else {
            assert(all.blocks[before.blocks.len() as int] == block);
        }
    }
}

proof fn a_block_stands_under_its_header(header: Seq<char>, blocks: Seq<Seq<char>>, n: int, b: int)
    requires
        0 <= b < n <= blocks.len(),
    ensures
        has_text(under_header(header, blocks, n), blocks[b]),
    decreases n,
{
    let before = under_header(header, blocks, n - 1);
    let none = Seq::<char>::empty();
    if b == n - 1 {
        middle_is_found(before + "\n"@, blocks[b], none);
        assert(before + "\n"@ + blocks[b] + none =~= under_header(header, blocks, n));
    } else {
        a_block_stands_under_its_header(header, blocks, n - 1, b);
        let tail = "\n"@ + blocks[n - 1];
        found_in_the_middle(none, before, tail, blocks[b]);
        assert(none + before + tail =~= under_header(header, blocks, n));
    }
}

/// Each setting of a section is kept with all its lines, or dropped with the
/// reason, as it is decided for it.
pub proof fn each_setting_of_a_section_is_kept_or_dropped(
    lines: Seq<Seq<char>>,
    section: Seq<char>,
    parent_line: int,
    value: NodeV,
    lead: int,
    section_end: int,
    from: Seq<char>,
    i: int,
)
    requires
        nested_of(lines, section, parent_line, value, lead, section_end, from) is Ok,
        value.entries() is Some,
        0 <= i < value.entries()->Some_0.len(),
    ensures
        ({
            let (text, dropped) = nested_of(
                lines,
                section,
                parent_line,
                value,
                lead,
                section_end,
                from,
            )->Ok_0;
            let entries = value.entries()->Some_0;
            let name = entries[i].0.text()->Some_0;
            let starts = starts_of(entries);
            match decision(name, entries[i].1, Some(section)) {
                DecisionV::Drop(reason) => exists|d: int|
                    0 <= d < dropped.len() && (#[trigger] dropped[d]).key == section + "."@ + name
                        && dropped[d].line == entries[i].0.line() && dropped[d].reason == reason,
                _ => text is Some && has_text(
                    text->Some_0,
                    sliced(
                        lines,
                        lead_of(lines, starts, i, parent_line),
                        end_of(lines, starts, i, parent_line, section_end),
                    ),
                ),
            }
        }),
{
    let entries = value.entries()->Some_0;
    let n = entries.len();
    children_are_kept_or_dropped(
        lines,
        section,
        parent_line,
        section_end,
        entries,
        n,
        from,
        i,
    );
    let all = filtered_upto(lines, section, parent_line, section_end, entries, n, from)->Ok_0;
    let name = entries[i].0.text()->Some_0;
    let starts = starts_of(entries);
    let result = nested_of(lines, section, parent_line, value, lead, section_end, from)->Ok_0;
    assert(!in_flow_style(entries, parent_line));
    assert(result.1 == all.dropped);
    if let DecisionV::Drop(reason) = decision(name, entries[i].1, Some(section)) {
        let d = choose|d: int|
            0 <= d < all.dropped.len() && (#[trigger] all.dropped[d]).key == section + "."@ + name
                && all.dropped[d].line == entries[i].0.line() && all.dropped[d].reason == reason;
        assert(result.1[d].key == section + "."@ + name);
    } else {
        let block = sliced(
            lines,
            lead_of(lines, starts, i, parent_line),
            end_of(lines, starts, i, parent_line, section_end),
        );
        let b = choose|b: int| 0 <= b < all.blocks.len() && #[trigger] all.blocks[b] == block;
        a_block_stands_under_its_header(
            sliced(lines, lead, parent_line),
            all.blocks,
            all.blocks.len() as int,
            b,
        );
    }
}

/// A setting of the top level that is kept keeps all its lines; one that has no
/// place is dropped with the reason.
pub proof fn each_setting_is_kept_or_dropped(
    lines: Seq<Seq<char>>,
    entries: Seq<(NodeV, NodeV)>,
    n: nat,
    from: Seq<char>,
    i: int,
)
    requires
        0 <= i < n <= entries.len(),
        entries_migrated(lines, entries, n, from) is Ok,
    ensures
        ({
            let all = entries_migrated(lines, entries, n, from)->Ok_0;
            let name = entries[i].0.text()->Some_0;
            let starts = starts_of(entries);
            match decision(name, entries[i].1, None) {
                DecisionV::Drop(reason) => exists|d: int|
                    0 <= d < all.dropped.len() && (#[trigger] all.dropped[d]).key == name
                        && all.dropped[d].line == entries[i].0.line() && all.dropped[d].reason
                        == reason,
                DecisionV::Keep => all.kept.contains(name) && all.blocks.contains(
                    sliced(
                        lines,
                        lead_of(lines, starts, i, 0),
                        end_of(lines, starts, i, 0, lines.len() as int),
                    ),
                ),
                DecisionV::Recurse => true,
            }
        }),
    decreases n,
{
    let m = (n - 1) as nat;
    let before = entries_migrated(lines, entries, m, from)->Ok_0;
    let all = entries_migrated(lines, entries, n, from)->Ok_0;
    assert(with_entry(before, lines, entries, n - 1, from) == Ok::<SettingsV, Seq<char>>(all));
    assert(forall|j: int| 0 <= j < before.kept.len() ==> all.kept[j] == before.kept[j]);
    assert(forall|j: int| 0 <= j < before.dropped.len() ==> all.dropped[j] == before.dropped[j]);
    assert(forall|j: int| 0 <= j < before.blocks.len() ==> all.blocks[j] == before.blocks[j]);
    let name = entries[i].0.text()->Some_0;
    let starts = starts_of(entries);
    let block = sliced(
        lines,
        lead_of(lines, starts, i, 0),
        end_of(lines, starts, i, 0, lines.len() as int),
    );
    let verdict = decision(name, entries[i].1, None);
    if i < n - 1 {
        each_setting_is_kept_or_dropped(lines, entries, m, from, i);
        if let DecisionV::Drop(reason) = verdict {
            let d = choose|d: int|
                0 <= d < before.dropped.len() && (#[trigger] before.dropped[d]).key == name
                    && before.dropped[d].line == entries[i].0.line() && before.dropped[d].reason
                    == reason;
            assert(all.dropped[d] == before.dropped[d]);
        }
        if verdict is Keep {
            assert(all.kept[before.kept.index_of(name)] == name);
            assert(all.blocks[before.blocks.index_of(block)] == block);
        }
    } else {
        if verdict is Drop {
            let d = before.dropped.len() as int;
            assert(all.dropped[d].key == name);
        }
        if verdict is Keep {
            assert(all.kept[before.kept.len() as int] == name);
            assert(all.blocks[before.blocks.len() as int] == block);
        }
    }
}

} // verus!
