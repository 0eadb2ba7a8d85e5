//! What a migrated config reads as: a base locale that was written out is read
//! back.
use crate::config::{parsed_config, settings_upto, with_setting};
use crate::data::emit::reading::{complete, entry_at, spaces};
use crate::init::settings::text_node;
use crate::migrate::erb::{lines_hold_no_break, redacted_from, stripped_of, stripped_upto};
use crate::migrate::render::{
    block_texts, defaulted_section, dropped_comment, dropped_comments, dropped_section,
    manual_comments, manual_section,
};
use crate::migrate::{assembled, entries_migrated, DroppedV, ManualV};
use crate::settings_text::{
    a_break_holds_nothing, a_line_of_comment, a_number_stands_on_one_line, comments_are_passed,
    comments_joined, config_read, content, content_joined, content_of_line, empty_is_comment,
    entries_joined, entries_read, is_comment_text, joined_on_one_line, names, one_entry_is_read,
    setting_read, uncommented,
};
use crate::text::{
    bare_lines, decimal, find_from_of, find_is_first, is_space, trim_end_of, trim_start_of,
};
use crate::yaml::NodeV;
use vstd::prelude::*;

verus! {

/// The settings that were dropped are named on one line each.
pub open spec fn dropped_on_one_line(v: Seq<DroppedV>) -> bool {
    forall|i: int|
        0 <= i < v.len() ==> !(#[trigger] v[i]).key.contains('\n') && !v[i].reason.contains('\n')
}

/// The lines that need a human are quoted on one line each.
spec fn manual_on_one_line(v: Seq<ManualV>) -> bool {
    forall|i: int| 0 <= i < v.len() ==> !(#[trigger] v[i]).text.contains('\n')
}

// --------------------------------------------------------------------- the header

proof fn a_part_stands_on_one_line(s: Seq<char>, i: int, j: int)
    requires
        0 <= i <= j <= s.len(),
        !s.contains('\n'),
    ensures
        !s.subrange(i, j).contains('\n'),
{
    let t = s.subrange(i, j);
    if t.contains('\n') {
        let k = t.index_of('\n');
        assert(s[i + k] == '\n');
    }
}

proof fn a_redacted_text_stands_on_one_line(s: Seq<char>, i: int)
    requires
        0 <= i <= s.len(),
        !s.contains('\n'),
    ensures
        !redacted_from(s, i).contains('\n'),
    decreases s.len() - i,
{
    assert(!"[ERB]"@.contains('\n')) by {
        reveal_strlit("[ERB]");
    }
    assert("<%"@.len() == 2 && "%>"@.len() == 2) by {
        reveal_strlit("<%");
        reveal_strlit("%>");
    }
    find_is_first(s, "<%"@, i);
    a_part_stands_on_one_line(s, i, s.len() as int);
    assert(s.skip(i) =~= s.subrange(i, s.len() as int));
    if let Some(p) = find_from_of(s, "<%"@, i) {
        find_is_first(s, "%>"@, p);
        a_part_stands_on_one_line(s, i, p);
        joined_on_one_line(s.subrange(i, p), "[ERB]"@);
        if let Some(e) = find_from_of(s, "%>"@, p) {
            a_redacted_text_stands_on_one_line(s, e + 2);
            joined_on_one_line(s.subrange(i, p) + "[ERB]"@, redacted_from(s, e + 2));
        }
    }
}

proof fn a_trimmed_text_stands_on_one_line(s: Seq<char>)
    requires
        !s.contains('\n'),
    ensures
        !trim_start_of(s).contains('\n'),
        !trim_end_of(s).contains('\n'),
    decreases s.len(),
{
    if s.len() > 0 {
        if is_space(s[0]) {
            a_part_stands_on_one_line(s, 1, s.len() as int);
            assert(s.skip(1) =~= s.subrange(1, s.len() as int));
            a_trimmed_text_stands_on_one_line(s.skip(1));
        }
        if is_space(s[s.len() - 1]) {
            a_part_stands_on_one_line(s, 0, s.len() - 1);
            a_trimmed_text_stands_on_one_line(s.subrange(0, s.len() - 1));
        }
    }
}

proof fn quoted_lines_stand_on_one_line(lines: Seq<Seq<char>>, n: int)
    requires
        0 <= n <= lines.len(),
        forall|k: int| 0 <= k < lines.len() ==> !(#[trigger] lines[k]).contains('\n'),
    ensures
        manual_on_one_line(stripped_upto(lines, n).manual),
    decreases n,
{
    if n > 0 {
        quoted_lines_stand_on_one_line(lines, n - 1);
        let raw = lines[n - 1];
        a_trimmed_text_stands_on_one_line(raw);
        a_trimmed_text_stands_on_one_line(trim_start_of(raw));
    }
}

proof fn dropped_are_comment(v: Seq<DroppedV>, n: int)
    requires
        0 <= n <= v.len(),
        dropped_on_one_line(v),
    ensures
        is_comment_text(dropped_comments(v, n)),
    decreases n,
{
    empty_is_comment();
    if n > 0 {
        dropped_are_comment(v, n - 1);
        let d = v[n - 1];
        let head = "#   "@;
        assert(head.len() > 0 && head[0] == '#' && !head.contains('\n')) by {
            reveal_strlit("#   ");
        }
        assert(!" (line "@.contains('\n')) by {
            reveal_strlit(" (line ");
        }
        assert(!") — "@.contains('\n')) by {
            reveal_strlit(") — ");
        }
        let count = decimal(d.line as nat);
        a_number_stands_on_one_line(d.line as nat);
        joined_on_one_line(head, d.key);
        joined_on_one_line(head + d.key, " (line "@);
        joined_on_one_line(head + d.key + " (line "@, count);
        joined_on_one_line(head + d.key + " (line "@ + count, ") — "@);
        joined_on_one_line(head + d.key + " (line "@ + count + ") — "@, d.reason);
        a_line_of_comment(head + d.key + " (line "@ + count + ") — "@ + d.reason);
        comments_joined(dropped_comments(v, n - 1), dropped_comment(d));
    }
}

proof fn manual_are_comment(v: Seq<ManualV>, n: int)
    requires
        0 <= n <= v.len(),
        manual_on_one_line(v),
    ensures
        is_comment_text(manual_comments(v, n)),
    decreases n,
{
    empty_is_comment();
    if n > 0 {
        manual_are_comment(v, n - 1);
        let m = v[n - 1];
        let head = "#   line "@;
        assert(head.len() > 0 && head[0] == '#' && !head.contains('\n')) by {
            reveal_strlit("#   line ");
        }
        assert(!": "@.contains('\n')) by {
            reveal_strlit(": ");
        }
        let count = decimal(m.line as nat);
        let text = redacted_from(m.text, 0);
        a_number_stands_on_one_line(m.line as nat);
        a_redacted_text_stands_on_one_line(m.text, 0);
        joined_on_one_line(head, count);
        joined_on_one_line(head + count, ": "@);
        joined_on_one_line(head + count + ": "@, text);
        a_line_of_comment(head + count + ": "@ + text);
        comments_joined(manual_comments(v, n - 1), head + count + ": "@ + text + "\n"@);
    }
}

proof fn the_sections_are_comment(defaulted: bool, dropped: Seq<DroppedV>, manual: Seq<ManualV>)
    requires
        dropped_on_one_line(dropped),
        manual_on_one_line(manual),
    ensures
        is_comment_text(defaulted_section(defaulted)),
        is_comment_text(dropped_section(dropped)),
        is_comment_text(manual_section(manual)),
{
    empty_is_comment();
    let a =
        "#\n# The source set no `base_locale`, so the gem's default was written out\n# below.\n"@;
    let b = "#\n# Dropped in migration:\n"@;
    let c =
        "#\n# NEEDS ATTENTION. These lines computed their value with ERB, which this\n# tool cannot evaluate. Nothing replaced them; write the values out by hand:\n"@;
    assert(is_comment_text(a)) by {
        reveal(is_comment_text);
        reveal_strlit(
            "#\n# The source set no `base_locale`, so the gem's default was written out\n# below.\n",
        );
    }
    assert(is_comment_text(b)) by {
        reveal(is_comment_text);
        reveal_strlit("#\n# Dropped in migration:\n");
    }
    assert(is_comment_text(c)) by {
        reveal(is_comment_text);
        reveal_strlit(
            "#\n# NEEDS ATTENTION. These lines computed their value with ERB, which this\n# tool cannot evaluate. Nothing replaced them; write the values out by hand:\n",
        );
    }
    dropped_are_comment(dropped, dropped.len() as int);
    manual_are_comment(manual, manual.len() as int);
    comments_joined(b, dropped_comments(dropped, dropped.len() as int));
    comments_joined(c, manual_comments(manual, manual.len() as int));
}

/// The first lines of a migrated config.
spec fn first_lines(from: Seq<char>) -> Seq<char> {
    "# i18n-tasks-rs configuration.\n#\n# Migrated from "@ + from
        + " by `i18n-tasks-rs migrate-config`.\n# This file is plain YAML. It is read, never evaluated: no ERB, no Ruby,\n# no scanner class names. An unknown key is an error.\n"@
}

proof fn the_first_lines_are_comment(from: Seq<char>)
    requires
        !from.contains('\n'),
    ensures
        is_comment_text(first_lines(from)),
{
    let before = "# i18n-tasks-rs configuration.\n#\n# Migrated from "@;
    let after =
        " by `i18n-tasks-rs migrate-config`.\n# This file is plain YAML. It is read, never evaluated: no ERB, no Ruby,\n# no scanner class names. An unknown key is an error.\n"@;
    let top = "# i18n-tasks-rs configuration.\n#\n"@;
    let head = "# Migrated from "@;
    let tail = " by `i18n-tasks-rs migrate-config`."@;
    let end =
        "# This file is plain YAML. It is read, never evaluated: no ERB, no Ruby,\n# no scanner class names. An unknown key is an error.\n"@;
    assert(before =~= top + head) by {
        reveal_strlit("# i18n-tasks-rs configuration.\n#\n# Migrated from ");
        reveal_strlit("# i18n-tasks-rs configuration.\n#\n");
        reveal_strlit("# Migrated from ");
    }
    assert(after =~= tail + "\n"@ + end) by {
        reveal_strlit(
            " by `i18n-tasks-rs migrate-config`.\n# This file is plain YAML. It is read, never evaluated: no ERB, no Ruby,\n# no scanner class names. An unknown key is an error.\n",
        );
        reveal_strlit(" by `i18n-tasks-rs migrate-config`.");
        reveal_strlit(
            "# This file is plain YAML. It is read, never evaluated: no ERB, no Ruby,\n# no scanner class names. An unknown key is an error.\n",
        );
        reveal_strlit("\n");
    }
    assert(is_comment_text(top)) by {
        reveal(is_comment_text);
        reveal_strlit("# i18n-tasks-rs configuration.\n#\n");
    }
    assert(is_comment_text(end)) by {
        reveal(is_comment_text);
        reveal_strlit(
            "# This file is plain YAML. It is read, never evaluated: no ERB, no Ruby,\n# no scanner class names. An unknown key is an error.\n",
        );
    }
    assert(head.len() > 0 && head[0] == '#' && !head.contains('\n')) by {
        reveal_strlit("# Migrated from ");
    }
    assert(!tail.contains('\n')) by {
        reveal_strlit(" by `i18n-tasks-rs migrate-config`.");
    }
    joined_on_one_line(head, from);
    joined_on_one_line(head + from, tail);
    a_line_of_comment(head + from + tail);
    comments_joined(top, head + from + tail + "\n"@);
    comments_joined(top + (head + from + tail + "\n"@), end);
    assert(first_lines(from) =~= top + (head + from + tail + "\n"@) + end);
}

// --------------------------------------------------------------------- the blocks

/// Blocks with one more in front.
proof fn blocks_behind(first: Seq<char>, v: Seq<Seq<char>>, n: int)
    requires
        0 <= n <= v.len(),
    ensures
        block_texts(seq![first] + v, n + 1) == "\n"@ + trim_end_of(first) + "\n"@ + block_texts(v, n),
        complete(block_texts(v, n)),
    decreases n,
{
    reveal_strlit("\n");
    let all = seq![first] + v;
    if n <= 0 {
        assert(block_texts(all, 0) =~= Seq::empty());
        assert(all[0] == first);
        assert(block_texts(all, 1) =~= "\n"@ + trim_end_of(first) + "\n"@ + block_texts(v, 0));
    } else {
        blocks_behind(first, v, n - 1);
        assert(all[n] == v[n - 1]);
        assert(block_texts(all, n + 1) =~= "\n"@ + trim_end_of(first) + "\n"@ + block_texts(v, n));
    }
}

proof fn the_default_stands()
    ensures
        trim_end_of("base_locale: en"@) == "base_locale: en"@,
        content("base_locale: en"@ + "\n"@) == seq!["base_locale: en"@],
        complete("base_locale: en"@ + "\n"@),
        entries_read(seq!["base_locale: en"@], 0) == seq![
            (text_node("base_locale"@), text_node("en"@)),
        ],
{
    let line = "base_locale: en"@;
    reveal_strlit("base_locale: en");
    reveal_strlit(" #");
    find_is_first(line, " #"@, 0);
    if let Some(i) = find_from_of(line, " #"@, 0) {
        assert(line.subrange(i, i + 2)[1] == line[i + 1]);
    }
    assert(!is_space(line[14]));
    assert(uncommented(line) == line);
    content_of_line(line);
    let rest = " en"@;
    assert(names(line, 0, "base_locale"@, rest)) by {
        reveal_strlit("base_locale");
        reveal_strlit(":");
        reveal_strlit(" en");
        assert(line =~= spaces(0) + "base_locale"@ + ":"@ + rest);
    }
    one_entry_is_read(seq![line], 0, "base_locale"@, rest);
    assert(seq![line].skip(1) =~= Seq::<Seq<char>>::empty());
    assert(rest.len() > 0 && rest != " []"@ && rest.skip(1) =~= "en"@) by {
        reveal_strlit(" []");
        reveal_strlit(" en");
        reveal_strlit("en");
    }
    assert(setting_read(rest, Seq::empty()) == text_node("en"@));
}

/// The blocks that a migration kept.
pub open spec fn kept_blocks(
    src: Seq<char>,
    parsed: Result<Option<NodeV>, Seq<char>>,
    from: Seq<char>,
) -> Seq<Seq<char>> {
    let entries = parsed->Ok_0->Some_0.entries()->Some_0;
    entries_migrated(
        bare_lines(stripped_of(src).text),
        entries,
        entries.len(),
        from,
    )->Ok_0.blocks
}

/// The lines of the blocks that a migration kept, without comments.
pub open spec fn kept_content(
    src: Seq<char>,
    parsed: Result<Option<NodeV>, Seq<char>>,
    from: Seq<char>,
) -> Seq<Seq<char>> {
    let blocks = kept_blocks(src, parsed, from);
    content(block_texts(blocks, blocks.len() as int))
}

// --------------------------------------------------------------------------- laws

/// A base locale that was written out is read back as `en`, and what was kept
/// is read behind it. The names that were dropped stand on one line each, and
/// what was kept starts with a setting.
pub proof fn a_default_base_locale_is_read_back(
    src: Seq<char>,
    parsed: Result<Option<NodeV>, Seq<char>>,
    from: Seq<char>,
)
    requires
        assembled(src, parsed, from) is Ok,
        assembled(src, parsed, from)->Ok_0.base_locale_defaulted,
        !from.contains('\n'),
        dropped_on_one_line(assembled(src, parsed, from)->Ok_0.dropped),
        ({
            let kept = kept_content(src, parsed, from);
            kept.len() == 0 || entry_at(kept[0], 0)
        }),
    ensures
        config_read(assembled(src, parsed, from)->Ok_0.output)->entries == seq![
            (text_node("base_locale"@), text_node("en"@)),
        ] + entries_read(kept_content(src, parsed, from), 0),
{
    let m = assembled(src, parsed, from)->Ok_0;
    let blocks = kept_blocks(src, parsed, from);
    let n = blocks.len() as int;
    let kept = block_texts(blocks, n);
    let line = "base_locale: en"@;
    lines_hold_no_break(src);
    quoted_lines_stand_on_one_line(bare_lines(src), bare_lines(src).len() as int);
    the_sections_are_comment(true, m.dropped, m.manual);
    the_first_lines_are_comment(from);
    the_default_stands();
    blocks_behind(line, blocks, n);
    let a = first_lines(from) + defaulted_section(true);
    let b = a + dropped_section(m.dropped);
    let header = b + manual_section(m.manual);
    comments_joined(first_lines(from), defaulted_section(true));
    comments_joined(a, dropped_section(m.dropped));
    comments_joined(b, manual_section(m.manual));
    let body = line + "\n"@ + kept;
    content_joined(line + "\n"@, kept);
    a_break_holds_nothing(body);
    comments_are_passed(header, "\n"@ + body);
    assert("\n"@ + line + "\n"@ + kept =~= "\n"@ + body);
    assert(m.output == header + ("\n"@ + body));
    let rest = content(kept);
    if rest.len() > 0 {
        entries_joined(seq![line], rest, 0);
    } else {
        assert(seq![line] + rest =~= seq![line]);
        assert(entries_read(rest, 0) =~= Seq::empty());
        assert(entries_read(seq![line], 0) + entries_read(rest, 0) =~= entries_read(seq![line], 0));
    }
}

proof fn only_en_gives_en(entries: Seq<(NodeV, NodeV)>, n: nat, path: Seq<char>)
    requires
        n <= entries.len(),
        settings_upto(entries, n, path) is Ok,
        forall|i: int|
            0 <= i < entries.len() && (#[trigger] entries[i]).0.text() == Some("base_locale"@)
                ==> entries[i].1.text() == Some("en"@),
    ensures
        settings_upto(entries, n, path)->Ok_0.base_locale == "en"@,
    decreases n,
{
    if n > 0 {
        let before = settings_upto(entries, (n - 1) as nat, path);
        only_en_gives_en(entries, (n - 1) as nat, path);
        let key = entries[n - 1].0.text()->Some_0;
        assert(with_setting(before->Ok_0, key, entries[n - 1].1, path) is Ok);
    }
}

/// A migrated config whose base locale was written out is a config with the
/// base locale `en`, where no setting that was kept names another.
pub proof fn a_default_base_locale_is_en(
    src: Seq<char>,
    parsed: Result<Option<NodeV>, Seq<char>>,
    from: Seq<char>,
    to: Seq<char>,
)
    requires
        assembled(src, parsed, from) is Ok,
        assembled(src, parsed, from)->Ok_0.base_locale_defaulted,
        !from.contains('\n'),
        dropped_on_one_line(assembled(src, parsed, from)->Ok_0.dropped),
        ({
            let kept = kept_content(src, parsed, from);
            let entries = entries_read(kept, 0);
            &&& kept.len() == 0 || entry_at(kept[0], 0)
            &&& forall|i: int|
                0 <= i < entries.len() ==> (#[trigger] entries[i]).0.text() != Some("base_locale"@)
        }),
    ensures
        ({
            let output = assembled(src, parsed, from)->Ok_0.output;
            parsed_config(output, Ok(Some(config_read(output))), to) matches Ok(cfg)
                ==> cfg.base_locale == "en"@
        }),
{
    a_default_base_locale_is_read_back(src, parsed, from);
    let output = assembled(src, parsed, from)->Ok_0.output;
    let entries = config_read(output)->entries;
    let rest = entries_read(kept_content(src, parsed, from), 0);
    if parsed_config(output, Ok(Some(config_read(output))), to) is Ok {
        assert forall|i: int|
            0 <= i < entries.len() && (#[trigger] entries[i]).0.text() == Some(
                "base_locale"@,
            ) implies entries[i].1.text() == Some("en"@) by {
            if i > 0 {
                assert(entries[i] == rest[i - 1]);
            }
        }
        only_en_gives_en(entries, entries.len(), to);
    }
}

} // verus!
