//! The migrated config file, and the report of a migration.
//!
//! The header of the file records the migration: what was dropped and why, and
//! what no tool can migrate.
use crate::migrate::erb::{redact_erb, redacted_from};
use crate::migrate::{
    dropped_model, manual_model, Dropped, DroppedV, Manual, ManualV, Migration, MigrationV,
};
use crate::text::{
    concat, decimal, decimal_text, found_in_the_middle, has_text, join, join_of, middle_is_found,
    texts, trim_end, trim_end_of,
};
use vstd::prelude::*;

verus! {

/// The first `n` dropped settings, as comments.
pub open spec fn dropped_comments(v: Seq<DroppedV>, n: int) -> Seq<char>
    decreases n,
{
    if n <= 0 {
        Seq::empty()
    } else {
        dropped_comments(v, n - 1) + dropped_comment(v[n - 1])
    }
}

/// A dropped setting, its line and the reason, as a comment.
pub open spec fn dropped_comment(d: DroppedV) -> Seq<char> {
    "#   "@ + d.key + " (line "@ + decimal(d.line as nat) + ") — "@ + d.reason + "\n"@
}

/// The first `n` lines that need a human, as comments. A tag cannot be quoted:
/// a config that holds one is refused, comments included.
pub open spec fn manual_comments(v: Seq<ManualV>, n: int) -> Seq<char>
    decreases n,
{
    if n <= 0 {
        Seq::empty()
    } else {
        manual_comments(v, n - 1) + ("#   line "@ + decimal(v[n - 1].line as nat) + ": "@
            + redacted_from(v[n - 1].text, 0) + "\n"@)
    }
}

/// The first `n` blocks, each behind an empty line.
pub open spec fn block_texts(blocks: Seq<Seq<char>>, n: int) -> Seq<char>
    decreases n,
{
    if n <= 0 {
        Seq::empty()
    } else {
        block_texts(blocks, n - 1) + ("\n"@ + trim_end_of(blocks[n - 1]) + "\n"@)
    }
}

/// What the header says of settings that were dropped.
pub open spec fn dropped_section(v: Seq<DroppedV>) -> Seq<char> {
    if v.len() == 0 {
        Seq::empty()
    } else {
        "#\n# Dropped in migration:\n"@ + dropped_comments(v, v.len() as int)
    }
}

/// What the header says of lines that need a human.
pub open spec fn manual_section(v: Seq<ManualV>) -> Seq<char> {
    if v.len() == 0 {
        Seq::empty()
    } else {
        "#\n# NEEDS ATTENTION. These lines computed their value with ERB, which this\n# tool cannot evaluate. Nothing replaced them; write the values out by hand:\n"@
            + manual_comments(v, v.len() as int)
    }
}

/// What the header says of a base locale that the source did not set.
pub open spec fn defaulted_section(base_locale_defaulted: bool) -> Seq<char> {
    if base_locale_defaulted {
        "#\n# The source set no `base_locale`, so the gem's default was written out\n# below.\n"@
    } else {
        Seq::empty()
    }
}

/// The migrated config file.
pub open spec fn rendered(
    base_locale_defaulted: bool,
    dropped: Seq<DroppedV>,
    manual: Seq<ManualV>,
    blocks: Seq<Seq<char>>,
    from: Seq<char>,
) -> Seq<char> {
    "# i18n-tasks-rs configuration.\n#\n# Migrated from "@ + from
        + " by `i18n-tasks-rs migrate-config`.\n# This file is plain YAML. It is read, never evaluated: no ERB, no Ruby,\n# no scanner class names. An unknown key is an error.\n"@
        + defaulted_section(base_locale_defaulted) + dropped_section(dropped) + manual_section(
        manual,
    ) + block_texts(blocks, blocks.len() as int)
}

fn push_dropped(out: &mut String, dropped: &Vec<Dropped>)
    ensures
        final(out)@ == old(out)@ + dropped_section(dropped_model(dropped@)),
{
    let ghost model = dropped_model(dropped@);
    assert(model.len() == dropped.len());
    if dropped.len() == 0 {
        assert(out@ + Seq::<char>::empty() =~= out@);
        return;
    }
    let ghost start = out@;
    let title = "#\n# Dropped in migration:\n";
    out.append(title);
    let mut i: usize = 0;
    assert(out@ =~= start + (title@ + dropped_comments(model, 0)));
    while i < dropped.len()
        invariant
            i <= dropped.len(),
            model == dropped_model(dropped@),
            out@ == start + (title@ + dropped_comments(model, i as int)),
        decreases dropped.len() - i,
    {
        let d = &dropped[i];
        assert(model[i as int] == d@);
        out.append("#   ");
        out.append(&d.key);
        out.append(" (line ");
        out.append(&decimal_text(d.line as u64));
        out.append(") — ");
        out.append(&d.reason);
        out.append("\n");
        i = i + 1;
        assert(out@ =~= start + (title@ + dropped_comments(model, i as int)));
    }
}

fn push_manual(out: &mut String, manual: &Vec<Manual>)
    ensures
        final(out)@ == old(out)@ + manual_section(manual_model(manual@)),
{
    let ghost model = manual_model(manual@);
    assert(model.len() == manual.len());
    if manual.len() == 0 {
        assert(out@ + Seq::<char>::empty() =~= out@);
        return;
    }
    let ghost start = out@;
    let title =
        "#\n# NEEDS ATTENTION. These lines computed their value with ERB, which this\n# tool cannot evaluate. Nothing replaced them; write the values out by hand:\n";
    out.append(title);
    let mut i: usize = 0;
    assert(out@ =~= start + (title@ + manual_comments(model, 0)));
    while i < manual.len()
        invariant
            i <= manual.len(),
            model == manual_model(manual@),
            out@ == start + (title@ + manual_comments(model, i as int)),
        decreases manual.len() - i,
    {
        let m = &manual[i];
        assert(model[i as int] == m@);
        out.append("#   line ");
        out.append(&decimal_text(m.line as u64));
        out.append(": ");
        out.append(&redact_erb(&m.text));
        out.append("\n");
        i = i + 1;
        assert(out@ =~= start + (title@ + manual_comments(model, i as int)));
    }
}

/// Renders the migrated config file: a header that explains the migration, and
/// the blocks that were kept.
pub fn render(
    base_locale_defaulted: bool,
    dropped: &Vec<Dropped>,
    manual: &Vec<Manual>,
    blocks: &Vec<String>,
    from: &str,
) -> (out: String)
    ensures
        out@ == rendered(
            base_locale_defaulted,
            dropped_model(dropped@),
            manual_model(manual@),
            texts(blocks@),
            from@,
        ),
{
    let mut out = concat("# i18n-tasks-rs configuration.\n#\n# Migrated from ", from);
    out.append(
        " by `i18n-tasks-rs migrate-config`.\n# This file is plain YAML. It is read, never evaluated: no ERB, no Ruby,\n# no scanner class names. An unknown key is an error.\n",
    );
    let ghost start = out@;
    if base_locale_defaulted {
        out.append(
            "#\n# The source set no `base_locale`, so the gem's default was written out\n# below.\n",
        );
    }
    assert(out@ =~= start + defaulted_section(base_locale_defaulted));
    push_dropped(&mut out, dropped);
    push_manual(&mut out, manual);
    let ghost head = out@;
    let ghost model = texts(blocks@);
    assert(model.len() == blocks.len());
    let mut i: usize = 0;
    assert(out@ =~= head + block_texts(model, 0));
    while i < blocks.len()
        invariant
            i <= blocks.len(),
            model == texts(blocks@),
            out@ == head + block_texts(model, i as int),
        decreases blocks.len() - i,
    {
        assert(model[i as int] == blocks@[i as int]@);
        out.append("\n");
        out.append(&trim_end(&blocks[i]));
        out.append("\n");
        i = i + 1;
        assert(out@ =~= head + block_texts(model, i as int));
    }
    out
}

/// The first `n` dropped settings, one per line.
pub open spec fn dropped_lines(v: Seq<DroppedV>, n: int) -> Seq<char>
    decreases n,
{
    if n <= 0 {
        Seq::empty()
    } else {
        dropped_lines(v, n - 1) + ("  dropped "@ + v[n - 1].key + " ("@ + decimal(
            v[n - 1].line as nat,
        ) + "): "@ + v[n - 1].reason + "\n"@)
    }
}

/// The first `n` lines that need a human, one per line.
pub open spec fn attention_lines(v: Seq<ManualV>, n: int) -> Seq<char>
    decreases n,
{
    if n <= 0 {
        Seq::empty()
    } else {
        attention_lines(v, n - 1) + ("  NEEDS ATTENTION line "@ + decimal(v[n - 1].line as nat)
            + ": "@ + v[n - 1].text + "\n"@)
    }
}

/// The report of a migration.
pub open spec fn migration_text(
    m: MigrationV,
    from: Seq<char>,
    to: Seq<char>,
    written: bool,
) -> Seq<char> {
    from + " -> "@ + to + "\n  kept "@ + decimal(m.kept.len()) + " setting(s): "@ + join_of(
        m.kept,
        ", "@,
    ) + "\n"@ + (if m.base_locale_defaulted {
        "  added base_locale: en, the gem's default. The source set none.\n"@
    } else {
        Seq::empty()
    }) + (if m.erb_lines.len() > 0 {
        "  removed ERB on "@ + decimal(m.erb_lines.len()) + " line(s)\n"@
    } else {
        Seq::empty()
    }) + dropped_lines(m.dropped, m.dropped.len() as int) + attention_lines(
        m.manual,
        m.manual.len() as int,
    ) + (if written {
        "  wrote "@ + to + "\n"@
    } else {
        "  nothing written. Pass `--write` to create the file.\n"@
    })
}

/// The report of a migration.
pub fn to_text(m: &Migration, from: &str, to: &str, written: bool) -> (out: String)
    ensures
        out@ == migration_text(m@, from@, to@, written),
{
    let ghost v = m@;
    assert(v.kept.len() == m.kept.len());
    assert(v.erb_lines.len() == m.erb_lines.len());
    let mut out = concat(from, " -> ");
    out.append(to);
    out.append("\n  kept ");
    out.append(&decimal_text(m.kept.len() as u64));
    out.append(" setting(s): ");
    out.append(&join(&m.kept, ", "));
    out.append("\n");
    let ghost a = out@;
    if m.base_locale_defaulted {
        out.append("  added base_locale: en, the gem's default. The source set none.\n");
    } else {
        assert(a + Seq::<char>::empty() =~= a);
    }
    let ghost b = out@;
    if m.erb_lines.len() > 0 {
        out.append("  removed ERB on ");
        out.append(&decimal_text(m.erb_lines.len() as u64));
        out.append(" line(s)\n");
        assert(out@ =~= b + ("  removed ERB on "@ + decimal(v.erb_lines.len()) + " line(s)\n"@));
    } else {
        assert(b + Seq::<char>::empty() =~= b);
    }
    let ghost c = out@;
    let mut i: usize = 0;
    assert(out@ =~= c + dropped_lines(v.dropped, 0));
    while i < m.dropped.len()
        invariant
            i <= m.dropped.len(),
            v == m@,
            out@ == c + dropped_lines(v.dropped, i as int),
        decreases m.dropped.len() - i,
    {
        let d = &m.dropped[i];
        assert(v.dropped[i as int] == d@);
        out.append("  dropped ");
        out.append(&d.key);
        out.append(" (");
        out.append(&decimal_text(d.line as u64));
        out.append("): ");
        out.append(&d.reason);
        out.append("\n");
        i = i + 1;
        assert(out@ =~= c + dropped_lines(v.dropped, i as int));
    }
    let ghost d = out@;
    let mut k: usize = 0;
    assert(out@ =~= d + attention_lines(v.manual, 0));
    while k < m.manual.len()
        invariant
            k <= m.manual.len(),
            v == m@,
            out@ == d + attention_lines(v.manual, k as int),
        decreases m.manual.len() - k,
    {
        let line = &m.manual[k];
        assert(v.manual[k as int] == line@);
        out.append("  NEEDS ATTENTION line ");
        out.append(&decimal_text(line.line as u64));
        out.append(": ");
        out.append(&line.text);
        out.append("\n");
        k = k + 1;
        assert(out@ =~= d + attention_lines(v.manual, k as int));
    }
    let ghost e = out@;
    if written {
        out.append("  wrote ");
        out.append(to);
        out.append("\n");
        assert(out@ =~= e + ("  wrote "@ + to@ + "\n"@));
    } else {
        out.append("  nothing written. Pass `--write` to create the file.\n");
    }
    assert(v.dropped.len() == m.dropped.len());
    assert(v.manual.len() == m.manual.len());
    out
}

// ------------------------------------------------------------------------ laws

proof fn every_comment_is_written(v: Seq<DroppedV>, n: int, j: int)
    requires
        0 <= j < n <= v.len(),
    ensures
        has_text(dropped_comments(v, n), dropped_comment(v[j])),
    decreases n,
{
    let before = dropped_comments(v, n - 1);
    let last = dropped_comment(v[n - 1]);
    let none = Seq::<char>::empty();
    assert(dropped_comments(v, n) =~= before + last + none);
    assert(dropped_comments(v, n) =~= none + before + last);
    if j < n - 1 {
        every_comment_is_written(v, n - 1, j);
        found_in_the_middle(none, before, last, dropped_comment(v[j]));
    } else {
        middle_is_found(before, last, none);
    }
}

/// The header of a migrated config names each setting that was dropped, with
/// its line and the reason.
pub proof fn the_header_names_each_dropped_setting(
    base_locale_defaulted: bool,
    dropped: Seq<DroppedV>,
    manual: Seq<ManualV>,
    blocks: Seq<Seq<char>>,
    from: Seq<char>,
    j: int,
)
    requires
        0 <= j < dropped.len(),
    ensures
        has_text(
            rendered(base_locale_defaulted, dropped, manual, blocks, from),
            dropped_comment(dropped[j]),
        ),
{
    let line = dropped_comment(dropped[j]);
    let comments = dropped_comments(dropped, dropped.len() as int);
    every_comment_is_written(dropped, dropped.len() as int, j);
    let title = "#\n# Dropped in migration:\n"@;
    let head = "# i18n-tasks-rs configuration.\n#\n# Migrated from "@ + from
        + " by `i18n-tasks-rs migrate-config`.\n# This file is plain YAML. It is read, never evaluated: no ERB, no Ruby,\n# no scanner class names. An unknown key is an error.\n"@
        + defaulted_section(base_locale_defaulted);
    let tail = manual_section(manual) + block_texts(blocks, blocks.len() as int);
    found_in_the_middle(head + title, comments, tail, line);
    assert(rendered(base_locale_defaulted, dropped, manual, blocks, from) =~= (head + title)
        + comments + tail);
}

} // verus!
