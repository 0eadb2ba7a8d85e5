//! `migrate-config`: turns an i18n-tasks config into the plain YAML config
//! that this tool reads.
//!
//! An i18n-tasks config is evaluated as ERB, so it can run any code. This tool
//! runs none. The migration strips the ERB and keeps the line numbers, drops
//! the settings that the tool does not have, each with a reason, and checks
//! that the result is a config that the tool accepts.
//!
//! The output is made of slices of the original lines, so comments, quoting
//! and list formatting survive.
pub mod decide;
pub mod erb;
pub mod lines;
pub mod reading;
pub mod render;

use crate::config::{document, parsed_config, Config};
use crate::lineindex::numbers;
use crate::migrate::decide::{
    decide, decision, extent_in_range, key_lines, nested, nested_of, starts_of, Decision, DecisionV,
};
use crate::migrate::erb::{strip_erb, stripped_of, Stripped};
use crate::migrate::lines::{are_extents, end_of, extents, lead_of, slice, sliced};
use crate::migrate::render::{
    dropped_comment, render, rendered, the_header_names_each_dropped_setting,
};
use crate::paths::{join_path, path_under};
use crate::text::{bare_lines, concat, has_text, plain_lines, push_text, same_text, texts};
use crate::yaml::{entries_model, Node, NodeV};
use vstd::prelude::*;

verus! {

/// A setting that did not survive the migration.
#[derive(Debug)]
pub struct Dropped {
    /// Dotted path, as it stands in the source.
    pub key: String,
    /// Line in the source file, counted from 1.
    pub line: usize,
    pub reason: String,
}

/// What a [`Dropped`] holds.
pub struct DroppedV {
    pub key: Seq<char>,
    pub line: int,
    pub reason: Seq<char>,
}

impl View for Dropped {
    type V = DroppedV;

    open spec fn view(&self) -> DroppedV {
        DroppedV { key: self.key@, line: self.line as int, reason: self.reason@ }
    }
}

/// What a list of dropped settings holds.
pub open spec fn dropped_model(v: Seq<Dropped>) -> Seq<DroppedV> {
    Seq::new(v.len(), |i: int| v[i]@)
}

/// A line that used ERB where the value itself was computed. It is reported
/// and left out.
#[derive(Debug)]
pub struct Manual {
    pub line: usize,
    pub text: String,
}

/// What a [`Manual`] holds.
pub struct ManualV {
    pub line: int,
    pub text: Seq<char>,
}

impl View for Manual {
    type V = ManualV;

    open spec fn view(&self) -> ManualV {
        ManualV { line: self.line as int, text: self.text@ }
    }
}

/// What a list of reported lines holds.
pub open spec fn manual_model(v: Seq<Manual>) -> Seq<ManualV> {
    Seq::new(v.len(), |i: int| v[i]@)
}

/// The file that the migrated config is written to.
pub const MIGRATION_TARGET: &'static str = "config/i18n-tasks-rs.yml";

/// Where a config to migrate is looked for, the preferred place first.
pub fn gem_config_candidates() -> (out: Vec<&'static str>)
    ensures
        out@ == seq!["config/i18n-tasks.yml", "config/i18n-tasks.yml.erb"],
{
    let mut out: Vec<&'static str> = Vec::new();
    out.push("config/i18n-tasks.yml");
    out.push("config/i18n-tasks.yml.erb");
    assert(out@ =~= seq!["config/i18n-tasks.yml", "config/i18n-tasks.yml.erb"]);
    out
}

/// The first config to migrate that exists under a root. `is_file` says of each
/// of [`gem_config_candidates`] whether it does.
pub fn find_gem_config(root: &str, is_file: &Vec<bool>) -> (r: Option<String>)
    requires
        is_file.len() == 2,
    ensures
        match r {
            Some(path) => if is_file@[0] {
                path@ == path_under(root@, "config/i18n-tasks.yml"@)
            } else {
                is_file@[1] && path@ == path_under(root@, "config/i18n-tasks.yml.erb"@)
            },
            None => !is_file@[0] && !is_file@[1],
        },
{
    let candidates = gem_config_candidates();
    if is_file[0] {
        Some(join_path(root, candidates[0]))
    } else if is_file[1] {
        Some(join_path(root, candidates[1]))
    } else {
        None
    }
}

/// A migrated config, and the record of its migration.
#[derive(Debug)]
pub struct Migration {
    /// The migrated config, ready to write.
    pub output: String,
    /// Top-level keys that survived, in source order.
    pub kept: Vec<String>,
    pub dropped: Vec<Dropped>,
    pub manual: Vec<Manual>,
    /// Lines that held nothing but ERB, such as a prelude of `require`s.
    pub erb_lines: Vec<usize>,
    /// Set where the source had no `base_locale` and the default was written
    /// out.
    pub base_locale_defaulted: bool,
}

/// What a [`Migration`] holds.
pub struct MigrationV {
    pub output: Seq<char>,
    pub kept: Seq<Seq<char>>,
    pub dropped: Seq<DroppedV>,
    pub manual: Seq<ManualV>,
    pub erb_lines: Seq<int>,
    pub base_locale_defaulted: bool,
}

impl View for Migration {
    type V = MigrationV;

    open spec fn view(&self) -> MigrationV {
        MigrationV {
            output: self.output@,
            kept: texts(self.kept@),
            dropped: dropped_model(self.dropped@),
            manual: manual_model(self.manual@),
            erb_lines: numbers(self.erb_lines@),
            base_locale_defaulted: self.base_locale_defaulted,
        }
    }
}

impl Migration {
    /// The migrated config still needs a human.
    pub fn needs_attention(&self) -> (b: bool)
        ensures
            b == (self.manual.len() > 0),
    {
        self.manual.len() > 0
    }
}

/// What the top-level settings of a config come to.
pub struct SettingsV {
    pub kept: Seq<Seq<char>>,
    pub dropped: Seq<DroppedV>,
    pub blocks: Seq<Seq<char>>,
}

/// What one more top-level setting comes to, or why the migration stops.
pub open spec fn with_entry(
    before: SettingsV,
    lines: Seq<Seq<char>>,
    entries: Seq<(NodeV, NodeV)>,
    i: int,
    from: Seq<char>,
) -> Result<SettingsV, Seq<char>> {
    let line = entries[i].0.line();
    let lead = lead_of(lines, starts_of(entries), i, 0);
    let end = end_of(lines, starts_of(entries), i, 0, lines.len() as int);
    match entries[i].0.text() {
        None => Err(from + ": non-string config key"@),
        Some(key) => match decision(key, entries[i].1, None) {
            DecisionV::Drop(reason) => Ok(
                SettingsV { dropped: before.dropped.push(DroppedV { key, line, reason }), ..before },
            ),
            DecisionV::Keep => Ok(
                SettingsV {
                    kept: before.kept.push(key),
                    blocks: before.blocks.push(sliced(lines, lead, end)),
                    ..before
                },
            ),
            DecisionV::Recurse => match nested_of(
                lines,
                key,
                line,
                entries[i].1,
                lead,
                end,
                from,
            ) {
                Err(e) => Err(e),
                Ok((Some(text), more)) => Ok(
                    SettingsV {
                        kept: before.kept.push(key),
                        blocks: before.blocks.push(text),
                        dropped: before.dropped + more,
                    },
                ),
                Ok((None, more)) => Ok(
                    SettingsV {
                        dropped: (before.dropped + more).push(
                            DroppedV { key, line, reason: "every setting under it was dropped"@ },
                        ),
                        ..before
                    },
                ),
            },
        },
    }
}

/// What the first `n` top-level settings come to, or the first error.
pub open spec fn entries_migrated(
    lines: Seq<Seq<char>>,
    entries: Seq<(NodeV, NodeV)>,
    n: nat,
    from: Seq<char>,
) -> Result<SettingsV, Seq<char>>
    decreases n,
{
    if n == 0 {
        Ok(SettingsV { kept: Seq::empty(), dropped: Seq::empty(), blocks: Seq::empty() })
    } else {
        match entries_migrated(lines, entries, (n - 1) as nat, from) {
            Err(e) => Err(e),
            Ok(before) => with_entry(before, lines, entries, n - 1, from),
        }
    }
}

proof fn migration_error_stays(
    lines: Seq<Seq<char>>,
    entries: Seq<(NodeV, NodeV)>,
    n: nat,
    m: nat,
    from: Seq<char>,
)
    requires
        n <= m,
        entries_migrated(lines, entries, n, from) is Err,
    ensures
        entries_migrated(lines, entries, m, from) == entries_migrated(lines, entries, n, from),
    decreases m,
{
    if n < m {
        migration_error_stays(lines, entries, n, (m - 1) as nat, from);
    }
}

/// The migrated config of a source. `parsed` is what the source parses to once
/// its ERB is stripped.
pub open spec fn assembled(
    src: Seq<char>,
    parsed: Result<Option<NodeV>, Seq<char>>,
    from: Seq<char>,
) -> Result<MigrationV, Seq<char>> {
    let stripped = stripped_of(src);
    match parsed {
        Err(e) => Err(e),
        Ok(None) => Err(
            from
                + ": no settings found. After the ERB was removed the file held nothing but comments."@,
        ),
        Ok(Some(root)) => match root.entries() {
            None => Err(from + ": config must be a YAML mapping"@),
            Some(entries) => match entries_migrated(
                bare_lines(stripped.text),
                entries,
                entries.len(),
                from,
            ) {
                Err(e) => Err(e),
                Ok(all) => {
                    let defaulted = !all.kept.contains("base_locale"@);
                    let blocks = if defaulted {
                        seq!["base_locale: en"@] + all.blocks
                    } else {
                        all.blocks
                    };
                    Ok(
                        MigrationV {
                            output: rendered(
                                defaulted,
                                all.dropped,
                                stripped.manual,
                                blocks,
                                from,
                            ),
                            kept: all.kept,
                            dropped: all.dropped,
                            manual: stripped.manual,
                            erb_lines: stripped.erb_lines,
                            base_locale_defaulted: defaulted,
                        },
                    )
                },
            },
        },
    }
}

/// Every key of a config, and every key of its sections, stands on one of
/// `count` lines.
pub open spec fn keys_on_lines(root: NodeV, count: int) -> bool {
    root.entries() matches Some(entries) ==> {
        &&& forall|i: int| 0 <= i < entries.len() ==> 1 <= (#[trigger] entries[i]).0.line() <= count
        &&& forall|i: int, j: int|
            0 <= i < entries.len() && (entries[i].1.entries() matches Some(sub) && 0 <= j
                < sub.len()) ==> (#[trigger] (#[trigger] entries[i]).1.entries()->Some_0[j]).0.line()
                <= count
    }
}

fn lists_base_locale(kept: &Vec<String>) -> (b: bool)
    ensures
        b == texts(kept@).contains("base_locale"@),
{
    let mut i: usize = 0;
    while i < kept.len()
        invariant
            i <= kept.len(),
            forall|j: int| 0 <= j < i ==> texts(kept@)[j] != "base_locale"@,
        decreases kept.len() - i,
    {
        if same_text(&kept[i], "base_locale") {
            assert(texts(kept@)[i as int] == "base_locale"@);
            return true;
        }
        i = i + 1;
    }
    false
}

struct Settings {
    kept: Vec<String>,
    dropped: Vec<Dropped>,
    blocks: Vec<String>,
}

impl View for Settings {
    type V = SettingsV;

    closed spec fn view(&self) -> SettingsV {
        SettingsV {
            kept: texts(self.kept@),
            dropped: dropped_model(self.dropped@),
            blocks: texts(self.blocks@),
        }
    }
}

fn push_dropped(v: &mut Vec<Dropped>, item: Dropped)
    ensures
        dropped_model(final(v)@) == dropped_model(old(v)@).push(item@),
{
    let ghost before = dropped_model(v@);
    v.push(item);
    assert(dropped_model(v@) =~= before.push(item@));
}

fn migrate_entry(
    settings: &mut Settings,
    lines: &Vec<String>,
    top: &Vec<(Node, Node)>,
    i: usize,
    part: &lines::Extent,
    from: &str,
) -> (r: Result<(), String>)
    requires
        i < top.len(),
        part.lead_start == lead_of(texts(lines@), starts_of(entries_model(top@)), i as int, 0),
        part.body_end == end_of(
            texts(lines@),
            starts_of(entries_model(top@)),
            i as int,
            0,
            lines.len() as int,
        ),
        forall|j: int| 0 <= j < top.len() ==> 1 <= (#[trigger] top@[j]).0@.line() <= lines.len(),
        top@[i as int].1@.entries() matches Some(sub) ==> forall|j: int|
            0 <= j < sub.len() ==> (#[trigger] sub[j]).0.line() <= lines.len(),
    ensures
        match with_entry(
            old(settings)@,
            texts(lines@),
            entries_model(top@),
            i as int,
            from@,
        ) {
            Ok(v) => r is Ok && final(settings)@ == v,
            Err(e) => r matches Err(f) && f@ == e,
        },
{
    let ghost model = texts(lines@);
    let ghost entries = entries_model(top@);
    let entry = &top[i];
    assert(model.len() == lines.len());
    assert(entries[i as int] == (entry.0@, entry.1@));
    let key = match entry.0.as_str() {
        Some(key) => key,
        None => {
            return Err(concat(from, ": non-string config key"));
        },
    };
    let line = entry.0.line();
    proof {
        assert forall|j: int| 0 <= j < entries.len() implies 1 <= #[trigger] starts_of(entries)[j]
            <= lines.len() by {
            assert(entries[j] == (top@[j].0@, top@[j].1@));
        }
        extent_in_range(model, starts_of(entries), i as int, 0, lines.len() as int, lines.len() as int);
    }
    match decide(key, &entry.1, None) {
        Decision::Drop(reason) => {
            push_dropped(&mut settings.dropped, Dropped { key: key.to_owned(), line, reason });
        },
        Decision::Keep => {
            push_text(&mut settings.kept, key.to_owned());
            push_text(&mut settings.blocks, slice(lines, part.lead_start, part.body_end));
        },
        Decision::Recurse => {
            match nested(lines, key, line, &entry.1, part, from, &mut settings.dropped) {
                Err(e) => {
                    return Err(e);
                },
                Ok(Some(text)) => {
                    push_text(&mut settings.kept, key.to_owned());
                    push_text(&mut settings.blocks, text);
                },
                Ok(None) => {
                    push_dropped(
                        &mut settings.dropped,
                        Dropped {
                            key: key.to_owned(),
                            line,
                            reason: "every setting under it was dropped".to_owned(),
                        },
                    );
                },
            }
        },
    }
    Ok(())
}

fn migrate_entries(lines: &Vec<String>, top: &Vec<(Node, Node)>, from: &str) -> (r: Result<
    Settings,
    String,
>)
    requires
        forall|j: int| 0 <= j < top.len() ==> 1 <= (#[trigger] top@[j]).0@.line() <= lines.len(),
        forall|i: int, j: int|
            0 <= i < top.len() && (top@[i].1@.entries() matches Some(sub) && 0 <= j < sub.len())
                ==> (#[trigger] (#[trigger] top@[i]).1@.entries()->Some_0[j]).0.line()
                <= lines.len(),
    ensures
        match entries_migrated(texts(lines@), entries_model(top@), top.len() as nat, from@) {
            Ok(v) => r matches Ok(all) && all@ == v,
            Err(e) => r matches Err(f) && f@ == e,
        },
{
    let ghost model = texts(lines@);
    let ghost entries = entries_model(top@);
    let starts = key_lines(top);
    let parts = extents(lines, &starts, 0, lines.len());
    let mut all = Settings { kept: Vec::new(), dropped: Vec::new(), blocks: Vec::new() };
    assert(texts(all.kept@) =~= Seq::empty());
    assert(dropped_model(all.dropped@) =~= Seq::empty());
    assert(texts(all.blocks@) =~= Seq::empty());
    let mut i: usize = 0;
    while i < top.len()
        invariant
            i <= top.len() == parts.len() == entries.len(),
            model == texts(lines@),
            entries == entries_model(top@),
            are_extents(parts@, model, starts_of(entries), 0, lines.len() as int),
            forall|j: int|
                0 <= j < top.len() ==> 1 <= (#[trigger] top@[j]).0@.line() <= lines.len(),
            forall|k: int, j: int|
                0 <= k < top.len() && (top@[k].1@.entries() matches Some(sub) && 0 <= j
                    < sub.len()) ==> (#[trigger] (#[trigger] top@[k]).1@.entries()->Some_0[j]).0.line()
                    <= lines.len(),
            entries_migrated(model, entries, i as nat, from@) == Ok::<SettingsV, Seq<char>>(all@),
        decreases top.len() - i,
    {
        assert(parts@[i as int].lead_start == lead_of(model, starts_of(entries), i as int, 0));
        proof {
            if let Some(sub) = top@[i as int].1@.entries() {
                assert forall|j: int| 0 <= j < sub.len() implies (#[trigger] sub[j]).0.line()
                    <= lines.len() by {
                    assert(top@[i as int].1@.entries()->Some_0[j].0.line() <= lines.len());
                }
            }
        }
        match migrate_entry(&mut all, lines, top, i, &parts[i], from) {
            Ok(_) => {},
            Err(e) => {
                proof {
                    migration_error_stays(
                        model,
                        entries,
                        (i + 1) as nat,
                        entries.len(),
                        from@,
                    );
                }
                return Err(e);
            },
        }
        i = i + 1;
    }
    Ok(all)
}

/// Migrates a config up to the check of the result. `stripped` is the source
/// without its ERB, and `parsed` what that parses to.
pub fn assemble(
    src: &str,
    stripped: Stripped,
    parsed: &Result<Option<Node>, String>,
    from: &str,
) -> (r: Result<Migration, String>)
    requires
        stripped.text@ == stripped_of(src@).text,
        numbers(stripped.erb_lines@) == stripped_of(src@).erb_lines,
        manual_model(stripped.manual@) == stripped_of(src@).manual,
        parsed matches Ok(Some(root)) ==> keys_on_lines(
            root@,
            bare_lines(stripped_of(src@).text).len() as int,
        ),
    ensures
        match assembled(src@, document(parsed), from@) {
            Ok(v) => r matches Ok(m) && m@ == v,
            Err(e) => r matches Err(f) && f@ == e,
        },
{
    let lines = plain_lines(&stripped.text);
    assert(bare_lines(stripped_of(src@).text).len() == lines.len());
    let root = match parsed {
        Err(e) => {
            return Err(e.clone());
        },
        Ok(None) => {
            return Err(
                concat(
                    from,
                    ": no settings found. After the ERB was removed the file held nothing but comments.",
                ),
            );
        },
        Ok(Some(root)) => root,
    };
    let top = match root.as_map() {
        Some(top) => top,
        None => {
            return Err(concat(from, ": config must be a YAML mapping"));
        },
    };
    let ghost entries = entries_model(top@);
    proof {
        assert forall|j: int| 0 <= j < top.len() implies 1 <= (#[trigger] top@[j]).0@.line()
            <= lines.len() by {
            assert(entries[j] == (top@[j].0@, top@[j].1@));
        }
        assert forall|i: int, j: int|
            0 <= i < top.len() && (top@[i].1@.entries() matches Some(sub) && 0 <= j
                < sub.len()) implies (#[trigger] (#[trigger] top@[i]).1@.entries()->Some_0[j]).0.line()
            <= lines.len() by {
            assert(entries[i] == (top@[i].0@, top@[i].1@));
            assert(entries[i].1.entries()->Some_0[j].0.line() <= lines.len());
        }
    }
    let mut all = match migrate_entries(&lines, top, from) {
        Ok(all) => all,
        Err(e) => {
            return Err(e);
        },
    };
    let ghost settings = all@;
    let base_locale_defaulted = !lists_base_locale(&all.kept);
    let blocks = if base_locale_defaulted {
        let mut blocks: Vec<String> = Vec::new();
        blocks.push("base_locale: en".to_owned());
        let mut rest: Vec<String> = Vec::new();
        std::mem::swap(&mut rest, &mut all.blocks);
        let ghost more = rest@;
        blocks.append(&mut rest);
        assert(texts(blocks@) =~= seq!["base_locale: en"@] + texts(more));
        blocks
    } else {
        all.blocks
    };
    let output = render(base_locale_defaulted, &all.dropped, &stripped.manual, &blocks, from);
    Ok(
        Migration {
            output,
            kept: all.kept,
            dropped: all.dropped,
            manual: stripped.manual,
            erb_lines: stripped.erb_lines,
            base_locale_defaulted,
        },
    )
}

/// The message for a migration whose result is no config.
pub open spec fn unreadable_message(from: Seq<char>, e: Seq<char>) -> Seq<char> {
    "migration produced a config this tool cannot read. This is a bug in `migrate-config`; please report it with your "@
        + from + ".\n  "@ + e
}

/// Checks that the result of a migration is a config that the tool accepts.
/// `reparsed` is what the result parses to.
pub fn accept(
    migration: Migration,
    reparsed: Result<Option<Node>, String>,
    from: &str,
    to: &str,
) -> (r: Result<Migration, String>)
    ensures
        match parsed_config(migration.output@, document(&reparsed), to@) {
            Ok(_) => r == Ok::<Migration, String>(migration),
            Err(e) => r matches Err(f) && f@ == unreadable_message(from@, e),
        },
{
    match Config::parse(&migration.output, reparsed, to, ".") {
        Ok(_) => Ok(migration),
        Err(e) => {
            let mut message = concat(
                "migration produced a config this tool cannot read. This is a bug in `migrate-config`; please report it with your ",
                from,
            );
            message.append(".\n  ");
            message.append(&e);
            Err(message)
        },
    }
}

/// Whether `parse` gives `parsed` for the text that it is handed.
pub open spec fn parses_to<P: Fn(String) -> Result<Option<Node>, String>>(
    parse: P,
    text: Seq<char>,
    parsed: Result<Option<Node>, String>,
) -> bool {
    exists|s: String| s@ == text && #[trigger] call_ensures(parse, (s,), parsed)
}

/// What a migration returns, where `first` is what the stripped source parses
/// to and `second` what the result parses to.
pub open spec fn migrated(
    r: Result<Migration, String>,
    src: Seq<char>,
    first: Result<Option<Node>, String>,
    second: Result<Option<Node>, String>,
    from: Seq<char>,
    to: Seq<char>,
) -> bool {
    match assembled(src, document(&first), from) {
        Err(e) => r matches Err(f) && f@ == e,
        Ok(v) => match parsed_config(v.output, document(&second), to) {
            Ok(_) => r matches Ok(m) && m@ == v,
            Err(e) => r matches Err(f) && f@ == unreadable_message(from, e),
        },
    }
}

/// Migrates a config. `parse` reads YAML; `from` and `to` name the two files
/// in messages and in the header.
pub fn migrate<P: Fn(String) -> Result<Option<Node>, String>>(
    src: &str,
    from: &str,
    to: &str,
    parse: P,
) -> (r: Result<Migration, String>)
    requires
        forall|s: String| #[trigger] call_requires(parse, (s,)),
        forall|s: String, root: Node| #[trigger]
            call_ensures(parse, (s,), Ok(Some(root))) ==> keys_on_lines(
                root@,
                bare_lines(s@).len() as int,
            ),
    ensures
        exists|first: Result<Option<Node>, String>, second: Result<Option<Node>, String>| #[trigger]
            migrated(r, src@, first, second, from@, to@) && parses_to(
                parse,
                stripped_of(src@).text,
                first,
            ) && (assembled(src@, document(&first), from@) matches Ok(v) ==> parses_to(
                parse,
                v.output,
                second,
            )),
{
    let stripped = strip_erb(src);
    let text = stripped.text.clone();
    let first = parse(text);
    assert(parses_to(parse, stripped_of(src@).text, first)) by {
        assert(call_ensures(parse, (text,), first));
    }
    proof {
        if first is Ok && first->Ok_0 is Some {
            assert(call_ensures(parse, (text,), Ok(Some(first->Ok_0->Some_0))));
        }
    }
    match assemble(src, stripped, &first, from) {
        Err(e) => {
            assert(migrated(Err::<Migration, String>(e), src@, first, first, from@, to@));
            Err(e)
        },
        Ok(m) => {
            let output = m.output.clone();
            let second = parse(output);
            assert(parses_to(parse, m.output@, second)) by {
                assert(call_ensures(parse, (output,), second));
            }
            let ghost again = second;
            let r = accept(m, second, from, to);
            assert(migrated(r, src@, first, again, from@, to@));
            r
        },
    }
}

// -------------------------------------------------------------------------- laws

/// A config that a migration hands out holds no ERB.
pub proof fn a_migrated_config_holds_no_tag(
    r: Result<Migration, String>,
    src: Seq<char>,
    first: Result<Option<Node>, String>,
    second: Result<Option<Node>, String>,
    from: Seq<char>,
    to: Seq<char>,
)
    requires
        migrated(r, src, first, second, from, to),
        r is Ok,
    ensures
        !has_text(r->Ok_0.output@, "<%"@),
{
}

/// A migration hands out a config that the tool accepts.
pub proof fn a_migrated_config_is_accepted(
    r: Result<Migration, String>,
    src: Seq<char>,
    first: Result<Option<Node>, String>,
    second: Result<Option<Node>, String>,
    from: Seq<char>,
    to: Seq<char>,
)
    requires
        migrated(r, src, first, second, from, to),
        r is Ok,
    ensures
        parsed_config(r->Ok_0.output@, document(&second), to) is Ok,
{
}

/// A top-level key is accounted for: it was kept, or it was dropped with a
/// reason.
pub open spec fn accounts_for(all: SettingsV, key: Seq<char>) -> bool {
    all.kept.contains(key) || exists|j: int|
        0 <= j < all.dropped.len() && (#[trigger] all.dropped[j]).key == key
}

/// No setting is lost silently: every top-level key of a migrated config was
/// kept, or is listed among the dropped ones.
pub proof fn every_setting_is_kept_or_dropped(
    lines: Seq<Seq<char>>,
    entries: Seq<(NodeV, NodeV)>,
    n: nat,
    from: Seq<char>,
    i: int,
)
    requires
        0 <= i < n <= entries.len(),
        entries_migrated(lines, entries, n, from) is Ok,
    ensures
        entries[i].0.text() is Some,
        accounts_for(
            entries_migrated(lines, entries, n, from)->Ok_0,
            entries[i].0.text()->Some_0,
        ),
    decreases n,
{
    let before = entries_migrated(lines, entries, (n - 1) as nat, from)->Ok_0;
    let all = entries_migrated(lines, entries, n, from)->Ok_0;
    let last = entries[n - 1].0.text()->Some_0;
    assert(with_entry(before, lines, entries, n - 1, from) == Ok::<SettingsV, Seq<char>>(all));
    assert(all.kept.len() >= before.kept.len());
    assert(forall|j: int| 0 <= j < before.kept.len() ==> all.kept[j] == before.kept[j]);
    assert(forall|j: int| 0 <= j < before.dropped.len() ==> all.dropped[j] == before.dropped[j]);
    if i < n - 1 {
        every_setting_is_kept_or_dropped(lines, entries, (n - 1) as nat, from, i);
        let key = entries[i].0.text()->Some_0;
        if before.kept.contains(key) {
            assert(all.kept[before.kept.index_of(key)] == key);
        } else {
            let j = choose|j: int|
                0 <= j < before.dropped.len() && (#[trigger] before.dropped[j]).key == key;
            assert(all.dropped[j].key == key);
        }
    } else if all.kept.len() > before.kept.len() {
        assert(all.kept[before.kept.len() as int] == last);
    } else {
        assert(all.dropped[all.dropped.len() - 1].key == last);
    }
}

/// The default base locale is written out exactly where the source kept none,
/// and the output names every setting that was dropped.
pub proof fn a_migration_says_what_it_did(
    src: Seq<char>,
    parsed: Result<Option<NodeV>, Seq<char>>,
    from: Seq<char>,
    j: int,
)
    requires
        assembled(src, parsed, from) is Ok,
    ensures
        ({
            let m = assembled(src, parsed, from)->Ok_0;
            &&& m.base_locale_defaulted <==> !m.kept.contains("base_locale"@)
            &&& 0 <= j < m.dropped.len() ==> has_text(m.output, dropped_comment(m.dropped[j]))
        }),
{
    let m = assembled(src, parsed, from)->Ok_0;
    if 0 <= j < m.dropped.len() {
        let entries = parsed->Ok_0->Some_0.entries()->Some_0;
        let lines = bare_lines(stripped_of(src).text);
        let all = entries_migrated(lines, entries, entries.len(), from)->Ok_0;
        let blocks = if m.base_locale_defaulted {
            seq!["base_locale: en"@] + all.blocks
        } else {
            all.blocks
        };
        the_header_names_each_dropped_setting(
            m.base_locale_defaulted,
            m.dropped,
            m.manual,
            blocks,
            from,
            j,
        );
    }
}

} // verus!
