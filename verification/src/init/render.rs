//! The generated config file, and the report of its generation.
use crate::init::detect::{optional, Detected, DetectedV};
use crate::init::verify::{Verification, VerificationV};
use crate::init::{Generated, GeneratedV};
use crate::scan::byte_len;
use crate::text::{
    chars_of, concat, contains, decimal, decimal_text, ends_with, has_text, join, join_of, replace,
    replace_of, same_text, starts_with, swap_char, swap_char_of, texts, trim_end, trim_end_of,
    words, words_of,
};
use crate::yaml::{resolve_plain, resolved, Resolved};
use vstd::prelude::*;

verus! {

// -------------------------------------------------------------------- small parts

/// A character that a plain YAML scalar cannot start with.
pub open spec fn is_indicator(c: char) -> bool {
    c == '*' || c == '&' || c == '{' || c == '[' || c == '"' || c == '\'' || c == '%' || c == '@'
        || c == '`' || c == '!' || c == '|' || c == '>' || c == '#' || c == ',' || c == ']' || c
        == '}'
}

/// The path reads as an entry of a list or as a key: it starts with a dash or a
/// question mark that a space follows, holds a colon that a space follows, or
/// ends in a colon.
pub open spec fn reads_as_collection(path: Seq<char>) -> bool {
    ||| "- "@.is_prefix_of(path)
    ||| "? "@.is_prefix_of(path)
    ||| path == "-"@
    ||| path == "?"@
    ||| has_text(path, ": "@)
    ||| ":"@.is_suffix_of(path)
}

/// YAML would read the path as anything but that string.
pub open spec fn needs_quotes(path: Seq<char>) -> bool {
    ||| path.len() > 0 && is_indicator(path[0])
    ||| reads_as_collection(path)
    ||| has_text(path, " #"@)
    ||| resolved(path) != Resolved::Str
}

/// A path as it is written into the config.
pub open spec fn quoted_of(path: Seq<char>) -> Seq<char> {
    if needs_quotes(path) {
        "\""@ + replace_of(replace_of(path, "\\"@, "\\\\"@), "\""@, "\\\""@) + "\""@
    } else {
        path
    }
}

/// A path as it is written into the config: in quotes where YAML would read it
/// as anything but a string.
pub fn quoted(path: &str) -> (out: String)
    ensures
        out@ == quoted_of(path@),
{
    let v = chars_of(path);
    let indicator = if v.len() > 0 {
        let c = v[0];
        c == '*' || c == '&' || c == '{' || c == '[' || c == '"' || c == '\'' || c == '%' || c
            == '@' || c == '`' || c == '!' || c == '|' || c == '>' || c == '#' || c == ',' || c
            == ']' || c == '}'
    } else {
        false
    };
    let collection = starts_with(path, "- ") || starts_with(path, "? ") || same_text(path, "-")
        || same_text(path, "?") || contains(path, ": ") || ends_with(path, ":");
    let string = match resolve_plain(path) {
        Resolved::Str => true,
        _ => false,
    };
    if indicator || collection || contains(path, " #") || !string {
        proof {
            reveal_strlit("\\");
            reveal_strlit("\"");
        }
        let mut out = concat("\"", &replace(&replace(path, "\\", "\\\\"), "\"", "\\\""));
        out.append("\"");
        out
    } else {
        path.to_owned()
    }
}

/// A comment that is wrapped word by word: the finished lines, and the line
/// that is being filled.
pub struct WrapV {
    pub done: Seq<char>,
    pub line: Seq<char>,
}

/// The comment after its first `n` words.
pub open spec fn wrapped(words: Seq<Seq<char>>, n: int) -> WrapV
    decreases n,
{
    if n <= 0 {
        WrapV { done: Seq::empty(), line: "#   "@ }
    } else {
        let before = wrapped(words, n - 1);
        let word = words[n - 1];
        if byte_len(before.line) + 1 + byte_len(word) > 79 && byte_len(before.line) > 4 {
            WrapV {
                done: before.done + trim_end_of(before.line) + "\n"@,
                line: "#     "@ + word + " "@,
            }
        } else {
            WrapV { done: before.done, line: before.line + word + " "@ }
        }
    }
}

/// A note as comment lines.
pub open spec fn comment_of(note: Seq<char>) -> Seq<char> {
    let w = wrapped(words_of(note), words_of(note).len() as int);
    w.done + trim_end_of(w.line) + "\n"@
}

/// Wraps a note into comment lines that stay inside 80 columns as far as its
/// words allow.
pub fn wrap_comment(note: &str) -> (out: String)
    ensures
        out@ == comment_of(note@),
{
    let list = words(note);
    let ghost model = words_of(note@);
    assert(model.len() == list.len());
    let mut out = String::new();
    let mut line = "#   ".to_owned();
    let mut i: usize = 0;
    assert(out@ =~= Seq::empty());
    while i < list.len()
        invariant
            i <= list.len(),
            model == texts(list@),
            wrapped(model, i as int) == (WrapV { done: out@, line: line@ }),
        decreases list.len() - i,
    {
        assert(model[i as int] == list@[i as int]@);
        let word = &list[i];
        let filled = line.as_str().as_bytes().len();
        let length = word.as_str().as_bytes().len();
        if (length > 78 || filled > 78 - length) && filled > 4 {
            out.append(&trim_end(&line));
            out.append("\n");
            line = "#     ".to_owned();
        }
        line.append(word);
        line.append(" ");
        i = i + 1;
    }
    out.append(&trim_end(&line));
    out.append("\n");
    out
}

/// The first `n` texts, each between two others.
pub open spec fn each(before: Seq<char>, v: Seq<Seq<char>>, after: Seq<char>, n: int) -> Seq<char>
    decreases n,
{
    if n <= 0 {
        Seq::empty()
    } else {
        each(before, v, after, n - 1) + (before + v[n - 1] + after)
    }
}

fn push_each(out: &mut String, before: &str, v: &Vec<String>, after: &str)
    ensures
        final(out)@ == old(out)@ + each(before@, texts(v@), after@, v.len() as int),
{
    let ghost start = out@;
    let ghost model = texts(v@);
    let mut i: usize = 0;
    assert(out@ =~= start + each(before@, model, after@, 0));
    while i < v.len()
        invariant
            i <= v.len(),
            model == texts(v@),
            out@ == start + each(before@, model, after@, i as int),
        decreases v.len() - i,
    {
        assert(model[i as int] == v@[i as int]@);
        out.append(before);
        out.append(&v[i]);
        out.append(after);
        i = i + 1;
        assert(out@ =~= start + each(before@, model, after@, i as int));
    }
}

/// The first `n` notes as comments.
pub open spec fn comments(v: Seq<Seq<char>>, n: int) -> Seq<char>
    decreases n,
{
    if n <= 0 {
        Seq::empty()
    } else {
        comments(v, n - 1) + comment_of(v[n - 1])
    }
}

/// The first `n` paths as list items, quoted where they need it.
pub open spec fn path_items(v: Seq<Seq<char>>, n: int) -> Seq<char>
    decreases n,
{
    if n <= 0 {
        Seq::empty()
    } else {
        path_items(v, n - 1) + ("    - "@ + quoted_of(v[n - 1]) + "\n"@)
    }
}

// --------------------------------------------------------------------- the header

/// What was read back.
pub open spec fn read_back_text(v: VerificationV) -> Seq<char> {
    "read back: "@ + decimal(v.key_count as nat) + " key(s) in "@ + decimal(v.locales.len())
        + " locale(s) from "@ + decimal(v.files_read as nat) + " file(s)\n"@
}

fn read_back(v: &Verification) -> (out: String)
    ensures
        out@ == read_back_text(v@),
{
    assert(v@.locales.len() == v.locales.len());
    let mut out = concat("read back: ", &decimal_text(v.key_count as u64));
    out.append(" key(s) in ");
    out.append(&decimal_text(v.locales.len() as u64));
    out.append(" locale(s) from ");
    out.append(&decimal_text(v.files_read as u64));
    out.append(" file(s)\n");
    out
}

/// What the header says of the locale files.
pub open spec fn data_line(d: DetectedV) -> Seq<char> {
    match d.locale_dir {
        Some(dir) => "#   "@ + dir + ": "@ + decimal(d.files_seen as nat) + " locale file(s), "@
            + (if d.locales.len() == 0 {
            "no locale named by any of them"@
        } else {
            "locales "@ + join_of(d.locales, ", "@)
        }) + "\n"@,
        None => "#   no locale directory\n"@,
    }
}

/// What the header says of the base locale.
pub open spec fn base_line(d: DetectedV) -> Seq<char> {
    match d.base_locale_from {
        Some(at) => "#   base_locale "@ + d.base_locale + " from "@ + at + "\n"@,
        None => "#   base_locale "@ + d.base_locale
            + ", assumed: the project's Ruby names no default_locale\n"@,
    }
}

/// What the header says of a config that could be migrated.
pub open spec fn gem_comment(gem: Option<Seq<char>>) -> Seq<char> {
    match gem {
        Some(path) => "#\n"@ + comment_of(
            swap_char_of(path, '\\', '/')
                + " is still in the project. `i18n-tasks-rs migrate-config` converts it, and keeps the ignore lists, which this file has none of."@,
        ),
        None => Seq::empty(),
    }
}

/// What the header says of what needs a human.
pub open spec fn attention_comment(notes: Seq<Seq<char>>) -> Seq<char> {
    if notes.len() == 0 {
        Seq::empty()
    } else {
        "#\n# NEEDS ATTENTION:\n"@ + comments(notes, notes.len() as int)
    }
}

/// What the header says was read back, once that is known.
pub open spec fn read_back_line(verified: Option<VerificationV>) -> Seq<char> {
    match verified {
        Some(v) => if v.error is None {
            "#   "@ + read_back_text(v)
        } else {
            Seq::empty()
        },
        None => Seq::empty(),
    }
}

/// The header of a generated config.
pub open spec fn header_of(d: DetectedV, verified: Option<VerificationV>) -> Seq<char> {
    "# i18n-tasks-rs configuration.\n#\n# Generated by `i18n-tasks-rs init-config` from the layout of this project.\n# This file is plain YAML. It is read, never evaluated: no ERB, no Ruby,\n# no scanner class names. An unknown key is an error.\n#\n# Detected:\n"@
        + data_line(d) + base_line(d) + each(
        "#   relative root "@,
        d.relative_roots_detected,
        ": not a default, but it uses relative keys\n"@,
        d.relative_roots_detected.len() as int,
    ) + read_back_line(verified) + gem_comment(d.gem_config) + attention_comment(d.notes)
}

/// What a view of an optional verification holds.
pub open spec fn verified_model(verified: Option<&Verification>) -> Option<VerificationV> {
    match verified {
        Some(v) => Some(v@),
        None => None,
    }
}

fn write_data_line(out: &mut String, d: &Detected)
    ensures
        final(out)@ == old(out)@ + data_line(d@),
{
    let ghost start = out@;
    assert(d@.locales.len() == d.locales.len());
    match &d.locale_dir {
        Some(dir) => {
            out.append("#   ");
            out.append(dir);
            out.append(": ");
            out.append(&decimal_text(d.files_seen as u64));
            out.append(" locale file(s), ");
            if d.locales.len() == 0 {
                out.append("no locale named by any of them");
            } else {
                let named = concat("locales ", &join(&d.locales, ", "));
                out.append(&named);
            }
            out.append("\n");
        },
        None => {
            out.append("#   no locale directory\n");
        },
    }
    assert(out@ =~= start + data_line(d@));
}

fn write_base_line(out: &mut String, d: &Detected)
    ensures
        final(out)@ == old(out)@ + base_line(d@),
{
    let ghost start = out@;
    out.append("#   base_locale ");
    out.append(&d.base_locale);
    match &d.base_locale_from {
        Some(at) => {
            out.append(" from ");
            out.append(at);
            out.append("\n");
        },
        None => {
            out.append(", assumed: the project's Ruby names no default_locale\n");
        },
    }
    assert(out@ =~= start + base_line(d@));
}

fn write_notes(out: &mut String, notes: &Vec<String>)
    ensures
        final(out)@ == old(out)@ + attention_comment(texts(notes@)),
{
    let ghost start = out@;
    let ghost model = texts(notes@);
    assert(model.len() == notes.len());
    if notes.len() == 0 {
        assert(start + Seq::<char>::empty() =~= start);
        return;
    }
    let title = "#\n# NEEDS ATTENTION:\n";
    out.append(title);
    let mut i: usize = 0;
    assert(out@ =~= start + (title@ + comments(model, 0)));
    while i < notes.len()
        invariant
            i <= notes.len(),
            model == texts(notes@),
            out@ == start + (title@ + comments(model, i as int)),
        decreases notes.len() - i,
    {
        assert(model[i as int] == notes@[i as int]@);
        out.append(&wrap_comment(&notes[i]));
        i = i + 1;
        assert(out@ =~= start + (title@ + comments(model, i as int)));
    }
}

fn header(d: &Detected, verified: Option<&Verification>) -> (out: String)
    ensures
        out@ == header_of(d@, verified_model(verified)),
{
    let ghost v = d@;
    assert(v.relative_roots_detected.len() == d.relative_roots_detected.len());
    let mut out =
        "# i18n-tasks-rs configuration.\n#\n# Generated by `i18n-tasks-rs init-config` from the layout of this project.\n# This file is plain YAML. It is read, never evaluated: no ERB, no Ruby,\n# no scanner class names. An unknown key is an error.\n#\n# Detected:\n".to_owned();
    write_data_line(&mut out, d);
    write_base_line(&mut out, d);
    push_each(
        &mut out,
        "#   relative root ",
        &d.relative_roots_detected,
        ": not a default, but it uses relative keys\n",
    );
    let ghost a = out@;
    if let Some(r) = verified {
        if r.error.is_none() {
            out.append("#   ");
            out.append(&read_back(r));
        }
    }
    assert(out@ =~= a + read_back_line(verified_model(verified)));
    let ghost b = out@;
    if let Some(gem) = &d.gem_config {
        out.append("#\n");
        let mut note = swap_char(gem, '\\', '/');
        note.append(
            " is still in the project. `i18n-tasks-rs migrate-config` converts it, and keeps the ignore lists, which this file has none of.",
        );
        out.append(&wrap_comment(&note));
    }
    assert(out@ =~= b + gem_comment(v.gem_config));
    write_notes(&mut out, &d.notes);
    out
}

// ------------------------------------------------------------------- the settings

/// The base locale, and the locales as a comment.
pub open spec fn locale_settings(d: DetectedV) -> Seq<char> {
    "\nbase_locale: "@ + d.base_locale + "\n"@ + (if d.locales.len() == 0 {
        Seq::empty()
    } else {
        "# locales: ["@ + join_of(d.locales, ", "@)
            + "]\n# Detected, and left unset on purpose: with no list here the locales come\n# from the files `data.read` matches, so a new one needs no edit.\n"@
    })
}

/// The section `data`.
pub open spec fn data_settings(d: DetectedV) -> Seq<char> {
    "\ndata:\n  read:\n"@ + path_items(d.read, d.read.len() as int)
        + "  # Where a new key goes, and only under `normalize --write`.\n  write:\n    - "@
        + quoted_of(d.write)
        + "\n  # router: conservative_router    # or pattern_router\n  # keep_order: false\n  # external: []                   # read-only data: never missing, never unused\n"@
}

/// The section `search`.
pub open spec fn search_settings(d: DetectedV) -> Seq<char> {
    "\nsearch:\n  paths:\n"@ + each("    - "@, d.search_paths, "\n"@, d.search_paths.len() as int)
        + (if d.exclude.len() == 0 {
        "  # exclude: []\n"@
    } else {
        "  exclude:\n"@ + each("    - "@, d.exclude, "\n"@, d.exclude.len() as int)
    }) + (if d.relative_roots.len() == 0 {
        "  relative_roots: []   # no directory here uses relative keys\n"@
    } else {
        "  relative_roots:\n"@ + each(
            "    - "@,
            d.relative_roots,
            "\n"@,
            d.relative_roots.len() as int,
        )
    }) + "  # only: []\n  # relative_exclude_method_name_paths: []\n"@
}

/// The generated config.
pub open spec fn generated_config(d: DetectedV, verified: Option<VerificationV>) -> Seq<char> {
    header_of(d, verified) + locale_settings(d) + data_settings(d) + search_settings(d)
        + "\n# Nothing is ignored yet. Each list takes key patterns — `devise.*`,\n# `{a,b}.*`, `a.*.b` — and `ignore` applies to every check at once.\n#\n# ignore: []\n# ignore_missing: []\n# ignore_unused: []\n# ignore_eq_base: []\n# ignore_inconsistent_interpolations: []\n"@
}

fn write_locales(out: &mut String, d: &Detected)
    ensures
        final(out)@ == old(out)@ + locale_settings(d@),
{
    let ghost start = out@;
    assert(d@.locales.len() == d.locales.len());
    out.append("\nbase_locale: ");
    out.append(&d.base_locale);
    out.append("\n");
    if d.locales.len() > 0 {
        let mut list = concat("# locales: [", &join(&d.locales, ", "));
        list.append(
            "]\n# Detected, and left unset on purpose: with no list here the locales come\n# from the files `data.read` matches, so a new one needs no edit.\n",
        );
        out.append(&list);
    }
    assert(out@ =~= start + locale_settings(d@));
}

fn write_data(out: &mut String, d: &Detected)
    ensures
        final(out)@ == old(out)@ + data_settings(d@),
{
    let ghost start = out@;
    let ghost model = texts(d.read@);
    assert(model.len() == d.read.len());
    let title = "\ndata:\n  read:\n";
    out.append(title);
    let mut i: usize = 0;
    assert(out@ =~= start + title@ + path_items(model, 0));
    while i < d.read.len()
        invariant
            i <= d.read.len(),
            model == texts(d.read@),
            out@ == start + title@ + path_items(model, i as int),
        decreases d.read.len() - i,
    {
        assert(model[i as int] == d.read@[i as int]@);
        out.append("    - ");
        out.append(&quoted(&d.read[i]));
        out.append("\n");
        i = i + 1;
        assert(out@ =~= start + title@ + path_items(model, i as int));
    }
    out.append("  # Where a new key goes, and only under `normalize --write`.\n  write:\n    - ");
    out.append(&quoted(&d.write));
    out.append(
        "\n  # router: conservative_router    # or pattern_router\n  # keep_order: false\n  # external: []                   # read-only data: never missing, never unused\n",
    );
    assert(out@ =~= start + data_settings(d@));
}

fn write_search(out: &mut String, d: &Detected)
    ensures
        final(out)@ == old(out)@ + search_settings(d@),
{
    let ghost start = out@;
    let ghost v = d@;
    assert(v.search_paths.len() == d.search_paths.len());
    assert(v.exclude.len() == d.exclude.len());
    assert(v.relative_roots.len() == d.relative_roots.len());
    out.append("\nsearch:\n  paths:\n");
    push_each(out, "    - ", &d.search_paths, "\n");
    let ghost a = out@;
    if d.exclude.len() == 0 {
        out.append("  # exclude: []\n");
    } else {
        out.append("  exclude:\n");
        push_each(out, "    - ", &d.exclude, "\n");
        assert(out@ =~= a + ("  exclude:\n"@ + each(
            "    - "@,
            v.exclude,
            "\n"@,
            v.exclude.len() as int,
        )));
    }
    let ghost b = out@;
    if d.relative_roots.len() == 0 {
        out.append("  relative_roots: []   # no directory here uses relative keys\n");
    } else {
        out.append("  relative_roots:\n");
        push_each(out, "    - ", &d.relative_roots, "\n");
        assert(out@ =~= b + ("  relative_roots:\n"@ + each(
            "    - "@,
            v.relative_roots,
            "\n"@,
            v.relative_roots.len() as int,
        )));
    }
    out.append("  # only: []\n  # relative_exclude_method_name_paths: []\n");
    assert(out@ =~= start + search_settings(v));
}

/// Renders the generated config. `verified` is `None` for the draft that is
/// read back first. What was not detected is written as a comment, so that the
/// file shows every setting there is.
pub fn render(d: &Detected, verified: Option<&Verification>) -> (out: String)
    ensures
        out@ == generated_config(d@, verified_model(verified)),
{
    let mut out = header(d, verified);
    write_locales(&mut out, d);
    write_data(&mut out, d);
    write_search(&mut out, d);
    out.append(
        "\n# Nothing is ignored yet. Each list takes key patterns — `devise.*`,\n# `{a,b}.*`, `a.*.b` — and `ignore` applies to every check at once.\n#\n# ignore: []\n# ignore_missing: []\n# ignore_unused: []\n# ignore_eq_base: []\n# ignore_inconsistent_interpolations: []\n",
    );
    out
}

// --------------------------------------------------------------------- the report

/// The report of a generation.
pub open spec fn generation_text(g: GeneratedV, to: Seq<char>, written: bool) -> Seq<char> {
    let d = g.detected;
    (match d.locale_dir {
        Some(dir) => dir,
        None => "(no data)"@,
    }) + " -> "@ + to + "\n  data.read: "@ + decimal(d.read.len()) + " pattern(s) covering "@
        + decimal(d.files_seen as nat) + " locale file(s)\n  data.write: "@ + d.write
        + "\n  base_locale: "@ + d.base_locale + (match d.base_locale_from {
        Some(at) => " from "@ + at + "\n"@,
        None => ", assumed\n"@,
    }) + "  search.paths: "@ + join_of(d.search_paths, ", "@) + "\n  search.relative_roots: "@
        + roots_text(d) + "\n"@ + (if g.verified.error is None {
        "  "@ + read_back_text(g.verified)
    } else {
        Seq::empty()
    }) + (match d.gem_config {
        Some(gem) => "  NOTE "@ + gem
            + " exists. `migrate-config` converts it and keeps the ignore lists.\n"@,
        None => Seq::empty(),
    }) + each("  NEEDS ATTENTION: "@, d.notes, "\n"@, d.notes.len() as int) + (if written {
        "  wrote "@ + to + "\n"@
    } else {
        "  nothing written. Pass `--write` to create the file.\n"@
    })
}

/// The relative roots, and those that are no default ones.
pub open spec fn roots_text(d: DetectedV) -> Seq<char> {
    (if d.relative_roots.len() == 0 {
        "none"@
    } else {
        join_of(d.relative_roots, ", "@)
    }) + (if d.relative_roots_detected.len() == 0 {
        Seq::empty()
    } else {
        " ("@ + join_of(d.relative_roots_detected, ", "@) + " detected)"@
    })
}

fn roots_line(d: &Detected) -> (out: String)
    ensures
        out@ == roots_text(d@),
{
    assert(d@.relative_roots.len() == d.relative_roots.len());
    assert(d@.relative_roots_detected.len() == d.relative_roots_detected.len());
    let mut out = if d.relative_roots.len() == 0 {
        "none".to_owned()
    } else {
        join(&d.relative_roots, ", ")
    };
    if d.relative_roots_detected.len() > 0 {
        let mut extra = concat(" (", &join(&d.relative_roots_detected, ", "));
        extra.append(" detected)");
        out.append(&extra);
    } else {
        assert(out@ + Seq::<char>::empty() =~= out@);
    }
    out
}

/// The report of a generation.
pub fn to_text(g: &Generated, to: &str, written: bool) -> (out: String)
    ensures
        out@ == generation_text(g@, to@, written),
{
    let d = &g.detected;
    let ghost v = d@;
    assert(v.read.len() == d.read.len());
    assert(v.notes.len() == d.notes.len());
    let mut out = match &d.locale_dir {
        Some(dir) => dir.clone(),
        None => "(no data)".to_owned(),
    };
    out.append(" -> ");
    out.append(to);
    out.append("\n  data.read: ");
    out.append(&decimal_text(d.read.len() as u64));
    out.append(" pattern(s) covering ");
    out.append(&decimal_text(d.files_seen as u64));
    out.append(" locale file(s)\n  data.write: ");
    out.append(&d.write);
    out.append("\n  base_locale: ");
    out.append(&d.base_locale);
    match &d.base_locale_from {
        Some(at) => {
            let mut from = concat(" from ", at);
            from.append("\n");
            out.append(&from);
        },
        None => {
            out.append(", assumed\n");
        },
    }
    out.append("  search.paths: ");
    out.append(&join(&d.search_paths, ", "));
    out.append("\n  search.relative_roots: ");
    out.append(&roots_line(d));
    out.append("\n");
    let ghost a = out@;
    if g.verified.error.is_none() {
        out.append(&concat("  ", &read_back(&g.verified)));
    } else {
        assert(a + Seq::<char>::empty() =~= a);
    }
    let ghost b = out@;
    match &d.gem_config {
        Some(gem) => {
            let mut text = concat("  NOTE ", gem);
            text.append(" exists. `migrate-config` converts it and keeps the ignore lists.\n");
            out.append(&text);
        },
        None => {
            assert(b + Seq::<char>::empty() =~= b);
        },
    }
    push_each(&mut out, "  NEEDS ATTENTION: ", &d.notes, "\n");
    if written {
        let mut text = concat("  wrote ", to);
        text.append("\n");
        out.append(&text);
    } else {
        out.append("  nothing written. Pass `--write` to create the file.\n");
    }
    out
}

} // verus!
