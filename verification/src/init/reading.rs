//! What the text of a generated config reads as: the document of the settings
//! that were detected.
use crate::config::{parsed_config, ConfigV};
use crate::data::emit::reading::{complete, entry_at, spaces};
use crate::init::detect::DetectedV;
use crate::init::render::{
    attention_comment, base_line, comment_of, comments, data_line, data_settings, each, gem_comment,
    generated_config, header_of, is_indicator, locale_settings, needs_quotes, path_items, quoted_of,
    read_back_line, search_settings, wrapped,
};
use crate::init::settings::{
    a_generated_config_gives_the_detected_settings, data_node, detected_config, generated_node,
    list_node, search_node, text_node,
};
use crate::init::verify::VerificationV;
use crate::settings_text::{
    a_break_holds_nothing, a_dash_is_deep, a_line_of_comment, a_list_is_read_back,
    a_named_line_is_an_entry, a_number_stands_on_one_line, both_hold, comments_are_passed,
    comments_hold_nothing, comments_joined, config_read, content, content_joined, content_of_line,
    dashes, empty_is_comment, entries_joined, entries_read, is_comment_text, joined_on_one_line,
    margin, names, one_entry_is_read, setting_read, uncommented,
};
use crate::text::{
    decimal, find_from_of, find_is_first, has_text, is_space, join_of, occurs_at, swap_char_of,
    trim_end_of, word_end, word_end_in_range, words_of,
};
use crate::yaml::NodeV;
use vstd::prelude::*;

verus! {

/// A text that YAML reads as it stands: it is not empty, needs no quotes, and
/// stands on one line without white space at its end.
pub open spec fn is_plain(s: Seq<char>) -> bool {
    &&& s.len() > 0
    &&& !needs_quotes(s)
    &&& !s.contains('\n')
    &&& trim_end_of(s) == s
}

/// The texts are plain.
pub open spec fn all_plain(v: Seq<Seq<char>>) -> bool {
    forall|i: int| 0 <= i < v.len() ==> is_plain(#[trigger] v[i])
}

/// The texts stand on one line each.
pub open spec fn on_one_line(v: Seq<Seq<char>>) -> bool {
    forall|i: int| 0 <= i < v.len() ==> !(#[trigger] v[i]).contains('\n')
}

/// What was detected has plain paths and names, a path to read and a path to
/// search.
pub open spec fn is_plain_detection(d: DetectedV) -> bool {
    &&& is_plain(d.base_locale)
    &&& d.read.len() > 0 && all_plain(d.read)
    &&& is_plain(d.write)
    &&& d.search_paths.len() > 0 && all_plain(d.search_paths)
    &&& all_plain(d.exclude)
    &&& all_plain(d.relative_roots)
    &&& on_one_line(d.relative_roots_detected)
    &&& on_one_line(d.locales)
    &&& (d.locale_dir matches Some(dir) ==> !dir.contains('\n'))
    &&& (d.base_locale_from matches Some(at) ==> !at.contains('\n'))
}

// ------------------------------------------------------------------- small parts

proof fn a_list_stands_on_one_line(v: Seq<Seq<char>>)
    requires
        on_one_line(v),
    ensures
        !join_of(v, ", "@).contains('\n'),
    decreases v.len(),
{
    reveal_strlit(", ");
    if v.len() > 1 {
        assert forall|i: int| 0 <= i < v.drop_last().len() implies !(
        #[trigger] v.drop_last()[i]).contains('\n') by {
            assert(v[i] == v.drop_last()[i]);
        }
        a_list_stands_on_one_line(v.drop_last());
        joined_on_one_line(join_of(v.drop_last(), ", "@), ", "@);
        joined_on_one_line(join_of(v.drop_last(), ", "@) + ", "@, v.last());
    }
}

proof fn trimming_shortens(s: Seq<char>)
    ensures
        trim_end_of(s).len() <= s.len(),
        trim_end_of(s) == s.take(trim_end_of(s).len() as int),
    decreases s.len(),
{
    if s.len() > 0 && is_space(s[s.len() - 1]) {
        let shorter = s.subrange(0, s.len() - 1);
        trimming_shortens(shorter);
        assert(trim_end_of(s) =~= s.take(trim_end_of(s).len() as int));
    } else {
        assert(s =~= s.take(s.len() as int));
    }
}

/// A plain text behind a head without a hash stands in its line as it is.
proof fn a_plain_text_stands(head: Seq<char>, s: Seq<char>)
    requires
        is_plain(s),
        head.len() > 0,
        !head.contains('#'),
        !head.contains('\n'),
    ensures
        uncommented(head + s) == head + s,
        !(head + s).contains('\n'),
{
    reveal_strlit(" #");
    let t = head + s;
    joined_on_one_line(head, s);
    assert(t[0] == head[0]);
    assert(head.contains(head[0]));
    find_is_first(t, " #"@, 0);
    find_is_first(s, " #"@, 0);
    if let Some(i) = find_from_of(t, " #"@, 0) {
        assert(t.subrange(i, i + 2)[0] == t[i]);
        assert(t.subrange(i, i + 2)[1] == t[i + 1]);
        let k = i + 1 - head.len();
        if k < 0 {
            assert(head[i + 1] == '#');
            assert(head.contains(head[i + 1]));
        } else if k == 0 {
            assert(s[0] == '#');
            assert(is_indicator(s[0]));
        } else {
            assert(s.subrange(k - 1, k + 1) =~= " #"@);
            assert(occurs_at(s, " #"@, k - 1));
        }
    }
    let last = s[s.len() - 1];
    if is_space(last) {
        trimming_shortens(s.subrange(0, s.len() - 1));
    }
    assert(t[t.len() - 1] == last);
}

// --------------------------------------------------------------------- the header

proof fn words_stand_on_one_line(s: Seq<char>)
    ensures
        on_one_line(words_of(s)),
    decreases s.len(),
{
    if s.len() > 0 {
        if is_space(s[0]) {
            words_stand_on_one_line(s.skip(1));
        } else {
            let n = word_end(s);
            word_end_in_range(s);
            a_word_has_no_space(s);
            if 0 < n <= s.len() {
                words_stand_on_one_line(s.skip(n));
                let rest = words_of(s.skip(n));
                assert forall|i: int| 0 <= i < words_of(s).len() implies !(
                #[trigger] words_of(s)[i]).contains('\n') by {
                    if i > 0 {
                        assert(words_of(s)[i] == rest[i - 1]);
                    } else if s.take(n).contains('\n') {
                        let k = s.take(n).index_of('\n');
                        assert(is_space(s[k]));
                    }
                }
            }
        }
    }
}

proof fn a_word_has_no_space(s: Seq<char>)
    ensures
        forall|k: int| 0 <= k < word_end(s) ==> !is_space(#[trigger] s[k]),
    decreases s.len(),
{
    word_end_in_range(s);
    if s.len() > 0 && !is_space(s[0]) {
        a_word_has_no_space(s.skip(1));
        assert forall|k: int| 0 <= k < word_end(s) implies !is_space(#[trigger] s[k]) by {
            if k > 0 {
                assert(s.skip(1)[k - 1] == s[k]);
            }
        }
    }
}

/// A trimmed line of comment is a line of comment.
proof fn a_trimmed_comment(line: Seq<char>)
    requires
        line.len() > 0,
        line[0] == '#',
        !line.contains('\n'),
    ensures
        is_comment_text(trim_end_of(line) + "\n"@),
{
    let t = trim_end_of(line);
    trimming_shortens(line);
    hash_stays(line);
    if t.contains('\n') {
        let k = t.index_of('\n');
        assert(line[k] == '\n');
    }
    a_line_of_comment(t);
}

proof fn hash_stays(line: Seq<char>)
    requires
        line.len() > 0,
        line[0] == '#',
    ensures
        trim_end_of(line).len() > 0,
        trim_end_of(line)[0] == '#',
    decreases line.len(),
{
    if is_space(line[line.len() - 1]) {
        assert(line.len() > 1);
        hash_stays(line.subrange(0, line.len() - 1));
    }
}

proof fn a_wrapped_note_is_comment(words: Seq<Seq<char>>, n: int)
    requires
        on_one_line(words),
        0 <= n <= words.len(),
    ensures
        is_comment_text(wrapped(words, n).done),
        wrapped(words, n).line.len() > 0,
        wrapped(words, n).line[0] == '#',
        !wrapped(words, n).line.contains('\n'),
    decreases n,
{
    assert("#   "@.len() > 0 && "#   "@[0] == '#' && !"#   "@.contains('\n')) by {
        reveal_strlit("#   ");
    }
    assert("#     "@.len() > 0 && "#     "@[0] == '#' && !"#     "@.contains('\n')) by {
        reveal_strlit("#     ");
    }
    assert(!" "@.contains('\n')) by {
        reveal_strlit(" ");
    }
    assert(is_comment_text(Seq::empty())) by {
        reveal(is_comment_text);
    }
    if n > 0 {
        a_wrapped_note_is_comment(words, n - 1);
        let before = wrapped(words, n - 1);
        let word = words[n - 1];
        a_trimmed_comment(before.line);
        comments_joined(before.done, trim_end_of(before.line) + "\n"@);
        assert(before.done + trim_end_of(before.line) + "\n"@ =~= before.done + (trim_end_of(
            before.line,
        ) + "\n"@));
        joined_on_one_line("#     "@, word);
        joined_on_one_line("#     "@ + word, " "@);
        joined_on_one_line(before.line, word);
        joined_on_one_line(before.line + word, " "@);
    }
}

proof fn a_note_is_comment(note: Seq<char>)
    ensures
        is_comment_text(comment_of(note)),
{
    let words = words_of(note);
    words_stand_on_one_line(note);
    a_wrapped_note_is_comment(words, words.len() as int);
    let w = wrapped(words, words.len() as int);
    a_trimmed_comment(w.line);
    comments_joined(w.done, trim_end_of(w.line) + "\n"@);
    assert(comment_of(note) =~= w.done + (trim_end_of(w.line) + "\n"@));
}

proof fn notes_are_comment(v: Seq<Seq<char>>, n: int)
    requires
        0 <= n <= v.len(),
    ensures
        is_comment_text(comments(v, n)),
    decreases n,
{
    assert(is_comment_text(Seq::empty())) by {
        reveal(is_comment_text);
    }
    if n > 0 {
        notes_are_comment(v, n - 1);
        a_note_is_comment(v[n - 1]);
        comments_joined(comments(v, n - 1), comment_of(v[n - 1]));
    }
}

proof fn roots_are_comment(v: Seq<Seq<char>>, n: int)
    requires
        0 <= n <= v.len(),
        on_one_line(v),
    ensures
        is_comment_text(
            each("#   relative root "@, v, ": not a default, but it uses relative keys\n"@, n),
        ),
    decreases n,
{
    let head = "#   relative root "@;
    let tail = ": not a default, but it uses relative keys"@;
    let after = ": not a default, but it uses relative keys\n"@;
    assert(head.len() > 0 && head[0] == '#' && !head.contains('\n')) by {
        reveal_strlit("#   relative root ");
    }
    assert(!tail.contains('\n') && after =~= tail + "\n"@) by {
        reveal_strlit(": not a default, but it uses relative keys\n");
        reveal_strlit(": not a default, but it uses relative keys");
        reveal_strlit("\n");
    }
    assert(is_comment_text(Seq::empty())) by {
        reveal(is_comment_text);
    }
    if n > 0 {
        roots_are_comment(v, n - 1);
        let root = v[n - 1];
        joined_on_one_line(head, root);
        joined_on_one_line(head + root, tail);
        a_line_of_comment(head + root + tail);
        assert(head + root + after =~= head + root + tail + "\n"@);
        comments_joined(each(head, v, after, n - 1), head + root + after);
    }
}

proof fn the_data_line_is_comment(d: DetectedV)
    requires
        is_plain_detection(d),
    ensures
        is_comment_text(data_line(d)),
{
    assert("#   "@.len() > 0 && "#   "@[0] == '#' && !"#   "@.contains('\n')) by {
        reveal_strlit("#   ");
    }
    assert(!": "@.contains('\n')) by {
        reveal_strlit(": ");
    }
    assert(!" locale file(s), "@.contains('\n')) by {
        reveal_strlit(" locale file(s), ");
    }
    assert(!"no locale named by any of them"@.contains('\n')) by {
        reveal_strlit("no locale named by any of them");
    }
    assert(!"locales "@.contains('\n')) by {
        reveal_strlit("locales ");
    }
    assert(is_comment_text("#   no locale directory\n"@)) by {
        reveal(is_comment_text);
        reveal_strlit("#   no locale directory\n");
    }
    if let Some(dir) = d.locale_dir {
        let count = decimal(d.files_seen as nat);
        let named = if d.locales.len() == 0 {
            "no locale named by any of them"@
        } else {
            "locales "@ + join_of(d.locales, ", "@)
        };
        a_number_stands_on_one_line(d.files_seen as nat);
        a_list_stands_on_one_line(d.locales);
        joined_on_one_line("locales "@, join_of(d.locales, ", "@));
        joined_on_one_line("#   "@, dir);
        joined_on_one_line("#   "@ + dir, ": "@);
        joined_on_one_line("#   "@ + dir + ": "@, count);
        joined_on_one_line("#   "@ + dir + ": "@ + count, " locale file(s), "@);
        joined_on_one_line("#   "@ + dir + ": "@ + count + " locale file(s), "@, named);
        a_line_of_comment("#   "@ + dir + ": "@ + count + " locale file(s), "@ + named);
    }
}

proof fn the_base_line_is_comment(d: DetectedV)
    requires
        is_plain_detection(d),
    ensures
        is_comment_text(base_line(d)),
{
    let head = "#   base_locale "@;
    assert(head.len() > 0 && head[0] == '#' && !head.contains('\n')) by {
        reveal_strlit("#   base_locale ");
    }
    assert(!" from "@.contains('\n')) by {
        reveal_strlit(" from ");
    }
    joined_on_one_line(head, d.base_locale);
    match d.base_locale_from {
        Some(at) => {
            joined_on_one_line(head + d.base_locale, " from "@);
            joined_on_one_line(head + d.base_locale + " from "@, at);
            a_line_of_comment(head + d.base_locale + " from "@ + at);
        },
        None => {
            let tail = ", assumed: the project's Ruby names no default_locale"@;
            let after = ", assumed: the project's Ruby names no default_locale\n"@;
            assert(!tail.contains('\n') && after =~= tail + "\n"@) by {
                reveal_strlit(", assumed: the project's Ruby names no default_locale\n");
                reveal_strlit(", assumed: the project's Ruby names no default_locale");
                reveal_strlit("\n");
            }
            joined_on_one_line(head + d.base_locale, tail);
            a_line_of_comment(head + d.base_locale + tail);
            assert(base_line(d) =~= head + d.base_locale + tail + "\n"@);
        },
    }
}

proof fn the_read_back_line_is_comment(verified: Option<VerificationV>)
    ensures
        is_comment_text(read_back_line(verified)),
{
    assert(is_comment_text(Seq::empty())) by {
        reveal(is_comment_text);
    }
    if let Some(v) = verified {
        let (a, b, c) = (
            decimal(v.key_count as nat),
            decimal(v.locales.len()),
            decimal(v.files_read as nat),
        );
        let head = "#   "@ + "read back: "@;
        let tail = " file(s)"@;
        assert("#   "@.len() > 0 && "#   "@[0] == '#' && !"#   "@.contains('\n')) by {
            reveal_strlit("#   ");
        }
        assert(!"read back: "@.contains('\n')) by {
            reveal_strlit("read back: ");
        }
        assert(!" key(s) in "@.contains('\n')) by {
            reveal_strlit(" key(s) in ");
        }
        assert(!" locale(s) from "@.contains('\n')) by {
            reveal_strlit(" locale(s) from ");
        }
        assert(!" file(s)"@.contains('\n')) by {
            reveal_strlit(" file(s)");
        }
        assert(" file(s)\n"@ =~= tail + "\n"@) by {
            reveal_strlit(" file(s)\n");
            reveal_strlit(" file(s)");
            reveal_strlit("\n");
        }
        a_number_stands_on_one_line(v.key_count as nat);
        a_number_stands_on_one_line(v.locales.len());
        a_number_stands_on_one_line(v.files_read as nat);
        joined_on_one_line("#   "@, "read back: "@);
        joined_on_one_line(head, a);
        joined_on_one_line(head + a, " key(s) in "@);
        joined_on_one_line(head + a + " key(s) in "@, b);
        joined_on_one_line(head + a + " key(s) in "@ + b, " locale(s) from "@);
        joined_on_one_line(head + a + " key(s) in "@ + b + " locale(s) from "@, c);
        joined_on_one_line(head + a + " key(s) in "@ + b + " locale(s) from "@ + c, tail);
        let line = head + a + " key(s) in "@ + b + " locale(s) from "@ + c + tail;
        a_line_of_comment(line);
        if v.error is None {
            assert(read_back_line(verified) =~= line + "\n"@);
        }
    }
}

proof fn the_header_is_comment(d: DetectedV, verified: Option<VerificationV>)
    requires
        is_plain_detection(d),
    ensures
        is_comment_text(header_of(d, verified)),
{
    let title =
        "# i18n-tasks-rs configuration.\n#\n# Generated by `i18n-tasks-rs init-config` from the layout of this project.\n# This file is plain YAML. It is read, never evaluated: no ERB, no Ruby,\n# no scanner class names. An unknown key is an error.\n#\n# Detected:\n"@;
    assert(is_comment_text(title)) by {
        reveal(is_comment_text);
        reveal_strlit(
            "# i18n-tasks-rs configuration.\n#\n# Generated by `i18n-tasks-rs init-config` from the layout of this project.\n# This file is plain YAML. It is read, never evaluated: no ERB, no Ruby,\n# no scanner class names. An unknown key is an error.\n#\n# Detected:\n",
        );
    }
    the_data_line_is_comment(d);
    the_base_line_is_comment(d);
    let n = d.relative_roots_detected.len() as int;
    roots_are_comment(d.relative_roots_detected, n);
    the_read_back_line_is_comment(verified);
    the_attention_is_comment(d);
    let roots = each(
        "#   relative root "@,
        d.relative_roots_detected,
        ": not a default, but it uses relative keys\n"@,
        n,
    );
    comments_joined(title, data_line(d));
    comments_joined(title + data_line(d), base_line(d));
    comments_joined(title + data_line(d) + base_line(d), roots);
    comments_joined(title + data_line(d) + base_line(d) + roots, read_back_line(verified));
    comments_joined(
        title + data_line(d) + base_line(d) + roots + read_back_line(verified),
        gem_comment(d.gem_config),
    );
    comments_joined(
        title + data_line(d) + base_line(d) + roots + read_back_line(verified) + gem_comment(
            d.gem_config,
        ),
        attention_comment(d.notes),
    );
}

proof fn the_attention_is_comment(d: DetectedV)
    ensures
        is_comment_text(gem_comment(d.gem_config)),
        is_comment_text(attention_comment(d.notes)),
{
    assert(is_comment_text("#\n"@)) by {
        reveal(is_comment_text);
        reveal_strlit("#\n");
    }
    assert(is_comment_text("#\n# NEEDS ATTENTION:\n"@)) by {
        reveal(is_comment_text);
        reveal_strlit("#\n# NEEDS ATTENTION:\n");
    }
    assert(is_comment_text(Seq::empty())) by {
        reveal(is_comment_text);
    }
    if let Some(gem) = d.gem_config {
        let text = swap_char_of(gem, '\\', '/')
            + " is still in the project. `i18n-tasks-rs migrate-config` converts it, and keeps the ignore lists, which this file has none of."@;
        a_note_is_comment(text);
        comments_joined("#\n"@, comment_of(text));
    }
    notes_are_comment(d.notes, d.notes.len() as int);
    comments_joined("#\n# NEEDS ATTENTION:\n"@, comments(d.notes, d.notes.len() as int));
}

// ------------------------------------------------------------------- the settings

proof fn an_item_stands(s: Seq<char>)
    requires
        is_plain(s),
    ensures
        content("    - "@ + s + "\n"@) == seq!["    - "@ + s],
        complete("    - "@ + s + "\n"@),
{
    reveal_strlit("    - ");
    a_plain_text_stands("    - "@, s);
    content_of_line("    - "@ + s);
}

proof fn items_stand(v: Seq<Seq<char>>, n: int)
    requires
        0 <= n <= v.len(),
        all_plain(v),
    ensures
        content(each("    - "@, v, "\n"@, n)) == dashes(v.take(n)),
        complete(each("    - "@, v, "\n"@, n)),
        path_items(v, n) == each("    - "@, v, "\n"@, n),
    decreases n,
{
    if n <= 0 {
        empty_is_comment();
        assert(dashes(v.take(n)) =~= Seq::empty());
    } else {
        items_stand(v, n - 1);
        let s = v[n - 1];
        an_item_stands(s);
        content_joined(each("    - "@, v, "\n"@, n - 1), "    - "@ + s + "\n"@);
        assert(dashes(v.take(n)) =~= dashes(v.take(n - 1)) + seq!["    - "@ + s]);
    }
}

/// The lines of a list under its name.
spec fn list_lines(name: Seq<char>, v: Seq<Seq<char>>) -> Seq<Seq<char>> {
    seq!["  "@ + name + ":"@] + dashes(v)
}

/// A word that can be the name of a setting.
spec fn is_name(s: Seq<char>) -> bool {
    &&& s.len() > 0
    &&& forall|i: int| #![trigger s[i]] 0 <= i < s.len() ==> 'a' <= s[i] <= 'z' || s[i] == '_'
}

proof fn a_name_stands(head: Seq<char>, name: Seq<char>)
    requires
        is_name(name),
        head == ""@ || head == "  "@,
    ensures
        content(head + name + ":"@ + "\n"@) == seq![head + name + ":"@],
        complete(head + name + ":"@ + "\n"@),
        names(head + name + ":"@, head.len(), name, Seq::empty()),
        !entry_at("  "@ + name + ":"@, 0),
        margin("  "@ + name + ":"@) == 2,
{
    reveal_strlit("");
    reveal_strlit("  ");
    reveal_strlit(":");
    reveal_strlit(" #");
    let line = head + name + ":"@;
    assert forall|i: int| 0 <= i < line.len() implies #[trigger] line[i] != '\n' && line[i]
        != '#' by {
        if head.len() <= i < head.len() + name.len() {
            assert(line[i] == name[i - head.len()]);
        }
    }
    find_is_first(line, " #"@, 0);
    if let Some(i) = find_from_of(line, " #"@, 0) {
        assert(line.subrange(i, i + 2)[1] == line[i + 1]);
    }
    assert(line[line.len() - 1] == ':');
    assert(uncommented(line) == line);
    content_of_line(line);
    assert(head =~= spaces(head.len()));
    assert(line =~= spaces(head.len()) + name + ":"@ + Seq::<char>::empty());
    let deep = "  "@ + name + ":"@;
    assert(deep[0] == ' ' && deep[1] == ' ' && deep[2] == name[0]);
    reveal_with_fuel(margin, 3);
    assert(deep.skip(1)[0] == deep[1]);
    assert(deep.skip(1).skip(1)[0] == deep[2]);
}

proof fn a_list_is_one_entry(name: Seq<char>, v: Seq<Seq<char>>)
    requires
        is_name(name),
        v.len() > 0,
    ensures
        entries_read(list_lines(name, v), 2) == seq![(text_node(name), list_node(v))],
        entry_at(list_lines(name, v)[0], 2),
        forall|j: int| 0 <= j < list_lines(name, v).len() ==> !entry_at(
            #[trigger] list_lines(name, v)[j],
            0,
        ),
{
    let lines = list_lines(name, v);
    assert("  "@.len() == 2) by {
        reveal_strlit("  ");
    }
    a_name_stands("  "@, name);
    a_named_line_is_an_entry(lines[0], 2, name, Seq::empty());
    assert forall|j: int| 1 <= j < lines.len() implies !entry_at(#[trigger] lines[j], 2)
        && !entry_at(lines[j], 0) by {
        assert(lines[j] == "    - "@ + v[j - 1]);
        a_dash_is_deep(v[j - 1]);
    }
    one_entry_is_read(lines, 2, name, Seq::empty());
    a_list_is_read_back(v);
    assert(lines.skip(1) =~= dashes(v));
}

/// A section of lists is read as the mapping of its lists.
proof fn a_section_is_read(name: Seq<char>, body: Seq<Seq<char>>, entries: Seq<(NodeV, NodeV)>)
    requires
        is_name(name),
        body.len() > 0,
        entry_at(body[0], 2),
        margin(body[0]) == 2,
        forall|j: int| 0 <= j < body.len() ==> !entry_at(#[trigger] body[j], 0),
        entries_read(body, 2) == entries,
    ensures
        entries_read(seq![name + ":"@] + body, 0) == seq![
            (text_node(name), NodeV::Mapping { entries, line: 0 }),
        ],
        entry_at(name + ":"@, 0),
{
    reveal_strlit("");
    reveal_strlit(" []");
    a_name_stands(""@, name);
    assert(""@ + name + ":"@ =~= name + ":"@);
    let lines = seq![name + ":"@] + body;
    a_named_line_is_an_entry(lines[0], 0, name, Seq::empty());
    assert forall|j: int| 1 <= j < lines.len() implies !entry_at(#[trigger] lines[j], 0) by {
        assert(lines[j] == body[j - 1]);
    }
    one_entry_is_read(lines, 0, name, Seq::empty());
    assert(lines.skip(1) =~= body);
}

/// What the locales are said to be, as a comment.
spec fn locales_comment(d: DetectedV) -> Seq<char> {
    if d.locales.len() == 0 {
        Seq::empty()
    } else {
        "# locales: ["@ + join_of(d.locales, ", "@)
            + "]\n# Detected, and left unset on purpose: with no list here the locales come\n# from the files `data.read` matches, so a new one needs no edit.\n"@
    }
}

proof fn the_locales_are_comment(d: DetectedV)
    requires
        on_one_line(d.locales),
    ensures
        is_comment_text(locales_comment(d)),
{
    empty_is_comment();
    if d.locales.len() > 0 {
        let head = "# locales: ["@;
        let list = join_of(d.locales, ", "@);
        let tail =
            "# Detected, and left unset on purpose: with no list here the locales come\n# from the files `data.read` matches, so a new one needs no edit.\n"@;
        let after =
            "]\n# Detected, and left unset on purpose: with no list here the locales come\n# from the files `data.read` matches, so a new one needs no edit.\n"@;
        assert(head.len() > 0 && head[0] == '#' && !head.contains('\n')) by {
            reveal_strlit("# locales: [");
        }
        assert(!"]"@.contains('\n')) by {
            reveal_strlit("]");
        }
        assert(is_comment_text(tail)) by {
            reveal(is_comment_text);
            reveal_strlit(
                "# Detected, and left unset on purpose: with no list here the locales come\n# from the files `data.read` matches, so a new one needs no edit.\n",
            );
        }
        assert(after =~= "]"@ + "\n"@ + tail) by {
            reveal_strlit(
                "# Detected, and left unset on purpose: with no list here the locales come\n# from the files `data.read` matches, so a new one needs no edit.\n",
            );
            reveal_strlit(
                "]\n# Detected, and left unset on purpose: with no list here the locales come\n# from the files `data.read` matches, so a new one needs no edit.\n",
            );
            reveal_strlit("]");
            reveal_strlit("\n");
        }
        a_list_stands_on_one_line(d.locales);
        joined_on_one_line(head, list);
        joined_on_one_line(head + list, "]"@);
        a_line_of_comment(head + list + "]"@);
        comments_joined(head + list + "]"@ + "\n"@, tail);
        assert(locales_comment(d) =~= head + list + "]"@ + "\n"@ + tail);
    }
}

proof fn the_locale_is_written(d: DetectedV)
    requires
        is_plain_detection(d),
    ensures
        content(locale_settings(d)) == seq!["base_locale: "@ + d.base_locale],
        complete(locale_settings(d)),
        entries_read(seq!["base_locale: "@ + d.base_locale], 0) == seq![
            (text_node("base_locale"@), text_node(d.base_locale)),
        ],
{
    let head = "base_locale: "@;
    let line = head + d.base_locale;
    let after = locales_comment(d);
    assert("\nbase_locale: "@ =~= "\n"@ + head) by {
        reveal_strlit("\nbase_locale: ");
        reveal_strlit("base_locale: ");
        reveal_strlit("\n");
    }
    assert(head.len() > 0 && !head.contains('#') && !head.contains('\n')) by {
        reveal_strlit("base_locale: ");
    }
    a_plain_text_stands(head, d.base_locale);
    content_of_line(line);
    the_locales_are_comment(d);
    comments_hold_nothing(after);
    content_joined(line + "\n"@, after);
    a_break_holds_nothing(line + "\n"@ + after);
    assert(locale_settings(d) =~= "\n"@ + (line + "\n"@ + after));
    assert(content(locale_settings(d)) =~= seq![line]);
    let rest = " "@ + d.base_locale;
    assert(names(line, 0, "base_locale"@, rest)) by {
        reveal_strlit("base_locale: ");
        reveal_strlit("base_locale");
        reveal_strlit(":");
        reveal_strlit(" ");
        assert(line =~= spaces(0) + "base_locale"@ + ":"@ + rest);
    }
    one_entry_is_read(seq![line], 0, "base_locale"@, rest);
    assert(seq![line].skip(1) =~= Seq::<Seq<char>>::empty());
    assert(rest != " []"@ && rest.skip(1) =~= d.base_locale) by {
        reveal_strlit(" []");
        reveal_strlit(" ");
        assert(rest[1] == d.base_locale[0]);
        assert(!is_indicator(d.base_locale[0]));
    }
    assert(setting_read(rest, Seq::empty()) == text_node(d.base_locale));
}

proof fn the_names_are_names()
    ensures
        is_name("data"@),
        is_name("read"@),
        is_name("write"@),
        is_name("search"@),
        is_name("paths"@),
        is_name("exclude"@),
        is_name("relative_roots"@),
{
    reveal_strlit("data");
    reveal_strlit("read");
    reveal_strlit("write");
    reveal_strlit("search");
    reveal_strlit("paths");
    reveal_strlit("exclude");
    reveal_strlit("relative_roots");
}

/// A list under its name is written as its lines.
proof fn a_list_is_written(name: Seq<char>, v: Seq<Seq<char>>)
    requires
        is_name(name),
        all_plain(v),
    ensures
        content("  "@ + name + ":"@ + "\n"@ + each("    - "@, v, "\n"@, v.len() as int))
            == list_lines(name, v),
        complete("  "@ + name + ":"@ + "\n"@ + each("    - "@, v, "\n"@, v.len() as int)),
{
    a_name_stands("  "@, name);
    items_stand(v, v.len() as int);
    assert(v.take(v.len() as int) =~= v);
    content_joined("  "@ + name + ":"@ + "\n"@, each("    - "@, v, "\n"@, v.len() as int));
}

/// The comment in front of the path to write.
spec fn write_comment() -> Seq<char> {
    "  # Where a new key goes, and only under `normalize --write`.\n"@
}

/// The settings of the data that are left out, as comments.
spec fn data_comments() -> Seq<char> {
    "  # router: conservative_router    # or pattern_router\n  # keep_order: false\n  # external: []                   # read-only data: never missing, never unused\n"@
}

/// A name and its colon on a line.
spec fn title(head: Seq<char>, name: Seq<char>) -> Seq<char> {
    head + name + ":"@ + "\n"@
}

proof fn the_data_comments_are_comment()
    ensures
        is_comment_text(write_comment()),
        is_comment_text(data_comments()),
{
    reveal(is_comment_text);
    assert(is_comment_text(write_comment())) by {
        reveal_strlit("  # Where a new key goes, and only under `normalize --write`.\n");
    }
    assert(is_comment_text(data_comments())) by {
        reveal_strlit(
            "  # router: conservative_router    # or pattern_router\n  # keep_order: false\n  # external: []                   # read-only data: never missing, never unused\n",
        );
    }
}

proof fn the_data_is_put_together(d: DetectedV)
    requires
        quoted_of(d.write) == d.write,
    ensures
        data_settings(d) == "\n"@ + (title(""@, "data"@) + (title("  "@, "read"@) + path_items(
            d.read,
            d.read.len() as int,
        ) + (write_comment() + (title("  "@, "write"@) + ("    - "@ + d.write + "\n"@)
            + data_comments())))),
{
    let first = "\ndata:\n  read:\n"@;
    let second =
        "  # Where a new key goes, and only under `normalize --write`.\n  write:\n    - "@;
    let third =
        "\n  # router: conservative_router    # or pattern_router\n  # keep_order: false\n  # external: []                   # read-only data: never missing, never unused\n"@;
    assert(first =~= "\n"@ + title(""@, "data"@) + title("  "@, "read"@)) by {
        reveal_strlit("\ndata:\n  read:\n");
        reveal_strlit("");
        reveal_strlit("data");
        reveal_strlit("  ");
        reveal_strlit("read");
        reveal_strlit(":");
        reveal_strlit("\n");
    }
    assert(second =~= write_comment() + title("  "@, "write"@) + "    - "@) by {
        reveal_strlit(
            "  # Where a new key goes, and only under `normalize --write`.\n  write:\n    - ",
        );
        reveal_strlit("  # Where a new key goes, and only under `normalize --write`.\n");
        reveal_strlit("  ");
        reveal_strlit("write");
        reveal_strlit(":");
        reveal_strlit("\n");
        reveal_strlit("    - ");
    }
    assert(third =~= "\n"@ + data_comments()) by {
        reveal_strlit(
            "\n  # router: conservative_router    # or pattern_router\n  # keep_order: false\n  # external: []                   # read-only data: never missing, never unused\n",
        );
        reveal_strlit(
            "  # router: conservative_router    # or pattern_router\n  # keep_order: false\n  # external: []                   # read-only data: never missing, never unused\n",
        );
        reveal_strlit("\n");
    }
    assert(data_settings(d) =~= first + path_items(d.read, d.read.len() as int) + second + d.write
        + third);
    assert(data_settings(d) =~= "\n"@ + (title(""@, "data"@) + (title("  "@, "read"@) + path_items(
        d.read,
        d.read.len() as int,
    ) + (write_comment() + (title("  "@, "write"@) + ("    - "@ + d.write + "\n"@)
        + data_comments())))));
}

proof fn the_data_is_written(d: DetectedV)
    requires
        is_plain_detection(d),
    ensures
        content(data_settings(d)) == seq!["data:"@] + (list_lines("read"@, d.read) + list_lines(
            "write"@,
            seq![d.write],
        )),
        complete(data_settings(d)),
{
    let one = seq![d.write];
    let items = each("    - "@, one, "\n"@, 1);
    assert(each("    - "@, one, "\n"@, 0) =~= Seq::empty());
    assert(items =~= "    - "@ + d.write + "\n"@);
    let read = title("  "@, "read"@) + path_items(d.read, d.read.len() as int);
    let write = title("  "@, "write"@) + items;
    let name = title(""@, "data"@);
    the_names_are_names();
    the_data_comments_are_comment();
    the_data_is_put_together(d);
    items_stand(d.read, d.read.len() as int);
    a_list_is_written("read"@, d.read);
    a_list_is_written("write"@, one);
    a_name_stands(""@, "data"@);
    comments_hold_nothing(data_comments());
    both_hold(write, data_comments(), list_lines("write"@, one), Seq::empty());
    let third = write + data_comments();
    comments_are_passed(write_comment(), third);
    let second = write_comment() + third;
    both_hold(
        read,
        second,
        list_lines("read"@, d.read),
        list_lines("write"@, one) + Seq::empty(),
    );
    let first = read + second;
    both_hold(name, first, seq![""@ + "data"@ + ":"@], content(first));
    a_break_holds_nothing(name + first);
    assert(""@ + "data"@ + ":"@ =~= "data:"@) by {
        reveal_strlit("");
        reveal_strlit("data");
        reveal_strlit(":");
        reveal_strlit("data:");
    }
    assert(list_lines("write"@, one) + Seq::<Seq<char>>::empty() =~= list_lines("write"@, one));
}

proof fn the_data_is_read(d: DetectedV)
    requires
        is_plain_detection(d),
    ensures
        entries_read(content(data_settings(d)), 0) == seq![(text_node("data"@), data_node(d))],
        content(data_settings(d)).len() > 0,
        entry_at(content(data_settings(d))[0], 0),
{
    the_names_are_names();
    the_data_is_written(d);
    let read = list_lines("read"@, d.read);
    let write = list_lines("write"@, seq![d.write]);
    let body = read + write;
    a_list_is_one_entry("read"@, d.read);
    a_list_is_one_entry("write"@, seq![d.write]);
    a_name_stands("  "@, "read"@);
    entries_joined(read, write, 2);
    let entries = data_node(d)->entries;
    assert(entries_read(body, 2) =~= entries);
    assert(body[0] == read[0]);
    assert forall|j: int| 0 <= j < body.len() implies !entry_at(#[trigger] body[j], 0) by {
        if j < read.len() {
            assert(body[j] == read[j]);
        } else {
            assert(body[j] == write[j - read.len()]);
        }
    }
    a_section_is_read("data"@, body, entries);
    assert("data"@ + ":"@ =~= "data:"@) by {
        reveal_strlit("data");
        reveal_strlit(":");
        reveal_strlit("data:");
    }
}

/// The lines of the relative roots.
spec fn root_lines(v: Seq<Seq<char>>) -> Seq<Seq<char>> {
    if v.len() == 0 {
        seq!["  relative_roots: []"@]
    } else {
        list_lines("relative_roots"@, v)
    }
}

/// The lines of the excluded directories.
spec fn exclude_lines(v: Seq<Seq<char>>) -> Seq<Seq<char>> {
    if v.len() == 0 {
        Seq::empty()
    } else {
        list_lines("exclude"@, v)
    }
}

/// The relative roots as they are written.
spec fn root_text(v: Seq<Seq<char>>) -> Seq<char> {
    if v.len() == 0 {
        "  relative_roots: []   # no directory here uses relative keys\n"@
    } else {
        "  relative_roots:\n"@ + each("    - "@, v, "\n"@, v.len() as int)
    }
}

/// The excluded directories as they are written.
spec fn exclude_text(v: Seq<Seq<char>>) -> Seq<char> {
    if v.len() == 0 {
        "  # exclude: []\n"@
    } else {
        "  exclude:\n"@ + each("    - "@, v, "\n"@, v.len() as int)
    }
}

proof fn an_empty_list_stands()
    ensures
        content("  relative_roots: []   # no directory here uses relative keys\n"@) == seq![
            "  relative_roots: []"@,
        ],
        complete("  relative_roots: []   # no directory here uses relative keys\n"@),
{
    let line = "  relative_roots: []   # no directory here uses relative keys"@;
    let kept = "  relative_roots: []"@;
    assert(!line.contains('\n')) by {
        reveal_strlit("  relative_roots: []   # no directory here uses relative keys");
    }
    assert(uncommented(line) == kept && kept.len() > 0) by {
        reveal_strlit("  relative_roots: []   # no directory here uses relative keys");
        reveal_strlit("  relative_roots: []");
        reveal_strlit(" #");
        find_is_first(line, " #"@, 0);
        let at: int = 22;
        assert(line.subrange(at, at + 2) =~= " #"@);
        assert(occurs_at(line, " #"@, at));
        assert forall|i: int| 0 <= i < at implies !occurs_at(line, " #"@, i) by {
            if occurs_at(line, " #"@, i) {
                assert(line.subrange(i, i + 2)[1] == line[i + 1]);
            }
        }
        assert(find_from_of(line, " #"@, 0) == Some(at));
        let once = line.take(at);
        let twice = once.subrange(0, once.len() - 1);
        let thrice = twice.subrange(0, twice.len() - 1);
        assert(is_space(once[21]) && is_space(twice[20]) && !is_space(thrice[19]));
        assert(trim_end_of(thrice) == thrice);
        assert(trim_end_of(twice) == thrice);
        assert(trim_end_of(once) == thrice);
        assert(thrice =~= kept);
    }
    content_of_line(line);
    assert("  relative_roots: []   # no directory here uses relative keys\n"@ =~= line + "\n"@) by {
        reveal_strlit("  relative_roots: []   # no directory here uses relative keys\n");
        reveal_strlit("  relative_roots: []   # no directory here uses relative keys");
        reveal_strlit("\n");
    }
}

proof fn the_roots_are_written(v: Seq<Seq<char>>)
    requires
        all_plain(v),
    ensures
        content(root_text(v)) == root_lines(v),
        complete(root_text(v)),
{
    the_names_are_names();
    an_empty_list_stands();
    a_list_is_written("relative_roots"@, v);
    assert("  relative_roots:\n"@ =~= "  "@ + "relative_roots"@ + ":"@ + "\n"@) by {
        reveal_strlit("  relative_roots:\n");
        reveal_strlit("  ");
        reveal_strlit("relative_roots");
        reveal_strlit(":");
        reveal_strlit("\n");
    }
}

proof fn the_excluded_are_written(v: Seq<Seq<char>>)
    requires
        all_plain(v),
    ensures
        content(exclude_text(v)) == exclude_lines(v),
        complete(exclude_text(v)),
{
    the_names_are_names();
    let none = "  # exclude: []\n"@;
    assert(is_comment_text(none)) by {
        reveal(is_comment_text);
        reveal_strlit("  # exclude: []\n");
    }
    comments_hold_nothing(none);
    a_list_is_written("exclude"@, v);
    assert("  exclude:\n"@ =~= "  "@ + "exclude"@ + ":"@ + "\n"@) by {
        reveal_strlit("  exclude:\n");
        reveal_strlit("  ");
        reveal_strlit("exclude");
        reveal_strlit(":");
        reveal_strlit("\n");
    }
}

/// The settings of the search that are left out, as comments.
spec fn search_comments() -> Seq<char> {
    "  # only: []\n  # relative_exclude_method_name_paths: []\n"@
}

proof fn the_search_is_put_together(d: DetectedV)
    ensures
        search_settings(d) == "\n"@ + (title(""@, "search"@) + (title("  "@, "paths"@) + each(
            "    - "@,
            d.search_paths,
            "\n"@,
            d.search_paths.len() as int,
        ) + (exclude_text(d.exclude) + (root_text(d.relative_roots) + search_comments())))),
{
    let first = "\nsearch:\n  paths:\n"@;
    assert(first =~= "\n"@ + title(""@, "search"@) + title("  "@, "paths"@)) by {
        reveal_strlit("\nsearch:\n  paths:\n");
        reveal_strlit("");
        reveal_strlit("search");
        reveal_strlit("  ");
        reveal_strlit("paths");
        reveal_strlit(":");
        reveal_strlit("\n");
    }
    let items = each("    - "@, d.search_paths, "\n"@, d.search_paths.len() as int);
    assert(search_settings(d) =~= first + items + exclude_text(d.exclude) + root_text(
        d.relative_roots,
    ) + search_comments());
    assert(search_settings(d) =~= "\n"@ + (title(""@, "search"@) + (title("  "@, "paths"@) + items + (
    exclude_text(d.exclude) + (root_text(d.relative_roots) + search_comments())))));
}

proof fn the_search_is_written(d: DetectedV)
    requires
        is_plain_detection(d),
    ensures
        content(search_settings(d)) == seq!["search:"@] + (list_lines("paths"@, d.search_paths) + (
        exclude_lines(d.exclude) + root_lines(d.relative_roots))),
        complete(search_settings(d)),
{
    let items = each("    - "@, d.search_paths, "\n"@, d.search_paths.len() as int);
    let paths = title("  "@, "paths"@) + items;
    let name = title(""@, "search"@);
    let roots = root_text(d.relative_roots);
    the_names_are_names();
    the_search_is_put_together(d);
    assert(is_comment_text(search_comments())) by {
        reveal(is_comment_text);
        reveal_strlit("  # only: []\n  # relative_exclude_method_name_paths: []\n");
    }
    comments_hold_nothing(search_comments());
    a_list_is_written("paths"@, d.search_paths);
    the_excluded_are_written(d.exclude);
    the_roots_are_written(d.relative_roots);
    a_name_stands(""@, "search"@);
    both_hold(roots, search_comments(), root_lines(d.relative_roots), Seq::empty());
    assert(root_lines(d.relative_roots) + Seq::<Seq<char>>::empty() =~= root_lines(
        d.relative_roots,
    ));
    let third = roots + search_comments();
    both_hold(
        exclude_text(d.exclude),
        third,
        exclude_lines(d.exclude),
        root_lines(d.relative_roots),
    );
    let second = exclude_text(d.exclude) + third;
    both_hold(paths, second, list_lines("paths"@, d.search_paths), content(second));
    let first = paths + second;
    both_hold(name, first, seq![""@ + "search"@ + ":"@], content(first));
    a_break_holds_nothing(name + first);
    assert(""@ + "search"@ + ":"@ =~= "search:"@) by {
        reveal_strlit("");
        reveal_strlit("search");
        reveal_strlit(":");
        reveal_strlit("search:");
    }
}

proof fn the_roots_are_one_entry(v: Seq<Seq<char>>)
    ensures
        entries_read(root_lines(v), 2) == seq![(text_node("relative_roots"@), list_node(v))],
        root_lines(v).len() > 0,
        entry_at(root_lines(v)[0], 2),
        forall|j: int| 0 <= j < root_lines(v).len() ==> !entry_at(#[trigger] root_lines(v)[j], 0),
{
    the_names_are_names();
    let name = "relative_roots"@;
    if v.len() > 0 {
        a_list_is_one_entry(name, v);
    } else {
        let line = "  relative_roots: []"@;
        assert(names(line, 2, name, " []"@) && line[0] == ' ') by {
            reveal_strlit("  relative_roots: []");
            reveal_strlit("relative_roots");
            reveal_strlit(":");
            reveal_strlit(" []");
            assert(line =~= spaces(2) + name + ":"@ + " []"@);
        }
        a_named_line_is_an_entry(line, 2, name, " []"@);
        one_entry_is_read(seq![line], 2, name, " []"@);
        assert(seq![line].skip(1) =~= Seq::<Seq<char>>::empty());
        assert(list_node(v)->items =~= list_node(Seq::empty())->items);
        assert(!entry_at(line, 0));
    }
}

proof fn the_search_is_read(d: DetectedV)
    requires
        is_plain_detection(d),
    ensures
        entries_read(content(search_settings(d)), 0) == seq![
            (text_node("search"@), search_node(d)),
        ],
        content(search_settings(d)).len() > 0,
        entry_at(content(search_settings(d))[0], 0),
{
    the_names_are_names();
    the_search_is_written(d);
    let paths = list_lines("paths"@, d.search_paths);
    let exclude = exclude_lines(d.exclude);
    let roots = root_lines(d.relative_roots);
    let rest = exclude + roots;
    let body = paths + rest;
    a_list_is_one_entry("paths"@, d.search_paths);
    a_name_stands("  "@, "paths"@);
    the_roots_are_one_entry(d.relative_roots);
    entries_joined(exclude, roots, 2);
    if d.exclude.len() > 0 {
        a_list_is_one_entry("exclude"@, d.exclude);
        assert(rest[0] == exclude[0]);
    } else {
        assert(rest =~= roots);
    }
    entries_joined(paths, rest, 2);
    let entries = search_node(d)->entries;
    assert(entries_read(body, 2) =~= entries);
    assert(body[0] == paths[0]);
    assert forall|j: int| 0 <= j < body.len() implies !entry_at(#[trigger] body[j], 0) by {
        if j < paths.len() {
            assert(body[j] == paths[j]);
        } else if j < paths.len() + exclude.len() {
            assert(body[j] == exclude[j - paths.len()]);
        } else {
            assert(body[j] == roots[j - paths.len() - exclude.len()]);
        }
    }
    a_section_is_read("search"@, body, entries);
    assert("search"@ + ":"@ =~= "search:"@) by {
        reveal_strlit("search");
        reveal_strlit(":");
        reveal_strlit("search:");
    }
}

/// The ignore lists that are left out, as comments.
spec fn ignore_comments() -> Seq<char> {
    "\n# Nothing is ignored yet. Each list takes key patterns — `devise.*`,\n# `{a,b}.*`, `a.*.b` — and `ignore` applies to every check at once.\n#\n# ignore: []\n# ignore_missing: []\n# ignore_unused: []\n# ignore_eq_base: []\n# ignore_inconsistent_interpolations: []\n"@
}

proof fn the_ignore_comments_are_comment()
    ensures
        is_comment_text(ignore_comments()),
{
    reveal(is_comment_text);
    reveal_strlit(
        "\n# Nothing is ignored yet. Each list takes key patterns — `devise.*`,\n# `{a,b}.*`, `a.*.b` — and `ignore` applies to every check at once.\n#\n# ignore: []\n# ignore_missing: []\n# ignore_unused: []\n# ignore_eq_base: []\n# ignore_inconsistent_interpolations: []\n",
    );
}

/// Five texts one after the other, from the left and from the right.
proof fn five_joined(a: Seq<char>, b: Seq<char>, c: Seq<char>, d: Seq<char>, e: Seq<char>)
    ensures
        a + b + c + d + e == a + (b + (c + (d + e))),
{
    assert(a + b + c + d + e =~= a + (b + (c + (d + e))));
}

/// What the settings hold is read as the document of what was detected.
proof fn the_settings_are_read(d: DetectedV)
    requires
        is_plain_detection(d),
    ensures
        entries_read(
            content(locale_settings(d)) + (content(data_settings(d)) + content(search_settings(d))),
            0,
        ) == generated_node(d)->entries,
{
    the_locale_is_written(d);
    the_data_is_read(d);
    the_search_is_read(d);
    let data = content(data_settings(d));
    let search = content(search_settings(d));
    let rest = data + search;
    assert(rest[0] == data[0]);
    entries_joined(data, search, 0);
    entries_joined(content(locale_settings(d)), rest, 0);
    assert(entries_read(content(locale_settings(d)) + rest, 0) =~= generated_node(d)->entries);
}

/// Three texts and comments behind them hold what the three hold.
proof fn three_hold(a: Seq<char>, b: Seq<char>, c: Seq<char>, end: Seq<char>)
    requires
        complete(a),
        complete(b),
        complete(c),
        is_comment_text(end),
    ensures
        content(a + (b + (c + end))) == content(a) + (content(b) + content(c)),
{
    comments_hold_nothing(end);
    both_hold(c, end, content(c), Seq::empty());
    assert(content(c) + Seq::<Seq<char>>::empty() =~= content(c));
    both_hold(b, c + end, content(b), content(c));
    both_hold(a, b + (c + end), content(a), content(b) + content(c));
}

// --------------------------------------------------------------------------- laws

/// The text of a generated config reads as the document of what was detected,
/// whatever its header says was read back.
pub proof fn a_generated_config_reads_as_its_document(
    d: DetectedV,
    verified: Option<VerificationV>,
)
    requires
        is_plain_detection(d),
    ensures
        config_read(generated_config(d, verified)) == generated_node(d),
{
    the_ignore_comments_are_comment();
    the_header_is_comment(d, verified);
    the_locale_is_written(d);
    the_data_is_written(d);
    the_search_is_written(d);
    the_settings_are_read(d);
    let (locale, data, search) = (locale_settings(d), data_settings(d), search_settings(d));
    let end = ignore_comments();
    three_hold(locale, data, search, end);
    comments_are_passed(header_of(d, verified), locale + (data + (search + end)));
    five_joined(header_of(d, verified), locale, data, search, end);
}

/// A generated config is read back as the settings that were detected.
pub proof fn a_generated_config_is_read_back(
    d: DetectedV,
    verified: Option<VerificationV>,
    path: Seq<char>,
)
    requires
        is_plain_detection(d),
        !has_text(generated_config(d, verified), "<%"@),
    ensures
        ({
            let src = generated_config(d, verified);
            parsed_config(src, Ok(Some(config_read(src))), path) == Ok::<ConfigV, Seq<char>>(
                detected_config(d),
            )
        }),
{
    a_generated_config_reads_as_its_document(d, verified);
    a_generated_config_gives_the_detected_settings(d, generated_config(d, verified), path);
}

} // verus!
