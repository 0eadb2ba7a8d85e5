//! The scanner for Haml, Slim, JavaScript and every other file that is neither
//! Ruby nor ERB. It finds calls with a regular expression.
//!
//! A dynamic key becomes a key pattern, as in the Ruby scanner. The name of the
//! method around a call is never part of a key here.
use crate::bytes::{lossy, lossy_of, utf8_text};
use crate::lineindex::{line_text_of, LineIndex};
use crate::paths::{extension, extension_of};
use crate::regexes::{
    captures_at, compile, compiles, group, group_at, groups_at, is_match, matches_in, source_of,
    spans, within_bytes,
};
use crate::scan::places::{a_match_is_located, all_located};
use crate::scan::ruby::key::{
    all_wildcard, is_all_wildcard, join_key, joined_key, template_parts, template_path,
};
use crate::scan::{
    longest_root, nothing_found, push_found, push_opaque, FileScan, FileScanV, Locator, LocatorV,
    Occurrence, OccurrenceV, ScanConfig, ScanConfigV,
};
use crate::text::{
    alnum, alphabetic, alphanumeric, chars_of, concat, contains, ends_with, has_text, is_alnum,
    is_alphabetic_of, is_alphanumeric_of, is_space, join, join_of, push_text, same_text, space,
    starts_with, strip_prefix, strip_suffix, swap_char, swap_char_of, text_between, texts,
    trim_start, trim_start_of, without_prefix, without_suffix,
};
use regex::bytes::Regex;
use vstd::prelude::*;
use vstd::utf8::*;

verus! {

/// A call, its first argument and an optional `scope:` behind it. A Slim line
/// continuation may stand between the call and its argument.
pub const CALL_SOURCE: &'static str = "(?x)
        (?P<i18n> I18n\\. )?
        t (?: ! | ranslate!? )?
        (?:
            \\x20 \\s*
          | \\s* \\( \\s* (?: \\\\ \\s* )?
        )
        (?P<arg>
            :?\" (?: \\\\ [\\s\\S] | [^\"\\\\\\n] )*\"
          | :?' (?: \\\\ [\\s\\S] | [^'\\\\\\n] )*'
          | : \\w+
          | [\\w@.&|\\s?!]+
        )
        (?:
          \\s* , \\s*
          (?: :scope \\s* => \\s* | scope: \\s* )
          (?P<scope> \\[ [^\\n)%\\#]* \\] | [^\\n)%\\#,]* )
        )?
        ";

/// A string or symbol literal.
pub const LITERAL_SOURCE: &'static str =
    "(?x) :?\" (?: \\\\ [\\s\\S] | [^\"\\\\\\n] )*\" | :?' (?: \\\\ [\\s\\S] | [^'\\\\\\n] )*' | : \\w+ ";

// ----------------------------------------------------------------------- characters

/// A character that a key may hold anywhere.
pub open spec fn is_key_char(c: char) -> bool {
    is_alphanumeric_of(c) || c == '_' || c == '-' || c == '.' || c == '?' || c == '!' || c == ':'
        || c == ';' || c == '\\' || c == '/' || ('\u{C0}' <= c && c <= '\u{17E}')
}

fn key_char(c: char) -> (b: bool)
    ensures
        b == is_key_char(c),
{
    alphanumeric(c) || c == '_' || c == '-' || c == '.' || c == '?' || c == '!' || c == ':' || c
        == ';' || c == '\\' || c == '/' || ('\u{C0}' <= c && c <= '\u{17E}')
}

/// The character at `i` may stand in a dynamic key. White space may stand only
/// between two letters or digits.
pub open spec fn fits_key(s: Seq<char>, i: int) -> bool {
    let c = s[i];
    is_key_char(c) || c == '#' || c == '{' || c == '@' || c == '}' || c == '[' || c == ']' || (
    is_space(c) && i > 0 && is_alphanumeric_of(s[i - 1]) && i + 1 < s.len() && is_alphanumeric_of(
        s[i + 1],
    ))
}

/// A text that can be a key, dynamic or not.
pub open spec fn is_valid_key(s: Seq<char>) -> bool {
    s.len() > 0 && forall|i: int| 0 <= i < s.len() ==> #[trigger] fits_key(s, i)
}

/// Whether a text can be a key, dynamic or not.
pub fn valid_key(key: &str) -> (b: bool)
    ensures
        b == is_valid_key(key@),
{
    let v = chars_of(key);
    if v.len() == 0 {
        return false;
    }
    let mut i: usize = 0;
    while i < v.len()
        invariant
            i <= v.len(),
            v@ == key@,
            forall|j: int| 0 <= j < i ==> #[trigger] fits_key(key@, j),
        decreases v.len() - i,
    {
        let c = v[i];
        let fits = key_char(c) || c == '#' || c == '{' || c == '@' || c == '}' || c == '[' || c
            == ']' || (space(c) && i > 0 && alphanumeric(v[i - 1]) && i + 1 < v.len()
            && alphanumeric(v[i + 1]));
        if !fits {
            assert(!fits_key(key@, i as int));
            return false;
        }
        i = i + 1;
    }
    true
}

// ------------------------------------------------------------------------ literals

/// A word character or `@` of Ruby.
pub open spec fn starts_expression(s: Seq<char>) -> bool {
    s.len() > 0 && (is_alnum(s[0]) || s[0] == '_' || s[0] == '@')
}

/// The text of a literal. An expression becomes an interpolation, so that its
/// key is known to be dynamic.
pub open spec fn literal_text(s: Seq<char>) -> Seq<char> {
    if starts_expression(s) {
        "#{"@ + s + "}"@
    } else {
        let t = match without_prefix(s, ":"@) {
            Some(rest) => rest,
            None => s,
        };
        if t.len() >= 2 && (t[0] == '"' || t[0] == '\'') && t.last() == t[0] {
            t.subrange(1, t.len() - 1)
        } else {
            t
        }
    }
}

/// The text of a literal. An expression becomes an interpolation.
pub fn strip_literal(literal: &str) -> (out: String)
    ensures
        out@ == literal_text(literal@),
{
    let v = chars_of(literal);
    if v.len() > 0 && (alnum(v[0]) || v[0] == '_' || v[0] == '@') {
        let mut out = concat("#{", literal);
        out.append("}");
        return out;
    }
    let text = match strip_prefix(literal, ":") {
        Some(rest) => rest,
        None => literal.to_owned(),
    };
    let w = chars_of(&text);
    if w.len() >= 2 && (w[0] == '"' || w[0] == '\'') && w[w.len() - 1] == w[0] {
        return text_between(&w, 1, w.len() - 1);
    }
    text
}

/// The literals with one more, where it is one.
pub open spec fn consumed(literals: Seq<Seq<char>>, acc: Seq<char>) -> Option<Seq<Seq<char>>> {
    if matches_in(LITERAL_SOURCE@, encode_utf8(acc)) {
        Some(literals.push(literal_text(acc)))
    } else {
        None
    }
}

/// The literals at the end of a scope.
pub open spec fn finished(literals: Seq<Seq<char>>, acc: Seq<char>) -> Option<Seq<Seq<char>>> {
    if acc.len() == 0 {
        Some(literals)
    } else {
        consumed(literals, acc)
    }
}

/// The literals of a scope from `i` on: one literal, or those between brackets.
pub open spec fn literals_from(
    s: Seq<char>,
    i: int,
    literals: Seq<Seq<char>>,
    in_brackets: bool,
    acc: Seq<char>,
) -> Option<Seq<Seq<char>>>
    decreases s.len() - i,
{
    if i < 0 || i >= s.len() {
        finished(literals, acc)
    } else if s[i] == '[' {
        if in_brackets {
            None
        } else {
            literals_from(s, i + 1, literals, true, acc)
        }
    } else if s[i] == ']' {
        finished(literals, acc)
    } else if s[i] == ',' {
        match consumed(literals, acc) {
            None => None,
            Some(more) => if in_brackets {
                literals_from(s, i + 1, more, in_brackets, Seq::empty())
            } else {
                Some(more)
            },
        }
    } else if is_key_char(s[i]) || s[i] == '\'' || s[i] == '"' {
        literals_from(s, i + 1, literals, in_brackets, acc.push(s[i]))
    } else if s[i] == ' ' {
        literals_from(s, i + 1, literals, in_brackets, acc)
    } else {
        None
    }
}

fn consume_literal(re: &Regex, acc: &str, literals: &mut Vec<String>) -> (b: bool)
    requires
        source_of(*re) == LITERAL_SOURCE@,
    ensures
        b ==> consumed(texts(old(literals)@), acc@) == Some(texts(final(literals)@)),
        !b ==> consumed(texts(old(literals)@), acc@) is None,
{
    if !is_match(re, acc.as_bytes()) {
        return false;
    }
    push_text(literals, strip_literal(acc));
    true
}

/// The literals of a scope: one literal, or those between brackets. `None` for
/// anything else, which drops the call.
pub fn extract_literal_or_array_of_literals(re: &Regex, s: &str) -> (r: Option<Vec<String>>)
    requires
        source_of(*re) == LITERAL_SOURCE@,
    ensures
        literals_from(s@, 0, Seq::empty(), false, Seq::empty()) == match r {
            Some(v) => Some(texts(v@)),
            None => None,
        },
{
    let v = chars_of(s);
    let mut literals: Vec<String> = Vec::new();
    let mut in_brackets = false;
    let mut acc = String::new();
    let mut i: usize = 0;
    let ghost all = literals_from(s@, 0, Seq::empty(), false, Seq::empty());
    assert(texts(literals@) =~= Seq::empty());
    assert(acc@ =~= Seq::empty());
    while i < v.len()
        invariant
            i <= v.len(),
            v@ == s@,
            source_of(*re) == LITERAL_SOURCE@,
            all == literals_from(s@, 0, Seq::empty(), false, Seq::empty()),
            literals_from(s@, i as int, texts(literals@), in_brackets, acc@) == all,
        decreases v.len() - i,
    {
        let c = v[i];
        if c == '[' {
            if in_brackets {
                return None;
            }
            in_brackets = true;
        } else if c == ']' {
            if !acc.as_str().is_empty() {
                if !consume_literal(re, &acc, &mut literals) {
                    return None;
                }
            }
            return Some(literals);
        } else if c == ',' {
            if !consume_literal(re, &acc, &mut literals) {
                return None;
            }
            if !in_brackets {
                return Some(literals);
            }
            acc = String::new();
            assert(acc@ =~= Seq::empty());
        } else if key_char(c) || c == '\'' || c == '"' {
            acc.push(c);
        } else if c != ' ' {
            return None;
        }
        i = i + 1;
    }
    if !acc.as_str().is_empty() {
        if !consume_literal(re, &acc, &mut literals) {
            return None;
        }
    }
    Some(literals)
}

// ---------------------------------------------------------------------------- keys

/// The key that a text stands for: one that starts with a dot lies under the
/// path of the template.
pub open spec fn absolute_key_of(key: Seq<char>, path: Seq<char>, cfg: ScanConfigV) -> Option<
    Seq<char>,
> {
    match without_prefix(key, "."@) {
        None => Some(key),
        Some(relative) => match longest_root(cfg.relative_roots, path) {
            None => None,
            Some(root) => Some(
                joined_key(
                    template_parts(swap_char_of(path, '\\', '/'), root).push(relative),
                ),
            ),
        },
    }
}

/// The key that a text stands for. A relative key outside every relative root
/// drops the call.
pub fn absolute_key(key: &str, path: &str, cfg: &ScanConfig) -> (r: Option<String>)
    ensures
        absolute_key_of(key@, path@, cfg@) == match r {
            Some(k) => Some(k@),
            None => None,
        },
{
    let relative = match strip_prefix(key, ".") {
        Some(relative) => relative,
        None => {
            return Some(key.to_owned());
        },
    };
    match cfg.matching_root(path) {
        None => None,
        Some(root) => {
            let mut parts = template_path(&swap_char(path, '\\', '/'), root);
            push_text(&mut parts, relative);
            Some(join_key(&parts))
        },
    }
}

/// The key of a call, from its argument and its scope.
pub open spec fn key_of_match(
    arg: Seq<char>,
    scope: Option<Seq<char>>,
    path: Seq<char>,
    cfg: ScanConfigV,
) -> Option<Seq<char>> {
    match absolute_key_of(literal_text(arg), path, cfg) {
        None => None,
        Some(key) => match scope {
            Some(s) => match literals_from(s, 0, Seq::empty(), false, Seq::empty()) {
                None => None,
                Some(parts) => if parts.len() == 0 {
                    None
                } else {
                    Some(join_of(parts, "."@) + "."@ + key)
                },
            },
            None => if arg.len() > 0 && (is_alnum(arg[0]) || arg[0] == '_') {
                None
            } else {
                Some(key)
            },
        },
    }
}

/// The key of a call, from its argument and its scope. Without a scope, an
/// argument that is an expression drops the call.
pub fn match_to_key(re: &Regex, arg: &str, scope: Option<&str>, path: &str, cfg: &ScanConfig) -> (r:
    Option<String>)
    requires
        source_of(*re) == LITERAL_SOURCE@,
    ensures
        key_of_match(
            arg@,
            match scope {
                Some(s) => Some(s@),
                None => None,
            },
            path@,
            cfg@,
        ) == match r {
            Some(k) => Some(k@),
            None => None,
        },
{
    let key = match absolute_key(&strip_literal(arg), path, cfg) {
        Some(key) => key,
        None => {
            return None;
        },
    };
    match scope {
        Some(s) => match extract_literal_or_array_of_literals(re, s) {
            None => None,
            Some(parts) => {
                assert(texts(parts@).len() == parts.len());
                if parts.len() == 0 {
                    return None;
                }
                let mut out = join(&parts, ".");
                out.append(".");
                out.append(&key);
                Some(out)
            },
        },
        None => {
            let v = chars_of(arg);
            if v.len() > 0 && (alnum(v[0]) || v[0] == '_') {
                None
            } else {
                Some(key)
            }
        },
    }
}

/// A key from `i` on, inside `depth` braces, with `*:` in place of every
/// interpolation.
pub open spec fn replaced_from(s: Seq<char>, i: int, depth: int) -> Seq<char>
    decreases s.len() - i,
{
    if i < 0 || i >= s.len() {
        Seq::empty()
    } else if s[i] == '#' && i + 1 < s.len() && s[i + 1] == '{' {
        (if depth == 0 {
            "*:"@
        } else {
            Seq::empty()
        }) + replaced_from(s, i + 2, depth + 1)
    } else if s[i] == '{' {
        replaced_from(s, i + 1, depth + 1)
    } else if s[i] == '}' {
        replaced_from(
            s,
            i + 1,
            if depth > 0 {
                depth - 1
            } else {
                0
            },
        )
    } else if depth == 0 {
        seq![s[i]] + replaced_from(s, i + 1, depth)
    } else {
        replaced_from(s, i + 1, depth)
    }
}

/// Puts `*:` in place of every interpolation. Braces inside one are counted.
pub fn replace_interpolations(key: &str) -> (out: String)
    ensures
        out@ == replaced_from(key@, 0, 0),
{
    let v = chars_of(key);
    let mut out = String::new();
    let mut depth: usize = 0;
    let mut i: usize = 0;
    assert(out@ + replaced_from(v@, 0, 0) =~= replaced_from(key@, 0, 0));
    while i < v.len()
        invariant
            depth <= i <= v.len(),
            v@ == key@,
            out@ + replaced_from(v@, i as int, depth as int) == replaced_from(key@, 0, 0),
        decreases v.len() - i,
    {
        let ghost before = out@;
        let ghost now = replaced_from(v@, i as int, depth as int);
        let c = v[i];
        if c == '#' && i + 1 < v.len() && v[i + 1] == '{' {
            if depth == 0 {
                out.append("*:");
            }
            assert(out@ + replaced_from(v@, i + 2, depth + 1) =~= before + now);
            depth = depth + 1;
            i = i + 2;
        } else if c == '{' {
            depth = depth + 1;
            i = i + 1;
        } else if c == '}' {
            if depth > 0 {
                depth = depth - 1;
            }
            i = i + 1;
        } else {
            if depth == 0 {
                out.push(c);
            }
            assert(out@ + replaced_from(v@, i + 1, depth as int) =~= before + now);
            i = i + 1;
        }
    }
    assert(replaced_from(v@, i as int, depth as int) =~= Seq::empty());
    assert(out@ + Seq::<char>::empty() =~= out@);
    out
}

/// What a key adds to a scan. One with an interpolation is a pattern, and a
/// prefix that ends in a dot protects the keys below it as well.
pub open spec fn with_key(out: FileScanV, key: Seq<char>, occ: OccurrenceV) -> FileScanV {
    if has_text(key, "#{"@) {
        let pattern = replaced_from(key, 0, 0);
        if all_wildcard(pattern) {
            FileScanV { opaque: out.opaque.push(occ), ..out }
        } else {
            FileScanV { patterns: out.patterns.push((pattern, occ)), ..out }
        }
    } else {
        FileScanV {
            keys: out.keys.push((key, occ)),
            patterns: match without_suffix(key, ":"@) {
                Some(prefix) => if "."@.is_suffix_of(prefix) {
                    out.patterns.push((prefix + "*:"@, occ))
                } else {
                    out.patterns
                },
                None => out.patterns,
            },
            opaque: out.opaque,
        }
    }
}

/// Adds a key to a scan.
pub fn push_key(out: &mut FileScan, key: String, occ: Occurrence)
    ensures
        final(out)@ == with_key(old(out)@, key@, occ@),
{
    if contains(&key, "#{") {
        let pattern = replace_interpolations(&key);
        if is_all_wildcard(&pattern) {
            push_opaque(&mut out.opaque, occ);
        } else {
            push_found(&mut out.patterns, pattern, occ);
        }
        return ;
    }
    if let Some(prefix) = strip_suffix(&key, ":") {
        if ends_with(&prefix, ".") {
            push_found(&mut out.patterns, concat(&prefix, "*:"), occ.clone());
        }
    }
    push_found(&mut out.keys, key, occ);
}

// ------------------------------------------------------------------ what surrounds

/// Where the character that ends at `i` starts.
pub open spec fn char_start(bytes: Seq<u8>, i: int) -> int
    decreases i,
{
    if i > 0 && 0x80 <= bytes[i] < 0xC0 {
        char_start(bytes, i - 1)
    } else {
        i
    }
}

/// The character in front of the offset.
pub open spec fn char_before(bytes: Seq<u8>, offset: int) -> Option<char> {
    if offset <= 0 {
        None
    } else {
        let last = bytes.subrange(char_start(bytes, offset - 1), offset);
        if valid_utf8(last) && decode_utf8(last).len() > 0 {
            Some(decode_utf8(last)[0])
        } else {
            None
        }
    }
}

fn prev_char(bytes: &[u8], offset: usize) -> (r: Option<char>)
    requires
        offset <= bytes.len(),
    ensures
        r == char_before(bytes@, offset as int),
{
    if offset == 0 {
        return None;
    }
    let mut start: usize = offset - 1;
    while start > 0 && 0x80 <= bytes[start] && bytes[start] < 0xC0
        invariant
            start < offset <= bytes.len(),
            char_start(bytes@, start as int) == char_start(bytes@, offset - 1),
        decreases start,
    {
        start = start - 1;
    }
    match utf8_text(vstd::slice::slice_subrange(bytes, start, offset)) {
        Some(s) => {
            let v = chars_of(&s);
            if v.len() > 0 {
                Some(v[0])
            } else {
                None
            }
        },
        None => None,
    }
}

/// A `t` may stand at the offset: behind `I18n.`, or behind nothing that makes
/// it part of a longer name.
pub open spec fn may_call(bytes: Seq<u8>, start: int, i18n_prefix: bool) -> bool {
    i18n_prefix || match char_before(bytes, start) {
        None => true,
        Some(c) => !(is_alphabetic_of(c) || c == '_' || c == '\'' || c == '-' || c == '.'),
    }
}

/// Whether a `t` at the offset is a call.
pub fn preceded_ok(bytes: &[u8], start: usize, i18n_prefix: bool) -> (b: bool)
    requires
        start <= bytes.len(),
    ensures
        b == may_call(bytes@, start as int, i18n_prefix),
{
    if i18n_prefix {
        return true;
    }
    match prev_char(bytes, start) {
        None => true,
        Some(c) => !(alphabetic(c) || c == '_' || c == '\'' || c == '-' || c == '.'),
    }
}

/// What follows the marker of a comment, in the language of the extension.
pub open spec fn comment_rest(ext: Seq<char>, line: Seq<char>) -> Option<Seq<char>> {
    let s = trim_start_of(line);
    if ext == "coffee"@ || ext == "opal"@ {
        without_prefix(s, "#"@)
    } else if ext == "es6"@ || ext == "js"@ {
        without_prefix(s, "//"@)
    } else if ext == "haml"@ {
        match without_prefix(s, "-"@) {
            Some(rest) => without_prefix(trim_start_of(rest), "#"@),
            None => None,
        }
    } else if ext == "slim"@ {
        match without_prefix(s, "-#"@) {
            Some(rest) => Some(rest),
            None => without_prefix(s, "/"@),
        }
    } else {
        None
    }
}

/// The text of a comment opens with a magic comment.
pub open spec fn keeps_magic(rest: Seq<char>) -> bool {
    rest.len() > 0 && is_space(rest[0]) && "i18n-tasks-use"@.is_prefix_of(rest.skip(1))
}

/// The line is a comment, and not a magic one.
pub open spec fn skips_line(ext: Seq<char>, line: Seq<char>) -> bool {
    match comment_rest(ext, line) {
        Some(rest) => !keeps_magic(rest),
        None => false,
    }
}

fn strip_comment(ext: &str, line: &str) -> (r: Option<String>)
    ensures
        comment_rest(ext@, line@) == match r {
            Some(s) => Some(s@),
            None => None,
        },
{
    let s = trim_start(line);
    if same_text(ext, "coffee") || same_text(ext, "opal") {
        strip_prefix(&s, "#")
    } else if same_text(ext, "es6") || same_text(ext, "js") {
        strip_prefix(&s, "//")
    } else if same_text(ext, "haml") {
        match strip_prefix(&s, "-") {
            Some(rest) => strip_prefix(&trim_start(&rest), "#"),
            None => None,
        }
    } else if same_text(ext, "slim") {
        match strip_prefix(&s, "-#") {
            Some(rest) => Some(rest),
            None => strip_prefix(&s, "/"),
        }
    } else {
        None
    }
}

/// Whether a line is a comment that is skipped. A magic comment is not.
pub fn is_comment_line(ext: &str, line: &[u8]) -> (b: bool)
    ensures
        b == skips_line(ext@, lossy_of(line@)),
{
    let text = lossy(line);
    match strip_comment(ext, &text) {
        Some(rest) => {
            let v = chars_of(&rest);
            if v.len() == 0 || !space(v[0]) {
                return true;
            }
            let tail = text_between(&v, 1, v.len());
            assert(tail@ =~= rest@.skip(1));
            !starts_with(&tail, "i18n-tasks-use")
        },
        None => false,
    }
}

// ------------------------------------------------------------------------- the scan

/// What is scanned.
pub struct TemplateV {
    pub bytes: Seq<u8>,
    pub path: Seq<char>,
    pub cfg: ScanConfigV,
}

impl TemplateV {
    /// The extension of the file, empty where it has none.
    pub open spec fn ext(self) -> Seq<char> {
        match extension_of(self.path) {
            Some(ext) => ext,
            None => Seq::empty(),
        }
    }

    /// The text that a group stands for.
    pub open spec fn taken(self, span: (int, int)) -> Seq<char> {
        lossy_of(self.bytes.subrange(span.0, span.1))
    }

    /// What a match adds to a scan, where the call stands at `call_pos`.
    pub open spec fn with_match(
        self,
        out: FileScanV,
        groups: Seq<Option<(int, int)>>,
        call_pos: int,
    ) -> FileScanV {
        match group(groups, 2) {
            None => out,
            Some(span) => {
                let arg = self.taken(span);
                let scope = match group(groups, 3) {
                    Some(s) => Some(self.taken(s)),
                    None => None,
                };
                let line = lossy_of(line_text_of(self.bytes, call_pos));
                if skips_line(self.ext(), line) {
                    out
                } else {
                    match key_of_match(arg, scope, self.path, self.cfg) {
                        None => out,
                        Some(found) => {
                            let key = if "."@.is_suffix_of(found) {
                                found + ":"@
                            } else {
                                found
                            };
                            if is_valid_key(key) {
                                let loc = LocatorV { bytes: self.bytes, map: None };
                                let (pos, line_num, line_pos) = loc.place(call_pos);
                                with_key(
                                    out,
                                    key,
                                    OccurrenceV {
                                        path: self.path,
                                        snippet: line,
                                        pos,
                                        line_pos,
                                        line_num,
                                        raw_key: literal_text(arg),
                                        candidate_keys: seq![key],
                                    },
                                )
                            } else {
                                out
                            }
                        },
                    }
                }
            },
        }
    }

    /// What a match adds to a scan, and where the search goes on. A rejected
    /// call is left one byte behind its start, so that a call inside it is
    /// found.
    pub open spec fn after_match(
        self,
        out: FileScanV,
        groups: Seq<Option<(int, int)>>,
        whole: (int, int),
    ) -> (FileScanV, int) {
        let call_pos = match group(groups, 1) {
            Some((_, end)) => end,
            None => whole.0,
        };
        if may_call(self.bytes, whole.0, group(groups, 1) is Some) {
            (self.with_match(out, groups, call_pos), whole.1)
        } else {
            (out, call_pos + 1)
        }
    }

    /// What a scan finds from `at` on.
    pub open spec fn found_from(self, at: int, out: FileScanV) -> FileScanV
        decreases self.bytes.len() - at,
    {
        match groups_at(CALL_SOURCE@, self.bytes, at) {
            None => out,
            Some(groups) => match group(groups, 0) {
                None => out,
                Some(whole) => {
                    let (after, next) = self.after_match(out, groups, whole);
                    if next <= at || next > self.bytes.len() {
                        after
                    } else {
                        self.found_from(next, after)
                    }
                },
            },
        }
    }
}

/// A file that is scanned.
pub struct Template<'a> {
    pub bytes: &'a [u8],
    pub path: &'a str,
    pub cfg: &'a ScanConfig,
    pub ext: String,
    pub index: LineIndex,
}

impl<'a> View for Template<'a> {
    type V = TemplateV;

    open spec fn view(&self) -> TemplateV {
        TemplateV { bytes: self.bytes@, path: self.path@, cfg: self.cfg@ }
    }
}

impl<'a> Template<'a> {
    /// The extension and the index are those of the file.
    pub open spec fn wf(&self) -> bool {
        self.ext@ == self@.ext() && self.index@ == self.bytes@
    }

    /// A file that is scanned.
    pub fn new(bytes: &'a [u8], path: &'a str, cfg: &'a ScanConfig) -> (t: Template<'a>)
        ensures
            t.wf(),
            t@ == (TemplateV { bytes: bytes@, path: path@, cfg: cfg@ }),
    {
        let ext = match extension(path) {
            Some(ext) => ext,
            None => String::new(),
        };
        assert(extension_of(path@) is None ==> ext@ =~= Seq::empty());
        Template { bytes, path, cfg, ext, index: LineIndex::new(bytes) }
    }

    fn take_match(
        &self,
        re: &Regex,
        out: &mut FileScan,
        groups: &Vec<Option<(usize, usize)>>,
        call_pos: usize,
    )
        requires
            self.wf(),
            source_of(*re) == LITERAL_SOURCE@,
            within_bytes(spans(groups@), self.bytes@.len() as int),
        ensures
            final(out)@ == self@.with_match(old(out)@, spans(groups@), call_pos as int),
    {
        let arg = match group_at(groups, 2) {
            Some((a, b)) => {
                assert(spans(groups@)[2] is Some);
                lossy(vstd::slice::slice_subrange(self.bytes, a, b))
            },
            None => {
                return ;
            },
        };
        let scope = match group_at(groups, 3) {
            Some((a, b)) => {
                assert(spans(groups@)[3] is Some);
                Some(lossy(vstd::slice::slice_subrange(self.bytes, a, b)))
            },
            None => None,
        };
        let line = self.index.line_text(self.bytes, call_pos);
        if is_comment_line(&self.ext, line) {
            return ;
        }
        let scope_text = match &scope {
            Some(s) => Some(s.as_str()),
            None => None,
        };
        let mut key = match match_to_key(re, &arg, scope_text, self.path, self.cfg) {
            Some(key) => key,
            None => {
                return ;
            },
        };
        if ends_with(&key, ".") {
            key = concat(&key, ":");
        }
        if !valid_key(&key) {
            return ;
        }
        let (pos, line_num, line_pos) = Locator::direct(&self.index).locate(call_pos);
        let mut candidate_keys: Vec<String> = Vec::new();
        candidate_keys.push(key.clone());
        assert(texts(candidate_keys@) =~= seq![key@]);
        let occ = Occurrence {
            path: self.path.to_owned(),
            snippet: lossy(line),
            pos,
            line_pos,
            line_num,
            raw_key: strip_literal(&arg),
            candidate_keys,
        };
        push_key(out, key, occ);
    }

    /// Adds what a match says to a scan, and says where the search goes on.
    /// `groups` is what the groups of [`CALL_SOURCE`] stand for, and `start` and
    /// `end` where the match lies.
    pub fn handle_match(
        &self,
        re: &Regex,
        out: &mut FileScan,
        groups: &Vec<Option<(usize, usize)>>,
        start: usize,
        end: usize,
    ) -> (next: Option<usize>)
        requires
            self.wf(),
            source_of(*re) == LITERAL_SOURCE@,
            within_bytes(spans(groups@), self.bytes@.len() as int),
            start <= end <= self.bytes@.len(),
        ensures
            ({
                let (after, at) = self@.after_match(
                    old(out)@,
                    spans(groups@),
                    (start as int, end as int),
                );
                &&& final(out)@ == after
                &&& match next {
                    Some(n) => n == at && n <= self.bytes@.len(),
                    None => at > self.bytes@.len(),
                }
            }),
    {
        let length = self.bytes.len();
        let prefix = group_at(groups, 1);
        let call_pos = match prefix {
            Some((_, e)) => {
                assert(spans(groups@)[1] is Some);
                e
            },
            None => start,
        };
        if preceded_ok(self.bytes, start, prefix.is_some()) {
            self.take_match(re, out, groups, call_pos);
            Some(end)
        } else if call_pos < length {
            Some(call_pos + 1)
        } else {
            None
        }
    }
}

/// Scans a file with the two regular expressions compiled.
pub fn scan_with(call: &Regex, literal: &Regex, bytes: &[u8], path: &str, cfg: &ScanConfig) -> (out:
    FileScan)
    requires
        source_of(*call) == CALL_SOURCE@,
        source_of(*literal) == LITERAL_SOURCE@,
    ensures
        out@ == (TemplateV { bytes: bytes@, path: path@, cfg: cfg@ }).found_from(
            0,
            nothing_found(),
        ),
        all_located(out@, path@, bytes@),
{
    let t = Template::new(bytes, path, cfg);
    let ghost v = t@;
    let mut out = FileScan::default();
    let mut at: usize = 0;
    let ghost all = v.found_from(0, nothing_found());
    loop
        invariant_except_break
            v.found_from(at as int, out@) == all,
        invariant
            at <= bytes.len(),
            all_located(out@, path@, bytes@),
            v.path == path@,
            t.wf(),
            t.bytes@ == bytes@,
            t@ == v,
            v.bytes == bytes@,
            source_of(*call) == CALL_SOURCE@,
            source_of(*literal) == LITERAL_SOURCE@,
        ensures
            out@ == all,
        decreases bytes.len() - at,
    {
        let groups = match captures_at(call, bytes, at) {
            Some(groups) => groups,
            None => {
                break;
            },
        };
        let (start, end) = match group_at(&groups, 0) {
            Some((start, end)) => {
                assert(spans(groups@)[0] is Some);
                (start, end)
            },
            None => {
                break;
            },
        };
        let ghost before = out@;
        proof {
            let model = spans(groups@);
            let call_pos = match group(model, 1) {
                Some((_, e)) => e,
                None => start as int,
            };
            if group(model, 1) is Some {
                assert(model[1] is Some);
            }
            a_match_is_located(v, before, model, call_pos);
        }
        match t.handle_match(literal, &mut out, &groups, start, end) {
            Some(next) => {
                if next <= at {
                    break;
                }
                at = next;
            },
            None => {
                break;
            },
        }
    }
    out
}

/// Scans a file that is neither Ruby nor ERB. `None` where one of the two
/// regular expressions does not compile.
pub fn scan(bytes: &[u8], path: &str, cfg: &ScanConfig) -> (r: Option<FileScan>)
    ensures
        match r {
            Some(out) => compiles(CALL_SOURCE@) && compiles(LITERAL_SOURCE@) && out@ == (
            TemplateV { bytes: bytes@, path: path@, cfg: cfg@ }).found_from(0, nothing_found())
                && all_located(out@, path@, bytes@),
            None => !compiles(CALL_SOURCE@) || !compiles(LITERAL_SOURCE@),
        },
{
    match compile(CALL_SOURCE) {
        Some(call) => match compile(LITERAL_SOURCE) {
            Some(literal) => Some(scan_with(&call, &literal, bytes, path, cfg)),
            None => None,
        },
        None => None,
    }
}

} // verus!
