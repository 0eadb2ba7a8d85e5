//! What single files of a project tell: the layout of a locale file, the
//! default locale that a Ruby file assigns, and whether a source file uses a
//! relative key. Files are read as text and never executed.
use crate::config::{interpolate_locale, interpolated};
use crate::data::locale_path::{locale_for_path, locale_in_path};
use crate::text::{
    alnum, chars_of, concat, decimal, decimal_text, find_from, find_from_of, has_char, is_alnum,
    is_lower, join, join_of, lower, plain_lines, bare_lines, position_from, position_of, same_text,
    skip_space, split, split_last, split_last_of, split_of, swap_char, swap_char_of, text_between,
    texts, trim_start_of,
};
use vstd::prelude::*;

verus! {

// -------------------------------------------------------------- the locale files

/// The layouts that a locale file can have, in the order in which their
/// patterns are written.
#[derive(Clone, Copy, Debug, PartialEq, Eq, Structural)]
pub enum Shape {
    /// `config/locales/en.yml`
    Flat,
    /// `config/locales/devise.en.yml`
    Namespaced,
    /// `config/locales/en/models.yml`
    LocaleDir,
    /// `config/locales/en/admin/panel.yml`
    LocaleDirDeep,
    /// `config/locales/admin/en.yml`
    SubdirFlat,
    /// `config/locales/admin/devise.en.yml`
    SubdirNamespaced,
}

impl Shape {
    /// What stands between the directory and the extension in a pattern.
    pub open spec fn middle(self) -> Seq<char> {
        match self {
            Shape::Flat => "/%{locale}."@,
            Shape::Namespaced => "/*.%{locale}."@,
            Shape::LocaleDir => "/%{locale}/*."@,
            Shape::LocaleDirDeep => "/%{locale}/**/*."@,
            Shape::SubdirFlat => "/**/%{locale}."@,
            Shape::SubdirNamespaced => "/**/*.%{locale}."@,
        }
    }

    /// The `data.read` pattern that the layout needs.
    pub open spec fn pattern_of(self, dir: Seq<char>, ext: Seq<char>) -> Seq<char> {
        dir + self.middle() + ext
    }

    /// The `data.read` pattern that the layout needs. `dir` has no slash at its
    /// end.
    ///
    /// A locale directory needs two patterns, because `**` stands for at least
    /// one directory: `%{locale}/**/*.yml` never matches `en/models.yml`.
    pub fn pattern(self, dir: &str, ext: &str) -> (out: String)
        ensures
            out@ == self.pattern_of(dir@, ext@),
    {
        let middle = match self {
            Shape::Flat => "/%{locale}.",
            Shape::Namespaced => "/*.%{locale}.",
            Shape::LocaleDir => "/%{locale}/*.",
            Shape::LocaleDirDeep => "/%{locale}/**/*.",
            Shape::SubdirFlat => "/**/%{locale}.",
            Shape::SubdirNamespaced => "/**/*.%{locale}.",
        };
        let mut out = concat(dir, middle);
        out.append(ext);
        out
    }
}

/// Two or three lower-case letters.
pub open spec fn is_language(s: Seq<char>) -> bool {
    2 <= s.len() <= 3 && forall|i: int| 0 <= i < s.len() ==> is_lower(#[trigger] s[i])
}

/// Two to eight letters or digits.
pub open spec fn is_subtag(s: Seq<char>) -> bool {
    2 <= s.len() <= 8 && forall|i: int| 0 <= i < s.len() ==> is_alnum(#[trigger] s[i])
}

/// The parts between `-` and `_`.
pub open spec fn tags_of(s: Seq<char>) -> Seq<Seq<char>> {
    split_of(swap_char_of(s, '_', '-'), '-')
}

/// A locale code such as `en`, `pt-BR`, `zh-Hans-CN` or `pt_BR`.
pub open spec fn is_locale_code(s: Seq<char>) -> bool {
    let tags = tags_of(s);
    is_language(tags[0]) && forall|i: int| 1 <= i < tags.len() ==> is_subtag(#[trigger] tags[i])
}

fn language(s: &str) -> (b: bool)
    ensures
        b == is_language(s@),
{
    let v = chars_of(s);
    if v.len() < 2 || v.len() > 3 {
        return false;
    }
    let mut i: usize = 0;
    while i < v.len()
        invariant
            i <= v.len(),
            v@ == s@,
            forall|j: int| 0 <= j < i ==> is_lower(#[trigger] s@[j]),
        decreases v.len() - i,
    {
        if !lower(v[i]) {
            assert(!is_lower(s@[i as int]));
            return false;
        }
        i = i + 1;
    }
    true
}

fn subtag(s: &str) -> (b: bool)
    ensures
        b == is_subtag(s@),
{
    let v = chars_of(s);
    if v.len() < 2 || v.len() > 8 {
        return false;
    }
    let mut i: usize = 0;
    while i < v.len()
        invariant
            i <= v.len(),
            v@ == s@,
            forall|j: int| 0 <= j < i ==> is_alnum(#[trigger] s@[j]),
        decreases v.len() - i,
    {
        if !alnum(v[i]) {
            assert(!is_alnum(s@[i as int]));
            return false;
        }
        i = i + 1;
    }
    true
}

/// Whether a text is a locale code.
///
/// Narrow on purpose: a file named after something else must not invent a
/// locale.
pub fn looks_like_locale(s: &str) -> (b: bool)
    ensures
        b == is_locale_code(s@),
{
    let tags = split(&swap_char(s, '_', '-'), '-');
    let ghost model = tags_of(s@);
    assert(model.len() == tags.len());
    assert(model[0] == tags@[0]@);
    if !language(&tags[0]) {
        return false;
    }
    let mut i: usize = 1;
    while i < tags.len()
        invariant
            1 <= i <= tags.len(),
            model == texts(tags@),
            model == tags_of(s@),
            forall|j: int| 1 <= j < i ==> is_subtag(#[trigger] model[j]),
        decreases tags.len() - i,
    {
        assert(model[i as int] == tags@[i as int]@);
        if !subtag(&tags[i]) {
            assert(!is_subtag(model[i as int]));
            return false;
        }
        i = i + 1;
    }
    true
}

/// A file name without its last extension.
pub open spec fn stem_of(file: Seq<char>) -> Seq<char> {
    match split_last_of(file, '.') {
        Some((stem, _)) => stem,
        None => file,
    }
}

/// The last part of a dotted name is a locale code.
pub open spec fn ends_in_locale(stem: Seq<char>) -> bool {
    match split_last_of(stem, '.') {
        Some((_, last)) => is_locale_code(last),
        None => false,
    }
}

/// The layout of a locale file, named relative to the locale directory.
pub open spec fn shape_of(under_dir: Seq<char>) -> Option<Shape> {
    let (dirs, file) = match split_last_of(under_dir, '/') {
        Some((d, f)) => (d, f),
        None => (Seq::empty(), under_dir),
    };
    let stem = stem_of(file);
    if dirs.len() == 0 {
        if is_locale_code(stem) {
            Some(Shape::Flat)
        } else if ends_in_locale(stem) {
            Some(Shape::Namespaced)
        } else {
            None
        }
    } else if is_locale_code(split_of(dirs, '/')[0]) {
        if dirs.contains('/') {
            Some(Shape::LocaleDirDeep)
        } else {
            Some(Shape::LocaleDir)
        }
    } else if is_locale_code(stem) {
        Some(Shape::SubdirFlat)
    } else if ends_in_locale(stem) {
        Some(Shape::SubdirNamespaced)
    } else {
        None
    }
}

fn namespaced(stem: &str) -> (b: bool)
    ensures
        b == ends_in_locale(stem@),
{
    match split_last(stem, '.') {
        Some((_, last)) => looks_like_locale(&last),
        None => false,
    }
}

/// The layout of one locale file, named relative to the locale directory.
pub fn classify(under_dir: &str) -> (r: Option<Shape>)
    ensures
        r == shape_of(under_dir@),
{
    let (dirs, file) = match split_last(under_dir, '/') {
        Some((d, f)) => (d, f),
        None => (String::new(), under_dir.to_owned()),
    };
    assert(split_last_of(under_dir@, '/') is None ==> dirs@ =~= Seq::empty());
    let stem = match split_last(&file, '.') {
        Some((stem, _)) => stem,
        None => file.clone(),
    };
    if dirs.as_str().is_empty() {
        if looks_like_locale(&stem) {
            Some(Shape::Flat)
        } else if namespaced(&stem) {
            Some(Shape::Namespaced)
        } else {
            None
        }
    } else {
        let parts = split(&dirs, '/');
        assert(split_of(dirs@, '/')[0] == parts@[0]@);
        if looks_like_locale(&parts[0]) {
            if has_char(&dirs, '/') {
                Some(Shape::LocaleDirDeep)
            } else {
                Some(Shape::LocaleDir)
            }
        } else if looks_like_locale(&stem) {
            Some(Shape::SubdirFlat)
        } else if namespaced(&stem) {
            Some(Shape::SubdirNamespaced)
        } else {
            None
        }
    }
}

// ---------------------------------------------------------------- the write target

/// One of the patterns reads the locale back out of the path.
pub open spec fn reads_back(read: Seq<Seq<char>>, path: Seq<char>, locale: Seq<char>) -> bool {
    exists|i: int|
        0 <= i < read.len() && locale_in_path(#[trigger] read[i], path) == Some(locale)
}

/// The targets that are tried, in order.
pub open spec fn write_candidates(dir: Seq<char>, ext: Seq<char>) -> Seq<Seq<char>> {
    seq![
        dir + "/%{locale}."@ + ext,
        dir + "/common.%{locale}."@ + ext,
        dir + "/%{locale}/common."@ + ext,
    ]
}

/// The target is read back by one of the patterns.
pub open spec fn is_read_back(read: Seq<Seq<char>>, target: Seq<char>, base: Seq<char>) -> bool {
    reads_back(read, interpolated(target, base), base)
}

/// The first target that the patterns read back.
pub open spec fn write_target_of(
    dir: Seq<char>,
    ext: Seq<char>,
    base: Seq<char>,
    read: Seq<Seq<char>>,
) -> Option<Seq<char>> {
    let c = write_candidates(dir, ext);
    if is_read_back(read, c[0], base) {
        Some(c[0])
    } else if is_read_back(read, c[1], base) {
        Some(c[1])
    } else if is_read_back(read, c[2], base) {
        Some(c[2])
    } else {
        None
    }
}

fn target_is_read_back(read: &Vec<String>, target: &str, base: &str) -> (b: bool)
    ensures
        b == is_read_back(texts(read@), target@, base@),
{
    let concrete = interpolate_locale(target, base);
    let ghost model = texts(read@);
    let mut i: usize = 0;
    while i < read.len()
        invariant
            i <= read.len(),
            model == texts(read@),
            concrete@ == interpolated(target@, base@),
            forall|j: int|
                0 <= j < i ==> locale_in_path(#[trigger] model[j], concrete@) != Some(base@),
        decreases read.len() - i,
    {
        assert(model[i as int] == read@[i as int]@);
        if let Some(locale) = locale_for_path(&read[i], &concrete) {
            if same_text(&locale, base) {
                assert(locale_in_path(model[i as int], concrete@) == Some(base@));
                return true;
            }
        }
        i = i + 1;
    }
    false
}

/// The first target that the read patterns read back. A path that nothing
/// reads would hide the keys that are written to it.
pub fn write_target(dir: &str, ext: &str, base: &str, read: &Vec<String>) -> (r: Option<String>)
    ensures
        write_target_of(dir@, ext@, base@, texts(read@)) == match r {
            Some(t) => Some(t@),
            None => None,
        },
{
    let mut flat = concat(dir, "/%{locale}.");
    flat.append(ext);
    if target_is_read_back(read, &flat, base) {
        return Some(flat);
    }
    let mut common = concat(dir, "/common.%{locale}.");
    common.append(ext);
    if target_is_read_back(read, &common, base) {
        return Some(common);
    }
    let mut nested = concat(dir, "/%{locale}/common.");
    nested.append(ext);
    if target_is_read_back(read, &nested, base) {
        return Some(nested);
    }
    None
}

// ----------------------------------------------------------------- the base locale

/// A character of a locale name in Ruby.
pub open spec fn is_name_char(c: char) -> bool {
    is_alnum(c) || c == '_' || c == '-'
}

/// How many of the first characters belong to a locale name.
pub open spec fn name_end(s: Seq<char>) -> int
    decreases s.len(),
{
    if s.len() == 0 || !is_name_char(s[0]) {
        0
    } else {
        1 + name_end(s.skip(1))
    }
}

/// The locale in what follows `=`: a symbol, or a text in quotes.
pub open spec fn literal_locale(s: Seq<char>) -> Option<Seq<char>> {
    if s.len() == 0 || (s[0] != ':' && s[0] != '"' && s[0] != '\'') {
        None
    } else {
        let rest = s.skip(1);
        let n = name_end(rest);
        if n == 0 || (s[0] != ':' && !(n < rest.len() && rest[n] == s[0])) {
            None
        } else {
            Some(rest.take(n))
        }
    }
}

/// The locale that a line of Ruby assigns to `.default_locale`.
pub open spec fn default_locale_of(code: Seq<char>) -> Option<Seq<char>> {
    match find_from_of(code, ".default_locale"@, 0) {
        None => None,
        Some(at) => {
            let rest = trim_start_of(code.skip(at + 15));
            if rest.len() == 0 || rest[0] != '=' {
                None
            } else {
                literal_locale(trim_start_of(rest.skip(1)))
            }
        },
    }
}

/// The locale that a line assigns to `.default_locale` as a literal. A value
/// built from anything else is left alone.
pub fn default_locale_in(code: &str) -> (r: Option<String>)
    ensures
        default_locale_of(code@) == match r {
            Some(l) => Some(l@),
            None => None,
        },
{
    let v = chars_of(code);
    let length = v.len();
    let mark = chars_of(".default_locale");
    proof {
        reveal_strlit(".default_locale");
    }
    let at = match find_from(&v, &mark, 0) {
        Some(at) => at,
        None => {
            return None;
        },
    };
    assert(at + 15 <= length);
    let i = skip_space(&v, at + 15, length);
    proof {
        assert(v@.subrange(at + 15, length as int) =~= code@.skip(at + 15));
        assert(v@.subrange(i as int, length as int) =~= v@.skip(i as int));
    }
    if i >= length || v[i] != '=' {
        return None;
    }
    let j = skip_space(&v, i + 1, length);
    proof {
        assert(v@.subrange(i + 1, length as int) =~= v@.skip(i as int).skip(1));
        assert(v@.subrange(j as int, length as int) =~= v@.skip(j as int));
    }
    if j >= length || (v[j] != ':' && v[j] != '"' && v[j] != '\'') {
        return None;
    }
    let start: usize = j + 1;
    let ghost rest = v@.skip(start as int);
    assert(v@.skip(j as int).skip(1) =~= rest);
    let mut end: usize = start;
    while end < length && (alnum(v[end]) || v[end] == '_' || v[end] == '-')
        invariant
            start <= end <= length == v.len(),
            rest == v@.skip(start as int),
            name_end(rest) == end - start + name_end(v@.skip(end as int)),
        decreases length - end,
    {
        assert(v@.skip(end as int)[0] == v@[end as int]);
        assert(v@.skip(end as int).skip(1) =~= v@.skip(end + 1));
        end = end + 1;
    }
    assert(end < length ==> v@.skip(end as int)[0] == v@[end as int]);
    assert(name_end(rest) == end - start);
    if end == start || (v[j] != ':' && !(end < length && v[end] == v[j])) {
        return None;
    }
    let locale = text_between(&v, start, end);
    assert(locale@ =~= rest.take(end - start));
    Some(locale)
}

/// A line of Ruby without what follows the first `#`.
pub open spec fn code_of(line: Seq<char>) -> Seq<char> {
    let i = position_of(line, '#');
    if i < line.len() {
        line.take(i)
    } else {
        line
    }
}

/// The first of `lines[from..]` that assigns a default locale, and the locale.
pub open spec fn first_default(lines: Seq<Seq<char>>, from: int) -> Option<(Seq<char>, int)>
    decreases lines.len() - from,
{
    if from < 0 || from >= lines.len() {
        None
    } else {
        match default_locale_of(code_of(lines[from])) {
            Some(locale) => Some((locale, from + 1)),
            None => first_default(lines, from + 1),
        }
    }
}

/// A Ruby file of a project.
pub struct RubyFile {
    /// Relative to the root of the project.
    pub path: String,
    pub source: String,
}

/// What a list of Ruby files holds: paths and sources.
pub open spec fn ruby_model(v: Seq<RubyFile>) -> Seq<(Seq<char>, Seq<char>)> {
    Seq::new(v.len(), |i: int| (v[i].path@, v[i].source@))
}

/// The default locale that the first of `files[from..]` to assign one assigns,
/// and where.
pub open spec fn ruby_default(files: Seq<(Seq<char>, Seq<char>)>, from: int) -> Option<
    (Seq<char>, Seq<char>),
>
    decreases files.len() - from,
{
    if from < 0 || from >= files.len() {
        None
    } else {
        match first_default(bare_lines(files[from].1), 0) {
            Some((locale, line)) => Some(
                (locale, swap_char_of(files[from].0, '\\', '/') + ":"@ + decimal(line as nat)),
            ),
            None => ruby_default(files, from + 1),
        }
    }
}

fn find_default(source: &str) -> (r: Option<(String, usize)>)
    ensures
        first_default(bare_lines(source@), 0) == match r {
            Some((l, n)) => Some((l@, n as int)),
            None => None,
        },
{
    let lines = plain_lines(source);
    let ghost model = bare_lines(source@);
    assert(model.len() == lines.len());
    let mut i: usize = 0;
    while i < lines.len()
        invariant
            i <= lines.len(),
            model == texts(lines@),
            model == bare_lines(source@),
            first_default(model, i as int) == first_default(model, 0),
        decreases lines.len() - i,
    {
        assert(model[i as int] == lines@[i as int]@);
        let v = chars_of(&lines[i]);
        let end = position_from(&v, '#', 0);
        let code = text_between(&v, 0, end);
        proof {
            assert(v@.skip(0) =~= v@);
            assert(code@ =~= code_of(v@)) by {
                assert(v@.subrange(0, end as int) =~= v@.take(end as int));
                assert(v@.take(v.len() as int) =~= v@);
            }
        }
        if let Some(locale) = default_locale_in(&code) {
            return Some((locale, i + 1));
        }
        i = i + 1;
    }
    None
}

/// The default locale that the Ruby of a project assigns, and `path:line` of
/// the assignment. The files are looked at in order. A commented-out assignment
/// does not count.
pub fn detect_base_locale(files: &Vec<RubyFile>) -> (r: Option<(String, String)>)
    ensures
        ruby_default(ruby_model(files@), 0) == match r {
            Some((l, at)) => Some((l@, at@)),
            None => None,
        },
{
    let ghost model = ruby_model(files@);
    let mut i: usize = 0;
    while i < files.len()
        invariant
            i <= files.len(),
            model == ruby_model(files@),
            ruby_default(model, i as int) == ruby_default(model, 0),
        decreases files.len() - i,
    {
        let file = &files[i];
        assert(model[i as int] == (file.path@, file.source@));
        if let Some((locale, line)) = find_default(&file.source) {
            let mut at = swap_char(&file.path, '\\', '/');
            at.append(":");
            at.append(&decimal_text(line as u64));
            return Some((locale, at));
        }
        i = i + 1;
    }
    None
}

// ------------------------------------------------------------------- relative keys

/// The directory that a file is rooted at: the first two parts of its path.
pub open spec fn root_of(rel: Seq<char>) -> Option<Seq<char>> {
    let parts = split_of(rel, '/');
    if parts.len() <= 1 {
        None
    } else if parts.len() == 2 {
        Some(parts[0])
    } else {
        Some(parts[0] + "/"@ + parts[1])
    }
}

/// The relative root that a source file belongs to: the first two parts of its
/// path.
pub fn enclosing_root(rel: &str) -> (r: Option<String>)
    ensures
        root_of(rel@) == match r {
            Some(s) => Some(s@),
            None => None,
        },
{
    let parts = split(rel, '/');
    let ghost model = split_of(rel@, '/');
    assert(model.len() == parts.len());
    if parts.len() <= 1 {
        return None;
    }
    assert(model[0] == parts@[0]@);
    assert(model[1] == parts@[1]@);
    if parts.len() == 2 {
        return Some(parts[0].clone());
    }
    let mut root = concat(&parts[0], "/");
    root.append(&parts[1]);
    Some(root)
}

/// A byte of an identifier.
pub open spec fn is_ident(b: u8) -> bool {
    (('a' as u8) <= b && b <= ('z' as u8)) || (('A' as u8) <= b && b <= ('Z' as u8)) || (('0' as u8) <= b && b <= ('9' as u8)) || b == ('_' as u8)
}

fn ident(b: u8) -> (r: bool)
    ensures
        r == is_ident(b),
{
    (('a' as u8) <= b && b <= ('z' as u8)) || (('A' as u8) <= b && b <= ('Z' as u8)) || (('0' as u8) <= b && b <= ('9' as u8)) || b == ('_' as u8)
}

/// The byte `b` stands at `i`.
pub open spec fn byte_at(bytes: Seq<u8>, i: int, b: u8) -> bool {
    0 <= i < bytes.len() && bytes[i] == b
}

/// `ranslate` stands at `i`.
pub open spec fn rest_of_translate(bytes: Seq<u8>, i: int) -> bool {
    &&& byte_at(bytes, i, ('r' as u8))
    &&& byte_at(bytes, i + 1, ('a' as u8))
    &&& byte_at(bytes, i + 2, ('n' as u8))
    &&& byte_at(bytes, i + 3, ('s' as u8))
    &&& byte_at(bytes, i + 4, ('l' as u8))
    &&& byte_at(bytes, i + 5, ('a' as u8))
    &&& byte_at(bytes, i + 6, ('t' as u8))
    &&& byte_at(bytes, i + 7, ('e' as u8))
}

/// Where the first byte at or after `i` stands that is not a blank.
pub open spec fn after_blanks(bytes: Seq<u8>, i: int) -> int
    decreases bytes.len() - i,
{
    if byte_at(bytes, i, (' ' as u8)) {
        after_blanks(bytes, i + 1)
    } else {
        i
    }
}

/// Where the name `t`, `t!`, `translate` or `translate!` at `i` ends.
pub open spec fn name_behind(bytes: Seq<u8>, i: int) -> int {
    let j = if rest_of_translate(bytes, i + 1) {
        i + 9
    } else {
        i + 1
    };
    if byte_at(bytes, j, ('!' as u8)) {
        j + 1
    } else {
        j
    }
}

/// A call of `t`, `t!` or `translate` stands at `i` whose first argument is a
/// text that starts with a dot.
pub open spec fn relative_call(bytes: Seq<u8>, i: int) -> bool {
    let j = name_behind(bytes, i);
    let k = after_blanks(bytes, j);
    let arg = if byte_at(bytes, k, ('(' as u8)) {
        after_blanks(bytes, k + 1)
    } else {
        k
    };
    &&& byte_at(bytes, i, ('t' as u8))
    &&& !(i > 0 && is_ident(bytes[i - 1]))
    &&& !(j < bytes.len() && is_ident(bytes[j]))
    &&& byte_at(bytes, arg, ('"' as u8)) || byte_at(bytes, arg, ('\'' as u8))
    &&& byte_at(bytes, arg + 1, ('.' as u8))
}

fn has_byte(bytes: &[u8], i: usize, b: u8) -> (r: bool)
    ensures
        r == byte_at(bytes@, i as int, b),
{
    i < bytes.len() && bytes[i] == b
}

fn skip_blanks(bytes: &[u8], i: usize) -> (j: usize)
    requires
        i <= bytes.len(),
    ensures
        i <= j <= bytes.len(),
        j == after_blanks(bytes@, i as int),
{
    let mut j: usize = i;
    while has_byte(bytes, j, (' ' as u8))
        invariant
            i <= j <= bytes.len(),
            after_blanks(bytes@, j as int) == after_blanks(bytes@, i as int),
        decreases bytes.len() - j,
    {
        j = j + 1;
    }
    j
}

fn is_relative_call(bytes: &[u8], i: usize) -> (b: bool)
    requires
        i < bytes.len(),
    ensures
        b == relative_call(bytes@, i as int),
{
    if bytes[i] != ('t' as u8) || (i > 0 && ident(bytes[i - 1])) {
        return false;
    }
    let length = bytes.len();
    let mut j: usize = i + 1;
    if length - j >= 8 && has_byte(bytes, j, ('r' as u8)) && has_byte(bytes, j + 1, ('a' as u8)) && has_byte(
        bytes,
        j + 2,
        ('n' as u8),
    ) && has_byte(bytes, j + 3, ('s' as u8)) && has_byte(bytes, j + 4, ('l' as u8)) && has_byte(
        bytes,
        j + 5,
        ('a' as u8),
    ) && has_byte(bytes, j + 6, ('t' as u8)) && has_byte(bytes, j + 7, ('e' as u8)) {
        j = j + 8;
    }
    if has_byte(bytes, j, ('!' as u8)) {
        j = j + 1;
    }
    if j < length && ident(bytes[j]) {
        return false;
    }
    let mut arg = skip_blanks(bytes, j);
    if has_byte(bytes, arg, ('(' as u8)) {
        arg = skip_blanks(bytes, arg + 1);
    }
    (has_byte(bytes, arg, ('"' as u8)) || has_byte(bytes, arg, ('\'' as u8))) && has_byte(bytes, arg + 1, ('.' as u8))
}

/// Whether the bytes hold a `t`, `t!` or `translate` call whose first argument
/// is a string literal that opens with a dot.
///
/// The call has to be an identifier of its own: `format(".2f")` ends in `t(".`
/// and holds no relative key.
pub fn uses_relative_key(bytes: &[u8]) -> (b: bool)
    ensures
        b == exists|i: int| 0 <= i < bytes@.len() && #[trigger] relative_call(bytes@, i),
{
    let mut i: usize = 0;
    while i < bytes.len()
        invariant
            i <= bytes.len(),
            forall|j: int| 0 <= j < i ==> !#[trigger] relative_call(bytes@, j),
        decreases bytes.len() - i,
    {
        if is_relative_call(bytes, i) {
            return true;
        }
        i = i + 1;
    }
    false
}

// --------------------------------------------------------------------------- notes

/// The first three items, and how many more there are.
pub open spec fn preview_of(items: Seq<Seq<char>>) -> Seq<char> {
    if items.len() > 3 {
        join_of(items.take(3), ", "@) + ", and "@ + decimal((items.len() - 3) as nat) + " more"@
    } else {
        join_of(items, ", "@)
    }
}

/// The first three items, and how many more there are.
pub fn preview(items: &Vec<String>) -> (out: String)
    ensures
        out@ == preview_of(texts(items@)),
{
    let ghost model = texts(items@);
    assert(model.len() == items.len());
    if items.len() <= 3 {
        return join(items, ", ");
    }
    let mut shown: Vec<String> = Vec::new();
    shown.push(items[0].clone());
    shown.push(items[1].clone());
    shown.push(items[2].clone());
    assert(texts(shown@) =~= model.take(3));
    let mut out = join(&shown, ", ");
    out.append(", and ");
    out.append(&decimal_text((items.len() - 3) as u64));
    out.append(" more");
    out
}

} // verus!
