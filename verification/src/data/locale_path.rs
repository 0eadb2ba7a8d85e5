//! Which locale a path names, and which locales a project has.
use crate::config::{debug_list, debug_list_of, Config};
use crate::text::{
    chars_of, contains, has_text, occurs_at, push_text, same_text, stands_at, strictly_sorted,
    texts,
};
use crate::textmap::TextMap;
use regex::Regex;
use vstd::prelude::*;

verus! {

// ------------------------------------------------------------- the read pattern

/// The end of the run of stars that starts at `i`.
pub open spec fn star_run(pattern: Seq<char>, i: int) -> int
    decreases pattern.len() - i,
{
    if 0 <= i < pattern.len() && pattern[i] == '*' {
        star_run(pattern, i + 1)
    } else {
        i
    }
}

proof fn star_run_bounds(pattern: Seq<char>, i: int)
    requires
        0 <= i <= pattern.len(),
    ensures
        i <= star_run(pattern, i) <= pattern.len(),
    decreases pattern.len() - i,
{
    if i < pattern.len() && pattern[i] == '*' {
        star_run_bounds(pattern, i + 1);
    }
}

/// The regular expression of the pattern from `i` on: `%{locale}` is the group,
/// exactly `**` crosses directories, any other run of stars does not, and `.`,
/// `/` and `\` are escaped.
pub open spec fn regex_from(pattern: Seq<char>, i: int) -> Seq<char>
    decreases pattern.len() - i,
{
    let run = star_run(pattern, i);
    if i < 0 || i >= pattern.len() {
        Seq::empty()
    } else if occurs_at(pattern, "%{locale}"@, i) && "%{locale}"@.len() == 9 {
        "([^/.]+)"@ + regex_from(pattern, i + 9)
    } else if pattern[i] == '*' && i < run <= pattern.len() {
        (if run - i == 2 {
            ".*"@
        } else {
            "[^/]*?"@
        }) + regex_from(pattern, run)
    } else if pattern[i] == '.' || pattern[i] == '/' || pattern[i] == '\\' {
        seq!['\\', pattern[i]] + regex_from(pattern, i + 1)
    } else {
        seq![pattern[i]] + regex_from(pattern, i + 1)
    }
}

/// The read pattern as an anchored regular expression whose one group is the
/// locale.
pub open spec fn locale_regex(pattern: Seq<char>) -> Seq<char> {
    "\\A"@ + regex_from(pattern, 0) + "\\z"@
}

fn regex_text(pattern: &str) -> (out: String)
    ensures
        out@ == locale_regex(pattern@),
{
    let v = chars_of(pattern);
    let mark = chars_of("%{locale}");
    let mut out = "\\A".to_owned();
    let mut i: usize = 0;
    proof {
        reveal_strlit("%{locale}");
    }
    while i < v.len()
        invariant
            v@ == pattern@,
            mark@ == "%{locale}"@,
            "%{locale}"@.len() == 9,
            i <= v.len(),
            out@ + regex_from(v@, i as int) == "\\A"@ + regex_from(v@, 0),
        decreases v.len() - i,
    {
        let ghost before = out@;
        let ghost start = i as int;
        proof {
            star_run_bounds(v@, start);
        }
        if stands_at(&v, &mark, i) {
            out.append("([^/.]+)");
            i = i + 9;
            assert(out@ + regex_from(v@, i as int) =~= before + ("([^/.]+)"@ + regex_from(
                v@,
                i as int,
            )));
        } else if v[i] == '*' {
            let from = i;
            while i < v.len() && v[i] == '*'
                invariant
                    from <= i <= v.len(),
                    star_run(v@, from as int) == star_run(v@, i as int),
                decreases v.len() - i,
            {
                i = i + 1;
            }
            let piece = if i - from == 2 {
                ".*"
            } else {
                "[^/]*?"
            };
            out.append(piece);
            assert(star_run(v@, from as int) == i);
            assert(star_run(v@, from as int) == star_run(v@, from + 1));
            proof {
                star_run_bounds(v@, from + 1);
            }
            assert(out@ + regex_from(v@, i as int) =~= before + (piece@ + regex_from(
                v@,
                i as int,
            )));
        } else if v[i] == '.' || v[i] == '/' || v[i] == '\\' {
            out.push('\\');
            out.push(v[i]);
            i = i + 1;
            assert(out@ + regex_from(v@, i as int) =~= before + (seq!['\\', v@[start]]
                + regex_from(v@, i as int)));
        } else {
            out.push(v[i]);
            i = i + 1;
            assert(out@ + regex_from(v@, i as int) =~= before + (seq![v@[start]] + regex_from(
                v@,
                i as int,
            )));
        }
    }
    assert(out@ + regex_from(v@, i as int) =~= out@);
    out.append("\\z");
    out
}

/// A compiled regular expression over text, of the crate `regex`.
#[verifier::external_type_specification]
#[verifier::external_body]
pub struct ExTextRegex(Regex);

/// The source that a regular expression was compiled from.
pub uninterp spec fn text_source_of(re: Regex) -> Seq<char>;

/// `Regex::new` of the crate `regex` accepts the source.
pub uninterp spec fn is_regex(source: Seq<char>) -> bool;

/// `Regex::new` of the crate `regex`: the compiled source, where it is a
/// regular expression.
#[verifier::external_body]
fn compile_text(source: &str) -> (r: Option<Regex>)
    ensures
        match r {
            Some(re) => is_regex(source@) && text_source_of(re) == source@,
            None => !is_regex(source@),
        },
{
    Regex::new(source).ok()
}

/// What the first group of a regular expression stands for at its leftmost
/// match in the text; `None` where it does not match, or the group takes no
/// part.
pub uninterp spec fn first_group_of(source: Seq<char>, text: Seq<char>) -> Option<Seq<char>>;

/// `Regex::captures` of the crate `regex`, and group 1 of what it returns. The
/// contract names the result, and says that a group is a part of the text.
#[verifier::external_body]
fn first_group(re: &Regex, text: &str) -> (r: Option<String>)
    ensures
        match r {
            Some(g) => first_group_of(text_source_of(*re), text@) == Some(g@) && has_text(
                text@,
                g@,
            ),
            None => first_group_of(text_source_of(*re), text@) is None,
        },
{
    Some(re.captures(text)?.get(1)?.as_str().to_string())
}

/// The regular expression of a read pattern, where it is one. A read pattern
/// that holds another metacharacter may not be, and is then skipped.
pub fn locale_pattern_re(pattern: &str) -> (r: Option<Regex>)
    ensures
        match r {
            Some(re) => text_source_of(re) == locale_regex(pattern@) && is_regex(
                locale_regex(pattern@),
            ),
            None => !is_regex(locale_regex(pattern@)),
        },
{
    compile_text(&regex_text(pattern))
}

/// The locale that a path names under a `data.read` pattern.
pub open spec fn locale_in_path(pattern: Seq<char>, path: Seq<char>) -> Option<Seq<char>> {
    if is_regex(locale_regex(pattern)) {
        first_group_of(locale_regex(pattern), path)
    } else {
        None
    }
}

/// Reads the locale back out of a path, with the regular expression of a read
/// pattern.
pub fn extract_locale(re: &Regex, path: &str) -> (r: Option<String>)
    ensures
        match r {
            Some(locale) => first_group_of(text_source_of(*re), path@) == Some(locale@)
                && has_text(path@, locale@),
            None => first_group_of(text_source_of(*re), path@) is None,
        },
{
    first_group(re, path)
}

/// The locale a concrete path names under a `data.read` pattern, or `None`
/// when the pattern does not read that path at all. `path` is
/// project-relative and slash-separated.
pub fn locale_for_path(pattern: &str, path: &str) -> (r: Option<String>)
    ensures
        match r {
            Some(locale) => locale_in_path(pattern@, path@) == Some(locale@) && has_text(
                path@,
                locale@,
            ),
            None => locale_in_path(pattern@, path@) is None,
        },
{
    match locale_pattern_re(pattern) {
        Some(re) => extract_locale(&re, path),
        None => None,
    }
}

// ------------------------------------------------------------- the locale lists

/// The locales found so far, and one more where it is new.
pub open spec fn with_locale(found: Seq<Seq<char>>, locale: Option<Seq<char>>) -> Seq<Seq<char>> {
    match locale {
        Some(l) => if found.contains(l) {
            found
        } else {
            found.push(l)
        },
        None => found,
    }
}

/// The locales that the first `n` paths name, added to those found before.
pub open spec fn locales_in_paths(
    found: Seq<Seq<char>>,
    pattern: Seq<char>,
    paths: Seq<Seq<char>>,
    n: int,
) -> Seq<Seq<char>>
    decreases n,
{
    if n <= 0 {
        found
    } else {
        with_locale(
            locales_in_paths(found, pattern, paths, n - 1),
            locale_in_path(pattern, paths[n - 1]),
        )
    }
}

/// A list of lists of texts.
pub open spec fn text_lists(v: Seq<Vec<String>>) -> Seq<Seq<Seq<char>>> {
    Seq::new(v.len(), |i: int| texts(v[i]@))
}

/// The locales that the paths of the first `n` read patterns name. A pattern
/// without `%{locale}` names none.
pub open spec fn available_upto(
    patterns: Seq<Seq<char>>,
    paths: Seq<Seq<Seq<char>>>,
    n: int,
) -> Seq<Seq<char>>
    decreases n,
{
    if n <= 0 {
        Seq::empty()
    } else if has_text(patterns[n - 1], "%{locale}"@) {
        locales_in_paths(
            available_upto(patterns, paths, n - 1),
            patterns[n - 1],
            paths[n - 1],
            paths[n - 1].len() as int,
        )
    } else {
        available_upto(patterns, paths, n - 1)
    }
}

fn holds(v: &Vec<String>, s: &str) -> (b: bool)
    ensures
        b == texts(v@).contains(s@),
{
    let mut i: usize = 0;
    while i < v.len()
        invariant
            i <= v.len(),
            forall|j: int| 0 <= j < i ==> texts(v@)[j] != s@,
        decreases v.len() - i,
    {
        assert(texts(v@)[i as int] == v@[i as int]@);
        if same_text(&v[i], s) {
            return true;
        }
        i = i + 1;
    }
    false
}

/// The locales of a project, in the order in which the files name them:
/// `paths[i]` holds the files that the read pattern `patterns[i]` reaches.
pub fn available_locales(patterns: &Vec<String>, paths: &Vec<Vec<String>>) -> (found: Vec<String>)
    requires
        paths.len() == patterns.len(),
    ensures
        texts(found@) == available_upto(
            texts(patterns@),
            text_lists(paths@),
            patterns.len() as int,
        ),
{
    let mut found: Vec<String> = Vec::new();
    let mut i: usize = 0;
    assert(texts(found@) =~= Seq::empty());
    while i < patterns.len()
        invariant
            i <= patterns.len() == paths.len(),
            texts(found@) == available_upto(texts(patterns@), text_lists(paths@), i as int),
        decreases patterns.len() - i,
    {
        assert(texts(patterns@)[i as int] == patterns@[i as int]@);
        assert(text_lists(paths@)[i as int] == texts(paths@[i as int]@));
        if contains(&patterns[i], "%{locale}") {
            let ghost before = texts(found@);
            let files = &paths[i];
            let mut k: usize = 0;
            while k < files.len()
                invariant
                    k <= files.len(),
                    i < patterns.len(),
                    texts(found@) == locales_in_paths(
                        before,
                        patterns@[i as int]@,
                        texts(files@),
                        k as int,
                    ),
                decreases files.len() - k,
            {
                assert(texts(files@)[k as int] == files@[k as int]@);
                if let Some(locale) = locale_for_path(&patterns[i], &files[k]) {
                    if !holds(&found, &locale) {
                        push_text(&mut found, locale);
                    }
                }
                k = k + 1;
            }
        }
        i = i + 1;
    }
    found
}

/// The base locale first, then the others, sorted, each once.
pub open spec fn normalized_list(
    out: Seq<Seq<char>>,
    locales: Seq<Seq<char>>,
    base: Seq<char>,
) -> bool {
    &&& out.len() > 0
    &&& out[0] == base
    &&& strictly_sorted(out.skip(1))
    &&& forall|l: Seq<char>|
        #![trigger out.skip(1).contains(l)]
        out.skip(1).contains(l) <==> locales.contains(l) && l != base
}

/// The base locale first, whether or not the list holds it, then the rest
/// sorted. Duplicates collapse.
pub fn normalize_locale_list(locales: &Vec<String>, base: &str) -> (out: Vec<String>)
    ensures
        normalized_list(texts(out@), texts(locales@), base@),
{
    let mut others: TextMap<()> = TextMap::new();
    let mut i: usize = 0;
    while i < locales.len()
        invariant
            i <= locales.len(),
            forall|l: Seq<char>| #[trigger]
                others@.contains_key(l) <==> l != base@ && exists|j: int|
                    0 <= j < i && #[trigger] texts(locales@)[j] == l,
        decreases locales.len() - i,
    {
        let ghost before = others@;
        let ghost here = locales@[i as int]@;
        assert(texts(locales@)[i as int] == here);
        if !same_text(&locales[i], base) {
            others.insert(locales[i].clone(), ());
        }
        proof {
            assert forall|l: Seq<char>| #[trigger]
                others@.contains_key(l) <==> l != base@ && exists|j: int|
                    0 <= j < i + 1 && #[trigger] texts(locales@)[j] == l by {
                if others@.contains_key(l) && l != here {
                    assert(before.contains_key(l));
                }
                if l != base@ && l != here {
                    assert(before.contains_key(l) == others@.contains_key(l));
                }
            }
        }
        i = i + 1;
    }
    let n = others.len();
    let ghost order = others.order();
    let mut out: Vec<String> = Vec::new();
    push_text(&mut out, base.to_owned());
    let mut k: usize = 0;
    assert(texts(out@) =~= seq![base@] + order.take(0));
    while k < n
        invariant
            k <= n == order.len(),
            order == others.order(),
            texts(out@) == seq![base@] + order.take(k as int),
        decreases n - k,
    {
        let ghost before = texts(out@);
        push_text(&mut out, others.key_at(k).clone());
        assert(order.take(k + 1) =~= order.take(k as int).push(order[k as int]));
        assert(texts(out@) =~= seq![base@] + order.take(k + 1));
        k = k + 1;
    }
    proof {
        assert(order.take(k as int) =~= order);
        assert(texts(out@).skip(1) =~= order);
        assert forall|l: Seq<char>|
            #![trigger texts(out@).skip(1).contains(l)]
            texts(out@).skip(1).contains(l) <==> texts(locales@).contains(l) && l != base@ by {
            assert(others@.contains_key(l) <==> order.contains(l));
            if texts(locales@).contains(l) {
                let j = texts(locales@).index_of(l);
                assert(texts(locales@)[j] == l);
            }
        }
    }
    out
}

/// The message for a project without locale data.
pub open spec fn no_data_message(read: Seq<Seq<char>>, root: Seq<char>) -> Seq<char> {
    "no locale data found. `data.read` patterns: "@ + debug_list_of(read) + ", relative to "@
        + root
}

/// The locales to load: those that the configuration lists, or else those that
/// the data files name, of which there must be one.
pub fn locales_to_load(cfg: &Config, found: &Vec<String>) -> (r: Result<Vec<String>, String>)
    ensures
        match r {
            Ok(out) => match cfg@.locales {
                Some(listed) => normalized_list(texts(out@), listed, cfg@.base_locale),
                None => found.len() > 0 && normalized_list(
                    texts(out@),
                    texts(found@),
                    cfg@.base_locale,
                ),
            },
            Err(e) => {
                &&& cfg@.locales is None
                &&& found.len() == 0
                &&& e@ == no_data_message(cfg@.data.read, cfg.root@)
            },
        },
{
    match &cfg.locales {
        Some(listed) => Ok(normalize_locale_list(listed, &cfg.base_locale)),
        None => if found.len() == 0 {
            let mut message = "no locale data found. `data.read` patterns: ".to_owned();
            message.append(&debug_list(&cfg.data.read));
            message.append(", relative to ");
            message.append(&cfg.root);
            Err(message)
        } else {
            Ok(normalize_locale_list(found, &cfg.base_locale))
        },
    }
}

} // verus!
