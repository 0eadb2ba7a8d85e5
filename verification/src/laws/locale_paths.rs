//! Which locales the paths of locale files name.
use crate::data::locale_path::{
    available_upto, locale_in_path, locales_in_paths, regex_from, star_run,
};
use crate::text::{has_text, occurs_at};
use vstd::prelude::*;

verus! {

/// A path below one of the read patterns names the locale.
pub open spec fn is_named(
    patterns: Seq<Seq<char>>,
    paths: Seq<Seq<Seq<char>>>,
    n: int,
    locale: Seq<char>,
) -> bool {
    exists|i: int, j: int|
        0 <= i < n && has_text(patterns[i], "%{locale}"@) && 0 <= j < paths[i].len()
            && #[trigger] locale_in_path(patterns[i], paths[i][j]) == Some(locale)
}

proof fn locales_are_added(
    found: Seq<Seq<char>>,
    pattern: Seq<char>,
    paths: Seq<Seq<char>>,
    n: int,
    locale: Seq<char>,
)
    requires
        0 <= n <= paths.len(),
        found.no_duplicates(),
    ensures
        locales_in_paths(found, pattern, paths, n).contains(locale) <==> found.contains(locale)
            || exists|j: int|
            0 <= j < n && locale_in_path(pattern, #[trigger] paths[j]) == Some(locale),
        locales_in_paths(found, pattern, paths, n).no_duplicates(),
    decreases n,
{
    if n > 0 {
        locales_are_added(found, pattern, paths, n - 1, locale);
        let before = locales_in_paths(found, pattern, paths, n - 1);
        let now = locales_in_paths(found, pattern, paths, n);
        if let Some(l) = locale_in_path(pattern, paths[n - 1]) {
            if !before.contains(l) {
                assert(now == before.push(l));
                assert(now[before.len() as int] == l);
                if before.contains(locale) {
                    assert(now[before.index_of(locale)] == locale);
                }
                if now.contains(locale) && locale != l {
                    assert(before[now.index_of(locale)] == locale);
                }
            }
        }
    }
}

/// The locales of a project are exactly those that the paths below its read
/// patterns name, each once.
pub proof fn exactly_the_named_locales_are_available(
    patterns: Seq<Seq<char>>,
    paths: Seq<Seq<Seq<char>>>,
    n: int,
    locale: Seq<char>,
)
    requires
        0 <= n <= patterns.len(),
        patterns.len() == paths.len(),
    ensures
        available_upto(patterns, paths, n).contains(locale) <==> is_named(
            patterns,
            paths,
            n,
            locale,
        ),
        available_upto(patterns, paths, n).no_duplicates(),
    decreases n,
{
    if n > 0 {
        exactly_the_named_locales_are_available(patterns, paths, n - 1, locale);
        let before = available_upto(patterns, paths, n - 1);
        let own = paths[n - 1];
        if has_text(patterns[n - 1], "%{locale}"@) {
            locales_are_added(before, patterns[n - 1], own, own.len() as int, locale);
            if exists|j: int|
                0 <= j < own.len() && locale_in_path(patterns[n - 1], #[trigger] own[j]) == Some(
                    locale,
                ) {
                let j = choose|j: int|
                    0 <= j < own.len() && locale_in_path(patterns[n - 1], #[trigger] own[j])
                        == Some(locale);
                assert(locale_in_path(patterns[n - 1], paths[n - 1][j]) == Some(locale));
            }
        }
        if is_named(patterns, paths, n, locale) {
            let (i, j) = choose|i: int, j: int|
                0 <= i < n && has_text(patterns[i], "%{locale}"@) && 0 <= j < paths[i].len()
                    && #[trigger] locale_in_path(patterns[i], paths[i][j]) == Some(locale);
            if i == n - 1 {
                assert(locale_in_path(patterns[n - 1], own[j]) == Some(locale));
            } else {
                assert(is_named(patterns, paths, n - 1, locale));
            }
        }
        if is_named(patterns, paths, n - 1, locale) {
            let (i, j) = choose|i: int, j: int|
                0 <= i < n - 1 && has_text(patterns[i], "%{locale}"@) && 0 <= j < paths[i].len()
                    && #[trigger] locale_in_path(patterns[i], paths[i][j]) == Some(locale);
            assert(is_named(patterns, paths, n, locale));
        }
    } else {
        assert(!available_upto(patterns, paths, n).contains(locale));
    }
}

// -------------------------------------------------------------------- expressions

proof fn stars_are_seen_alike(s: Seq<char>, k: int, i: int)
    requires
        0 <= k <= i,
        k <= s.len(),
    ensures
        star_run(s, i) == k + star_run(s.skip(k), i - k),
    decreases s.len() - i,
{
    if i < s.len() && s[i] == '*' {
        assert(s.skip(k)[i - k] == s[i]);
        stars_are_seen_alike(s, k, i + 1);
    } else if i < s.len() {
        assert(s.skip(k)[i - k] == s[i]);
    }
}

proof fn what_follows_is_read_alike(s: Seq<char>, k: int, i: int)
    requires
        0 <= k <= i,
        k <= s.len(),
    ensures
        regex_from(s, i) == regex_from(s.skip(k), i - k),
    decreases s.len() - i,
{
    reveal_strlit("%{locale}");
    let t = s.skip(k);
    if i < s.len() {
        stars_are_seen_alike(s, k, i);
        assert(t[i - k] == s[i]);
        let mark = "%{locale}"@;
        assert(occurs_at(s, mark, i) == occurs_at(t, mark, i - k)) by {
            if i + 9 <= s.len() {
                assert(s.subrange(i, i + 9) =~= t.subrange(i - k, i - k + 9));
            }
        }
        if occurs_at(s, mark, i) {
            what_follows_is_read_alike(s, k, i + 9);
        } else if s[i] == '*' {
            let run = star_run(s, i);
            if i < run <= s.len() {
                what_follows_is_read_alike(s, k, run);
            }
            what_follows_is_read_alike(s, k, i + 1);
        } else {
            what_follows_is_read_alike(s, k, i + 1);
        }
    }
}

/// The locale of a pattern stands for a group without slashes and dots, two
/// stars for anything, one star for anything without a slash, and dots and
/// slashes for themselves; what follows is read the same way.
pub proof fn what_a_read_pattern_stands_for(rest: Seq<char>, c: char)
    requires
        c != '*' && c != '%' && c != '.' && c != '/' && c != '\\',
        rest.len() > 0 ==> rest[0] != '*',
    ensures
        regex_from("%{locale}"@ + rest, 0) == "([^/.]+)"@ + regex_from(rest, 0),
        regex_from(seq!['*'] + rest, 0) == "[^/]*?"@ + regex_from(rest, 0),
        regex_from(seq!['*', '*'] + rest, 0) == ".*"@ + regex_from(rest, 0),
        regex_from(seq!['.'] + rest, 0) == seq!['\\', '.'] + regex_from(rest, 0),
        regex_from(seq!['/'] + rest, 0) == seq!['\\', '/'] + regex_from(rest, 0),
        regex_from(seq![c] + rest, 0) == seq![c] + regex_from(rest, 0),
        regex_from(Seq::empty(), 0) == Seq::<char>::empty(),
{
    reveal_strlit("%{locale}");
    let mark = "%{locale}"@;
    let a = mark + rest;
    assert(a.subrange(0, 9) =~= mark);
    what_follows_is_read_alike(a, 9, 9);
    assert(a.skip(9) =~= rest);
    one_character(seq!['*'], rest);
    let b = seq!['*'] + rest;
    assert(star_run(b, 1) == 1);
    assert(star_run(b, 0) == 1);
    one_character(seq!['*', '*'], rest);
    let d = seq!['*', '*'] + rest;
    assert(star_run(d, 2) == 2);
    assert(star_run(d, 1) == 2);
    assert(star_run(d, 0) == 2);
    one_character(seq!['.'], rest);
    one_character(seq!['/'], rest);
    one_character(seq![c], rest);
}

proof fn one_character(front: Seq<char>, rest: Seq<char>)
    requires
        front.len() > 0,
        front[0] != '%',
    ensures
        regex_from(front + rest, front.len() as int) == regex_from(rest, 0),
        !occurs_at(front + rest, "%{locale}"@, 0),
{
    reveal_strlit("%{locale}");
    let s = front + rest;
    let n = front.len() as int;
    what_follows_is_read_alike(s, n, n);
    assert(s.skip(n) =~= rest);
    if occurs_at(s, "%{locale}"@, 0) {
        assert(s.subrange(0, 9)[0] == s[0]);
    }
}

} // verus!
