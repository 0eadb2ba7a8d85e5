//! Which variables a text uses, where they differ, and which are reserved.
use crate::config::{ConfigV, IgnoreType};
use crate::data::load::{sorted_of, LeafV, LocaleTree, ValueV};
use crate::data::store::Store;
use crate::laws::values::{
    each_check_goes_by_its_own_rules, is_ignored, one_more_of_a_list, reports, reports_joined,
    reports_one_more, sorted_is_the_leaves,
};
use crate::pattern::any_accepts;
use crate::report::interpolations::{
    after_run, before_run, inconsistent_in, inconsistent_row, inconsistent_rows, inconsistent_upto,
    is_reserved, reserved_in, reserved_leaves, reserved_names, reserved_row, reserved_rows,
    string_value, variable_end, variable_name_of, variables_from, variables_of,
};
use crate::text::{
    distinct, distinct_is_distinct, distinct_is_unique, position_is_first, position_of,
};
use vstd::prelude::*;

verus! {

// ------------------------------------------------------------------- variables

/// A variable stands in the text from `i` to `end`: `%{`, one character or
/// more, and the next `}`. A `%` in front of it takes it away.
pub open spec fn variable_stands(s: Seq<char>, i: int, end: int) -> bool {
    &&& 0 <= i
    &&& i + 3 < end <= s.len()
    &&& s[i] == '%'
    &&& s[i + 1] == '{'
    &&& s[end - 1] == '}'
    &&& forall|k: int| i + 2 <= k < end - 1 ==> #[trigger] s[k] != '}'
    &&& i == 0 || s[i - 1] != '%'
}

proof fn an_end_is_a_variable(s: Seq<char>, i: int, end: int)
    ensures
        variable_stands(s, i, end) <==> variable_end(s, i) == Some(end),
{
    if 0 <= i && i + 2 < s.len() {
        let rest = s.skip(i + 2);
        let p = position_of(rest, '}');
        position_is_first(rest, '}');
        let close = i + 2 + p;
        if variable_stands(s, i, end) {
            assert(rest[end - 1 - (i + 2)] == '}');
            if p < end - 1 - (i + 2) {
                assert(s[close] == rest[p]);
            }
        }
        if variable_end(s, i) == Some(end) {
            assert(s[close] == rest[p]);
            assert forall|k: int| i + 2 <= k < end - 1 implies #[trigger] s[k] != '}' by {
                assert(rest[k - (i + 2)] == s[k]);
            }
        }
    }
}

proof fn found_from(s: Seq<char>, i: int, v: Seq<char>)
    requires
        0 <= i,
        variables_from(s, i).contains(v),
    ensures
        exists|a: int, b: int| #[trigger] variable_stands(s, a, b) && s.subrange(a, b) == v,
    decreases s.len() - i,
{
    if i < s.len() {
        match variable_end(s, i) {
            Some(end) => {
                an_end_is_a_variable(s, i, end);
                let rest = variables_from(s, end);
                let all = seq![s.subrange(i, end)] + rest;
                let k = all.index_of(v);
                if k == 0 {
                    assert(variable_stands(s, i, end) && s.subrange(i, end) == v);
                } else {
                    assert(rest[k - 1] == v);
                    found_from(s, end, v);
                }
            },
            None => {
                found_from(s, i + 1, v);
            },
        }
    }
}

proof fn standing_is_found(s: Seq<char>, i: int, p: int, end: int)
    requires
        0 <= i <= p,
        variable_stands(s, p, end),
    ensures
        exists|a: int| #![trigger s.subrange(a, end)] i <= a <= p && variable_stands(s, a, end)
            && variables_from(s, i).contains(s.subrange(a, end)),
    decreases s.len() - i,
{
    match variable_end(s, i) {
        Some(e) => {
            an_end_is_a_variable(s, i, e);
            let rest = variables_from(s, e);
            let own = s.subrange(i, e);
            let all = seq![own] + rest;
            if p < e {
                assert(p + 2 <= e - 1) by {
                    if p == e - 1 {
                        assert(s[p] == '}');
                    }
                    if p == e - 2 {
                        assert(s[p + 1] == '}');
                    }
                }
                if end < e {
                    assert(s[end - 1] != '}');
                }
                if e < end {
                    assert(s[e - 1] != '}');
                }
                assert(all[0] == s.subrange(i, end));
            } else {
                standing_is_found(s, e, p, end);
                let a = choose|a: int| #![trigger s.subrange(a, end)] e <= a <= p && variable_stands(
                    s,
                    a,
                    end,
                ) && rest.contains(s.subrange(a, end));
                let k = rest.index_of(s.subrange(a, end));
                assert(all[k + 1] == s.subrange(a, end));
            }
        },
        None => {
            if p == i {
                an_end_is_a_variable(s, p, end);
            }
            standing_is_found(s, i + 1, p, end);
        },
    }
}

/// The variables of a text are the variables that stand in it, and no other
/// text.
pub proof fn every_variable_stands_in_the_text(s: Seq<char>, v: Seq<char>)
    requires
        variables_of(s).contains(v),
    ensures
        exists|i: int, end: int| #[trigger] variable_stands(s, i, end) && s.subrange(i, end) == v,
{
    found_from(s, 0, v);
}

/// A variable that stands in a text is found, or is part of one that is found
/// and ends where it does.
pub proof fn no_variable_is_overlooked(s: Seq<char>, i: int, end: int)
    requires
        variable_stands(s, i, end),
    ensures
        exists|a: int| #![trigger s.subrange(a, end)] 0 <= a <= i && variable_stands(s, a, end)
            && variables_of(s).contains(s.subrange(a, end)),
{
    standing_is_found(s, 0, i, end);
}

// ----------------------------------------------------------------- differences

/// Some variable occurs in one of the texts and not in the other.
pub open spec fn variables_differ(a: Seq<char>, b: Seq<char>) -> bool {
    exists|v: Seq<char>| #[trigger] variables_of(a).contains(v) != variables_of(b).contains(v)
}

/// The string that the locale has for the key.
pub open spec fn string_for(
    trees: Map<Seq<char>, LocaleTree>,
    locale: Seq<char>,
    key: Seq<char>,
    text: Seq<char>,
) -> bool {
    trees.contains_key(locale) && exists|i: int|
        0 <= i < trees[locale].leaves.len() && (#[trigger] trees[locale].leaves@[i]).key@ == key
            && trees[locale].leaves@[i].value@ == ValueV::Str(text)
}

/// The locale and the base locale have a string for the key, and their
/// variables differ.
pub open spec fn differs_from_base(
    trees: Map<Seq<char>, LocaleTree>,
    base: Seq<char>,
    locale: Seq<char>,
    key: Seq<char>,
) -> bool {
    locale != base && exists|ours: Seq<char>, theirs: Seq<char>| #[trigger]
        string_for(trees, base, key, ours) && #[trigger] string_for(trees, locale, key, theirs)
            && variables_differ(ours, theirs)
}

proof fn differing_variables_are_listed(a: Seq<char>, b: Seq<char>)
    ensures
        variables_differ(a, b) <==> distinct(variables_of(a)) != distinct(variables_of(b)),
{
    let x = distinct(variables_of(a));
    let y = distinct(variables_of(b));
    distinct_is_distinct(variables_of(a));
    distinct_is_distinct(variables_of(b));
    if !variables_differ(a, b) {
        assert forall|t: Seq<char>| #![trigger x.contains(t)] x.contains(t) <==> variables_of(
            b,
        ).contains(t) by {
            assert(variables_of(a).contains(t) == variables_of(b).contains(t));
        }
        distinct_is_unique(x, variables_of(b));
    }
    if variables_differ(a, b) {
        let v = choose|v: Seq<char>| #[trigger]
            variables_of(a).contains(v) != variables_of(b).contains(v);
        assert(x.contains(v) != y.contains(v));
    }
}

pub(crate) proof fn a_string_is_found(tree: LocaleTree, key: Seq<char>)
    requires
        tree.wf(),
    ensures
        tree.found(key) matches Some(leaf) ==> leaf.key == key && tree.data().contains(leaf),
        forall|i: int|
            0 <= i < tree.leaves.len() && (#[trigger] tree.leaves@[i]).key@ == key ==> tree.found(
                key,
            ) == Some(tree.leaves@[i]@),
{
    let keys = tree.keys();
    if keys.contains(key) {
        let j = keys.index_of(key);
        assert(tree.data()[j].key == key);
        assert forall|i: int|
            0 <= i < tree.leaves.len() && (#[trigger] tree.leaves@[i]).key@ == key implies tree.found(
            key,
        ) == Some(tree.leaves@[i]@) by {
            assert(keys[i] == key);
            assert(tree.index@[keys[i]] == i);
            assert(tree.index@[keys[j]] == j);
            assert(tree.data()[i] == tree.leaves@[i]@);
        }
    } else {
        assert forall|i: int|
            0 <= i < tree.leaves.len() && (#[trigger] tree.leaves@[i]).key@ == key implies false by {
            assert(keys[i] == key);
        }
    }
}

pub(crate) proof fn strings_are_found(
    trees: Map<Seq<char>, LocaleTree>,
    locale: Seq<char>,
    key: Seq<char>,
    text: Seq<char>,
)
    requires
        trees.contains_key(locale),
        trees[locale].wf(),
    ensures
        string_for(trees, locale, key, text) <==> (trees[locale].found(key) is Some && string_value(
            trees[locale].found(key)->Some_0.value,
        ) == Some(text)),
{
    let tree = trees[locale];
    a_string_is_found(tree, key);
    if string_for(trees, locale, key, text) {
        let i = choose|i: int|
            0 <= i < tree.leaves.len() && (#[trigger] tree.leaves@[i]).key@ == key
                && tree.leaves@[i].value@ == ValueV::Str(text);
        assert(tree.found(key) == Some(tree.leaves@[i]@));
    }
    if let Some(leaf) = tree.found(key) {
        let i = tree.data().index_of(leaf);
        assert(tree.data()[i] == tree.leaves@[i]@);
        assert(tree.leaves@[i].key@ == key);
    }
}

proof fn locales_of_a_leaf(
    trees: Map<Seq<char>, LocaleTree>,
    base: Seq<char>,
    leaf: LeafV,
    value: Seq<char>,
    locales: Seq<Seq<char>>,
    n: int,
    locale: Seq<char>,
    key: Seq<char>,
)
    requires
        0 <= n <= locales.len(),
    ensures
        reports(inconsistent_in(trees, base, leaf, value, locales, n), locale, key) <==> key
            == leaf.key && locales.take(n).contains(locale) && inconsistent_row(
            trees,
            base,
            leaf,
            value,
            locale,
        ) is Some,
    decreases n,
{
    if n > 0 {
        locales_of_a_leaf(trees, base, leaf, value, locales, n - 1, locale, key);
        one_more_of_a_list(locales, n, locale);
        reports_one_more(
            inconsistent_in(trees, base, leaf, value, locales, n - 1),
            inconsistent_row(trees, base, leaf, value, locales[n - 1]),
            locale,
            key,
        );
    }
}

proof fn leaves_of_the_base(
    trees: Map<Seq<char>, LocaleTree>,
    base: Seq<char>,
    ignore: Seq<Seq<char>>,
    leaves: Seq<LeafV>,
    locales: Seq<Seq<char>>,
    n: int,
    locale: Seq<char>,
    key: Seq<char>,
)
    requires
        0 <= n <= leaves.len(),
    ensures
        reports(inconsistent_upto(trees, base, ignore, leaves, locales, n), locale, key)
            <==> !any_accepts(ignore, key) && locales.contains(locale) && exists|i: int|
            0 <= i < n && (#[trigger] leaves[i]).key == key && string_value(leaves[i].value) is Some
                && inconsistent_row(
                trees,
                base,
                leaves[i],
                string_value(leaves[i].value)->Some_0,
                locale,
            ) is Some,
    decreases n,
{
    if n > 0 {
        leaves_of_the_base(trees, base, ignore, leaves, locales, n - 1, locale, key);
        let leaf = leaves[n - 1];
        let m = locales.len() as int;
        if let Some(value) = string_value(leaf.value) {
            locales_of_a_leaf(trees, base, leaf, value, locales, m, locale, key);
            assert(locales.take(m) =~= locales);
            reports_joined(
                inconsistent_upto(trees, base, ignore, leaves, locales, n - 1),
                inconsistent_in(trees, base, leaf, value, locales, m),
                locale,
                key,
            );
        }
    }
}

/// A key has a row for a locale exactly where the locale is asked for, both
/// sides have a string for the key, no rule ignores it, and some variable
/// occurs in one of the two strings and not in the other.
pub proof fn exactly_the_differing_strings_are_reported(
    cfg: ConfigV,
    store: &Store,
    locales: Seq<Seq<char>>,
    locale: Seq<char>,
    key: Seq<char>,
)
    requires
        store.wf(),
    ensures
        reports(
            inconsistent_rows(
                store.trees@,
                store.base_locale@,
                cfg.ignored(IgnoreType::InconsistentInterpolations, None),
                locales,
            ),
            locale,
            key,
        ) <==> locales.contains(locale) && differs_from_base(
            store.trees@,
            store.base_locale@,
            locale,
            key,
        ) && !is_ignored(cfg, cfg.ignore_inconsistent_interpolations, None, key),
{
    let trees = store.trees@;
    let base = store.base_locale@;
    let ignore = cfg.ignored(IgnoreType::InconsistentInterpolations, None);
    each_check_goes_by_its_own_rules(cfg, None, key);
    if trees.contains_key(base) {
        let tree = trees[base];
        let leaves = sorted_of(tree.data());
        let n = leaves.len() as int;
        leaves_of_the_base(trees, base, ignore, leaves, locales, n, locale, key);
        a_string_is_found(tree, key);
        assert forall|ours: Seq<char>, theirs: Seq<char>| #[trigger]
            variables_differ(ours, theirs) == (distinct(variables_of(ours)) != distinct(
                variables_of(theirs),
            )) by {
            differing_variables_are_listed(ours, theirs);
        }
        let some = exists|i: int|
            0 <= i < n && (#[trigger] leaves[i]).key == key && string_value(leaves[i].value) is Some
                && inconsistent_row(
                trees,
                base,
                leaves[i],
                string_value(leaves[i].value)->Some_0,
                locale,
            ) is Some;
        if some {
            let i = choose|i: int|
                0 <= i < n && (#[trigger] leaves[i]).key == key && string_value(
                    leaves[i].value,
                ) is Some && inconsistent_row(
                    trees,
                    base,
                    leaves[i],
                    string_value(leaves[i].value)->Some_0,
                    locale,
                ) is Some;
            let ours = string_value(leaves[i].value)->Some_0;
            assert(leaves.contains(leaves[i]));
            sorted_is_the_leaves(tree, leaves[i]);
            let j = tree.data().index_of(leaves[i]);
            assert(tree.data()[j] == tree.leaves@[j]@);
            assert(tree.leaves@[j].key@ == key && tree.leaves@[j].value@ == ValueV::Str(ours));
            assert(string_for(trees, base, key, ours));
            let other = trees[locale].found(key)->Some_0;
            let theirs = string_value(other.value)->Some_0;
            strings_are_found(trees, locale, key, theirs);
            assert(variables_differ(ours, theirs));
        }
        if differs_from_base(trees, base, locale, key) {
            let (ours, theirs) = choose|ours: Seq<char>, theirs: Seq<char>| #[trigger]
                string_for(trees, base, key, ours) && #[trigger] string_for(
                    trees,
                    locale,
                    key,
                    theirs,
                ) && variables_differ(ours, theirs);
            strings_are_found(trees, base, key, ours);
            strings_are_found(trees, locale, key, theirs);
            let leaf = tree.found(key)->Some_0;
            sorted_is_the_leaves(tree, leaf);
            let i = leaves.index_of(leaf);
            assert(leaves[i].key == key);
            assert(inconsistent_row(trees, base, leaves[i], ours, locale) is Some);
        }
    }
}

// -------------------------------------------------------------------- reserved

/// The names that the library keeps for itself.
pub open spec fn kept_names() -> Seq<Seq<char>> {
    seq![
        "cascade"@,
        "deep_interpolation"@,
        "default"@,
        "exception_handler"@,
        "fallback"@,
        "fallback_in_progress"@,
        "fallback_original_locale"@,
        "format"@,
        "object"@,
        "raise"@,
        "resolve"@,
        "scope"@,
        "separator"@,
        "skip_interpolation"@,
        "throw"@,
    ]
}

/// The name of a variable is what stands between its braces.
pub proof fn the_name_stands_between_the_braces(name: Seq<char>)
    requires
        name.len() > 0,
        name[0] != '{',
        name.last() != '}',
    ensures
        variable_name_of("%{"@ + name + "}"@) == name,
{
    reveal_strlit("%{");
    reveal_strlit("}");
    let s = "%{"@ + name + "}"@;
    assert(s[0] == '%' && s[1] == '{' && s[2] == name[0]);
    assert(s[s.len() - 1] == '}');
    assert(s[s.len() - 2] == name.last());
    assert(after_run(s, 1, '%') == 1);
    assert(after_run(s, 0, '%') == 1);
    assert(after_run(s, 2, '{') == 2);
    assert(after_run(s, 1, '{') == 2);
    let n = s.len() as int;
    assert(before_run(s, 2, n - 1, '}') == n - 1);
    assert(before_run(s, 2, n, '}') == n - 1);
    assert(s.subrange(2, n - 1) =~= name);
}

pub(crate) proof fn kept_names_are_reserved(name: Seq<char>)
    ensures
        kept_names().contains(name) <==> is_reserved(name),
{
    let v = kept_names();
    if is_reserved(name) {
        assert(v[0] == "cascade"@ && v[1] == "deep_interpolation"@ && v[2] == "default"@ && v[3]
            == "exception_handler"@ && v[4] == "fallback"@ && v[5] == "fallback_in_progress"@
            && v[6] == "fallback_original_locale"@ && v[7] == "format"@ && v[8] == "object"@ && v[9]
            == "raise"@ && v[10] == "resolve"@ && v[11] == "scope"@ && v[12] == "separator"@
            && v[13] == "skip_interpolation"@ && v[14] == "throw"@);
    }
}

pub(crate) proof fn reserved_names_hold(variables: Seq<Seq<char>>, n: int, name: Seq<char>)
    requires
        0 <= n <= variables.len(),
    ensures
        reserved_names(variables, n).contains(name) <==> is_reserved(name) && exists|i: int|
            0 <= i < n && variable_name_of(#[trigger] variables[i]) == name,
    decreases n,
{
    if n > 0 {
        reserved_names_hold(variables, n - 1, name);
        let before = reserved_names(variables, n - 1);
        let now = reserved_names(variables, n);
        if now.len() > before.len() {
            assert(now[before.len() as int] == variable_name_of(variables[n - 1]));
            if before.contains(name) {
                assert(now[before.index_of(name)] == name);
            }
            if now.contains(name) && name != variable_name_of(variables[n - 1]) {
                assert(before[now.index_of(name)] == name);
            }
        }
    }
}

/// The text has a variable with a name that the library keeps for itself.
pub open spec fn uses_kept_name(text: Seq<char>) -> bool {
    exists|v: Seq<char>| #[trigger]
        variables_of(text).contains(v) && kept_names().contains(variable_name_of(v))
}

proof fn kept_names_are_found(text: Seq<char>)
    ensures
        uses_kept_name(text) <==> reserved_in(text).len() > 0,
{
    let all = variables_of(text);
    let n = all.len() as int;
    if uses_kept_name(text) {
        let v = choose|v: Seq<char>| #[trigger]
            all.contains(v) && kept_names().contains(variable_name_of(v));
        kept_names_are_reserved(variable_name_of(v));
        reserved_names_hold(all, n, variable_name_of(v));
        let i = all.index_of(v);
        assert(variable_name_of(all[i]) == variable_name_of(v));
        assert(reserved_in(text).contains(variable_name_of(v)));
    }
    if reserved_in(text).len() > 0 {
        let name = reserved_in(text)[0];
        assert(reserved_in(text).contains(name));
        reserved_names_hold(all, n, name);
        kept_names_are_reserved(name);
        let i = choose|i: int| 0 <= i < n && variable_name_of(#[trigger] all[i]) == name;
        assert(all.contains(all[i]));
    }
}

proof fn leaves_of_a_locale(
    locale: Seq<char>,
    leaves: Seq<LeafV>,
    n: int,
    l: Seq<char>,
    key: Seq<char>,
)
    requires
        0 <= n <= leaves.len(),
    ensures
        reports(reserved_leaves(locale, leaves, n), l, key) <==> l == locale && exists|i: int|
            0 <= i < n && (#[trigger] leaves[i]).key == key && reserved_row(
                locale,
                leaves[i],
            ) is Some,
    decreases n,
{
    if n > 0 {
        leaves_of_a_locale(locale, leaves, n - 1, l, key);
        reports_one_more(
            reserved_leaves(locale, leaves, n - 1),
            reserved_row(locale, leaves[n - 1]),
            l,
            key,
        );
    }
}

proof fn reserved_in_a_locale(
    trees: Map<Seq<char>, LocaleTree>,
    locale: Seq<char>,
    l: Seq<char>,
    key: Seq<char>,
)
    requires
        trees.contains_key(locale),
        trees[locale].wf(),
    ensures
        reports(
            reserved_leaves(
                locale,
                sorted_of(trees[locale].data()),
                sorted_of(trees[locale].data()).len() as int,
            ),
            l,
            key,
        ) <==> l == locale && exists|text: Seq<char>| #[trigger]
            string_for(trees, locale, key, text) && uses_kept_name(text),
{
    let tree = trees[locale];
    let leaves = sorted_of(tree.data());
    let n = leaves.len() as int;
    leaves_of_a_locale(locale, leaves, n, l, key);
    a_string_is_found(tree, key);
    if exists|i: int| 0 <= i < n && (#[trigger] leaves[i]).key == key && reserved_row(
        locale,
        leaves[i],
    ) is Some {
        let i = choose|i: int|
            0 <= i < n && (#[trigger] leaves[i]).key == key && reserved_row(
                locale,
                leaves[i],
            ) is Some;
        let text = string_value(leaves[i].value)->Some_0;
        assert(leaves.contains(leaves[i]));
        sorted_is_the_leaves(tree, leaves[i]);
        let j = tree.data().index_of(leaves[i]);
        assert(tree.data()[j] == tree.leaves@[j]@);
        assert(tree.leaves@[j].key@ == key && tree.leaves@[j].value@ == ValueV::Str(text));
        kept_names_are_found(text);
        assert(string_for(trees, locale, key, text));
    }
    if exists|text: Seq<char>| #[trigger]
        string_for(trees, locale, key, text) && uses_kept_name(text) {
        let text = choose|text: Seq<char>| #[trigger]
            string_for(trees, locale, key, text) && uses_kept_name(text);
        strings_are_found(trees, locale, key, text);
        kept_names_are_found(text);
        let leaf = tree.found(key)->Some_0;
        sorted_is_the_leaves(tree, leaf);
        let i = leaves.index_of(leaf);
        assert(leaves[i].key == key);
        assert(reserved_row(locale, leaves[i]) is Some);
    }
}

proof fn reserved_in_the_locales(
    trees: Map<Seq<char>, LocaleTree>,
    locales: Seq<Seq<char>>,
    n: int,
    locale: Seq<char>,
    key: Seq<char>,
)
    requires
        0 <= n <= locales.len(),
        forall|l: Seq<char>| #[trigger] trees.contains_key(l) ==> trees[l].wf(),
    ensures
        reports(reserved_rows(trees, locales, n), locale, key) <==> locales.take(n).contains(
            locale,
        ) && exists|text: Seq<char>| #[trigger]
            string_for(trees, locale, key, text) && uses_kept_name(text),
    decreases n,
{
    if n > 0 {
        reserved_in_the_locales(trees, locales, n - 1, locale, key);
        one_more_of_a_list(locales, n, locale);
        let last = locales[n - 1];
        if trees.contains_key(last) {
            let leaves = sorted_of(trees[last].data());
            reserved_in_a_locale(trees, last, locale, key);
            reports_joined(
                reserved_rows(trees, locales, n - 1),
                reserved_leaves(last, leaves, leaves.len() as int),
                locale,
                key,
            );
        }
    }
}

/// A key has a row for a locale exactly where the locale is asked for and its
/// string for the key has a variable with a reserved name.
pub proof fn exactly_the_strings_with_reserved_names_are_reported(
    store: &Store,
    locales: Seq<Seq<char>>,
    locale: Seq<char>,
    key: Seq<char>,
)
    requires
        store.wf(),
    ensures
        reports(reserved_rows(store.trees@, locales, locales.len() as int), locale, key)
            <==> locales.contains(locale) && exists|text: Seq<char>| #[trigger]
            string_for(store.trees@, locale, key, text) && uses_kept_name(text),
{
    let n = locales.len() as int;
    reserved_in_the_locales(store.trees@, locales, n, locale, key);
    assert(locales.take(n) =~= locales);
}

} // verus!
