//! Which values are the same as in the base locale.
use crate::config::{ConfigV, IgnoreType};
use crate::data::load::{sorted_of, LeafV, LocaleTree, ValueV};
use crate::data::store::Store;
use crate::laws::values::{
    each_check_goes_by_its_own_rules, is_ignored, one_more_of_a_list, reports, reports_joined,
    reports_one_more, sorted_is_the_leaves,
};
use crate::report::eq_base::{
    eq_base_leaves, eq_base_row, eq_base_rows, equal_entry, equal_values, named_value,
};
use vstd::prelude::*;

verus! {

/// The value that the locale has for the key.
pub open spec fn value_for(
    trees: Map<Seq<char>, LocaleTree>,
    locale: Seq<char>,
    key: Seq<char>,
    value: ValueV,
) -> bool {
    trees.contains_key(locale) && exists|i: int|
        0 <= i < trees[locale].leaves.len() && (#[trigger] trees[locale].leaves@[i]).key@ == key
            && trees[locale].leaves@[i].value@ == value
}

/// The locale and the base locale have equal values for the key.
pub open spec fn equals_base(
    trees: Map<Seq<char>, LocaleTree>,
    base: Seq<char>,
    locale: Seq<char>,
    key: Seq<char>,
) -> bool {
    locale != base && exists|own: ValueV, theirs: ValueV| #[trigger]
        value_for(trees, locale, key, own) && #[trigger] value_for(trees, base, key, theirs)
            && equal_values(own, theirs)
}

// ----------------------------------------------------------------- equal values

/// The value is neither a list nor a table.
pub open spec fn is_scalar(v: ValueV) -> bool {
    !(v is List) && !(v is Table)
}

/// No name occurs twice.
pub open spec fn names_differ(entries: Seq<(Seq<char>, ValueV)>) -> bool {
    forall|i: int, j: int|
        0 <= i < j < entries.len() ==> (#[trigger] entries[i]).0 != (#[trigger] entries[j]).0
}

/// A scalar equals itself and nothing else.
pub proof fn a_scalar_equals_only_itself(a: ValueV, b: ValueV)
    requires
        is_scalar(a) || is_scalar(b),
    ensures
        equal_values(a, b) <==> a == b,
{
}

/// Lists are equal exactly where they have equal values in the same places.
pub proof fn lists_are_equal_place_by_place(a: Seq<ValueV>, b: Seq<ValueV>)
    ensures
        equal_values(ValueV::List(a), ValueV::List(b)) <==> a.len() == b.len() && forall|i: int|
            0 <= i < a.len() ==> equal_values(#[trigger] a[i], b[i]),
{
}

proof fn a_name_is_found(entries: Seq<(Seq<char>, ValueV)>, i: int, j: int)
    requires
        0 <= i <= j < entries.len(),
        names_differ(entries),
    ensures
        named_value(entries, entries[j].0, i) == Some(j),
    decreases j - i,
{
    if i < j {
        a_name_is_found(entries, i + 1, j);
        assert(entries[i].0 != entries[j].0);
    }
}

proof fn a_found_name_is_there(entries: Seq<(Seq<char>, ValueV)>, name: Seq<char>, i: int)
    requires
        0 <= i,
    ensures
        named_value(entries, name, i) matches Some(j) ==> i <= j < entries.len() && entries[j].0
            == name,
    decreases entries.len() - i,
{
    if i < entries.len() && entries[i].0 != name {
        a_found_name_is_there(entries, name, i + 1);
    }
}

/// Tables are equal exactly where they have as many entries, and each entry of
/// one has an equal value under its name in the other; their order is free.
pub proof fn tables_are_equal_name_by_name(
    a: Seq<(Seq<char>, ValueV)>,
    b: Seq<(Seq<char>, ValueV)>,
)
    requires
        names_differ(b),
    ensures
        equal_values(ValueV::Table(a), ValueV::Table(b)) <==> a.len() == b.len() && forall|i: int|
            0 <= i < a.len() ==> exists|j: int|
                0 <= j < b.len() && (#[trigger] b[j]).0 == (#[trigger] a[i]).0 && equal_values(
                    a[i].1,
                    b[j].1,
                ),
{
    let alike = forall|i: int|
        0 <= i < a.len() ==> exists|j: int|
            0 <= j < b.len() && (#[trigger] b[j]).0 == (#[trigger] a[i]).0 && equal_values(
                a[i].1,
                b[j].1,
            );
    if equal_values(ValueV::Table(a), ValueV::Table(b)) {
        assert forall|i: int| 0 <= i < a.len() implies exists|j: int|
            0 <= j < b.len() && (#[trigger] b[j]).0 == (#[trigger] a[i]).0 && equal_values(
                a[i].1,
                b[j].1,
            ) by {
            assert(equal_entry(a[i].0, a[i].1, b));
            a_found_name_is_there(b, a[i].0, 0);
            let j = named_value(b, a[i].0, 0)->Some_0;
            assert(b[j].0 == a[i].0);
        }
    }
    if a.len() == b.len() && alike {
        assert forall|i: int| 0 <= i < a.len() implies equal_entry(
            (#[trigger] a[i]).0,
            a[i].1,
            b,
        ) by {
            let j = choose|j: int|
                0 <= j < b.len() && (#[trigger] b[j]).0 == a[i].0 && equal_values(
                    a[i].1,
                    b[j].1,
                );
            a_name_is_found(b, 0, j);
        }
    }
}

// -------------------------------------------------------------------- the report

proof fn values_are_found(
    trees: Map<Seq<char>, LocaleTree>,
    locale: Seq<char>,
    key: Seq<char>,
    value: ValueV,
)
    requires
        trees.contains_key(locale),
        trees[locale].wf(),
    ensures
        value_for(trees, locale, key, value) <==> (trees[locale].found(key) is Some
            && trees[locale].found(key)->Some_0.value == value),
{
    let tree = trees[locale];
    let keys = tree.keys();
    if value_for(trees, locale, key, value) {
        let i = choose|i: int|
            0 <= i < tree.leaves.len() && (#[trigger] tree.leaves@[i]).key@ == key
                && tree.leaves@[i].value@ == value;
        assert(keys[i] == key);
        let j = keys.index_of(key);
        assert(tree.index@[keys[i]] == i);
        assert(tree.index@[keys[j]] == j);
        assert(tree.data()[i] == tree.leaves@[i]@);
    }
    if tree.found(key) is Some {
        let j = keys.index_of(key);
        assert(tree.data()[j] == tree.leaves@[j]@);
        assert(tree.leaves@[j].key@ == key);
    }
}

proof fn leaves_of_a_locale(
    base: LocaleTree,
    ignore: Seq<Seq<char>>,
    locale: Seq<char>,
    leaves: Seq<LeafV>,
    n: int,
    l: Seq<char>,
    key: Seq<char>,
)
    requires
        0 <= n <= leaves.len(),
    ensures
        reports(eq_base_leaves(base, ignore, locale, leaves, n), l, key) <==> l == locale
            && exists|i: int|
            0 <= i < n && (#[trigger] leaves[i]).key == key && eq_base_row(
                base,
                ignore,
                locale,
                leaves[i],
            ) is Some,
    decreases n,
{
    if n > 0 {
        leaves_of_a_locale(base, ignore, locale, leaves, n - 1, l, key);
        reports_one_more(
            eq_base_leaves(base, ignore, locale, leaves, n - 1),
            eq_base_row(base, ignore, locale, leaves[n - 1]),
            l,
            key,
        );
    }
}

proof fn equal_in_a_locale(
    cfg: ConfigV,
    trees: Map<Seq<char>, LocaleTree>,
    base: Seq<char>,
    locale: Seq<char>,
    l: Seq<char>,
    key: Seq<char>,
)
    requires
        trees.contains_key(locale),
        trees[locale].wf(),
        trees.contains_key(base),
        trees[base].wf(),
        locale != base,
    ensures
        reports(
            eq_base_leaves(
                trees[base],
                cfg.ignored(IgnoreType::EqBase, Some(locale)),
                locale,
                sorted_of(trees[locale].data()),
                sorted_of(trees[locale].data()).len() as int,
            ),
            l,
            key,
        ) <==> l == locale && equals_base(trees, base, locale, key) && !is_ignored(
            cfg,
            cfg.ignore_eq_base,
            Some(locale),
            key,
        ),
{
    let tree = trees[locale];
    let leaves = sorted_of(tree.data());
    let n = leaves.len() as int;
    let ignore = cfg.ignored(IgnoreType::EqBase, Some(locale));
    each_check_goes_by_its_own_rules(cfg, Some(locale), key);
    leaves_of_a_locale(trees[base], ignore, locale, leaves, n, l, key);
    if exists|i: int| 0 <= i < n && (#[trigger] leaves[i]).key == key && eq_base_row(
        trees[base],
        ignore,
        locale,
        leaves[i],
    ) is Some {
        let i = choose|i: int|
            0 <= i < n && (#[trigger] leaves[i]).key == key && eq_base_row(
                trees[base],
                ignore,
                locale,
                leaves[i],
            ) is Some;
        assert(leaves.contains(leaves[i]));
        sorted_is_the_leaves(tree, leaves[i]);
        let j = tree.data().index_of(leaves[i]);
        assert(tree.data()[j] == tree.leaves@[j]@);
        assert(tree.leaves@[j].key@ == key && tree.leaves@[j].value@ == leaves[i].value);
        assert(value_for(trees, locale, key, leaves[i].value));
        let theirs = trees[base].found(key)->Some_0.value;
        values_are_found(trees, base, key, theirs);
        assert(equal_values(leaves[i].value, theirs));
    }
    if equals_base(trees, base, locale, key) {
        let (own, theirs) = choose|own: ValueV, theirs: ValueV| #[trigger]
            value_for(trees, locale, key, own) && #[trigger] value_for(trees, base, key, theirs)
                && equal_values(own, theirs);
        values_are_found(trees, base, key, theirs);
        let j = choose|j: int|
            0 <= j < tree.leaves.len() && (#[trigger] tree.leaves@[j]).key@ == key
                && tree.leaves@[j].value@ == own;
        let leaf = tree.data()[j];
        assert(leaf == tree.leaves@[j]@);
        assert(tree.data().contains(leaf));
        sorted_is_the_leaves(tree, leaf);
        let i = leaves.index_of(leaf);
        assert(leaves[i].key == key);
    }
}

proof fn equal_in_the_locales(
    cfg: ConfigV,
    trees: Map<Seq<char>, LocaleTree>,
    base: Seq<char>,
    locales: Seq<Seq<char>>,
    n: int,
    locale: Seq<char>,
    key: Seq<char>,
)
    requires
        0 <= n <= locales.len(),
        forall|l: Seq<char>| #[trigger] trees.contains_key(l) ==> trees[l].wf(),
    ensures
        reports(eq_base_rows(cfg, trees, base, locales, n), locale, key) <==> locales.take(
            n,
        ).contains(locale) && equals_base(trees, base, locale, key) && !is_ignored(
            cfg,
            cfg.ignore_eq_base,
            Some(locale),
            key,
        ),
    decreases n,
{
    if n > 0 {
        equal_in_the_locales(cfg, trees, base, locales, n - 1, locale, key);
        one_more_of_a_list(locales, n, locale);
        let last = locales[n - 1];
        if trees.contains_key(base) && last != base && trees.contains_key(last) {
            let leaves = sorted_of(trees[last].data());
            equal_in_a_locale(cfg, trees, base, last, locale, key);
            reports_joined(
                eq_base_rows(cfg, trees, base, locales, n - 1),
                eq_base_leaves(
                    trees[base],
                    cfg.ignored(IgnoreType::EqBase, Some(last)),
                    last,
                    leaves,
                    leaves.len() as int,
                ),
                locale,
                key,
            );
        }
    }
}

/// A key has a row for a locale exactly where the locale is asked for, is not
/// the base locale, has a value equal to that of the base locale, and no rule
/// ignores the key there.
pub proof fn exactly_the_values_of_the_base_locale_are_reported(
    cfg: ConfigV,
    store: &Store,
    locales: Seq<Seq<char>>,
    locale: Seq<char>,
    key: Seq<char>,
)
    requires
        store.wf(),
    ensures
        reports(
            eq_base_rows(
                cfg,
                store.trees@,
                store.base_locale@,
                locales,
                locales.len() as int,
            ),
            locale,
            key,
        ) <==> locales.contains(locale) && equals_base(
            store.trees@,
            store.base_locale@,
            locale,
            key,
        ) && !is_ignored(cfg, cfg.ignore_eq_base, Some(locale), key),
{
    let n = locales.len() as int;
    equal_in_the_locales(cfg, store.trees@, store.base_locale@, locales, n, locale, key);
    assert(locales.take(n) =~= locales);
}

} // verus!
