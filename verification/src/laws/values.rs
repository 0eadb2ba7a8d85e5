//! When a locale has a value, and when a rule ignores a key.
use crate::config::{resolved_upto, ConfigV, IgnoreType, IgnoreV};
use crate::data::load::{
    a_tree_is_sorted_whole, ancestor, interior_of, keys_of, sorted_of, LeafV, LocaleTree,
};
use crate::data::store::holds_key;
use crate::pattern::{accepts, any_accepts};
use crate::report::{with_row, KeyRowV};
use vstd::prelude::*;

verus! {

/// The tree has a leaf with the key.
pub open spec fn has_leaf(tree: LocaleTree, key: Seq<char>) -> bool {
    exists|i: int| 0 <= i < tree.leaves.len() && (#[trigger] tree.leaves@[i]).key@ == key
}

/// The text lies below the key, one level or more.
pub open spec fn lies_below(text: Seq<char>, key: Seq<char>) -> bool {
    (key + "."@).is_prefix_of(text)
}

/// The tree has a leaf below the key.
pub open spec fn has_leaf_below(tree: LocaleTree, key: Seq<char>) -> bool {
    exists|i: int| 0 <= i < tree.leaves.len() && lies_below((#[trigger] tree.leaves@[i]).key@, key)
}

/// The locale has a value for the key: a leaf with it, or leaves below it.
pub open spec fn has_value(
    trees: Map<Seq<char>, LocaleTree>,
    locale: Seq<char>,
    key: Seq<char>,
) -> bool {
    trees.contains_key(locale) && (has_leaf(trees[locale], key) || has_leaf_below(
        trees[locale],
        key,
    ))
}

/// One of the patterns matches the key.
pub open spec fn one_matches(patterns: Seq<Seq<char>>, key: Seq<char>) -> bool {
    exists|p: Seq<char>| #[trigger] patterns.contains(p) && accepts(p, key)
}

/// A rule of the list ignores the key in the locale: a rule without locales, a
/// rule under `all`, or one under a group that names the locale.
pub open spec fn one_ignores(own: IgnoreV, locale: Option<Seq<char>>, key: Seq<char>) -> bool {
    match own {
        IgnoreV::Empty => false,
        IgnoreV::All(patterns) => one_matches(patterns, key),
        IgnoreV::PerLocale(groups) => exists|g: int|
            0 <= g < groups.len() && one_matches((#[trigger] groups[g]).1, key) && (
            groups[g].0.contains("all"@) || (locale is Some && groups[g].0.contains(
                locale->Some_0,
            ))),
    }
}

/// A rule ignores the key in the locale: one that holds for every check, or
/// one of the check's own list.
pub open spec fn is_ignored(
    cfg: ConfigV,
    own: IgnoreV,
    locale: Option<Seq<char>>,
    key: Seq<char>,
) -> bool {
    one_matches(cfg.ignore, key) || one_ignores(own, locale, key)
}

/// A row reports the key for the locale.
pub open spec fn reports(rows: Seq<KeyRowV>, locale: Seq<char>, key: Seq<char>) -> bool {
    exists|i: int| 0 <= i < rows.len() && (#[trigger] rows[i]).locale == locale && rows[i].key == key
}

pub(crate) proof fn below_is_ancestor(text: Seq<char>, key: Seq<char>)
    ensures
        lies_below(text, key) <==> ancestor(key, text),
{
    reveal_strlit(".");
    let head = key + "."@;
    if lies_below(text, key) {
        assert(text.subrange(0, head.len() as int) == head);
        assert(text[key.len() as int] == head[key.len() as int]);
        assert(text.take(key.len() as int) =~= key) by {
            assert forall|i: int| 0 <= i < key.len() implies text[i] == key[i] by {
                assert(text.subrange(0, head.len() as int)[i] == head[i]);
            }
        }
    }
    if ancestor(key, text) {
        assert(text.subrange(0, head.len() as int) =~= head) by {
            assert forall|i: int| 0 <= i < key.len() implies text[i] == key[i] by {
                assert(text.take(key.len() as int)[i] == text[i]);
            }
        }
    }
}

pub(crate) proof fn leaves_are_keys(tree: LocaleTree, key: Seq<char>)
    ensures
        has_leaf(tree, key) <==> tree.keys().contains(key),
        has_leaf_below(tree, key) <==> interior_of(tree.keys(), key),
{
    let keys = tree.keys();
    assert(keys.len() == tree.leaves.len());
    assert forall|i: int| 0 <= i < keys.len() implies #[trigger] keys[i]
        == tree.leaves@[i].key@ by {}
    if has_leaf(tree, key) {
        let i = choose|i: int|
            0 <= i < tree.leaves.len() && (#[trigger] tree.leaves@[i]).key@ == key;
        assert(keys[i] == key);
    }
    if keys.contains(key) {
        let i = keys.index_of(key);
        assert(tree.leaves@[i].key@ == key);
    }
    if has_leaf_below(tree, key) {
        let i = choose|i: int|
            0 <= i < tree.leaves.len() && lies_below((#[trigger] tree.leaves@[i]).key@, key);
        below_is_ancestor(keys[i], key);
    }
    if interior_of(keys, key) {
        let i = choose|i: int| 0 <= i < keys.len() && ancestor(key, #[trigger] keys[i]);
        below_is_ancestor(keys[i], key);
        assert(lies_below(tree.leaves@[i].key@, key));
    }
}

/// A key is looked up among the leaves and the levels above them, in the data
/// of its own locale and in no other.
pub proof fn a_key_is_held_exactly_where_it_has_a_value(
    trees: Map<Seq<char>, LocaleTree>,
    locale: Seq<char>,
    key: Seq<char>,
)
    ensures
        holds_key(trees, locale, key) <==> has_value(trees, locale, key),
{
    if trees.contains_key(locale) {
        leaves_are_keys(trees[locale], key);
    }
}

pub(crate) proof fn matching_is_accepting(patterns: Seq<Seq<char>>, key: Seq<char>)
    ensures
        any_accepts(patterns, key) <==> one_matches(patterns, key),
{
    if any_accepts(patterns, key) {
        let i = choose|i: int| 0 <= i < patterns.len() && #[trigger] accepts(patterns[i], key);
        assert(patterns.contains(patterns[i]));
    }
    if one_matches(patterns, key) {
        let p = choose|p: Seq<char>| #[trigger] patterns.contains(p) && accepts(p, key);
        assert(accepts(patterns[patterns.index_of(p)], key));
    }
}

proof fn joined_lists_accept(a: Seq<Seq<char>>, b: Seq<Seq<char>>, key: Seq<char>)
    ensures
        any_accepts(a + b, key) <==> any_accepts(a, key) || any_accepts(b, key),
{
    let all = a + b;
    if any_accepts(all, key) {
        let i = choose|i: int| 0 <= i < all.len() && #[trigger] accepts(all[i], key);
        if i < a.len() {
            assert(accepts(a[i], key));
        } else {
            assert(accepts(b[i - a.len()], key));
        }
    }
    if any_accepts(a, key) {
        let i = choose|i: int| 0 <= i < a.len() && #[trigger] accepts(a[i], key);
        assert(accepts(all[i], key));
    }
    if any_accepts(b, key) {
        let i = choose|i: int| 0 <= i < b.len() && #[trigger] accepts(b[i], key);
        assert(all[a.len() + i] == b[i]);
        assert(accepts(all[a.len() + i], key));
    }
}

/// A group of rules holds for the locale.
spec fn holds_for(names: Seq<Seq<char>>, locale: Option<Seq<char>>) -> bool {
    names.contains("all"@) || (locale is Some && names.contains(locale->Some_0))
}

proof fn groups_ignore(
    groups: Seq<(Seq<Seq<char>>, Seq<Seq<char>>)>,
    n: int,
    locale: Option<Seq<char>>,
    key: Seq<char>,
)
    requires
        0 <= n <= groups.len(),
    ensures
        any_accepts(resolved_upto(groups, n, locale), key) <==> exists|g: int|
            0 <= g < n && one_matches((#[trigger] groups[g]).1, key) && holds_for(
                groups[g].0,
                locale,
            ),
    decreases n,
{
    if n > 0 {
        groups_ignore(groups, n - 1, locale, key);
        let names = groups[n - 1].0;
        let before = resolved_upto(groups, n - 1, locale);
        matching_is_accepting(groups[n - 1].1, key);
        joined_lists_accept(before, groups[n - 1].1, key);
        assert(crate::config::group_applies(names, locale) <==> holds_for(names, locale)) by {
            if crate::config::group_applies(names, locale) {
                let i = choose|i: int|
                    0 <= i < names.len() && (#[trigger] names[i] == "all"@ || locale == Some(
                        names[i],
                    ));
                assert(names.contains(names[i]));
            }
            if names.contains("all"@) {
                assert(names[names.index_of("all"@)] == "all"@);
            }
            if locale is Some && names.contains(locale->Some_0) {
                assert(locale == Some(names[names.index_of(locale->Some_0)]));
            }
        }
        if exists|g: int|
            0 <= g < n && one_matches((#[trigger] groups[g]).1, key) && holds_for(
                groups[g].0,
                locale,
            ) {
            let g = choose|g: int|
                0 <= g < n && one_matches((#[trigger] groups[g]).1, key) && holds_for(
                    groups[g].0,
                    locale,
                );
            if g == n - 1 {
                assert(any_accepts(resolved_upto(groups, n, locale), key));
            }
        }
    }
}

proof fn resolving_ignores(own: IgnoreV, locale: Option<Seq<char>>, key: Seq<char>)
    ensures
        any_accepts(own.resolved(locale), key) <==> one_ignores(own, locale, key),
{
    match own {
        IgnoreV::Empty => {},
        IgnoreV::All(v) => {
            matching_is_accepting(v, key);
        },
        IgnoreV::PerLocale(groups) => {
            groups_ignore(groups, groups.len() as int, locale, key);
            if one_ignores(own, locale, key) {
                let g = choose|g: int|
                    0 <= g < groups.len() && one_matches((#[trigger] groups[g]).1, key) && (
                    groups[g].0.contains("all"@) || (locale is Some && groups[g].0.contains(
                        locale->Some_0,
                    )));
                assert(holds_for(groups[g].0, locale));
            }
        },
    }
}

/// Each check ignores a key in a locale exactly where a rule for every check or
/// a rule of its own list does; the lists of the other checks do not count.
pub proof fn each_check_goes_by_its_own_rules(
    cfg: ConfigV,
    locale: Option<Seq<char>>,
    key: Seq<char>,
)
    ensures
        any_accepts(cfg.ignored(IgnoreType::Missing, locale), key) <==> is_ignored(
            cfg,
            cfg.ignore_missing,
            locale,
            key,
        ),
        any_accepts(cfg.ignored(IgnoreType::Unused, locale), key) <==> is_ignored(
            cfg,
            cfg.ignore_unused,
            locale,
            key,
        ),
        any_accepts(cfg.ignored(IgnoreType::EqBase, locale), key) <==> is_ignored(
            cfg,
            cfg.ignore_eq_base,
            locale,
            key,
        ),
        any_accepts(cfg.ignored(IgnoreType::InconsistentInterpolations, locale), key)
            <==> is_ignored(cfg, cfg.ignore_inconsistent_interpolations, locale, key),
{
    matching_is_accepting(cfg.ignore, key);
    resolving_ignores(cfg.ignore_missing, locale, key);
    resolving_ignores(cfg.ignore_unused, locale, key);
    resolving_ignores(cfg.ignore_eq_base, locale, key);
    resolving_ignores(cfg.ignore_inconsistent_interpolations, locale, key);
    joined_lists_accept(cfg.ignore, cfg.ignore_missing.resolved(locale), key);
    joined_lists_accept(cfg.ignore, cfg.ignore_unused.resolved(locale), key);
    joined_lists_accept(cfg.ignore, cfg.ignore_eq_base.resolved(locale), key);
    joined_lists_accept(
        cfg.ignore,
        cfg.ignore_inconsistent_interpolations.resolved(locale),
        key,
    );
}

// ------------------------------------------------------------------ small parts

pub(crate) proof fn reports_joined(
    a: Seq<KeyRowV>,
    b: Seq<KeyRowV>,
    locale: Seq<char>,
    key: Seq<char>,
)
    ensures
        reports(a + b, locale, key) <==> reports(a, locale, key) || reports(b, locale, key),
{
    let all = a + b;
    if reports(all, locale, key) {
        let i = choose|i: int|
            0 <= i < all.len() && (#[trigger] all[i]).locale == locale && all[i].key == key;
        if i < a.len() {
            assert(a[i] == all[i]);
        } else {
            assert(b[i - a.len()] == all[i]);
        }
    }
    if reports(a, locale, key) {
        let i = choose|i: int|
            0 <= i < a.len() && (#[trigger] a[i]).locale == locale && a[i].key == key;
        assert(all[i] == a[i]);
    }
    if reports(b, locale, key) {
        let i = choose|i: int|
            0 <= i < b.len() && (#[trigger] b[i]).locale == locale && b[i].key == key;
        assert(all[a.len() + i] == b[i]);
    }
}

pub(crate) proof fn reports_one_more(
    rows: Seq<KeyRowV>,
    row: Option<KeyRowV>,
    locale: Seq<char>,
    key: Seq<char>,
)
    ensures
        reports(with_row(rows, row), locale, key) <==> reports(rows, locale, key) || (row is Some
            && row->Some_0.locale == locale && row->Some_0.key == key),
{
    if let Some(r) = row {
        reports_joined(rows, seq![r], locale, key);
        assert(with_row(rows, row) =~= rows + seq![r]);
        if r.locale == locale && r.key == key {
            assert(seq![r][0].key == key);
        }
    }
}

/// The leaves in order are the leaves.
pub(crate) proof fn sorted_is_the_leaves(tree: LocaleTree, leaf: LeafV)
    requires
        tree.wf(),
    ensures
        sorted_of(tree.data()).contains(leaf) <==> tree.data().contains(leaf),
{
    let data = tree.data();
    let sorted = sorted_of(data);
    a_tree_is_sorted_whole(tree);
    if sorted.contains(leaf) {
        let i = sorted.index_of(leaf);
        assert(data.contains(sorted[i]));
    }
    if data.contains(leaf) {
        let i = data.index_of(leaf);
        assert(tree.keys()[i] == leaf.key);
        assert(tree.keys().to_set().contains(leaf.key));
        assert(keys_of(sorted).to_set().contains(leaf.key));
        let j = keys_of(sorted).index_of(leaf.key);
        assert(data.contains(sorted[j]));
        let m = data.index_of(sorted[j]);
        assert(tree.keys()[m] == leaf.key);
        assert(tree.index@[tree.keys()[m]] == m);
        assert(tree.index@[tree.keys()[i]] == i);
        assert(sorted[j] == leaf);
    }
}

pub(crate) proof fn one_more_of_a_list(v: Seq<Seq<char>>, n: int, x: Seq<char>)
    requires
        0 < n <= v.len(),
    ensures
        v.take(n).contains(x) <==> v.take(n - 1).contains(x) || x == v[n - 1],
{
    let a = v.take(n - 1);
    let b = v.take(n);
    if a.contains(x) {
        assert(b[a.index_of(x)] == x);
    }
    if x == v[n - 1] {
        assert(b[n - 1] == x);
    }
    if b.contains(x) && x != v[n - 1] {
        assert(a[b.index_of(x)] == x);
    }
}

} // verus!
