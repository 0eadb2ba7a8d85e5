//! Which keys are unused, how they are shown, and which of them are selected.
use crate::config::ConfigV;
use crate::data::load::{
    a_tree_is_sorted_whole, ancestor, below, children_of, keys_of, sorted_of, LeafV, LocaleTree,
};
use crate::data::store::Store;
use crate::keys::{last_dot, parent_key_of};
use crate::laws::plural::{children_name_leaves, is_plural, names_a_form, plurals_are_plural_nodes};
use crate::laws::values::{
    a_key_is_held_exactly_where_it_has_a_value, below_is_ancestor, each_check_goes_by_its_own_rules,
    has_leaf, has_value, is_ignored, leaves_are_keys, lies_below, matching_is_accepting,
    one_matches, one_more_of_a_list, reports, reports_joined,
};
use crate::pattern::accepts;
use crate::plural::depluralized;
use crate::report::unused::{
    collapsed, collapsed_upto, collapses, parent_seen, selected_rows, selects, shown, shown_above,
    unused_in, unused_locale_rows, unused_rows, unused_upto, use_in, UseV,
};
use crate::report::KeyRowV;
use crate::text::strictly_sorted;
use crate::used::UsedKeys;
use vstd::prelude::*;

verus! {

/// Nothing in the scan or the configuration speaks for the key: no call names
/// the key that it stands for, no interpolated key matches it, no rule ignores
/// it, and the external data of its locale has no value for it.
pub open spec fn has_no_use(
    cfg: ConfigV,
    store: &Store,
    used: &UsedKeys,
    locale: Seq<char>,
    key: Seq<char>,
) -> bool {
    let own = Some(store.trees@[locale].keys());
    let base = if store.trees@.contains_key(store.base_locale@) {
        Some(store.trees@[store.base_locale@].keys())
    } else {
        None
    };
    &&& !used.keys@.contains_key(depluralized(key, own, base))
    &&& !one_matches(used.patterns@, key)
    &&& !is_ignored(cfg, cfg.ignore_unused, None, key)
    &&& !has_value(store.external@, locale, key)
}

/// The key is a leaf of the locale that nothing uses.
pub open spec fn is_unused(
    cfg: ConfigV,
    store: &Store,
    used: &UsedKeys,
    locale: Seq<char>,
    key: Seq<char>,
) -> bool {
    &&& store.trees@.contains_key(locale)
    &&& has_leaf(store.trees@[locale], key)
    &&& has_no_use(cfg, store, used, locale, key)
}

/// The key is a plural of the locale whose forms are all unused.
pub open spec fn is_unused_plural(
    cfg: ConfigV,
    store: &Store,
    used: &UsedKeys,
    locale: Seq<char>,
    key: Seq<char>,
) -> bool {
    &&& store.trees@.contains_key(locale)
    &&& is_plural(store.trees@[locale].keys(), key)
    &&& forall|form: Seq<char>|
        names_a_form(form) && has_leaf(
            store.trees@[locale],
            #[trigger] (key + "."@ + form),
        ) ==> has_no_use(cfg, store, used, locale, key + "."@ + form)
}

proof fn unused_upto_holds(u: UseV, leaves: Seq<LeafV>, n: int, key: Seq<char>)
    requires
        0 <= n <= leaves.len(),
    ensures
        unused_upto(u, leaves, n).contains(key) <==> u.unused(key) && keys_of(leaves).take(
            n,
        ).contains(key),
    decreases n,
{
    if n > 0 {
        unused_upto_holds(u, leaves, n - 1, key);
        one_more_of_a_list(keys_of(leaves), n, key);
        let before = unused_upto(u, leaves, n - 1);
        let now = unused_upto(u, leaves, n);
        if now.len() > before.len() {
            assert(now[before.len() as int] == leaves[n - 1].key);
            if before.contains(key) {
                assert(now[before.index_of(key)] == key);
            }
            if now.contains(key) && key != leaves[n - 1].key {
                assert(before[now.index_of(key)] == key);
            }
        }
    }
}

/// A key of a locale is unused exactly where it is a leaf of that locale and
/// nothing uses it, whatever the other locales hold.
pub proof fn a_leaf_is_unused_exactly_where_nothing_uses_it(
    cfg: ConfigV,
    store: &Store,
    used: &UsedKeys,
    locale: Seq<char>,
    key: Seq<char>,
)
    requires
        store.wf(),
        store.trees@.contains_key(locale),
    ensures
        unused_in(cfg, store, used, locale).contains(key) <==> is_unused(
            cfg,
            store,
            used,
            locale,
            key,
        ),
{
    let tree = store.trees@[locale];
    let leaves = sorted_of(tree.data());
    let u = use_in(cfg, store, used, locale);
    let n = leaves.len() as int;
    a_tree_is_sorted_whole(tree);
    unused_upto_holds(u, leaves, n, key);
    assert(keys_of(leaves).take(n) =~= keys_of(leaves));
    assert(keys_of(leaves).contains(key) <==> tree.keys().contains(key)) by {
        assert(keys_of(leaves).to_set().contains(key) <==> tree.keys().to_set().contains(key));
    }
    leaves_are_keys(tree, key);
    matching_is_accepting(used.patterns@, key);
    each_check_goes_by_its_own_rules(cfg, None, key);
    a_key_is_held_exactly_where_it_has_a_value(store.external@, locale, key);
}

// ------------------------------------------------------------------ collapsing

proof fn a_child_has_its_parent(parent: Seq<char>, word: Seq<char>)
    requires
        !word.contains('.'),
    ensures
        parent_key_of(parent + "."@ + word) == Some(parent),
{
    reveal_strlit(".");
    let key = parent + "."@ + word;
    last_dot_is(key, parent.len() as int);
    assert(key.take(parent.len() as int) =~= parent);
}

proof fn last_dot_is(key: Seq<char>, p: int)
    requires
        0 <= p < key.len(),
        key[p] == '.',
        !key.skip(p + 1).contains('.'),
    ensures
        last_dot(key) == p,
    decreases key.len(),
{
    if p < key.len() - 1 {
        let rest = key.skip(p + 1);
        assert(rest[rest.len() - 1] == key.last());
        assert(rest.contains(rest[rest.len() - 1]));
        let shorter = key.drop_last();
        assert(shorter.skip(p + 1) =~= rest.drop_last());
        if shorter.skip(p + 1).contains('.') {
            let k = shorter.skip(p + 1).index_of('.');
            assert(rest[k] == '.');
        }
        last_dot_is(shorter, p);
    }
}

proof fn a_parent_is_above(key: Seq<char>)
    ensures
        parent_key_of(key) matches Some(p) ==> lies_below(key, p) && p.len() < key.len()
            && !key.skip(p.len() as int + 1).contains('.'),
        parent_key_of(key) is None ==> !key.contains('.'),
    decreases key.len(),
{
    reveal_strlit(".");
    if key.len() > 0 {
        let i = last_dot(key);
        last_dot_facts(key);
        if i >= 0 {
            let p = key.take(i);
            assert((p + "."@) =~= key.subrange(0, i + 1));
        }
    }
}

proof fn last_dot_facts(key: Seq<char>)
    ensures
        -1 <= last_dot(key) < key.len(),
        last_dot(key) >= 0 ==> key[last_dot(key)] == '.' && !key.skip(last_dot(key) + 1).contains(
            '.',
        ),
        last_dot(key) < 0 ==> !key.contains('.'),
    decreases key.len(),
{
    if key.len() > 0 {
        let shorter = key.drop_last();
        if key.last() == '.' {
            assert(key.skip(key.len() as int) =~= Seq::empty());
        } else {
            last_dot_facts(shorter);
            let i = last_dot(shorter);
            if i >= 0 {
                let rest = key.skip(i + 1);
                if rest.contains('.') {
                    let k = rest.index_of('.');
                    assert(k < rest.len() - 1);
                    assert(shorter.skip(i + 1)[k] == '.');
                }
            } else if key.contains('.') {
                let k = key.index_of('.');
                assert(shorter[k] == '.');
            }
        }
    }
}

/// Those of the first `n` keys that collapse into their parent.
spec fn collapses_at(keys: Seq<Seq<char>>, hits: Seq<Seq<char>>, i: int) -> bool {
    parent_key_of(hits[i]) is Some && collapses(keys, hits, parent_key_of(hits[i])->Some_0)
}

proof fn collapsing_keeps_or_replaces(
    keys: Seq<Seq<char>>,
    hits: Seq<Seq<char>>,
    n: int,
    key: Seq<char>,
)
    requires
        0 <= n <= hits.len(),
    ensures
        collapsed_upto(keys, hits, n).contains(key) <==> (exists|i: int|
            0 <= i < n && #[trigger] hits[i] == key && !collapses_at(keys, hits, i)) || (collapses(
            keys,
            hits,
            key,
        ) && parent_seen(hits, n, key)),
    decreases n,
{
    if n > 0 {
        collapsing_keeps_or_replaces(keys, hits, n - 1, key);
        let before = collapsed_upto(keys, hits, n - 1);
        let now = collapsed_upto(keys, hits, n);
        let last = hits[n - 1];
        if now.len() > before.len() {
            let added = now[before.len() as int];
            if before.contains(key) {
                assert(now[before.index_of(key)] == key);
            }
            if now.contains(key) && key != added {
                assert(before[now.index_of(key)] == key);
            }
            if key == added {
                assert(now.contains(key));
            }
        }
        if parent_seen(hits, n, key) && !parent_seen(hits, n - 1, key) {
            let j = choose|j: int| 0 <= j < n && parent_key_of(#[trigger] hits[j]) == Some(key);
            assert(j == n - 1);
        }
        if parent_seen(hits, n - 1, key) {
            let j = choose|j: int| 0 <= j < n - 1 && parent_key_of(#[trigger] hits[j]) == Some(key);
            assert(parent_seen(hits, n, key));
        }
        if parent_key_of(last) == Some(key) {
            assert(parent_seen(hits, n, key));
        }
    }
}

proof fn a_whole_plural_collapses(
    cfg: ConfigV,
    store: &Store,
    used: &UsedKeys,
    locale: Seq<char>,
    key: Seq<char>,
)
    requires
        store.wf(),
        store.trees@.contains_key(locale),
    ensures
        ({
            let keys = store.trees@[locale].keys();
            let hits = unused_in(cfg, store, used, locale);
            &&& collapses(keys, hits, key) <==> is_unused_plural(cfg, store, used, locale, key)
            &&& collapses(keys, hits, key) ==> parent_seen(hits, hits.len() as int, key)
        }),
{
    let tree = store.trees@[locale];
    let keys = tree.keys();
    let hits = unused_in(cfg, store, used, locale);
    let children = children_of(keys, key);
    plurals_are_plural_nodes(keys, key);
    if is_plural(keys, key) {
        if is_unused_plural(cfg, store, used, locale, key) {
            assert forall|i: int| 0 <= i < children.len() implies hits.contains(
                below(key, #[trigger] children[i]),
            ) by {
                let form = children[i];
                assert(children.contains(form));
                assert(crate::data::load::plural_child(keys, key, form));
                let full = key + "."@ + form;
                leaves_are_keys(tree, full);
                crate::laws::plural::forms_are_categories(form);
                a_leaf_is_unused_exactly_where_nothing_uses_it(cfg, store, used, locale, full);
            }
        }
        if collapses(keys, hits, key) {
            assert forall|form: Seq<char>|
                names_a_form(form) && has_leaf(tree, #[trigger] (key + "."@ + form)) implies has_no_use(
                cfg,
                store,
                used,
                locale,
                key + "."@ + form,
            ) by {
                let full = key + "."@ + form;
                leaves_are_keys(tree, full);
                children_name_leaves(keys, key, form);
                let i = children.index_of(form);
                assert(hits.contains(below(key, children[i])));
                a_leaf_is_unused_exactly_where_nothing_uses_it(cfg, store, used, locale, full);
            }
            let form = children[0];
            assert(crate::data::load::plural_child(keys, key, form));
            crate::laws::plural::suffixes_are_words(form);
            if form.contains('.') {
                let k = form.index_of('.');
                assert(form[k] == '.');
            }
            a_child_has_its_parent(key, form);
            let i = hits.index_of(below(key, form));
            assert(hits[i] == below(key, form));
            assert(parent_key_of(hits[i]) == Some(key));
        }
    }
}

/// A key is shown for a locale exactly where it is an unused leaf that is no
/// form of a wholly unused plural, or where it is such a plural itself.
pub open spec fn is_shown(
    cfg: ConfigV,
    store: &Store,
    used: &UsedKeys,
    locale: Seq<char>,
    key: Seq<char>,
) -> bool {
    is_unused_plural(cfg, store, used, locale, key) || (is_unused(cfg, store, used, locale, key)
        && !exists|plural: Seq<char>, form: Seq<char>|
        !form.contains('.') && key == #[trigger] (plural + "."@ + form) && is_unused_plural(
            cfg,
            store,
            used,
            locale,
            plural,
        ))
}

proof fn what_a_locale_shows(
    cfg: ConfigV,
    store: &Store,
    used: &UsedKeys,
    locale: Seq<char>,
    key: Seq<char>,
)
    requires
        store.wf(),
        store.trees@.contains_key(locale),
    ensures
        collapsed(store.trees@[locale].keys(), unused_in(cfg, store, used, locale)).contains(key)
            <==> is_shown(cfg, store, used, locale, key),
{
    reveal_strlit(".");
    let keys = store.trees@[locale].keys();
    let hits = unused_in(cfg, store, used, locale);
    let n = hits.len() as int;
    collapsing_keeps_or_replaces(keys, hits, n, key);
    a_whole_plural_collapses(cfg, store, used, locale, key);
    a_leaf_is_unused_exactly_where_nothing_uses_it(cfg, store, used, locale, key);
    a_parent_is_above(key);
    let inside = exists|plural: Seq<char>, form: Seq<char>|
        !form.contains('.') && key == #[trigger] (plural + "."@ + form) && is_unused_plural(
            cfg,
            store,
            used,
            locale,
            plural,
        );
    assert(inside <==> parent_key_of(key) is Some && collapses(
        keys,
        hits,
        parent_key_of(key)->Some_0,
    )) by {
        if inside {
            let (plural, form) = choose|plural: Seq<char>, form: Seq<char>|
                !form.contains('.') && key == #[trigger] (plural + "."@ + form) && is_unused_plural(
                    cfg,
                    store,
                    used,
                    locale,
                    plural,
                );
            a_child_has_its_parent(plural, form);
            a_whole_plural_collapses(cfg, store, used, locale, plural);
        }
        if let Some(parent) = parent_key_of(key) {
            a_whole_plural_collapses(cfg, store, used, locale, parent);
            let form = key.skip(parent.len() as int + 1);
            assert(key.subrange(0, (parent + "."@).len() as int) == parent + "."@);
            assert(key =~= parent + "."@ + form);
        }
    }
    if hits.contains(key) {
        let i = hits.index_of(key);
        assert(hits[i] == key);
        assert(collapses_at(keys, hits, i) == inside);
    }
    if exists|i: int| 0 <= i < n && #[trigger] hits[i] == key && !collapses_at(keys, hits, i) {
        let i = choose|i: int|
            0 <= i < n && #[trigger] hits[i] == key && !collapses_at(keys, hits, i);
        assert(hits.contains(key));
    }
}

proof fn rows_of_a_locale(tree: LocaleTree, locale: Seq<char>, keys: Seq<Seq<char>>, l: Seq<char>, key: Seq<char>)
    ensures
        reports(unused_locale_rows(tree, locale, keys), l, key) <==> l == locale && keys.contains(
            key,
        ),
{
    let rows = unused_locale_rows(tree, locale, keys);
    if reports(rows, l, key) {
        let i = choose|i: int|
            0 <= i < rows.len() && (#[trigger] rows[i]).locale == l && rows[i].key == key;
        assert(keys[i] == key);
    }
    if l == locale && keys.contains(key) {
        let i = keys.index_of(key);
        assert(rows[i].key == key);
    }
}

proof fn rows_of_the_locales(
    cfg: ConfigV,
    store: &Store,
    used: &UsedKeys,
    locales: Seq<Seq<char>>,
    n: int,
    locale: Seq<char>,
    key: Seq<char>,
)
    requires
        store.wf(),
        0 <= n <= locales.len(),
    ensures
        reports(unused_rows(cfg, store, used, locales, n), locale, key) <==> locales.take(
            n,
        ).contains(locale) && is_shown(cfg, store, used, locale, key),
    decreases n,
{
    if n > 0 {
        rows_of_the_locales(cfg, store, used, locales, n - 1, locale, key);
        one_more_of_a_list(locales, n, locale);
        let last = locales[n - 1];
        if store.trees@.contains_key(last) {
            let tree = store.trees@[last];
            let keys = collapsed(tree.keys(), unused_in(cfg, store, used, last));
            what_a_locale_shows(cfg, store, used, last, key);
            rows_of_a_locale(tree, last, keys, locale, key);
            reports_joined(
                unused_rows(cfg, store, used, locales, n - 1),
                unused_locale_rows(tree, last, keys),
                locale,
                key,
            );
        }
    }
}

/// The report has a row for a key of a locale exactly where the locale is asked
/// for and the key is shown for it.
pub proof fn exactly_the_unused_keys_are_reported(
    cfg: ConfigV,
    store: &Store,
    used: &UsedKeys,
    locales: Seq<Seq<char>>,
    locale: Seq<char>,
    key: Seq<char>,
)
    requires
        store.wf(),
    ensures
        reports(unused_rows(cfg, store, used, locales, locales.len() as int), locale, key)
            <==> locales.contains(locale) && is_shown(cfg, store, used, locale, key),
{
    let n = locales.len() as int;
    rows_of_the_locales(cfg, store, used, locales, n, locale, key);
    assert(locales.take(n) =~= locales);
}

/// The unused keys of a locale come in order, each once.
pub proof fn unused_keys_come_in_order(
    cfg: ConfigV,
    store: &Store,
    used: &UsedKeys,
    locale: Seq<char>,
)
    requires
        store.wf(),
        store.trees@.contains_key(locale),
    ensures
        strictly_sorted(unused_in(cfg, store, used, locale)),
{
    let tree = store.trees@[locale];
    let leaves = sorted_of(tree.data());
    a_tree_is_sorted_whole(tree);
    unused_upto_is_sorted(use_in(cfg, store, used, locale), leaves, leaves.len() as int);
}

proof fn unused_upto_is_sorted(u: UseV, leaves: Seq<LeafV>, n: int)
    requires
        0 <= n <= leaves.len(),
        strictly_sorted(keys_of(leaves)),
    ensures
        strictly_sorted(unused_upto(u, leaves, n)),
        forall|i: int|
            0 <= i < unused_upto(u, leaves, n).len() ==> exists|j: int|
                0 <= j < n && keys_of(leaves)[j] == #[trigger] unused_upto(u, leaves, n)[i],
    decreases n,
{
    if n > 0 {
        unused_upto_is_sorted(u, leaves, n - 1);
        let before = unused_upto(u, leaves, n - 1);
        let now = unused_upto(u, leaves, n);
        let keys = keys_of(leaves);
        assert(keys[n - 1] == leaves[n - 1].key);
        assert forall|i: int| 0 <= i < now.len() implies exists|j: int|
            0 <= j < n && keys[j] == #[trigger] now[i] by {
            if i < before.len() {
                let j = choose|j: int| 0 <= j < n - 1 && keys[j] == before[i];
                assert(keys[j] == now[i]);
            } else {
                assert(keys[n - 1] == now[i]);
            }
        }
    }
}

// ------------------------------------------------------------------- selection

/// The pattern matches the key, or a level above it.
pub open spec fn is_selected(pattern: Seq<char>, key: Seq<char>) -> bool {
    accepts(pattern, key) || exists|level: Seq<char>| #[trigger]
        lies_below(key, level) && accepts(pattern, level)
}

proof fn levels_above(key: Seq<char>, level: Seq<char>)
    requires
        parent_key_of(key) is Some,
    ensures
        lies_below(key, level) <==> level == parent_key_of(key)->Some_0 || lies_below(
            parent_key_of(key)->Some_0,
            level,
        ),
{
    reveal_strlit(".");
    let parent = parent_key_of(key)->Some_0;
    a_parent_is_above(key);
    below_is_ancestor(key, level);
    below_is_ancestor(key, parent);
    below_is_ancestor(parent, level);
    let rest = key.skip(parent.len() as int + 1);
    if ancestor(level, key) {
        if level.len() > parent.len() {
            assert(rest[level.len() - parent.len() - 1] == '.');
            assert(rest.contains('.'));
        } else if level.len() == parent.len() {
            assert(level =~= parent);
        } else {
            assert(parent[level.len() as int] == key[level.len() as int]);
            assert(parent.take(level.len() as int) =~= key.take(level.len() as int));
        }
    }
    if ancestor(level, parent) {
        assert(key[level.len() as int] == parent[level.len() as int]) by {
            assert(key.take(parent.len() as int)[level.len() as int] == key[level.len() as int]);
        }
        assert(key.take(level.len() as int) =~= level) by {
            assert(parent.take(level.len() as int) == level);
            assert forall|i: int| 0 <= i < level.len() implies key[i] == level[i] by {
                assert(parent.take(level.len() as int)[i] == parent[i]);
                assert(key.take(parent.len() as int)[i] == key[i]);
            }
        }
    }
}

/// A pattern selects a key exactly where it matches the key or a level above
/// it.
pub proof fn a_pattern_selects_what_lies_below_its_matches(pattern: Seq<char>, key: Seq<char>)
    ensures
        selects(pattern, key) <==> is_selected(pattern, key),
    decreases key.len(),
{
    a_parent_is_above(key);
    match parent_key_of(key) {
        Some(parent) => {
            a_pattern_selects_what_lies_below_its_matches(pattern, parent);
            assert forall|level: Seq<char>| #[trigger] lies_below(key, level) == (level == parent
                || lies_below(parent, level)) by {
                levels_above(key, level);
            }
            if is_selected(pattern, parent) {
                if accepts(pattern, parent) {
                    assert(lies_below(key, parent));
                } else {
                    let level = choose|level: Seq<char>| #[trigger]
                        lies_below(parent, level) && accepts(pattern, level);
                    assert(lies_below(key, level));
                }
            }
            if is_selected(pattern, key) && !accepts(pattern, key) {
                let level = choose|level: Seq<char>| #[trigger]
                    lies_below(key, level) && accepts(pattern, level);
                assert(level == parent || lies_below(parent, level));
            }
        },
        None => {
            if exists|level: Seq<char>| #[trigger] lies_below(key, level) {
                let level = choose|level: Seq<char>| #[trigger] lies_below(key, level);
                below_is_ancestor(key, level);
                assert(key.contains(key[level.len() as int]));
            }
        },
    }
}

/// A selection keeps exactly the rows whose key the pattern selects.
pub proof fn a_selection_keeps_the_rows_of_selected_keys(
    pattern: Seq<char>,
    rows: Seq<KeyRowV>,
    n: int,
    row: KeyRowV,
)
    requires
        0 <= n <= rows.len(),
    ensures
        selected_rows(pattern, rows, n).contains(row) <==> rows.take(n).contains(row)
            && is_selected(pattern, row.key),
    decreases n,
{
    if n > 0 {
        a_selection_keeps_the_rows_of_selected_keys(pattern, rows, n - 1, row);
        let last = rows[n - 1];
        a_pattern_selects_what_lies_below_its_matches(pattern, last.key);
        let before = selected_rows(pattern, rows, n - 1);
        let now = selected_rows(pattern, rows, n);
        let a = rows.take(n - 1);
        let b = rows.take(n);
        assert(b =~= a.push(last));
        if a.contains(row) {
            assert(b[a.index_of(row)] == row);
        }
        assert(b[n - 1] == last);
        if b.contains(row) && row != last {
            assert(a[b.index_of(row)] == row);
        }
        if now.len() > before.len() {
            assert(now[before.len() as int] == last);
            if before.contains(row) {
                assert(now[before.index_of(row)] == row);
            }
            if now.contains(row) && row != last {
                assert(before[now.index_of(row)] == row);
            }
        }
    }
}

/// A leaf can be removed under a selection exactly where its row, or the row of
/// a level above it, is shown.
pub proof fn a_leaf_goes_with_the_row_above_it(
    rows: Seq<KeyRowV>,
    locale: Seq<char>,
    key: Seq<char>,
)
    ensures
        shown_above(rows, locale, key) <==> reports(rows, locale, key) || exists|level: Seq<char>|
            #[trigger] lies_below(key, level) && reports(rows, locale, level),
    decreases key.len(),
{
    a_parent_is_above(key);
    assert(shown(rows, locale, key) == reports(rows, locale, key));
    match parent_key_of(key) {
        Some(parent) => {
            a_leaf_goes_with_the_row_above_it(rows, locale, parent);
            assert forall|level: Seq<char>| #[trigger] lies_below(key, level) == (level == parent
                || lies_below(parent, level)) by {
                levels_above(key, level);
            }
            if reports(rows, locale, parent) {
                assert(lies_below(key, parent));
            }
            if exists|level: Seq<char>| #[trigger]
                lies_below(parent, level) && reports(rows, locale, level) {
                let level = choose|level: Seq<char>| #[trigger]
                    lies_below(parent, level) && reports(rows, locale, level);
                assert(lies_below(key, level));
            }
            if exists|level: Seq<char>| #[trigger]
                lies_below(key, level) && reports(rows, locale, level) {
                let level = choose|level: Seq<char>| #[trigger]
                    lies_below(key, level) && reports(rows, locale, level);
                assert(level == parent || lies_below(parent, level));
            }
        },
        None => {
            if exists|level: Seq<char>| #[trigger] lies_below(key, level) {
                let level = choose|level: Seq<char>| #[trigger] lies_below(key, level);
                below_is_ancestor(key, level);
                assert(key.contains(key[level.len() as int]));
            }
        },
    }
}

} // verus!
