//! Which keys are missing.
use crate::config::{ConfigV, IgnoreType};
use crate::data::load::{children_of, sorted_of, LeafV, LocaleTree};
use crate::data::store::Store;
use crate::laws::plural::{
    children_name_leaves, every_language_needs_other, is_plural, names_a_form,
    the_plurals_are_listed,
};
use crate::laws::values::{
    a_key_is_held_exactly_where_it_has_a_value, each_check_goes_by_its_own_rules, has_leaf,
    has_value, is_ignored, leaves_are_keys, one_more_of_a_list, reports, reports_joined,
    reports_one_more, sorted_is_the_leaves,
};
use crate::pattern::any_accepts;
use crate::plural::{depluralized, required_categories_of};
use crate::report::missing::{
    absent_categories, all_missing, candidates, diff_between, diff_from_base, diff_leaves, diff_row,
    diff_rows, diff_to_base, first_only, is_missing, keys_of_locale, missing_rows,
    occurrence_missing, plural_nodes_rows, plural_row, plural_rows, repeats, trees_of,
    used_keys_rows, used_row, used_rows, MissingType, TreesV,
};
use crate::report::KeyRowV;
use crate::scan::OccurrenceV;
use crate::text::texts;
use crate::used::{occurrences_at, UsedKeys};
use vstd::prelude::*;

verus! {

/// The locale lacks the key: it has no value for it, neither has the external
/// data, and no rule ignores it.
pub open spec fn lacks(cfg: ConfigV, store: &Store, locale: Seq<char>, key: Seq<char>) -> bool {
    &&& !has_value(store.trees@, locale, key)
    &&& !has_value(store.external@, locale, key)
    &&& !is_ignored(cfg, cfg.ignore_missing, Some(locale), key)
}

/// The keys of a locale of the store.
pub open spec fn keys_in_store(store: &Store, locale: Seq<char>) -> Option<Seq<Seq<char>>> {
    if store.trees@.contains_key(locale) {
        Some(store.trees@[locale].keys())
    } else {
        None
    }
}

/// A leaf of the source locale stands for the key.
pub open spec fn a_leaf_stands_for(store: &Store, source: Seq<char>, key: Seq<char>) -> bool {
    store.trees@.contains_key(source) && exists|i: int|
        0 <= i < store.trees@[source].leaves.len() && depluralized(
            (#[trigger] store.trees@[source].leaves@[i]).key@,
            keys_in_store(store, source),
            keys_in_store(store, store.base_locale@),
        ) == key
}

/// The call may stand for a key that the locale has.
pub open spec fn call_is_served(
    cfg: ConfigV,
    store: &Store,
    locale: Seq<char>,
    key: Seq<char>,
    call: OccurrenceV,
) -> bool {
    if call.candidate_keys.len() == 0 {
        !lacks(cfg, store, locale, key)
    } else {
        exists|j: int|
            0 <= j < call.candidate_keys.len() && !lacks(
                cfg,
                store,
                locale,
                #[trigger] call.candidate_keys[j],
            )
    }
}

/// A key that the sources use and that serves none of its calls.
pub open spec fn is_missing_use(
    cfg: ConfigV,
    store: &Store,
    used: &UsedKeys,
    locale: Seq<char>,
    key: Seq<char>,
) -> bool {
    used.keys@.contains_key(key) && forall|i: int|
        0 <= i < used.keys@[key].len() ==> !call_is_served(
            cfg,
            store,
            locale,
            key,
            (#[trigger] used.keys@[key]@[i])@,
        )
}

/// A key that another locale has: the base locale, or, for the base locale,
/// any other one.
pub open spec fn is_missing_difference(
    cfg: ConfigV,
    store: &Store,
    locale: Seq<char>,
    key: Seq<char>,
) -> bool {
    lacks(cfg, store, locale, key) && if locale != store.base_locale@ {
        a_leaf_stands_for(store, store.base_locale@, key)
    } else {
        exists|source: Seq<char>|
            source != store.base_locale@ && #[trigger] texts(store.locales@).contains(source)
                && a_leaf_stands_for(store, source, key)
    }
}

/// A plural of the locale that lacks one of the forms that the locale needs.
pub open spec fn is_missing_form(
    cfg: ConfigV,
    store: &Store,
    locale: Seq<char>,
    key: Seq<char>,
) -> bool {
    &&& store.trees@.contains_key(locale)
    &&& is_plural(store.trees@[locale].keys(), key)
    &&& !is_ignored(cfg, cfg.ignore_missing, Some(locale), key)
    &&& required_categories_of(locale) is Some
    &&& exists|form: Seq<char>| #[trigger]
        required_categories_of(locale)->Some_0.contains(form) && !has_leaf(
            store.trees@[locale],
            key + "."@ + form,
        )
}

// ----------------------------------------------------------------- small parts

proof fn lacking_is_missing(cfg: ConfigV, store: &Store, locale: Seq<char>, key: Seq<char>)
    ensures
        is_missing(trees_of(store), cfg.ignored(IgnoreType::Missing, Some(locale)), locale, key)
            <==> lacks(cfg, store, locale, key),
{
    a_key_is_held_exactly_where_it_has_a_value(store.trees@, locale, key);
    a_key_is_held_exactly_where_it_has_a_value(store.external@, locale, key);
    each_check_goes_by_its_own_rules(cfg, Some(locale), key);
}

proof fn a_call_is_served_or_missing(
    cfg: ConfigV,
    store: &Store,
    locale: Seq<char>,
    key: Seq<char>,
    call: OccurrenceV,
)
    ensures
        occurrence_missing(
            trees_of(store),
            cfg.ignored(IgnoreType::Missing, Some(locale)),
            locale,
            key,
            call,
        ) <==> !call_is_served(cfg, store, locale, key, call),
{
    let all = candidates(key, call);
    assert forall|c: Seq<char>| #[trigger]
        is_missing(trees_of(store), cfg.ignored(IgnoreType::Missing, Some(locale)), locale, c)
            == lacks(cfg, store, locale, c) by {
        lacking_is_missing(cfg, store, locale, c);
    }
    if call.candidate_keys.len() == 0 {
        assert(all =~= seq![key]);
        assert(all[0] == key);
    }
}

// ----------------------------------------------------------------------- used

proof fn used_keys_are_reported(
    trees: TreesV,
    ignore: Seq<Seq<char>>,
    locale: Seq<char>,
    order: Seq<Seq<char>>,
    keys: Map<Seq<char>, Vec<crate::scan::Occurrence>>,
    n: int,
    l: Seq<char>,
    key: Seq<char>,
)
    requires
        0 <= n <= order.len(),
    ensures
        reports(used_keys_rows(trees, ignore, locale, order, keys, n), l, key) <==> l == locale
            && order.take(n).contains(key) && all_missing(
            trees,
            ignore,
            locale,
            key,
            occurrences_at(keys, key),
        ),
    decreases n,
{
    if n > 0 {
        used_keys_are_reported(trees, ignore, locale, order, keys, n - 1, l, key);
        let last = order[n - 1];
        reports_one_more(
            used_keys_rows(trees, ignore, locale, order, keys, n - 1),
            used_row(trees, ignore, locale, last, occurrences_at(keys, last)),
            l,
            key,
        );
        one_more_of_a_list(order, n, key);
    }
}

proof fn used_locales_are_reported(
    cfg: ConfigV,
    trees: TreesV,
    used: &UsedKeys,
    locales: Seq<Seq<char>>,
    n: int,
    locale: Seq<char>,
    key: Seq<char>,
)
    requires
        0 <= n <= locales.len(),
    ensures
        reports(used_rows(cfg, trees, used, locales, n), locale, key) <==> locales.take(n).contains(
            locale,
        ) && used.keys.order().contains(key) && all_missing(
            trees,
            cfg.ignored(IgnoreType::Missing, Some(locale)),
            locale,
            key,
            occurrences_at(used.keys@, key),
        ),
    decreases n,
{
    if n > 0 {
        used_locales_are_reported(cfg, trees, used, locales, n - 1, locale, key);
        let last = locales[n - 1];
        let order = used.keys.order();
        let ignore = cfg.ignored(IgnoreType::Missing, Some(last));
        let count = order.len() as int;
        used_keys_are_reported(trees, ignore, last, order, used.keys@, count, locale, key);
        reports_joined(
            used_rows(cfg, trees, used, locales, n - 1),
            used_keys_rows(trees, ignore, last, order, used.keys@, count),
            locale,
            key,
        );
        assert(order.take(count) =~= order);
        one_more_of_a_list(locales, n, locale);
    }
}

proof fn all_missing_is_unserved(
    cfg: ConfigV,
    store: &Store,
    used: &UsedKeys,
    locale: Seq<char>,
    key: Seq<char>,
)
    requires
        used.keys@.contains_key(key),
    ensures
        all_missing(
            trees_of(store),
            cfg.ignored(IgnoreType::Missing, Some(locale)),
            locale,
            key,
            occurrences_at(used.keys@, key),
        ) <==> is_missing_use(cfg, store, used, locale, key),
{
    let list = used.keys@[key];
    let all = occurrences_at(used.keys@, key);
    let ignore = cfg.ignored(IgnoreType::Missing, Some(locale));
    assert(all.len() == list.len());
    assert forall|i: int| 0 <= i < all.len() implies #[trigger] all[i] == list@[i]@ by {}
    assert forall|i: int| 0 <= i < all.len() implies occurrence_missing(
        trees_of(store),
        ignore,
        locale,
        key,
        #[trigger] all[i],
    ) == !call_is_served(cfg, store, locale, key, list@[i]@) by {
        a_call_is_served_or_missing(cfg, store, locale, key, all[i]);
    }
    if all_missing(trees_of(store), ignore, locale, key, all) {
        assert forall|i: int| 0 <= i < list.len() implies !call_is_served(
            cfg,
            store,
            locale,
            key,
            (#[trigger] list@[i])@,
        ) by {
            assert(occurrence_missing(trees_of(store), ignore, locale, key, all[i]));
        }
    }
    if is_missing_use(cfg, store, used, locale, key) {
        assert forall|i: int| 0 <= i < all.len() implies occurrence_missing(
            trees_of(store),
            ignore,
            locale,
            key,
            #[trigger] all[i],
        ) by {
            assert(!call_is_served(cfg, store, locale, key, list@[i]@));
        }
    }
}

// ----------------------------------------------------------------------- diff

proof fn differing_leaves_are_reported(
    trees: TreesV,
    base: Seq<char>,
    ignore: Seq<Seq<char>>,
    locale: Seq<char>,
    source: Seq<char>,
    leaves: Seq<LeafV>,
    n: int,
    l: Seq<char>,
    key: Seq<char>,
)
    requires
        0 <= n <= leaves.len(),
    ensures
        reports(diff_leaves(trees, base, ignore, locale, source, leaves, n), l, key) <==> l
            == locale && is_missing(trees, ignore, locale, key) && exists|i: int|
            0 <= i < n && depluralized(
                (#[trigger] leaves[i]).key,
                keys_of_locale(trees, source),
                keys_of_locale(trees, base),
            ) == key,
    decreases n,
{
    if n > 0 {
        differing_leaves_are_reported(
            trees,
            base,
            ignore,
            locale,
            source,
            leaves,
            n - 1,
            l,
            key,
        );
        reports_one_more(
            diff_leaves(trees, base, ignore, locale, source, leaves, n - 1),
            diff_row(trees, base, ignore, locale, source, leaves[n - 1]),
            l,
            key,
        );
    }
}

proof fn a_difference_is_reported(
    cfg: ConfigV,
    store: &Store,
    locale: Seq<char>,
    source: Seq<char>,
    l: Seq<char>,
    key: Seq<char>,
)
    requires
        store.wf(),
    ensures
        reports(
            diff_between(
                trees_of(store),
                store.base_locale@,
                cfg.ignored(IgnoreType::Missing, Some(locale)),
                locale,
                source,
            ),
            l,
            key,
        ) <==> l == locale && lacks(cfg, store, locale, key) && a_leaf_stands_for(
            store,
            source,
            key,
        ),
{
    let trees = trees_of(store);
    let base = store.base_locale@;
    let ignore = cfg.ignored(IgnoreType::Missing, Some(locale));
    lacking_is_missing(cfg, store, locale, key);
    if store.trees@.contains_key(source) {
        let tree = store.trees@[source];
        let data = tree.data();
        let leaves = sorted_of(data);
        let n = leaves.len() as int;
        differing_leaves_are_reported(trees, base, ignore, locale, source, leaves, n, l, key);
        let own = keys_in_store(store, source);
        let theirs = keys_in_store(store, base);
        assert(keys_of_locale(trees, source) == own && keys_of_locale(trees, base) == theirs);
        if exists|i: int| 0 <= i < n && depluralized((#[trigger] leaves[i]).key, own, theirs) == key {
            let i = choose|i: int|
                0 <= i < n && depluralized((#[trigger] leaves[i]).key, own, theirs) == key;
            sorted_is_the_leaves(tree, leaves[i]);
            assert(leaves.contains(leaves[i]));
            let j = data.index_of(leaves[i]);
            assert(data[j] == tree.leaves@[j]@);
            assert(depluralized(tree.leaves@[j].key@, own, theirs) == key);
        }
        if a_leaf_stands_for(store, source, key) {
            let j = choose|j: int|
                0 <= j < tree.leaves.len() && depluralized(
                    (#[trigger] tree.leaves@[j]).key@,
                    own,
                    theirs,
                ) == key;
            assert(data[j] == tree.leaves@[j]@);
            assert(data.contains(data[j]));
            sorted_is_the_leaves(tree, data[j]);
            let i = leaves.index_of(data[j]);
            assert(depluralized(leaves[i].key, own, theirs) == key);
        }
    }
}

proof fn differences_from_base(
    cfg: ConfigV,
    store: &Store,
    locales: Seq<Seq<char>>,
    n: int,
    locale: Seq<char>,
    key: Seq<char>,
)
    requires
        store.wf(),
        0 <= n <= locales.len(),
    ensures
        reports(
            diff_from_base(cfg, trees_of(store), store.base_locale@, locales, n),
            locale,
            key,
        ) <==> locale != store.base_locale@ && locales.take(n).contains(locale) && lacks(
            cfg,
            store,
            locale,
            key,
        ) && a_leaf_stands_for(store, store.base_locale@, key),
    decreases n,
{
    if n > 0 {
        differences_from_base(cfg, store, locales, n - 1, locale, key);
        one_more_of_a_list(locales, n, locale);
        let base = store.base_locale@;
        let last = locales[n - 1];
        if last != base {
            a_difference_is_reported(cfg, store, last, base, locale, key);
            reports_joined(
                diff_from_base(cfg, trees_of(store), base, locales, n - 1),
                diff_between(
                    trees_of(store),
                    base,
                    cfg.ignored(IgnoreType::Missing, Some(last)),
                    last,
                    base,
                ),
                locale,
                key,
            );
        }
    }
}

proof fn differences_to_base(
    cfg: ConfigV,
    store: &Store,
    all: Seq<Seq<char>>,
    n: int,
    locale: Seq<char>,
    key: Seq<char>,
)
    requires
        store.wf(),
        0 <= n <= all.len(),
    ensures
        reports(diff_to_base(cfg, trees_of(store), store.base_locale@, all, n), locale, key)
            <==> locale == store.base_locale@ && lacks(cfg, store, locale, key) && exists|
            source: Seq<char>,
        |
            source != store.base_locale@ && #[trigger] all.take(n).contains(source)
                && a_leaf_stands_for(store, source, key),
    decreases n,
{
    if n > 0 {
        differences_to_base(cfg, store, all, n - 1, locale, key);
        let base = store.base_locale@;
        let last = all[n - 1];
        assert forall|x: Seq<char>| #[trigger] all.take(n).contains(x) == (all.take(n - 1).contains(x)
            || x == last) by {
            one_more_of_a_list(all, n, x);
        }
        if last != base {
            a_difference_is_reported(cfg, store, base, last, locale, key);
            reports_joined(
                diff_to_base(cfg, trees_of(store), base, all, n - 1),
                diff_between(
                    trees_of(store),
                    base,
                    cfg.ignored(IgnoreType::Missing, Some(base)),
                    base,
                    last,
                ),
                locale,
                key,
            );
            assert(all.take(n).contains(last));
        }
        if exists|source: Seq<char>|
            source != base && #[trigger] all.take(n - 1).contains(source) && a_leaf_stands_for(
                store,
                source,
                key,
            ) {
            let source = choose|source: Seq<char>|
                source != base && #[trigger] all.take(n - 1).contains(source) && a_leaf_stands_for(
                    store,
                    source,
                    key,
                );
            assert(all.take(n).contains(source));
        }
        if exists|source: Seq<char>|
            source != base && #[trigger] all.take(n).contains(source) && a_leaf_stands_for(
                store,
                source,
                key,
            ) {
            let source = choose|source: Seq<char>|
                source != base && #[trigger] all.take(n).contains(source) && a_leaf_stands_for(
                    store,
                    source,
                    key,
                );
            if source != last {
                assert(all.take(n - 1).contains(source));
            }
        }
    }
}

proof fn repetitions_are_reported(rows: Seq<KeyRowV>, n: int, locale: Seq<char>, key: Seq<char>)
    requires
        0 <= n <= rows.len(),
    ensures
        reports(first_only(rows, n), locale, key) <==> reports(rows.take(n), locale, key),
    decreases n,
{
    if n > 0 {
        repetitions_are_reported(rows, n - 1, locale, key);
        let before = first_only(rows, n - 1);
        let r = rows[n - 1];
        reports_one_more(before, Some(r), locale, key);
        reports_one_more(rows.take(n - 1), Some(r), locale, key);
        assert(rows.take(n) =~= rows.take(n - 1).push(r));
        if repeats(rows, n - 1) && r.locale == locale && r.key == key {
            let j = choose|j: int|
                0 <= j < n - 1 && (#[trigger] rows[j]).locale == r.locale && rows[j].key == r.key;
            assert(rows.take(n - 1)[j] == rows[j]);
        }
    }
}

// --------------------------------------------------------------------- plural

proof fn absent_forms(required: Seq<Seq<char>>, present: Seq<Seq<char>>, n: int, form: Seq<char>)
    requires
        0 <= n <= required.len(),
    ensures
        absent_categories(required, present, n).contains(form) <==> required.take(n).contains(form)
            && !present.contains(form),
    decreases n,
{
    if n > 0 {
        absent_forms(required, present, n - 1, form);
        one_more_of_a_list(required, n, form);
        let before = absent_categories(required, present, n - 1);
        let now = absent_categories(required, present, n);
        if now.len() > before.len() {
            assert(now[before.len() as int] == required[n - 1]);
            if before.contains(form) {
                assert(now[before.index_of(form)] == form);
            }
            if now.contains(form) && form != required[n - 1] {
                assert(before[now.index_of(form)] == form);
            }
        }
    }
}

proof fn plurals_are_reported(
    keys: Seq<Seq<char>>,
    required: Seq<Seq<char>>,
    ignore: Seq<Seq<char>>,
    locale: Seq<char>,
    nodes: Seq<Seq<char>>,
    n: int,
    l: Seq<char>,
    key: Seq<char>,
)
    requires
        0 <= n <= nodes.len(),
    ensures
        reports(plural_nodes_rows(keys, required, ignore, locale, nodes, n), l, key) <==> l
            == locale && nodes.take(n).contains(key) && !any_accepts(ignore, key)
            && absent_categories(
            required,
            children_of(keys, key),
            required.len() as int,
        ).len() > 0,
    decreases n,
{
    if n > 0 {
        plurals_are_reported(keys, required, ignore, locale, nodes, n - 1, l, key);
        one_more_of_a_list(nodes, n, key);
        reports_one_more(
            plural_nodes_rows(keys, required, ignore, locale, nodes, n - 1),
            plural_row(keys, required, ignore, locale, nodes[n - 1]),
            l,
            key,
        );
    }
}

pub(crate) proof fn a_form_is_absent(tree: LocaleTree, required: Seq<Seq<char>>, key: Seq<char>)
    requires
        is_plural(tree.keys(), key),
        forall|form: Seq<char>| #[trigger] required.contains(form) ==> names_a_form(form),
    ensures
        absent_categories(
            required,
            children_of(tree.keys(), key),
            required.len() as int,
        ).len() > 0 <==> exists|form: Seq<char>| #[trigger]
            required.contains(form) && !has_leaf(tree, key + "."@ + form),
        forall|form: Seq<char>| #[trigger]
            absent_categories(
                required,
                children_of(tree.keys(), key),
                required.len() as int,
            ).contains(form) <==> required.contains(form) && !has_leaf(tree, key + "."@ + form),
{
    let keys = tree.keys();
    let present = children_of(keys, key);
    let n = required.len() as int;
    let absent = absent_categories(required, present, n);
    assert(required.take(n) =~= required);
    assert forall|form: Seq<char>| #[trigger] absent.contains(form) <==> required.contains(form)
        && !has_leaf(tree, key + "."@ + form) by {
        absent_forms(required, present, n, form);
        leaves_are_keys(tree, key + "."@ + form);
        children_name_leaves(keys, key, form);
    }
    if absent.len() > 0 {
        assert(absent.contains(absent[0]));
    }
    if exists|form: Seq<char>| #[trigger]
        required.contains(form) && !has_leaf(tree, key + "."@ + form) {
        let form = choose|form: Seq<char>| #[trigger]
            required.contains(form) && !has_leaf(tree, key + "."@ + form);
        assert(absent.contains(form));
    }
}

proof fn plural_locales_are_reported(
    cfg: ConfigV,
    store: &Store,
    locales: Seq<Seq<char>>,
    n: int,
    locale: Seq<char>,
    key: Seq<char>,
)
    requires
        0 <= n <= locales.len(),
    ensures
        reports(plural_rows(cfg, trees_of(store), locales, n), locale, key) <==> locales.take(
            n,
        ).contains(locale) && is_missing_form(cfg, store, locale, key),
    decreases n,
{
    if n > 0 {
        plural_locales_are_reported(cfg, store, locales, n - 1, locale, key);
        one_more_of_a_list(locales, n, locale);
        let last = locales[n - 1];
        if required_categories_of(last) is Some && store.trees@.contains_key(last) {
            let required = required_categories_of(last)->Some_0;
            let tree = store.trees@[last];
            let keys = tree.keys();
            let nodes = crate::data::load::plural_nodes_in(keys);
            let ignore = cfg.ignored(IgnoreType::Missing, Some(last));
            let count = nodes.len() as int;
            plurals_are_reported(keys, required, ignore, last, nodes, count, locale, key);
            assert(nodes.take(count) =~= nodes);
            the_plurals_are_listed(keys, key);
            each_check_goes_by_its_own_rules(cfg, Some(last), key);
            if is_plural(keys, key) {
                assert forall|form: Seq<char>| #[trigger]
                    required.contains(form) implies names_a_form(form) by {
                    every_language_needs_other(last, form);
                }
                a_form_is_absent(tree, required, key);
            }
            reports_joined(
                plural_rows(cfg, trees_of(store), locales, n - 1),
                plural_nodes_rows(keys, required, ignore, last, nodes, count),
                locale,
                key,
            );
        }
    }
}

// ----------------------------------------------------------------------- laws

/// A used key is reported for a locale exactly where the locale is asked for
/// and serves no call of the key.
pub proof fn a_used_key_is_reported_exactly_where_no_call_is_served(
    cfg: ConfigV,
    store: &Store,
    used: &UsedKeys,
    locales: Seq<Seq<char>>,
    locale: Seq<char>,
    key: Seq<char>,
)
    requires
        used.keys.ordered(),
    ensures
        reports(
            missing_rows(cfg, store, used, locales, seq![MissingType::Used], 1),
            locale,
            key,
        ) <==> locales.contains(locale) && is_missing_use(cfg, store, used, locale, key),
{
    let n = locales.len() as int;
    let rows = used_rows(cfg, trees_of(store), used, locales, n);
    used_locales_are_reported(cfg, trees_of(store), used, locales, n, locale, key);
    assert(locales.take(n) =~= locales);
    if used.keys@.contains_key(key) {
        all_missing_is_unserved(cfg, store, used, locale, key);
    }
    only_one_type(cfg, store, used, locales, MissingType::Used);
    assert(used.keys.order().contains(key) <==> used.keys@.contains_key(key));
}

proof fn only_one_type(
    cfg: ConfigV,
    store: &Store,
    used: &UsedKeys,
    locales: Seq<Seq<char>>,
    ty: MissingType,
)
    ensures
        missing_rows(cfg, store, used, locales, seq![ty], 1) == match ty {
            MissingType::Used => used_rows(
                cfg,
                trees_of(store),
                used,
                locales,
                locales.len() as int,
            ),
            MissingType::Diff => diff_rows(
                cfg,
                trees_of(store),
                store.base_locale@,
                texts(store.locales@),
                locales,
            ),
            MissingType::Plural => plural_rows(
                cfg,
                trees_of(store),
                locales,
                locales.len() as int,
            ),
        },
{
    assert(missing_rows(cfg, store, used, locales, seq![ty], 0) =~= Seq::empty());
    assert(seq![ty][0] == ty);
    assert(missing_rows(cfg, store, used, locales, seq![ty], 1) =~= match ty {
        MissingType::Used => used_rows(cfg, trees_of(store), used, locales, locales.len() as int),
        MissingType::Diff => diff_rows(
            cfg,
            trees_of(store),
            store.base_locale@,
            texts(store.locales@),
            locales,
        ),
        MissingType::Plural => plural_rows(cfg, trees_of(store), locales, locales.len() as int),
    });
}

/// A difference is reported for a locale exactly where the locale is asked for,
/// lacks the key, and the base locale has a leaf that stands for it; for the
/// base locale itself, where any other locale has one.
pub proof fn a_difference_is_reported_exactly_where_the_other_side_has_the_key(
    cfg: ConfigV,
    store: &Store,
    used: &UsedKeys,
    locales: Seq<Seq<char>>,
    locale: Seq<char>,
    key: Seq<char>,
)
    requires
        store.wf(),
    ensures
        reports(
            missing_rows(cfg, store, used, locales, seq![MissingType::Diff], 1),
            locale,
            key,
        ) <==> locales.contains(locale) && is_missing_difference(cfg, store, locale, key),
{
    let trees = trees_of(store);
    let base = store.base_locale@;
    let all = texts(store.locales@);
    let n = locales.len() as int;
    let m = all.len() as int;
    only_one_type(cfg, store, used, locales, MissingType::Diff);
    differences_from_base(cfg, store, locales, n, locale, key);
    differences_to_base(cfg, store, all, m, locale, key);
    assert(locales.take(n) =~= locales);
    assert(all.take(m) =~= all);
    let from = diff_from_base(cfg, trees, base, locales, n);
    let to = if locales.contains(base) {
        diff_to_base(cfg, trees, base, all, m)
    } else {
        Seq::empty()
    };
    let rows = from + to;
    reports_joined(from, to, locale, key);
    repetitions_are_reported(rows, rows.len() as int, locale, key);
    assert(rows.take(rows.len() as int) =~= rows);
}

/// A plural is reported for a locale exactly where the locale is asked for,
/// has the plural, and lacks one of the forms that its language needs.
pub proof fn a_plural_is_reported_exactly_where_a_form_is_absent(
    cfg: ConfigV,
    store: &Store,
    used: &UsedKeys,
    locales: Seq<Seq<char>>,
    locale: Seq<char>,
    key: Seq<char>,
)
    ensures
        reports(
            missing_rows(cfg, store, used, locales, seq![MissingType::Plural], 1),
            locale,
            key,
        ) <==> locales.contains(locale) && is_missing_form(cfg, store, locale, key),
{
    let n = locales.len() as int;
    only_one_type(cfg, store, used, locales, MissingType::Plural);
    plural_locales_are_reported(cfg, store, locales, n, locale, key);
    assert(locales.take(n) =~= locales);
}

/// Several types are reported one after the other, each as if it were asked
/// for alone.
pub proof fn each_type_is_reported_as_if_alone(
    cfg: ConfigV,
    store: &Store,
    used: &UsedKeys,
    locales: Seq<Seq<char>>,
    types: Seq<MissingType>,
    n: int,
)
    requires
        0 < n <= types.len(),
    ensures
        missing_rows(cfg, store, used, locales, types, 0) == Seq::<KeyRowV>::empty(),
        missing_rows(cfg, store, used, locales, types, n) == missing_rows(
            cfg,
            store,
            used,
            locales,
            types,
            n - 1,
        ) + missing_rows(cfg, store, used, locales, seq![types[n - 1]], 1),
{
    only_one_type(cfg, store, used, locales, types[n - 1]);
}

} // verus!
