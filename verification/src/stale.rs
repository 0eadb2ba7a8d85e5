//! Taking out an ignore rule that is not in use changes no report.
use crate::clean_config::{applies_to, bare_reports, in_use, suppresses, suppresses_row, RuleV};
use crate::config::{ConfigV, IgnoreType};
use crate::data::load::{plural_node_of, plural_nodes_in, sorted_of, LeafV, LocaleTree};
use crate::data::store::Store;
use crate::pattern::{accepts, any_accepts};
use crate::plural::required_categories_of;
use crate::report::eq_base::{eq_base_leaves, eq_base_row, eq_base_rows};
use crate::report::interpolations::{
    inconsistent_in, inconsistent_rows, inconsistent_upto, string_value,
};
use crate::report::missing::{
    all_missing, candidates, diff_between, diff_from_base, diff_leaves, diff_row, diff_rows,
    diff_to_base, first_only, is_missing, missing_rows, occurrence_missing, plural_nodes_rows,
    plural_row, plural_rows, repeats, trees_of, used_keys_rows, used_row, used_rows, MissingType,
    TreesV,
};
use crate::report::unused::{
    collapsed, collapsed_upto, unused_in, unused_locale_rows, unused_rows, unused_upto, use_in,
    UseV,
};
use crate::report::{with_row, KeyRowV};
use crate::scan::OccurrenceV;
use crate::text::texts;
use crate::used::{occurrences_at, UsedKeys};
use vstd::prelude::*;

verus! {

/// `with` ignores what `without` ignores and, besides, what the rule names: the
/// two differ by the rule alone.
pub open spec fn differ_by(with: ConfigV, without: ConfigV, rule: RuleV, ty: IgnoreType) -> bool {
    forall|l: Seq<char>, k: Seq<char>| #[trigger]
        any_accepts(with.ignored(ty, Some(l)), k) <==> any_accepts(without.ignored(ty, Some(l)), k)
            || applies_to(rule.locales, l) && accepts(rule.pattern, k)
}

proof fn parts_are_not_suppressed(rule: RuleV, a: Seq<KeyRowV>, b: Seq<KeyRowV>)
    requires
        !suppresses(rule, a + b),
    ensures
        !suppresses(rule, a),
        !suppresses(rule, b),
{
    let all = a + b;
    assert forall|i: int| 0 <= i < a.len() implies !suppresses_row(rule, #[trigger] a[i]) by {
        assert(all[i] == a[i]);
    }
    assert forall|i: int| 0 <= i < b.len() implies !suppresses_row(rule, #[trigger] b[i]) by {
        assert(all[a.len() + i] == b[i]);
    }
}

proof fn equal_leaves_stay(
    with: ConfigV,
    without: ConfigV,
    rule: RuleV,
    base: LocaleTree,
    locale: Seq<char>,
    leaves: Seq<LeafV>,
    n: int,
)
    requires
        0 <= n <= leaves.len(),
        differ_by(with, without, rule, IgnoreType::EqBase),
        !suppresses(rule, eq_base_leaves(base, Seq::empty(), locale, leaves, n)),
    ensures
        eq_base_leaves(base, with.ignored(IgnoreType::EqBase, Some(locale)), locale, leaves, n)
            == eq_base_leaves(
            base,
            without.ignored(IgnoreType::EqBase, Some(locale)),
            locale,
            leaves,
            n,
        ),
    decreases n,
{
    if n > 0 {
        let bare = eq_base_leaves(base, Seq::empty(), locale, leaves, n - 1);
        let row = eq_base_row(base, Seq::empty(), locale, leaves[n - 1]);
        let one = match row {
            Some(r) => seq![r],
            None => Seq::empty(),
        };
        assert(with_row(bare, row) =~= bare + one);
        parts_are_not_suppressed(rule, bare, one);
        equal_leaves_stay(with, without, rule, base, locale, leaves, n - 1);
        if row is Some {
            assert(!suppresses_row(rule, one[0]));
            let key = leaves[n - 1].key;
            assert(any_accepts(with.ignored(IgnoreType::EqBase, Some(locale)), key)
                == any_accepts(without.ignored(IgnoreType::EqBase, Some(locale)), key));
        }
    }
}

proof fn equal_rows_stay(
    with: ConfigV,
    without: ConfigV,
    rule: RuleV,
    store: &Store,
    locales: Seq<Seq<char>>,
    n: int,
)
    requires
        0 <= n <= locales.len(),
        differ_by(with, without, rule, IgnoreType::EqBase),
        !suppresses(
            rule,
            eq_base_rows(with.without_rules(), store.trees@, store.base_locale@, locales, n),
        ),
    ensures
        eq_base_rows(with, store.trees@, store.base_locale@, locales, n) == eq_base_rows(
            without,
            store.trees@,
            store.base_locale@,
            locales,
            n,
        ),
    decreases n,
{
    let trees = store.trees@;
    let base = store.base_locale@;
    if n > 0 && trees.contains_key(base) {
        let locale = locales[n - 1];
        let bare = eq_base_rows(with.without_rules(), trees, base, locales, n - 1);
        if locale == base || !trees.contains_key(locale) {
            equal_rows_stay(with, without, rule, store, locales, n - 1);
        } else {
            let leaves = sorted_of(trees[locale].data());
            let nothing = with.without_rules().ignored(IgnoreType::EqBase, Some(locale));
            assert(nothing =~= Seq::empty());
            parts_are_not_suppressed(
                rule,
                bare,
                eq_base_leaves(trees[base], nothing, locale, leaves, leaves.len() as int),
            );
            equal_rows_stay(with, without, rule, store, locales, n - 1);
            equal_leaves_stay(
                with,
                without,
                rule,
                trees[base],
                locale,
                leaves,
                leaves.len() as int,
            );
        }
    }
}

/// Taking out a rule that is not in use brings no new value that equals its
/// base value into the report, and takes none out.
pub proof fn a_stale_rule_hides_no_equal_value(
    with: ConfigV,
    without: ConfigV,
    rule: RuleV,
    store: &Store,
    used: &UsedKeys,
    locales: Seq<Seq<char>>,
)
    requires
        rule.kind is EqBase || rule.kind is Global,
        differ_by(with, without, rule, IgnoreType::EqBase),
        !in_use(rule, bare_reports(with, store, used, locales)),
    ensures
        eq_base_rows(with, store.trees@, store.base_locale@, locales, locales.len() as int)
            == eq_base_rows(
            without,
            store.trees@,
            store.base_locale@,
            locales,
            locales.len() as int,
        ),
{
    equal_rows_stay(with, without, rule, store, locales, locales.len() as int);
}

proof fn inconsistent_rows_name_the_leaf(
    trees: Map<Seq<char>, LocaleTree>,
    base: Seq<char>,
    leaf: LeafV,
    value: Seq<char>,
    locales: Seq<Seq<char>>,
    n: int,
)
    requires
        0 <= n <= locales.len(),
    ensures
        forall|i: int|
            0 <= i < inconsistent_in(trees, base, leaf, value, locales, n).len()
                ==> (#[trigger] inconsistent_in(trees, base, leaf, value, locales, n)[i]).key
                == leaf.key,
    decreases n,
{
    if n > 0 {
        inconsistent_rows_name_the_leaf(trees, base, leaf, value, locales, n - 1);
    }
}

proof fn inconsistent_leaves_stay(
    with: Seq<Seq<char>>,
    without: Seq<Seq<char>>,
    rule: RuleV,
    store: &Store,
    leaves: Seq<LeafV>,
    locales: Seq<Seq<char>>,
    n: int,
)
    requires
        0 <= n <= leaves.len(),
        rule.locales is None,
        forall|k: Seq<char>| #[trigger]
            any_accepts(with, k) <==> any_accepts(without, k) || accepts(rule.pattern, k),
        !suppresses(
            rule,
            inconsistent_upto(
                store.trees@,
                store.base_locale@,
                Seq::empty(),
                leaves,
                locales,
                n,
            ),
        ),
    ensures
        inconsistent_upto(store.trees@, store.base_locale@, with, leaves, locales, n)
            == inconsistent_upto(store.trees@, store.base_locale@, without, leaves, locales, n),
    decreases n,
{
    if n > 0 {
        let trees = store.trees@;
        let base = store.base_locale@;
        let leaf = leaves[n - 1];
        let bare = inconsistent_upto(trees, base, Seq::empty(), leaves, locales, n - 1);
        match string_value(leaf.value) {
            None => {
                inconsistent_leaves_stay(with, without, rule, store, leaves, locales, n - 1);
            },
            Some(value) => {
                let count = locales.len() as int;
                let own = inconsistent_in(trees, base, leaf, value, locales, count);
                parts_are_not_suppressed(rule, bare, own);
                inconsistent_leaves_stay(with, without, rule, store, leaves, locales, n - 1);
                inconsistent_rows_name_the_leaf(trees, base, leaf, value, locales, count);
                let before = inconsistent_upto(trees, base, with, leaves, locales, n - 1);
                if own.len() == 0 {
                    assert(before + own =~= before);
                } else {
                    assert(own[0].key == leaf.key);
                    assert(!suppresses_row(rule, own[0]));
                }
            },
        }
    }
}

/// Taking out a rule for every locale that is not in use changes nothing in
/// the report of inconsistent interpolations.
pub proof fn a_stale_rule_hides_no_interpolation(
    with: Seq<Seq<char>>,
    without: Seq<Seq<char>>,
    rule: RuleV,
    cfg: ConfigV,
    store: &Store,
    used: &UsedKeys,
    locales: Seq<Seq<char>>,
)
    requires
        rule.kind is Interpolations || rule.kind is Global,
        rule.locales is None,
        forall|k: Seq<char>| #[trigger]
            any_accepts(with, k) <==> any_accepts(without, k) || accepts(rule.pattern, k),
        !in_use(rule, bare_reports(cfg, store, used, locales)),
    ensures
        inconsistent_rows(store.trees@, store.base_locale@, with, locales) == inconsistent_rows(
            store.trees@,
            store.base_locale@,
            without,
            locales,
        ),
{
    if store.trees@.contains_key(store.base_locale@) {
        let leaves = sorted_of(store.trees@[store.base_locale@].data());
        inconsistent_leaves_stay(
            with,
            without,
            rule,
            store,
            leaves,
            locales,
            leaves.len() as int,
        );
    }
}

// ------------------------------------------------------------------ unused keys

proof fn nothing_collapses(keys: Seq<Seq<char>>, hits: Seq<Seq<char>>, n: int)
    requires
        0 <= n <= hits.len(),
        forall|p: Seq<char>| !#[trigger] plural_node_of(keys, p),
    ensures
        collapsed_upto(keys, hits, n) == hits.take(n),
    decreases n,
{
    if n > 0 {
        nothing_collapses(keys, hits, n - 1);
        assert(hits.take(n) =~= hits.take(n - 1).push(hits[n - 1]));
    } else {
        assert(hits.take(0) =~= Seq::empty());
    }
}

/// No key that nothing uses matches the pattern.
spec fn none_accepted(pattern: Seq<char>, keys: Seq<Seq<char>>) -> bool {
    forall|i: int| 0 <= i < keys.len() ==> !accepts(pattern, #[trigger] keys[i])
}

proof fn unused_leaves_stay(
    bare: UseV,
    with: UseV,
    without: UseV,
    pattern: Seq<char>,
    leaves: Seq<LeafV>,
    n: int,
)
    requires
        0 <= n <= leaves.len(),
        bare.ignore.len() == 0,
        with == (UseV { ignore: with.ignore, ..bare }),
        without == (UseV { ignore: without.ignore, ..bare }),
        forall|k: Seq<char>| #[trigger]
            any_accepts(with.ignore, k) <==> any_accepts(without.ignore, k) || accepts(pattern, k),
        none_accepted(pattern, unused_upto(bare, leaves, n)),
    ensures
        unused_upto(with, leaves, n) == unused_upto(without, leaves, n),
    decreases n,
{
    if n > 0 {
        let key = leaves[n - 1].key;
        let before = unused_upto(bare, leaves, n - 1);
        let now = unused_upto(bare, leaves, n);
        assert forall|i: int| 0 <= i < before.len() implies !accepts(
            pattern,
            #[trigger] before[i],
        ) by {
            assert(now[i] == before[i]);
        }
        unused_leaves_stay(bare, with, without, pattern, leaves, n - 1);
        if bare.unused(key) {
            assert(now[before.len() as int] == key);
        }
        assert(any_accepts(with.ignore, key) <==> any_accepts(without.ignore, key) || accepts(
            pattern,
            key,
        ));
    }
}

proof fn unused_rows_stay(
    with: ConfigV,
    without: ConfigV,
    rule: RuleV,
    store: &Store,
    used: &UsedKeys,
    locales: Seq<Seq<char>>,
    n: int,
)
    requires
        0 <= n <= locales.len(),
        rule.locales is None,
        no_plural_nodes(store),
        forall|k: Seq<char>| #[trigger]
            any_accepts(with.ignored(IgnoreType::Unused, None), k) <==> any_accepts(
                without.ignored(IgnoreType::Unused, None),
                k,
            ) || accepts(rule.pattern, k),
        !suppresses(rule, unused_rows(with.without_rules(), store, used, locales, n)),
    ensures
        unused_rows(with, store, used, locales, n) == unused_rows(
            without,
            store,
            used,
            locales,
            n,
        ),
    decreases n,
{
    if n > 0 {
        let bare = with.without_rules();
        let before = unused_rows(bare, store, used, locales, n - 1);
        let locale = locales[n - 1];
        if store.trees@.contains_key(locale) {
            let tree = store.trees@[locale];
            let hits = unused_in(bare, store, used, locale);
            let own = unused_locale_rows(tree, locale, collapsed(tree.keys(), hits));
            nothing_collapses(tree.keys(), hits, hits.len() as int);
            assert(hits.take(hits.len() as int) =~= hits);
            parts_are_not_suppressed(rule, before, own);
            assert forall|i: int| 0 <= i < hits.len() implies !accepts(
                rule.pattern,
                #[trigger] hits[i],
            ) by {
                assert(own[i].key == hits[i]);
                assert(!suppresses_row(rule, own[i]));
            }
            let leaves = sorted_of(tree.data());
            assert(bare.ignored(IgnoreType::Unused, None) =~= Seq::empty());
            unused_leaves_stay(
                use_in(bare, store, used, locale),
                use_in(with, store, used, locale),
                use_in(without, store, used, locale),
                rule.pattern,
                leaves,
                leaves.len() as int,
            );
        }
        unused_rows_stay(with, without, rule, store, used, locales, n - 1);
    }
}

/// No locale has a plural node.
pub open spec fn no_plural_nodes(store: &Store) -> bool {
    forall|l: Seq<char>, p: Seq<char>| #[trigger]
        store.trees@.contains_key(l) ==> !#[trigger] plural_node_of(store.trees@[l].keys(), p)
}

/// Taking out a rule for every locale that is not in use brings no new unused
/// key into the report. A plural node is reported as one key, which a rule for
/// its categories does not name, so there must be none.
pub proof fn a_stale_rule_hides_no_unused_key(
    with: ConfigV,
    without: ConfigV,
    rule: RuleV,
    store: &Store,
    used: &UsedKeys,
    locales: Seq<Seq<char>>,
)
    requires
        rule.kind is Unused || rule.kind is Global,
        rule.locales is None,
        no_plural_nodes(store),
        forall|k: Seq<char>| #[trigger]
            any_accepts(with.ignored(IgnoreType::Unused, None), k) <==> any_accepts(
                without.ignored(IgnoreType::Unused, None),
                k,
            ) || accepts(rule.pattern, k),
        !in_use(rule, bare_reports(with, store, used, locales)),
    ensures
        unused_rows(with, store, used, locales, locales.len() as int) == unused_rows(
            without,
            store,
            used,
            locales,
            locales.len() as int,
        ),
{
    unused_rows_stay(with, without, rule, store, used, locales, locales.len() as int);
}

// ----------------------------------------------------------------- missing keys

/// Every call of a key names that key and no other one.
pub open spec fn calls_are_exact(used: &UsedKeys) -> bool {
    forall|k: Seq<char>, i: int|
        0 <= i < occurrences_at(used.keys@, k).len() ==> candidates(
            k,
            #[trigger] occurrences_at(used.keys@, k)[i],
        ) == seq![k]
}

/// The pattern lists agree on a key that the rule does not suppress.
proof fn ignored_alike(
    with: ConfigV,
    without: ConfigV,
    rule: RuleV,
    ty: IgnoreType,
    row: KeyRowV,
)
    requires
        differ_by(with, without, rule, ty),
        !suppresses_row(rule, row),
    ensures
        any_accepts(with.ignored(ty, Some(row.locale)), row.key) == any_accepts(
            without.ignored(ty, Some(row.locale)),
            row.key,
        ),
{
    assert(any_accepts(with.ignored(ty, Some(row.locale)), row.key) <==> any_accepts(
        without.ignored(ty, Some(row.locale)),
        row.key,
    ) || applies_to(rule.locales, row.locale) && accepts(rule.pattern, row.key));
}

proof fn last_row_is_not_suppressed(rule: RuleV, before: Seq<KeyRowV>, row: Option<KeyRowV>)
    requires
        !suppresses(rule, with_row(before, row)),
    ensures
        !suppresses(rule, before),
        row is Some ==> !suppresses_row(rule, row->Some_0),
{
    let one = match row {
        Some(r) => seq![r],
        None => Seq::empty(),
    };
    assert(with_row(before, row) =~= before + one);
    parts_are_not_suppressed(rule, before, one);
    if row is Some {
        assert(!suppresses_row(rule, one[0]));
    }
}

proof fn used_row_stays(
    with: ConfigV,
    without: ConfigV,
    rule: RuleV,
    trees: TreesV,
    used: &UsedKeys,
    locale: Seq<char>,
    key: Seq<char>,
)
    requires
        differ_by(with, without, rule, IgnoreType::Missing),
        calls_are_exact(used),
        used.wf(),
        used.keys@.contains_key(key),
        ({
            let row = used_row(trees, Seq::empty(), locale, key, occurrences_at(used.keys@, key));
            row is Some ==> !suppresses_row(rule, row->Some_0)
        }),
    ensures
        used_row(
            trees,
            with.ignored(IgnoreType::Missing, Some(locale)),
            locale,
            key,
            occurrences_at(used.keys@, key),
        ) == used_row(
            trees,
            without.ignored(IgnoreType::Missing, Some(locale)),
            locale,
            key,
            occurrences_at(used.keys@, key),
        ),
{
    let calls = occurrences_at(used.keys@, key);
    let a = with.ignored(IgnoreType::Missing, Some(locale));
    let b = without.ignored(IgnoreType::Missing, Some(locale));
    exact_calls_are_missing_alike(trees, Seq::empty(), locale, key, calls);
    exact_calls_are_missing_alike(trees, a, locale, key, calls);
    exact_calls_are_missing_alike(trees, b, locale, key, calls);
    if all_missing(trees, Seq::empty(), locale, key, calls) {
        let row = used_row(trees, Seq::empty(), locale, key, calls)->Some_0;
        ignored_alike(with, without, rule, IgnoreType::Missing, row);
    }
}

proof fn exact_calls_are_missing_alike(
    trees: TreesV,
    ignore: Seq<Seq<char>>,
    locale: Seq<char>,
    key: Seq<char>,
    calls: Seq<OccurrenceV>,
)
    requires
        calls.len() > 0,
        forall|i: int| 0 <= i < calls.len() ==> candidates(key, #[trigger] calls[i]) == seq![key],
    ensures
        all_missing(trees, ignore, locale, key, calls) == is_missing(trees, ignore, locale, key),
{
    if all_missing(trees, ignore, locale, key, calls) {
        assert(occurrence_missing(trees, ignore, locale, key, calls[0]));
        assert(candidates(key, calls[0])[0] == key);
    }
    if is_missing(trees, ignore, locale, key) {
        assert forall|i: int| 0 <= i < calls.len() implies occurrence_missing(
            trees,
            ignore,
            locale,
            key,
            #[trigger] calls[i],
        ) by {}
    }
}

proof fn used_keys_stay(
    with: ConfigV,
    without: ConfigV,
    rule: RuleV,
    trees: TreesV,
    used: &UsedKeys,
    locale: Seq<char>,
    n: int,
)
    requires
        0 <= n <= used.keys.order().len(),
        differ_by(with, without, rule, IgnoreType::Missing),
        calls_are_exact(used),
        used.wf(),
        used.keys.ordered(),
        !suppresses(
            rule,
            used_keys_rows(trees, Seq::empty(), locale, used.keys.order(), used.keys@, n),
        ),
    ensures
        used_keys_rows(
            trees,
            with.ignored(IgnoreType::Missing, Some(locale)),
            locale,
            used.keys.order(),
            used.keys@,
            n,
        ) == used_keys_rows(
            trees,
            without.ignored(IgnoreType::Missing, Some(locale)),
            locale,
            used.keys.order(),
            used.keys@,
            n,
        ),
    decreases n,
{
    if n > 0 {
        let order = used.keys.order();
        let key = order[n - 1];
        assert(order.contains(key));
        last_row_is_not_suppressed(
            rule,
            used_keys_rows(trees, Seq::empty(), locale, order, used.keys@, n - 1),
            used_row(trees, Seq::empty(), locale, key, occurrences_at(used.keys@, key)),
        );
        used_keys_stay(with, without, rule, trees, used, locale, n - 1);
        used_row_stays(with, without, rule, trees, used, locale, key);
    }
}

proof fn used_rows_stay(
    with: ConfigV,
    without: ConfigV,
    rule: RuleV,
    trees: TreesV,
    used: &UsedKeys,
    locales: Seq<Seq<char>>,
    n: int,
)
    requires
        0 <= n <= locales.len(),
        differ_by(with, without, rule, IgnoreType::Missing),
        calls_are_exact(used),
        used.wf(),
        used.keys.ordered(),
        !suppresses(rule, used_rows(with.without_rules(), trees, used, locales, n)),
    ensures
        used_rows(with, trees, used, locales, n) == used_rows(without, trees, used, locales, n),
    decreases n,
{
    if n > 0 {
        let locale = locales[n - 1];
        let order = used.keys.order();
        let bare = with.without_rules();
        assert(bare.ignored(IgnoreType::Missing, Some(locale)) =~= Seq::empty());
        parts_are_not_suppressed(
            rule,
            used_rows(bare, trees, used, locales, n - 1),
            used_keys_rows(
                trees,
                Seq::empty(),
                locale,
                order,
                used.keys@,
                order.len() as int,
            ),
        );
        used_rows_stay(with, without, rule, trees, used, locales, n - 1);
        used_keys_stay(with, without, rule, trees, used, locale, order.len() as int);
    }
}

proof fn plural_nodes_stay(
    with: ConfigV,
    without: ConfigV,
    rule: RuleV,
    keys: Seq<Seq<char>>,
    required: Seq<Seq<char>>,
    locale: Seq<char>,
    nodes: Seq<Seq<char>>,
    n: int,
)
    requires
        0 <= n <= nodes.len(),
        differ_by(with, without, rule, IgnoreType::Missing),
        !suppresses(rule, plural_nodes_rows(keys, required, Seq::empty(), locale, nodes, n)),
    ensures
        plural_nodes_rows(
            keys,
            required,
            with.ignored(IgnoreType::Missing, Some(locale)),
            locale,
            nodes,
            n,
        ) == plural_nodes_rows(
            keys,
            required,
            without.ignored(IgnoreType::Missing, Some(locale)),
            locale,
            nodes,
            n,
        ),
    decreases n,
{
    if n > 0 {
        let row = plural_row(keys, required, Seq::empty(), locale, nodes[n - 1]);
        last_row_is_not_suppressed(
            rule,
            plural_nodes_rows(keys, required, Seq::empty(), locale, nodes, n - 1),
            row,
        );
        plural_nodes_stay(with, without, rule, keys, required, locale, nodes, n - 1);
        if row is Some {
            ignored_alike(with, without, rule, IgnoreType::Missing, row->Some_0);
        }
    }
}

proof fn plural_rows_stay(
    with: ConfigV,
    without: ConfigV,
    rule: RuleV,
    trees: TreesV,
    locales: Seq<Seq<char>>,
    n: int,
)
    requires
        0 <= n <= locales.len(),
        differ_by(with, without, rule, IgnoreType::Missing),
        !suppresses(rule, plural_rows(with.without_rules(), trees, locales, n)),
    ensures
        plural_rows(with, trees, locales, n) == plural_rows(without, trees, locales, n),
    decreases n,
{
    if n > 0 {
        let locale = locales[n - 1];
        let bare = with.without_rules();
        assert(bare.ignored(IgnoreType::Missing, Some(locale)) =~= Seq::empty());
        if required_categories_of(locale) is Some && trees.own.contains_key(locale) {
            let required = required_categories_of(locale)->Some_0;
            let keys = trees.own[locale].keys();
            let nodes = plural_nodes_in(keys);
            let count = nodes.len() as int;
            parts_are_not_suppressed(
                rule,
                plural_rows(bare, trees, locales, n - 1),
                plural_nodes_rows(keys, required, Seq::empty(), locale, nodes, count),
            );
            plural_nodes_stay(with, without, rule, keys, required, locale, nodes, count);
        }
        plural_rows_stay(with, without, rule, trees, locales, n - 1);
    }
}

proof fn diff_leaves_stay(
    with: ConfigV,
    without: ConfigV,
    rule: RuleV,
    trees: TreesV,
    base: Seq<char>,
    locale: Seq<char>,
    source: Seq<char>,
    leaves: Seq<LeafV>,
    n: int,
)
    requires
        0 <= n <= leaves.len(),
        differ_by(with, without, rule, IgnoreType::Missing),
        !suppresses(rule, diff_leaves(trees, base, Seq::empty(), locale, source, leaves, n)),
    ensures
        diff_leaves(
            trees,
            base,
            with.ignored(IgnoreType::Missing, Some(locale)),
            locale,
            source,
            leaves,
            n,
        ) == diff_leaves(
            trees,
            base,
            without.ignored(IgnoreType::Missing, Some(locale)),
            locale,
            source,
            leaves,
            n,
        ),
    decreases n,
{
    if n > 0 {
        let row = diff_row(trees, base, Seq::empty(), locale, source, leaves[n - 1]);
        last_row_is_not_suppressed(
            rule,
            diff_leaves(trees, base, Seq::empty(), locale, source, leaves, n - 1),
            row,
        );
        diff_leaves_stay(with, without, rule, trees, base, locale, source, leaves, n - 1);
        if row is Some {
            ignored_alike(with, without, rule, IgnoreType::Missing, row->Some_0);
        }
    }
}

proof fn diff_between_stays(
    with: ConfigV,
    without: ConfigV,
    rule: RuleV,
    trees: TreesV,
    base: Seq<char>,
    locale: Seq<char>,
    source: Seq<char>,
)
    requires
        differ_by(with, without, rule, IgnoreType::Missing),
        !suppresses(rule, diff_between(trees, base, Seq::empty(), locale, source)),
    ensures
        diff_between(
            trees,
            base,
            with.ignored(IgnoreType::Missing, Some(locale)),
            locale,
            source,
        ) == diff_between(
            trees,
            base,
            without.ignored(IgnoreType::Missing, Some(locale)),
            locale,
            source,
        ),
{
    if trees.own.contains_key(source) {
        let leaves = sorted_of(trees.own[source].data());
        let count = leaves.len() as int;
        diff_leaves_stay(with, without, rule, trees, base, locale, source, leaves, count);
    }
}

proof fn diff_from_base_stays(
    with: ConfigV,
    without: ConfigV,
    rule: RuleV,
    trees: TreesV,
    base: Seq<char>,
    locales: Seq<Seq<char>>,
    n: int,
)
    requires
        0 <= n <= locales.len(),
        differ_by(with, without, rule, IgnoreType::Missing),
        !suppresses(rule, diff_from_base(with.without_rules(), trees, base, locales, n)),
    ensures
        diff_from_base(with, trees, base, locales, n) == diff_from_base(
            without,
            trees,
            base,
            locales,
            n,
        ),
    decreases n,
{
    if n > 0 {
        let locale = locales[n - 1];
        let bare = with.without_rules();
        assert(bare.ignored(IgnoreType::Missing, Some(locale)) =~= Seq::empty());
        if locale != base {
            parts_are_not_suppressed(
                rule,
                diff_from_base(bare, trees, base, locales, n - 1),
                diff_between(trees, base, Seq::empty(), locale, base),
            );
            diff_between_stays(with, without, rule, trees, base, locale, base);
        }
        diff_from_base_stays(with, without, rule, trees, base, locales, n - 1);
    }
}

proof fn diff_to_base_stays(
    with: ConfigV,
    without: ConfigV,
    rule: RuleV,
    trees: TreesV,
    base: Seq<char>,
    all: Seq<Seq<char>>,
    n: int,
)
    requires
        0 <= n <= all.len(),
        differ_by(with, without, rule, IgnoreType::Missing),
        !suppresses(rule, diff_to_base(with.without_rules(), trees, base, all, n)),
    ensures
        diff_to_base(with, trees, base, all, n) == diff_to_base(without, trees, base, all, n),
    decreases n,
{
    if n > 0 {
        let locale = all[n - 1];
        let bare = with.without_rules();
        assert(bare.ignored(IgnoreType::Missing, Some(base)) =~= Seq::empty());
        if locale != base {
            parts_are_not_suppressed(
                rule,
                diff_to_base(bare, trees, base, all, n - 1),
                diff_between(trees, base, Seq::empty(), base, locale),
            );
            diff_between_stays(with, without, rule, trees, base, base, locale);
        }
        diff_to_base_stays(with, without, rule, trees, base, all, n - 1);
    }
}

/// A row that repeats an earlier one has the locale and the key of a row that
/// stays.
proof fn repeated_rows_are_not_suppressed(rule: RuleV, rows: Seq<KeyRowV>, n: int)
    requires
        0 <= n <= rows.len(),
        !suppresses(rule, first_only(rows, n)),
    ensures
        forall|i: int| 0 <= i < n ==> !suppresses_row(rule, #[trigger] rows[i]),
    decreases n,
{
    if n > 0 {
        let before = first_only(rows, n - 1);
        if repeats(rows, n - 1) {
            repeated_rows_are_not_suppressed(rule, rows, n - 1);
            let j = choose|j: int|
                0 <= j < n - 1 && (#[trigger] rows[j]).locale == rows[n - 1].locale && rows[j].key
                    == rows[n - 1].key;
            assert(!suppresses_row(rule, rows[j]));
        } else {
            last_row_is_not_suppressed(rule, before, Some(rows[n - 1]));
            repeated_rows_are_not_suppressed(rule, rows, n - 1);
        }
    }
}

proof fn diff_rows_stay(
    with: ConfigV,
    without: ConfigV,
    rule: RuleV,
    trees: TreesV,
    base: Seq<char>,
    all: Seq<Seq<char>>,
    locales: Seq<Seq<char>>,
)
    requires
        differ_by(with, without, rule, IgnoreType::Missing),
        !suppresses(rule, diff_rows(with.without_rules(), trees, base, all, locales)),
    ensures
        diff_rows(with, trees, base, all, locales) == diff_rows(
            without,
            trees,
            base,
            all,
            locales,
        ),
{
    let bare = with.without_rules();
    let from = diff_from_base(bare, trees, base, locales, locales.len() as int);
    let to = if locales.contains(base) {
        diff_to_base(bare, trees, base, all, all.len() as int)
    } else {
        Seq::empty()
    };
    let rows = from + to;
    repeated_rows_are_not_suppressed(rule, rows, rows.len() as int);
    assert(!suppresses(rule, rows));
    parts_are_not_suppressed(rule, from, to);
    diff_from_base_stays(with, without, rule, trees, base, locales, locales.len() as int);
    if locales.contains(base) {
        diff_to_base_stays(with, without, rule, trees, base, all, all.len() as int);
    }
}

/// Taking out a rule that is not in use brings no new missing key into the
/// report. A call that may resolve to several keys is reported under its first
/// one only, so every call must name one key.
pub proof fn a_stale_rule_hides_no_missing_key(
    with: ConfigV,
    without: ConfigV,
    rule: RuleV,
    store: &Store,
    used: &UsedKeys,
    locales: Seq<Seq<char>>,
)
    requires
        rule.kind is Missing || rule.kind is Global,
        used.wf(),
        used.keys.ordered(),
        calls_are_exact(used),
        differ_by(with, without, rule, IgnoreType::Missing),
        !in_use(rule, bare_reports(with, store, used, locales)),
    ensures
        ({
            let types = seq![MissingType::Used, MissingType::Diff, MissingType::Plural];
            missing_rows(with, store, used, locales, types, 3) == missing_rows(
                without,
                store,
                used,
                locales,
                types,
                3,
            )
        }),
{
    let types = seq![MissingType::Used, MissingType::Diff, MissingType::Plural];
    let bare = with.without_rules();
    let trees = trees_of(store);
    let base = store.base_locale@;
    let all = texts(store.locales@);
    let count = locales.len() as int;
    let a = used_rows(bare, trees, used, locales, count);
    let b = diff_rows(bare, trees, base, all, locales);
    let c = plural_rows(bare, trees, locales, count);
    reveal_with_fuel(missing_rows, 4);
    assert(missing_rows(bare, store, used, locales, types, 3) =~= (a + b) + c);
    parts_are_not_suppressed(rule, a + b, c);
    parts_are_not_suppressed(rule, a, b);
    used_rows_stay(with, without, rule, trees, used, locales, count);
    diff_rows_stay(with, without, rule, trees, base, all, locales);
    plural_rows_stay(with, without, rule, trees, locales, count);
}

} // verus!
