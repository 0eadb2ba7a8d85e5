//! What the rows of the reports say, and that the reports are what they are
//! made of.
use crate::config::{Config, ConfigV, IgnoreType};
use crate::data::load::{plural_nodes_in, sorted_of, LeafV, LocaleTree};
use crate::data::store::Store;
use crate::laws::eq_base::{equals_base, exactly_the_values_of_the_base_locale_are_reported};
use crate::laws::interpolations::{
    a_string_is_found, differs_from_base, exactly_the_differing_strings_are_reported,
    exactly_the_strings_with_reserved_names_are_reported, kept_names, kept_names_are_reserved,
    reserved_names_hold, string_for, uses_kept_name,
};
use crate::laws::missing::{
    a_difference_is_reported_exactly_where_the_other_side_has_the_key, a_form_is_absent,
    a_plural_is_reported_exactly_where_a_form_is_absent,
    a_used_key_is_reported_exactly_where_no_call_is_served, is_missing_difference, is_missing_form,
    each_type_is_reported_as_if_alone, is_missing_use, keys_in_store,
};
use crate::laws::plural::{every_language_needs_other, names_a_form, the_plurals_are_listed};
use crate::laws::unused::{
    a_leaf_is_unused_exactly_where_nothing_uses_it, exactly_the_unused_keys_are_reported, is_shown,
    is_unused,
};
use crate::laws::values::{
    has_leaf, is_ignored, leaves_are_keys, reports, reports_joined, sorted_is_the_leaves,
};
use crate::plural::{depluralized, required_categories_of};
use crate::report::eq_base::{eq_base_leaves, eq_base_row, eq_base_rows, EqBaseReport};
use crate::report::interpolations::{
    inconsistent_in, inconsistent_row, inconsistent_upto, reserved_in, reserved_leaves,
    reserved_row, reserved_rows, string_value, variable_name_of, variables_of, InterpolationReport,
};
use crate::report::missing::{
    diff_between, diff_from_base, diff_leaves, diff_row, diff_rows, diff_to_base, first_only,
    missing_rows, plural_nodes_rows, plural_row, plural_rows, trees_of, used_keys_rows, used_row,
    used_rows, MissingReport, MissingType,
};
use crate::report::unused::{
    collapsed, holds, unused_in, unused_locale_rows, unused_rows, UnusedReport,
};
use crate::report::{rows_model, with_row, KeyRowV, ReasonV};
use crate::text::{distinct, distinct_is_distinct, sorted_has_no_duplicates, texts};
use crate::used::{occurrences_at, UsedKeys};
use vstd::prelude::*;

verus! {

/// What is said of a row holds of all rows.
pub open spec fn all_are(rows: Seq<KeyRowV>, p: spec_fn(KeyRowV) -> bool) -> bool {
    forall|i: int| 0 <= i < rows.len() ==> p(#[trigger] rows[i])
}

proof fn all_joined(a: Seq<KeyRowV>, b: Seq<KeyRowV>, p: spec_fn(KeyRowV) -> bool)
    requires
        all_are(a, p),
        all_are(b, p),
    ensures
        all_are(a + b, p),
{
    let rows = a + b;
    assert forall|i: int| 0 <= i < rows.len() implies p(#[trigger] rows[i]) by {
        if i < a.len() {
            assert(rows[i] == a[i]);
        } else {
            assert(rows[i] == b[i - a.len()]);
        }
    }
}

proof fn all_and_one_more(a: Seq<KeyRowV>, row: Option<KeyRowV>, p: spec_fn(KeyRowV) -> bool)
    requires
        all_are(a, p),
        row is Some ==> p(row->Some_0),
    ensures
        all_are(with_row(a, row), p),
{
    let rows = with_row(a, row);
    assert forall|i: int| 0 <= i < rows.len() implies p(#[trigger] rows[i]) by {
        if i < a.len() {
            assert(rows[i] == a[i]);
        }
    }
}

/// The locale has a leaf with the key, and it is shown like this.
pub open spec fn leaf_shows(
    trees: Map<Seq<char>, LocaleTree>,
    locale: Seq<char>,
    key: Seq<char>,
    shown: Seq<char>,
) -> bool {
    trees.contains_key(locale) && exists|i: int|
        0 <= i < trees[locale].leaves.len() && (#[trigger] trees[locale].leaves@[i]).key@ == key
            && trees[locale].leaves@[i].value@.displayed() == shown
}

proof fn a_leaf_of_the_data_shows(
    trees: Map<Seq<char>, LocaleTree>,
    locale: Seq<char>,
    leaf: LeafV,
)
    requires
        trees.contains_key(locale),
        trees[locale].data().contains(leaf),
    ensures
        leaf_shows(trees, locale, leaf.key, leaf.value.displayed()),
        leaf.value is Str ==> string_for(trees, locale, leaf.key, leaf.value->Str_0),
{
    let tree = trees[locale];
    let i = tree.data().index_of(leaf);
    assert(tree.data()[i] == tree.leaves@[i]@);
    assert(tree.leaves@[i].key@ == leaf.key);
}

// ------------------------------------------------------------------------- unused

/// A row of an unused key shows the value of its leaf; that of a plural shows
/// none.
pub open spec fn shows_its_value(trees: Map<Seq<char>, LocaleTree>, row: KeyRowV) -> bool {
    &&& row.reason is None
    &&& trees.contains_key(row.locale)
    &&& match row.value {
        Some(shown) => leaf_shows(trees, row.locale, row.key, shown),
        None => !has_leaf(trees[row.locale], row.key),
    }
}

proof fn unused_rows_show_their_values(
    cfg: ConfigV,
    store: &Store,
    used: &UsedKeys,
    locales: Seq<Seq<char>>,
    n: int,
)
    requires
        store.wf(),
        0 <= n <= locales.len(),
    ensures
        all_are(
            unused_rows(cfg, store, used, locales, n),
            |r: KeyRowV| shows_its_value(store.trees@, r),
        ),
    decreases n,
{
    let p = |r: KeyRowV| shows_its_value(store.trees@, r);
    if n > 0 {
        unused_rows_show_their_values(cfg, store, used, locales, n - 1);
        let before = unused_rows(cfg, store, used, locales, n - 1);
        let locale = locales[n - 1];
        if store.trees@.contains_key(locale) {
            let tree = store.trees@[locale];
            assert(tree.wf());
            let keys = collapsed(tree.keys(), unused_in(cfg, store, used, locale));
            let rows = unused_locale_rows(tree, locale, keys);
            assert forall|i: int| 0 <= i < rows.len() implies p(#[trigger] rows[i]) by {
                a_string_is_found(tree, keys[i]);
                leaves_are_keys(tree, keys[i]);
                if let Some(leaf) = tree.found(keys[i]) {
                    a_leaf_of_the_data_shows(store.trees@, locale, leaf);
                }
            }
            all_joined(before, rows, p);
        }
    }
}

/// The report of unused keys has a row for exactly the keys that nothing uses,
/// with their values, and its keys can be removed exactly where nothing uses
/// them.
pub proof fn what_the_report_of_unused_keys_says(
    cfg: &Config,
    store: &Store,
    used: &UsedKeys,
    locales: &Vec<String>,
    r: UnusedReport,
    locale: Seq<char>,
    key: Seq<char>,
)
    requires
        store.wf(),
        call_ensures(crate::report::unused::report, (cfg, store, used, locales), r),
    ensures
        reports(rows_model(r.rows@), locale, key) <==> texts(locales@).contains(locale) && is_shown(
            cfg@,
            store,
            used,
            locale,
            key,
        ),
        all_are(rows_model(r.rows@), |row: KeyRowV| shows_its_value(store.trees@, row)),
        holds(r.removable_keys@, locale, key) <==> texts(locales@).contains(locale)
            && store.trees@.contains_key(locale) && is_unused(cfg@, store, used, locale, key),
{
    let wanted = texts(locales@);
    assert(wanted.len() == locales.len());
    exactly_the_unused_keys_are_reported(cfg@, store, used, wanted, locale, key);
    unused_rows_show_their_values(cfg@, store, used, wanted, wanted.len() as int);
    if store.trees@.contains_key(locale) {
        a_leaf_is_unused_exactly_where_nothing_uses_it(cfg@, store, used, locale, key);
    }
}

// ------------------------------------------------------------------ equal values

proof fn equal_rows_show_their_values(
    cfg: ConfigV,
    store: &Store,
    locales: Seq<Seq<char>>,
    n: int,
)
    requires
        store.wf(),
        0 <= n <= locales.len(),
    ensures
        all_are(
            eq_base_rows(cfg, store.trees@, store.base_locale@, locales, n),
            |r: KeyRowV| r.value is Some && shows_its_value(store.trees@, r),
        ),
    decreases n,
{
    let trees = store.trees@;
    let base = store.base_locale@;
    let p = |r: KeyRowV| r.value is Some && shows_its_value(trees, r);
    if n > 0 && trees.contains_key(base) {
        equal_rows_show_their_values(cfg, store, locales, n - 1);
        let locale = locales[n - 1];
        if locale != base && trees.contains_key(locale) {
            let leaves = sorted_of(trees[locale].data());
            let ignore = cfg.ignored(IgnoreType::EqBase, Some(locale));
            equal_leaves_show_their_values(trees, base, ignore, locale, leaves.len() as int);
            all_joined(
                eq_base_rows(cfg, trees, base, locales, n - 1),
                eq_base_leaves(trees[base], ignore, locale, leaves, leaves.len() as int),
                p,
            );
        }
    }
}

proof fn equal_leaves_show_their_values(
    trees: Map<Seq<char>, LocaleTree>,
    base: Seq<char>,
    ignore: Seq<Seq<char>>,
    locale: Seq<char>,
    n: int,
)
    requires
        trees.contains_key(locale),
        trees[locale].wf(),
        0 <= n <= sorted_of(trees[locale].data()).len(),
    ensures
        all_are(
            eq_base_leaves(trees[base], ignore, locale, sorted_of(trees[locale].data()), n),
            |r: KeyRowV| r.value is Some && shows_its_value(trees, r),
        ),
    decreases n,
{
    let p = |r: KeyRowV| r.value is Some && shows_its_value(trees, r);
    if n > 0 {
        let leaves = sorted_of(trees[locale].data());
        equal_leaves_show_their_values(trees, base, ignore, locale, n - 1);
        let leaf = leaves[n - 1];
        assert(leaves.contains(leaf));
        sorted_is_the_leaves(trees[locale], leaf);
        a_leaf_of_the_data_shows(trees, locale, leaf);
        all_and_one_more(
            eq_base_leaves(trees[base], ignore, locale, leaves, n - 1),
            eq_base_row(trees[base], ignore, locale, leaf),
            p,
        );
    }
}

/// The report of equal values has a row for exactly the keys whose value is
/// that of the base locale, with the value.
pub proof fn what_the_report_of_equal_values_says(
    cfg: &Config,
    store: &Store,
    locales: &Vec<String>,
    r: EqBaseReport,
    locale: Seq<char>,
    key: Seq<char>,
)
    requires
        store.wf(),
        call_ensures(crate::report::eq_base::report, (cfg, store, locales), r),
    ensures
        reports(rows_model(r.rows@), locale, key) <==> texts(locales@).contains(locale)
            && equals_base(store.trees@, store.base_locale@, locale, key) && !is_ignored(
            cfg@,
            cfg@.ignore_eq_base,
            Some(locale),
            key,
        ),
        all_are(
            rows_model(r.rows@),
            |row: KeyRowV| row.value is Some && shows_its_value(store.trees@, row),
        ),
{
    let wanted = texts(locales@);
    assert(wanted.len() == locales.len());
    exactly_the_values_of_the_base_locale_are_reported(cfg@, store, wanted, locale, key);
    equal_rows_show_their_values(cfg@, store, wanted, wanted.len() as int);
}

// ----------------------------------------------------------------- interpolations

/// The list holds exactly the variables of the text.
pub open spec fn lists_variables(list: Seq<Seq<char>>, text: Seq<char>) -> bool {
    list.no_duplicates() && forall|v: Seq<char>| #[trigger]
        list.contains(v) <==> variables_of(text).contains(v)
}

/// A row of a string whose variables differ shows the string, its variables and
/// those of the base locale.
pub open spec fn shows_both_lists(
    trees: Map<Seq<char>, LocaleTree>,
    base: Seq<char>,
    row: KeyRowV,
) -> bool {
    exists|theirs: Seq<char>, ours: Seq<char>|
        {
            &&& #[trigger] string_for(trees, row.locale, row.key, theirs)
            &&& #[trigger] string_for(trees, base, row.key, ours)
            &&& row.value == Some(theirs)
            &&& row.reason matches Some(
                ReasonV::Interpolations { variables, base_locale, base_variables },
            ) && base_locale == base && lists_variables(variables, theirs) && lists_variables(
                base_variables,
                ours,
            )
        }
}

proof fn distinct_lists_variables(text: Seq<char>)
    ensures
        lists_variables(distinct(variables_of(text)), text),
{
    distinct_is_distinct(variables_of(text));
    sorted_has_no_duplicates(distinct(variables_of(text)));
}

proof fn one_string_differs(
    trees: Map<Seq<char>, LocaleTree>,
    base: Seq<char>,
    leaf: LeafV,
    locales: Seq<Seq<char>>,
    n: int,
)
    requires
        trees.contains_key(base),
        trees[base].data().contains(leaf),
        leaf.value is Str,
        forall|l: Seq<char>| #[trigger] trees.contains_key(l) ==> trees[l].wf(),
        0 <= n <= locales.len(),
    ensures
        all_are(
            inconsistent_in(trees, base, leaf, leaf.value->Str_0, locales, n),
            |r: KeyRowV| shows_both_lists(trees, base, r),
        ),
    decreases n,
{
    let p = |r: KeyRowV| shows_both_lists(trees, base, r);
    if n > 0 {
        one_string_differs(trees, base, leaf, locales, n - 1);
        let ours = leaf.value->Str_0;
        let locale = locales[n - 1];
        let row = inconsistent_row(trees, base, leaf, ours, locale);
        if let Some(r) = row {
            a_string_is_found(trees[locale], leaf.key);
            let other = trees[locale].found(leaf.key)->Some_0;
            let theirs = string_value(other.value)->Some_0;
            a_leaf_of_the_data_shows(trees, locale, other);
            a_leaf_of_the_data_shows(trees, base, leaf);
            distinct_lists_variables(theirs);
            distinct_lists_variables(ours);
            assert(string_for(trees, r.locale, r.key, theirs));
            assert(string_for(trees, base, r.key, ours));
            assert(p(r));
        }
        all_and_one_more(inconsistent_in(trees, base, leaf, ours, locales, n - 1), row, p);
    }
}

proof fn differing_rows_show_both_lists(
    trees: Map<Seq<char>, LocaleTree>,
    base: Seq<char>,
    ignore: Seq<Seq<char>>,
    locales: Seq<Seq<char>>,
    n: int,
)
    requires
        trees.contains_key(base),
        forall|l: Seq<char>| #[trigger] trees.contains_key(l) ==> trees[l].wf(),
        0 <= n <= sorted_of(trees[base].data()).len(),
    ensures
        all_are(
            inconsistent_upto(trees, base, ignore, sorted_of(trees[base].data()), locales, n),
            |r: KeyRowV| shows_both_lists(trees, base, r),
        ),
    decreases n,
{
    let p = |r: KeyRowV| shows_both_lists(trees, base, r);
    if n > 0 {
        let leaves = sorted_of(trees[base].data());
        differing_rows_show_both_lists(trees, base, ignore, locales, n - 1);
        let leaf = leaves[n - 1];
        assert(leaves.contains(leaf));
        sorted_is_the_leaves(trees[base], leaf);
        let before = inconsistent_upto(trees, base, ignore, leaves, locales, n - 1);
        if let Some(value) = string_value(leaf.value) {
            one_string_differs(trees, base, leaf, locales, locales.len() as int);
            all_joined(
                before,
                inconsistent_in(trees, base, leaf, value, locales, locales.len() as int),
                p,
            );
        }
    }
}

/// The report of inconsistent interpolations has a row for exactly the strings
/// whose variables are not those of the base locale, with both lists.
pub proof fn what_the_report_of_inconsistent_interpolations_says(
    cfg: &Config,
    store: &Store,
    locales: &Vec<String>,
    r: InterpolationReport,
    locale: Seq<char>,
    key: Seq<char>,
)
    requires
        store.wf(),
        call_ensures(crate::report::interpolations::inconsistent, (cfg, store, locales), r),
    ensures
        reports(rows_model(r.rows@), locale, key) <==> texts(locales@).contains(locale)
            && differs_from_base(store.trees@, store.base_locale@, locale, key) && !is_ignored(
            cfg@,
            cfg@.ignore_inconsistent_interpolations,
            None,
            key,
        ),
        all_are(
            rows_model(r.rows@),
            |row: KeyRowV| shows_both_lists(store.trees@, store.base_locale@, row),
        ),
{
    let wanted = texts(locales@);
    let trees = store.trees@;
    let base = store.base_locale@;
    exactly_the_differing_strings_are_reported(cfg@, store, wanted, locale, key);
    if trees.contains_key(base) {
        differing_rows_show_both_lists(
            trees,
            base,
            cfg@.ignored(IgnoreType::InconsistentInterpolations, None),
            wanted,
            sorted_of(trees[base].data()).len() as int,
        );
    }
}

/// A row of a string with reserved names shows the string and those names.
pub open spec fn shows_kept_names(trees: Map<Seq<char>, LocaleTree>, row: KeyRowV) -> bool {
    exists|text: Seq<char>|
        {
            &&& #[trigger] string_for(trees, row.locale, row.key, text)
            &&& row.value == Some(text)
            &&& row.reason matches Some(ReasonV::Reserved { names }) && forall|name: Seq<char>|
                #[trigger]
                names.contains(name) <==> kept_names().contains(name) && exists|v: Seq<char>|
                    #[trigger]
                    variables_of(text).contains(v) && variable_name_of(v) == name
        }
}

proof fn reserved_leaves_show_names(
    trees: Map<Seq<char>, LocaleTree>,
    locale: Seq<char>,
    n: int,
)
    requires
        trees.contains_key(locale),
        trees[locale].wf(),
        0 <= n <= sorted_of(trees[locale].data()).len(),
    ensures
        all_are(
            reserved_leaves(locale, sorted_of(trees[locale].data()), n),
            |r: KeyRowV| shows_kept_names(trees, r),
        ),
    decreases n,
{
    let p = |r: KeyRowV| shows_kept_names(trees, r);
    if n > 0 {
        let leaves = sorted_of(trees[locale].data());
        reserved_leaves_show_names(trees, locale, n - 1);
        let leaf = leaves[n - 1];
        assert(leaves.contains(leaf));
        sorted_is_the_leaves(trees[locale], leaf);
        let row = reserved_row(locale, leaf);
        if let Some(r) = row {
            let text = string_value(leaf.value)->Some_0;
            a_leaf_of_the_data_shows(trees, locale, leaf);
            let all = variables_of(text);
            let names = reserved_in(text);
            assert forall|name: Seq<char>| #[trigger]
                names.contains(name) <==> kept_names().contains(name) && exists|v: Seq<char>|
                    #[trigger]
                    all.contains(v) && variable_name_of(v) == name by {
                reserved_names_hold(all, all.len() as int, name);
                kept_names_are_reserved(name);
                if exists|i: int|
                    0 <= i < all.len() && variable_name_of(#[trigger] all[i]) == name {
                    let i = choose|i: int|
                        0 <= i < all.len() && variable_name_of(#[trigger] all[i]) == name;
                    assert(all.contains(all[i]));
                }
                if exists|v: Seq<char>| #[trigger] all.contains(v) && variable_name_of(v) == name {
                    let v = choose|v: Seq<char>| #[trigger]
                        all.contains(v) && variable_name_of(v) == name;
                    let i = all.index_of(v);
                    assert(variable_name_of(all[i]) == name);
                }
            }
            assert(string_for(trees, r.locale, r.key, text));
            assert(p(r));
        }
        all_and_one_more(reserved_leaves(locale, leaves, n - 1), row, p);
    }
}

proof fn reserved_rows_show_names(store: &Store, locales: Seq<Seq<char>>, n: int)
    requires
        store.wf(),
        0 <= n <= locales.len(),
    ensures
        all_are(
            reserved_rows(store.trees@, locales, n),
            |r: KeyRowV| shows_kept_names(store.trees@, r),
        ),
    decreases n,
{
    let trees = store.trees@;
    let p = |r: KeyRowV| shows_kept_names(trees, r);
    if n > 0 {
        reserved_rows_show_names(store, locales, n - 1);
        let locale = locales[n - 1];
        if trees.contains_key(locale) {
            let leaves = sorted_of(trees[locale].data());
            reserved_leaves_show_names(trees, locale, leaves.len() as int);
            all_joined(
                reserved_rows(trees, locales, n - 1),
                reserved_leaves(locale, leaves, leaves.len() as int),
                p,
            );
        }
    }
}

/// The report of reserved interpolations has a row for exactly the strings with
/// a variable of a reserved name, with those names.
pub proof fn what_the_report_of_reserved_interpolations_says(
    store: &Store,
    locales: &Vec<String>,
    r: InterpolationReport,
    locale: Seq<char>,
    key: Seq<char>,
)
    requires
        store.wf(),
        call_ensures(crate::report::interpolations::reserved, (store, locales), r),
    ensures
        reports(rows_model(r.rows@), locale, key) <==> texts(locales@).contains(locale)
            && exists|text: Seq<char>| #[trigger]
            string_for(store.trees@, locale, key, text) && uses_kept_name(text),
        all_are(rows_model(r.rows@), |row: KeyRowV| shows_kept_names(store.trees@, row)),
{
    let wanted = texts(locales@);
    assert(wanted.len() == locales.len());
    exactly_the_strings_with_reserved_names_are_reported(store, wanted, locale, key);
    reserved_rows_show_names(store, wanted, wanted.len() as int);
}

// ------------------------------------------------------------------- missing keys

/// A row of a used key names the place of its first call.
pub open spec fn names_its_first_call(used: &UsedKeys, row: KeyRowV) -> bool {
    row.value is None && row.reason == Some(
        ReasonV::Used {
            path: used.keys@[row.key]@[0].path@,
            line: used.keys@[row.key]@[0].line_num as int,
        },
    )
}

/// A row of a difference names a locale that has the key and shows the value
/// there: in the base locale, or for the base locale in another one.
pub open spec fn names_its_source(store: &Store, row: KeyRowV) -> bool {
    row.reason matches Some(ReasonV::Diff { present_in }) && (row.locale == store.base_locale@
        <==> present_in != store.base_locale@) && store.trees@.contains_key(present_in)
        && exists|i: int|
        0 <= i < store.trees@[present_in].leaves.len() && depluralized(
            (#[trigger] store.trees@[present_in].leaves@[i]).key@,
            keys_in_store(store, present_in),
            keys_in_store(store, store.base_locale@),
        ) == row.key && row.value == Some(
            store.trees@[present_in].leaves@[i].value@.displayed(),
        )
}

/// A row of a plural names the forms that it lacks.
pub open spec fn names_its_forms(store: &Store, row: KeyRowV) -> bool {
    &&& row.value is None
    &&& store.trees@.contains_key(row.locale)
    &&& required_categories_of(row.locale) is Some
    &&& row.reason matches Some(ReasonV::Plural { categories }) && forall|form: Seq<char>| #[trigger]
        categories.contains(form) <==> required_categories_of(row.locale)->Some_0.contains(form)
            && !has_leaf(store.trees@[row.locale], row.key + "."@ + form)
}

/// A row of the report of missing keys says why it is there.
pub open spec fn gives_its_reason(store: &Store, used: &UsedKeys, row: KeyRowV) -> bool {
    ||| names_its_first_call(used, row)
    ||| names_its_source(store, row)
    ||| names_its_forms(store, row)
}

proof fn used_keys_name_their_calls(
    store: &Store,
    used: &UsedKeys,
    ignore: Seq<Seq<char>>,
    locale: Seq<char>,
    n: int,
)
    requires
        used.wf(),
        used.keys.ordered(),
        0 <= n <= used.keys.order().len(),
    ensures
        all_are(
            used_keys_rows(trees_of(store), ignore, locale, used.keys.order(), used.keys@, n),
            |r: KeyRowV| names_its_first_call(used, r),
        ),
    decreases n,
{
    let p = |r: KeyRowV| names_its_first_call(used, r);
    if n > 0 {
        let order = used.keys.order();
        used_keys_name_their_calls(store, used, ignore, locale, n - 1);
        let key = order[n - 1];
        assert(order.contains(key));
        assert(used.keys@.contains_key(key));
        assert(used.keys@[key].len() > 0);
        let occurrences = occurrences_at(used.keys@, key);
        assert(occurrences[0] == used.keys@[key]@[0]@);
        all_and_one_more(
            used_keys_rows(trees_of(store), ignore, locale, order, used.keys@, n - 1),
            used_row(trees_of(store), ignore, locale, key, occurrences),
            p,
        );
    }
}

proof fn used_rows_name_their_calls(
    cfg: ConfigV,
    store: &Store,
    used: &UsedKeys,
    locales: Seq<Seq<char>>,
    n: int,
)
    requires
        used.wf(),
        used.keys.ordered(),
        0 <= n <= locales.len(),
    ensures
        all_are(
            used_rows(cfg, trees_of(store), used, locales, n),
            |r: KeyRowV| names_its_first_call(used, r),
        ),
    decreases n,
{
    let p = |r: KeyRowV| names_its_first_call(used, r);
    if n > 0 {
        used_rows_name_their_calls(cfg, store, used, locales, n - 1);
        let ignore = cfg.ignored(IgnoreType::Missing, Some(locales[n - 1]));
        let count = used.keys.order().len() as int;
        used_keys_name_their_calls(store, used, ignore, locales[n - 1], count);
        all_joined(
            used_rows(cfg, trees_of(store), used, locales, n - 1),
            used_keys_rows(
                trees_of(store),
                ignore,
                locales[n - 1],
                used.keys.order(),
                used.keys@,
                count,
            ),
            p,
        );
    }
}

proof fn differing_leaves_name_their_source(
    store: &Store,
    ignore: Seq<Seq<char>>,
    locale: Seq<char>,
    source: Seq<char>,
    n: int,
)
    requires
        store.trees@.contains_key(source),
        store.trees@[source].wf(),
        locale == store.base_locale@ <==> source != store.base_locale@,
        0 <= n <= sorted_of(store.trees@[source].data()).len(),
    ensures
        all_are(
            diff_leaves(
                trees_of(store),
                store.base_locale@,
                ignore,
                locale,
                source,
                sorted_of(store.trees@[source].data()),
                n,
            ),
            |r: KeyRowV| names_its_source(store, r),
        ),
    decreases n,
{
    let p = |r: KeyRowV| names_its_source(store, r);
    if n > 0 {
        let tree = store.trees@[source];
        let leaves = sorted_of(tree.data());
        let base = store.base_locale@;
        differing_leaves_name_their_source(store, ignore, locale, source, n - 1);
        let leaf = leaves[n - 1];
        assert(leaves.contains(leaf));
        sorted_is_the_leaves(tree, leaf);
        let i = tree.data().index_of(leaf);
        assert(tree.data()[i] == tree.leaves@[i]@);
        let row = diff_row(trees_of(store), base, ignore, locale, source, leaf);
        if let Some(r) = row {
            assert(store.trees@[source].leaves@[i].key@ == leaf.key);
            assert(p(r));
        }
        all_and_one_more(
            diff_leaves(trees_of(store), base, ignore, locale, source, leaves, n - 1),
            row,
            p,
        );
    }
}

proof fn differences_name_their_source(
    cfg: ConfigV,
    store: &Store,
    locales: Seq<Seq<char>>,
    n: int,
    all: Seq<Seq<char>>,
    m: int,
)
    requires
        store.wf(),
        0 <= n <= locales.len(),
        0 <= m <= all.len(),
    ensures
        all_are(
            diff_from_base(cfg, trees_of(store), store.base_locale@, locales, n),
            |r: KeyRowV| names_its_source(store, r),
        ),
        all_are(
            diff_to_base(cfg, trees_of(store), store.base_locale@, all, m),
            |r: KeyRowV| names_its_source(store, r),
        ),
    decreases n + m,
{
    let p = |r: KeyRowV| names_its_source(store, r);
    let trees = trees_of(store);
    let base = store.base_locale@;
    if n > 0 {
        differences_name_their_source(cfg, store, locales, n - 1, all, m);
        let locale = locales[n - 1];
        let ignore = cfg.ignored(IgnoreType::Missing, Some(locale));
        if locale != base {
            let more = diff_between(trees, base, ignore, locale, base);
            if store.trees@.contains_key(base) {
                let count = sorted_of(store.trees@[base].data()).len() as int;
                differing_leaves_name_their_source(store, ignore, locale, base, count);
            }
            all_joined(diff_from_base(cfg, trees, base, locales, n - 1), more, p);
        }
    }
    if m > 0 {
        differences_name_their_source(cfg, store, locales, n, all, m - 1);
        let source = all[m - 1];
        let ignore = cfg.ignored(IgnoreType::Missing, Some(base));
        if source != base {
            let more = diff_between(trees, base, ignore, base, source);
            if store.trees@.contains_key(source) {
                let count = sorted_of(store.trees@[source].data()).len() as int;
                differing_leaves_name_their_source(store, ignore, base, source, count);
            }
            all_joined(diff_to_base(cfg, trees, base, all, m - 1), more, p);
        }
    }
}

proof fn first_rows_are_rows(rows: Seq<KeyRowV>, n: int, p: spec_fn(KeyRowV) -> bool)
    requires
        all_are(rows, p),
        0 <= n <= rows.len(),
    ensures
        all_are(first_only(rows, n), p),
    decreases n,
{
    if n > 0 {
        first_rows_are_rows(rows, n - 1, p);
        let before = first_only(rows, n - 1);
        assert(p(rows[n - 1]));
        all_and_one_more(before, Some(rows[n - 1]), p);
    }
}

proof fn plurals_name_their_forms(
    store: &Store,
    ignore: Seq<Seq<char>>,
    locale: Seq<char>,
    n: int,
)
    requires
        store.trees@.contains_key(locale),
        required_categories_of(locale) is Some,
        0 <= n <= plural_nodes_in(store.trees@[locale].keys()).len(),
    ensures
        all_are(
            plural_nodes_rows(
                store.trees@[locale].keys(),
                required_categories_of(locale)->Some_0,
                ignore,
                locale,
                plural_nodes_in(store.trees@[locale].keys()),
                n,
            ),
            |r: KeyRowV| names_its_forms(store, r),
        ),
    decreases n,
{
    let p = |r: KeyRowV| names_its_forms(store, r);
    if n > 0 {
        let tree = store.trees@[locale];
        let keys = tree.keys();
        let nodes = plural_nodes_in(keys);
        let required = required_categories_of(locale)->Some_0;
        plurals_name_their_forms(store, ignore, locale, n - 1);
        let key = nodes[n - 1];
        assert(nodes.contains(key));
        the_plurals_are_listed(keys, key);
        assert forall|form: Seq<char>| #[trigger] required.contains(form) implies names_a_form(
            form,
        ) by {
            every_language_needs_other(locale, form);
        }
        a_form_is_absent(tree, required, key);
        let row = plural_row(keys, required, ignore, locale, key);
        if let Some(r) = row {
            assert(p(r));
        }
        all_and_one_more(
            plural_nodes_rows(keys, required, ignore, locale, nodes, n - 1),
            row,
            p,
        );
    }
}

proof fn plural_rows_name_their_forms(
    cfg: ConfigV,
    store: &Store,
    locales: Seq<Seq<char>>,
    n: int,
)
    requires
        0 <= n <= locales.len(),
    ensures
        all_are(
            plural_rows(cfg, trees_of(store), locales, n),
            |r: KeyRowV| names_its_forms(store, r),
        ),
    decreases n,
{
    let p = |r: KeyRowV| names_its_forms(store, r);
    if n > 0 {
        plural_rows_name_their_forms(cfg, store, locales, n - 1);
        let locale = locales[n - 1];
        if required_categories_of(locale) is Some && store.trees@.contains_key(locale) {
            let keys = store.trees@[locale].keys();
            let nodes = plural_nodes_in(keys);
            let ignore = cfg.ignored(IgnoreType::Missing, Some(locale));
            let count = nodes.len() as int;
            plurals_name_their_forms(store, ignore, locale, count);
            all_joined(
                plural_rows(cfg, trees_of(store), locales, n - 1),
                plural_nodes_rows(
                    keys,
                    required_categories_of(locale)->Some_0,
                    ignore,
                    locale,
                    nodes,
                    count,
                ),
                p,
            );
        }
    }
}

proof fn a_reason_is_a_reason(
    store: &Store,
    used: &UsedKeys,
    rows: Seq<KeyRowV>,
    p: spec_fn(KeyRowV) -> bool,
)
    requires
        all_are(rows, p),
        forall|r: KeyRowV| #[trigger] p(r) ==> gives_its_reason(store, used, r),
    ensures
        all_are(rows, |r: KeyRowV| gives_its_reason(store, used, r)),
{
    assert forall|i: int| 0 <= i < rows.len() implies gives_its_reason(
        store,
        used,
        #[trigger] rows[i],
    ) by {
        assert(p(rows[i]));
    }
}

/// The key is missing in the locale, by one of the types that are asked for.
pub open spec fn is_missing_by(
    cfg: ConfigV,
    store: &Store,
    used: &UsedKeys,
    types: Seq<MissingType>,
    locale: Seq<char>,
    key: Seq<char>,
) -> bool {
    ||| types.contains(MissingType::Used) && is_missing_use(cfg, store, used, locale, key)
    ||| types.contains(MissingType::Diff) && is_missing_difference(cfg, store, locale, key)
    ||| types.contains(MissingType::Plural) && is_missing_form(cfg, store, locale, key)
}

proof fn one_more_type(types: Seq<MissingType>, n: int, t: MissingType)
    requires
        0 < n <= types.len(),
    ensures
        types.take(n).contains(t) <==> types.take(n - 1).contains(t) || t == types[n - 1],
{
    let a = types.take(n - 1);
    let b = types.take(n);
    if a.contains(t) {
        assert(b[a.index_of(t)] == t);
    }
    if t == types[n - 1] {
        assert(b[n - 1] == t);
    }
    if b.contains(t) && t != types[n - 1] {
        assert(a[b.index_of(t)] == t);
    }
}

proof fn missing_by_the_types(
    cfg: ConfigV,
    store: &Store,
    used: &UsedKeys,
    locales: Seq<Seq<char>>,
    types: Seq<MissingType>,
    n: int,
    locale: Seq<char>,
    key: Seq<char>,
)
    requires
        store.wf(),
        used.wf(),
        used.keys.ordered(),
        0 <= n <= types.len(),
    ensures
        reports(missing_rows(cfg, store, used, locales, types, n), locale, key)
            <==> locales.contains(locale) && is_missing_by(
            cfg,
            store,
            used,
            types.take(n),
            locale,
            key,
        ),
        all_are(
            missing_rows(cfg, store, used, locales, types, n),
            |r: KeyRowV| gives_its_reason(store, used, r),
        ),
    decreases n,
{
    let p = |r: KeyRowV| gives_its_reason(store, used, r);
    if n > 0 {
        missing_by_the_types(cfg, store, used, locales, types, n - 1, locale, key);
        let t = types[n - 1];
        let before = missing_rows(cfg, store, used, locales, types, n - 1);
        let own = missing_rows(cfg, store, used, locales, seq![t], 1);
        each_type_is_reported_as_if_alone(cfg, store, used, locales, types, n);
        reports_joined(before, own, locale, key);
        one_more_type(types, n, MissingType::Used);
        one_more_type(types, n, MissingType::Diff);
        one_more_type(types, n, MissingType::Plural);
        a_used_key_is_reported_exactly_where_no_call_is_served(
            cfg,
            store,
            used,
            locales,
            locale,
            key,
        );
        a_difference_is_reported_exactly_where_the_other_side_has_the_key(
            cfg,
            store,
            used,
            locales,
            locale,
            key,
        );
        a_plural_is_reported_exactly_where_a_form_is_absent(cfg, store, used, locales, locale, key);
        let trees = trees_of(store);
        let count = locales.len() as int;
        let rows = match t {
            MissingType::Used => used_rows(cfg, trees, used, locales, count),
            MissingType::Diff => diff_rows(
                cfg,
                trees,
                store.base_locale@,
                texts(store.locales@),
                locales,
            ),
            MissingType::Plural => plural_rows(cfg, trees, locales, count),
        };
        match t {
            MissingType::Used => {
                let q = |r: KeyRowV| names_its_first_call(used, r);
                used_rows_name_their_calls(cfg, store, used, locales, count);
                a_reason_is_a_reason(store, used, rows, q);
            },
            MissingType::Diff => {
                let q = |r: KeyRowV| names_its_source(store, r);
                let all = texts(store.locales@);
                differences_name_their_source(
                    cfg,
                    store,
                    locales,
                    count,
                    all,
                    all.len() as int,
                );
                let base = store.base_locale@;
                let from = diff_from_base(cfg, trees, base, locales, count);
                let to = if locales.contains(base) {
                    diff_to_base(cfg, trees, base, all, all.len() as int)
                } else {
                    Seq::empty()
                };
                all_joined(from, to, q);
                first_rows_are_rows(from + to, (from + to).len() as int, q);
                a_reason_is_a_reason(store, used, rows, q);
            },
            MissingType::Plural => {
                let q = |r: KeyRowV| names_its_forms(store, r);
                plural_rows_name_their_forms(cfg, store, locales, count);
                a_reason_is_a_reason(store, used, rows, q);
            },
        }
        all_joined(before, rows, p);
        assert(missing_rows(cfg, store, used, locales, types, n) == before + rows);
    }
}

/// The report of missing keys has a row for exactly the keys that are missing
/// by one of the types that are asked for, and each row says why.
pub proof fn what_the_report_of_missing_keys_says(
    cfg: &Config,
    store: &Store,
    used: &UsedKeys,
    locales: &Vec<String>,
    types: &Vec<MissingType>,
    r: MissingReport,
    locale: Seq<char>,
    key: Seq<char>,
)
    requires
        store.wf(),
        used.wf(),
        used.keys.ordered(),
        call_ensures(crate::report::missing::report, (cfg, store, used, locales, types), r),
    ensures
        reports(rows_model(r.rows@), locale, key) <==> texts(locales@).contains(locale)
            && is_missing_by(cfg@, store, used, types@, locale, key),
        all_are(rows_model(r.rows@), |row: KeyRowV| gives_its_reason(store, used, row)),
{
    let n = types.len() as int;
    missing_by_the_types(cfg@, store, used, texts(locales@), types@, n, locale, key);
    assert(types@.take(n) =~= types@);
}

} // verus!
