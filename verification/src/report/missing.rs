//! The report of missing keys: types `used`, `diff` and `plural`.
use crate::config::{Config, ConfigV, IgnoreType};
use crate::data::load::{borrowed_model, children_of, plural_nodes_in, sorted_of, LeafV, LocaleTree};
use crate::data::store::{holds_key, Store};
use crate::pattern::{any_accepts, PatternSet};
use crate::plural::{
    depluralize_key, depluralized, keys_in, names, required_categories, required_categories_of,
};
use crate::report::{
    cells_model, push_row, render_table, rows_model, table, with_row, KeyRow, KeyRowV, Outcome,
    Reason, ReasonV,
};
use crate::scan::{occurrences_model, Occurrence, OccurrenceV};
use crate::text::{same_text, texts};
use crate::used::{occurrences_at, UsedKeys};
use vstd::prelude::*;

verus! {

/// The three kinds of missing keys.
#[derive(Debug, Clone, Copy, PartialEq, Eq, Structural)]
pub enum MissingType {
    Used,
    Diff,
    Plural,
}

impl MissingType {
    /// Every type, in the order of the reports.
    pub fn all() -> (types: Vec<MissingType>)
        ensures
            types@ == seq![MissingType::Used, MissingType::Diff, MissingType::Plural],
    {
        let mut types: Vec<MissingType> = Vec::new();
        types.push(MissingType::Used);
        types.push(MissingType::Diff);
        types.push(MissingType::Plural);
        assert(types@ =~= seq![MissingType::Used, MissingType::Diff, MissingType::Plural]);
        types
    }
}

/// The rows of the report.
pub struct MissingReport {
    pub rows: Vec<KeyRow>,
}

/// The trees of a store.
pub struct TreesV {
    pub own: Map<Seq<char>, LocaleTree>,
    pub external: Map<Seq<char>, LocaleTree>,
}

/// The trees of a store.
pub open spec fn trees_of(store: &Store) -> TreesV {
    TreesV { own: store.trees@, external: store.external@ }
}

/// The locale has no value for the key, neither has its external data, and the
/// key is not ignored.
pub open spec fn is_missing(
    trees: TreesV,
    ignore: Seq<Seq<char>>,
    locale: Seq<char>,
    key: Seq<char>,
) -> bool {
    !holds_key(trees.own, locale, key) && !holds_key(trees.external, locale, key) && !any_accepts(
        ignore,
        key,
    )
}

fn locale_key_missing(store: &Store, ignore: &PatternSet, locale: &str, key: &str) -> (b: bool)
    requires
        store.wf(),
    ensures
        b == is_missing(trees_of(store), ignore@, locale@, key@),
{
    !store.key_value(locale, key) && !store.external_has(locale, key) && !ignore.is_match(key)
}

// ------------------------------------------------------------------------- used

/// The keys that an occurrence may resolve to.
pub open spec fn candidates(key: Seq<char>, occurrence: OccurrenceV) -> Seq<Seq<char>> {
    if occurrence.candidate_keys.len() == 0 {
        seq![key]
    } else {
        occurrence.candidate_keys
    }
}

/// Every key that any of the occurrences may resolve to is missing.
pub open spec fn all_missing(
    trees: TreesV,
    ignore: Seq<Seq<char>>,
    locale: Seq<char>,
    key: Seq<char>,
    occurrences: Seq<OccurrenceV>,
) -> bool {
    forall|i: int|
        0 <= i < occurrences.len() ==> occurrence_missing(
            trees,
            ignore,
            locale,
            key,
            #[trigger] occurrences[i],
        )
}

/// Every key that the occurrence may resolve to is missing.
pub open spec fn occurrence_missing(
    trees: TreesV,
    ignore: Seq<Seq<char>>,
    locale: Seq<char>,
    key: Seq<char>,
    occurrence: OccurrenceV,
) -> bool {
    forall|j: int|
        0 <= j < candidates(key, occurrence).len() ==> is_missing(
            trees,
            ignore,
            locale,
            #[trigger] candidates(key, occurrence)[j],
        )
}

/// The row of a key that the sources use and the locale does not have. It
/// names the first occurrence.
pub open spec fn used_row(
    trees: TreesV,
    ignore: Seq<Seq<char>>,
    locale: Seq<char>,
    key: Seq<char>,
    occurrences: Seq<OccurrenceV>,
) -> Option<KeyRowV> {
    if all_missing(trees, ignore, locale, key, occurrences) {
        Some(
            KeyRowV {
                locale,
                key,
                value: None,
                reason: Some(
                    ReasonV::Used { path: occurrences[0].path, line: occurrences[0].line_num },
                ),
            },
        )
    } else {
        None
    }
}

/// The rows of the first `n` used keys, in their order.
pub open spec fn used_keys_rows(
    trees: TreesV,
    ignore: Seq<Seq<char>>,
    locale: Seq<char>,
    order: Seq<Seq<char>>,
    keys: Map<Seq<char>, Vec<Occurrence>>,
    n: int,
) -> Seq<KeyRowV>
    decreases n,
{
    if n <= 0 {
        Seq::empty()
    } else {
        with_row(
            used_keys_rows(trees, ignore, locale, order, keys, n - 1),
            used_row(trees, ignore, locale, order[n - 1], occurrences_at(keys, order[n - 1])),
        )
    }
}

/// The rows of type `used` of the first `n` locales.
pub open spec fn used_rows(
    cfg: ConfigV,
    trees: TreesV,
    used: &UsedKeys,
    locales: Seq<Seq<char>>,
    n: int,
) -> Seq<KeyRowV>
    decreases n,
{
    if n <= 0 {
        Seq::empty()
    } else {
        used_rows(cfg, trees, used, locales, n - 1) + used_keys_rows(
            trees,
            cfg.ignored(IgnoreType::Missing, Some(locales[n - 1])),
            locales[n - 1],
            used.keys.order(),
            used.keys@,
            used.keys.order().len() as int,
        )
    }
}

fn occurrence_is_missing(
    store: &Store,
    ignore: &PatternSet,
    locale: &str,
    key: &str,
    occurrence: &Occurrence,
) -> (b: bool)
    requires
        store.wf(),
    ensures
        b == occurrence_missing(trees_of(store), ignore@, locale@, key@, occurrence@),
{
    let ghost all = candidates(key@, occurrence@);
    let keys = &occurrence.candidate_keys;
    assert(texts(keys@).len() == keys.len());
    if keys.len() == 0 {
        assert(all =~= seq![key@]);
        let b = locale_key_missing(store, ignore, locale, key);
        assert(all[0] == key@);
        return b;
    }
    let mut j: usize = 0;
    while j < keys.len()
        invariant
            j <= keys.len(),
            store.wf(),
            all == texts(keys@),
            all == candidates(key@, occurrence@),
            forall|i: int|
                0 <= i < j ==> is_missing(
                    trees_of(store),
                    ignore@,
                    locale@,
                    #[trigger] all[i],
                ),
        decreases keys.len() - j,
    {
        assert(all[j as int] == keys@[j as int]@);
        if !locale_key_missing(store, ignore, locale, &keys[j]) {
            return false;
        }
        j = j + 1;
    }
    true
}

/// A scanned key with no value in the locale. An occurrence counts as present
/// when any of its candidate keys resolves, and the key is reported only when
/// every occurrence is missing.
fn missing_used(
    cfg: &Config,
    store: &Store,
    used: &UsedKeys,
    locales: &Vec<String>,
    rows: &mut Vec<KeyRow>,
)
    requires
        store.wf(),
        used.wf(),
    ensures
        rows_model(final(rows)@) == rows_model(old(rows)@) + used_rows(
            cfg@,
            trees_of(store),
            used,
            texts(locales@),
            locales.len() as int,
        ),
{
    let ghost trees = trees_of(store);
    let ghost wanted = texts(locales@);
    let ghost start = rows_model(rows@);
    let n = used.keys.len();
    let ghost order = used.keys.order();
    let mut k: usize = 0;
    assert(start + used_rows(cfg@, trees, used, wanted, 0) =~= start);
    while k < locales.len()
        invariant
            k <= locales.len(),
            store.wf(),
            used.wf(),
            trees == trees_of(store),
            wanted == texts(locales@),
            order == used.keys.order(),
            n == order.len(),
            used.keys.ordered(),
            rows_model(rows@) == start + used_rows(cfg@, trees, used, wanted, k as int),
        decreases locales.len() - k,
    {
        let locale = &locales[k];
        assert(wanted[k as int] == locale@);
        let ignore = cfg.ignore_patterns(IgnoreType::Missing, Some(locale.as_str()));
        let ghost before = rows_model(rows@);
        let mut i: usize = 0;
        assert(before + used_keys_rows(trees, ignore@, locale@, order, used.keys@, 0) =~= before);
        while i < n
            invariant
                i <= n == order.len(),
                store.wf(),
                used.wf(),
                trees == trees_of(store),
                order == used.keys.order(),
                used.keys.ordered(),
                rows_model(rows@) == before + used_keys_rows(
                    trees,
                    ignore@,
                    locale@,
                    order,
                    used.keys@,
                    i as int,
                ),
            decreases n - i,
        {
            let key = used.keys.key_at(i);
            let occurrences = used.keys.value_at(i);
            let ghost model = occurrences_at(used.keys@, key@);
            assert(model =~= occurrences_model(occurrences@));
            let mut missing = true;
            let mut o: usize = 0;
            while o < occurrences.len() && missing
                invariant
                    o <= occurrences.len(),
                    store.wf(),
                    trees == trees_of(store),
                    model == occurrences_model(occurrences@),
                    missing ==> forall|j: int|
                        0 <= j < o ==> occurrence_missing(
                            trees,
                            ignore@,
                            locale@,
                            key@,
                            #[trigger] model[j],
                        ),
                    !missing ==> exists|j: int|
                        0 <= j < model.len() && !occurrence_missing(
                            trees,
                            ignore@,
                            locale@,
                            key@,
                            #[trigger] model[j],
                        ),
                decreases occurrences.len() - o,
            {
                assert(model[o as int] == occurrences@[o as int]@);
                if !occurrence_is_missing(store, &ignore, locale, key, &occurrences[o]) {
                    missing = false;
                }
                o = o + 1;
            }
            assert(missing == all_missing(trees, ignore@, locale@, key@, model));
            if missing {
                assert(model[0] == occurrences@[0]@);
                let first = &occurrences[0];
                push_row(
                    rows,
                    KeyRow {
                        locale: locale.clone(),
                        key: key.clone(),
                        value: None,
                        reason: Some(
                            Reason::Used { path: first.path.clone(), line: first.line_num },
                        ),
                    },
                );
            }
            i = i + 1;
            assert(rows_model(rows@) =~= before + used_keys_rows(
                trees,
                ignore@,
                locale@,
                order,
                used.keys@,
                i as int,
            ));
        }
        k = k + 1;
        assert(rows_model(rows@) =~= start + used_rows(cfg@, trees, used, wanted, k as int));
    }
}

// ------------------------------------------------------------------------- diff

/// The keys of a locale that may have no data.
pub open spec fn keys_of_locale(trees: TreesV, locale: Seq<char>) -> Option<Seq<Seq<char>>> {
    if trees.own.contains_key(locale) {
        Some(trees.own[locale].keys())
    } else {
        None
    }
}

/// The row of a leaf that `source` has and `locale` has not.
pub open spec fn diff_row(
    trees: TreesV,
    base: Seq<char>,
    ignore: Seq<Seq<char>>,
    locale: Seq<char>,
    source: Seq<char>,
    leaf: LeafV,
) -> Option<KeyRowV> {
    let key = depluralized(
        leaf.key,
        keys_of_locale(trees, source),
        keys_of_locale(trees, base),
    );
    if is_missing(trees, ignore, locale, key) {
        Some(
            KeyRowV {
                locale,
                key,
                value: Some(leaf.value.displayed()),
                reason: Some(ReasonV::Diff { present_in: source }),
            },
        )
    } else {
        None
    }
}

/// The rows of the first `n` leaves of `source`.
pub open spec fn diff_leaves(
    trees: TreesV,
    base: Seq<char>,
    ignore: Seq<Seq<char>>,
    locale: Seq<char>,
    source: Seq<char>,
    leaves: Seq<LeafV>,
    n: int,
) -> Seq<KeyRowV>
    decreases n,
{
    if n <= 0 {
        Seq::empty()
    } else {
        with_row(
            diff_leaves(trees, base, ignore, locale, source, leaves, n - 1),
            diff_row(trees, base, ignore, locale, source, leaves[n - 1]),
        )
    }
}

/// What `source` has and `locale` has not, in the order of the keys.
pub open spec fn diff_between(
    trees: TreesV,
    base: Seq<char>,
    ignore: Seq<Seq<char>>,
    locale: Seq<char>,
    source: Seq<char>,
) -> Seq<KeyRowV> {
    if trees.own.contains_key(source) {
        let leaves = sorted_of(trees.own[source].data());
        diff_leaves(trees, base, ignore, locale, source, leaves, leaves.len() as int)
    } else {
        Seq::empty()
    }
}

/// What the base locale has and the first `n` locales have not.
pub open spec fn diff_from_base(
    cfg: ConfigV,
    trees: TreesV,
    base: Seq<char>,
    locales: Seq<Seq<char>>,
    n: int,
) -> Seq<KeyRowV>
    decreases n,
{
    if n <= 0 {
        Seq::empty()
    } else {
        let before = diff_from_base(cfg, trees, base, locales, n - 1);
        let locale = locales[n - 1];
        if locale == base {
            before
        } else {
            before + diff_between(
                trees,
                base,
                cfg.ignored(IgnoreType::Missing, Some(locale)),
                locale,
                base,
            )
        }
    }
}

/// What the first `n` locales of the store have and the base locale has not.
pub open spec fn diff_to_base(
    cfg: ConfigV,
    trees: TreesV,
    base: Seq<char>,
    all: Seq<Seq<char>>,
    n: int,
) -> Seq<KeyRowV>
    decreases n,
{
    if n <= 0 {
        Seq::empty()
    } else {
        let before = diff_to_base(cfg, trees, base, all, n - 1);
        let locale = all[n - 1];
        if locale == base {
            before
        } else {
            before + diff_between(
                trees,
                base,
                cfg.ignored(IgnoreType::Missing, Some(base)),
                base,
                locale,
            )
        }
    }
}

/// An earlier row has the same locale and key.
pub open spec fn repeats(rows: Seq<KeyRowV>, n: int) -> bool {
    exists|j: int|
        0 <= j < n && (#[trigger] rows[j]).locale == rows[n].locale && rows[j].key == rows[n].key
}

/// The first `n` rows without those that repeat an earlier one.
pub open spec fn first_only(rows: Seq<KeyRowV>, n: int) -> Seq<KeyRowV>
    decreases n,
{
    if n <= 0 {
        Seq::empty()
    } else if repeats(rows, n - 1) {
        first_only(rows, n - 1)
    } else {
        first_only(rows, n - 1).push(rows[n - 1])
    }
}

/// The rows of type `diff`: what the base locale has and a locale has not,
/// and, where the base locale is asked for, what another locale has and it has
/// not. A key is reported once per locale.
pub open spec fn diff_rows(
    cfg: ConfigV,
    trees: TreesV,
    base: Seq<char>,
    all: Seq<Seq<char>>,
    locales: Seq<Seq<char>>,
) -> Seq<KeyRowV> {
    let rows = diff_from_base(cfg, trees, base, locales, locales.len() as int) + if locales.contains(
        base,
    ) {
        diff_to_base(cfg, trees, base, all, all.len() as int)
    } else {
        Seq::empty()
    };
    first_only(rows, rows.len() as int)
}

fn push_diff(
    store: &Store,
    locale: &str,
    source: &str,
    ignore: &PatternSet,
    rows: &mut Vec<KeyRow>,
)
    requires
        store.wf(),
    ensures
        rows_model(final(rows)@) == rows_model(old(rows)@) + diff_between(
            trees_of(store),
            store.base_locale@,
            ignore@,
            locale@,
            source@,
        ),
{
    let ghost trees = trees_of(store);
    let ghost base = store.base_locale@;
    let ghost start = rows_model(rows@);
    let tree = match store.tree(source) {
        Some(tree) => tree,
        None => {
            assert(start + Seq::<KeyRowV>::empty() =~= start);
            return ;
        },
    };
    let source_base = store.tree(&store.base_locale);
    let leaves = tree.sorted_keys();
    let ghost model = sorted_of(tree.data());
    assert(model.len() == leaves.len());
    let mut i: usize = 0;
    assert(start + diff_leaves(trees, base, ignore@, locale@, source@, model, 0) =~= start);
    while i < leaves.len()
        invariant
            i <= leaves.len(),
            store.wf(),
            trees == trees_of(store),
            base == store.base_locale@,
            model == borrowed_model(leaves@),
            store.trees@.contains_key(source@),
            *tree == store.trees@[source@],
            keys_in(source_base) == keys_of_locale(trees, base),
            source_base matches Some(t) ==> t.wf(),
            rows_model(rows@) == start + diff_leaves(
                trees,
                base,
                ignore@,
                locale@,
                source@,
                model,
                i as int,
            ),
        decreases leaves.len() - i,
    {
        let leaf = leaves[i];
        assert(model[i as int] == leaf@);
        let key = depluralize_key(&leaf.key, Some(tree), source_base);
        if locale_key_missing(store, ignore, locale, &key) {
            push_row(
                rows,
                KeyRow {
                    locale: locale.to_owned(),
                    key,
                    value: Some(leaf.value.to_display_string()),
                    reason: Some(Reason::Diff { present_in: source.to_owned() }),
                },
            );
        }
        i = i + 1;
        assert(rows_model(rows@) =~= start + diff_leaves(
            trees,
            base,
            ignore@,
            locale@,
            source@,
            model,
            i as int,
        ));
    }
}

fn repeats_earlier(rows: &Vec<KeyRow>, n: usize) -> (b: bool)
    requires
        n < rows.len(),
    ensures
        b == repeats(rows_model(rows@), n as int),
{
    let ghost model = rows_model(rows@);
    let mut j: usize = 0;
    while j < n
        invariant
            j <= n < rows.len(),
            model == rows_model(rows@),
            forall|i: int|
                0 <= i < j ==> !((#[trigger] model[i]).locale == model[n as int].locale
                    && model[i].key == model[n as int].key),
        decreases n - j,
    {
        assert(model[j as int] == rows@[j as int]@);
        assert(model[n as int] == rows@[n as int]@);
        if same_text(&rows[j].key, &rows[n].key) && same_text(&rows[j].locale, &rows[n].locale) {
            return true;
        }
        j = j + 1;
    }
    false
}

fn contains_text(v: &Vec<String>, s: &str) -> (b: bool)
    ensures
        b == texts(v@).contains(s@),
{
    let mut i: usize = 0;
    while i < v.len()
        invariant
            i <= v.len(),
            forall|j: int| 0 <= j < i ==> texts(v@)[j] != s@,
        decreases v.len() - i,
    {
        assert(texts(v@)[i as int] == v@[i as int]@);
        if same_text(&v[i], s) {
            return true;
        }
        i = i + 1;
    }
    false
}

/// Present in the compared locale, absent here.
fn missing_diff(cfg: &Config, store: &Store, locales: &Vec<String>) -> (out: Vec<KeyRow>)
    requires
        store.wf(),
    ensures
        rows_model(out@) == diff_rows(
            cfg@,
            trees_of(store),
            store.base_locale@,
            texts(store.locales@),
            texts(locales@),
        ),
{
    let ghost trees = trees_of(store);
    let base = &store.base_locale;
    let ghost wanted = texts(locales@);
    let ghost all = texts(store.locales@);
    let mut rows: Vec<KeyRow> = Vec::new();
    let mut k: usize = 0;
    assert(rows_model(rows@) =~= Seq::empty());
    while k < locales.len()
        invariant
            k <= locales.len(),
            store.wf(),
            trees == trees_of(store),
            base@ == store.base_locale@,
            wanted == texts(locales@),
            rows_model(rows@) == diff_from_base(cfg@, trees, base@, wanted, k as int),
        decreases locales.len() - k,
    {
        let locale = &locales[k];
        assert(wanted[k as int] == locale@);
        if !same_text(locale, base) {
            let ignore = cfg.ignore_patterns(IgnoreType::Missing, Some(locale.as_str()));
            push_diff(store, locale, base, &ignore, &mut rows);
        }
        k = k + 1;
    }
    let ghost first = rows_model(rows@);
    assert(wanted.len() == locales.len());
    if contains_text(locales, base) {
        let ignore = cfg.ignore_patterns(IgnoreType::Missing, Some(base.as_str()));
        let mut j: usize = 0;
        assert(all.len() == store.locales.len());
        assert(first + diff_to_base(cfg@, trees, base@, all, 0) =~= first);
        while j < store.locales.len()
            invariant
                j <= store.locales.len(),
                store.wf(),
                trees == trees_of(store),
                base@ == store.base_locale@,
                all == texts(store.locales@),
                ignore@ == cfg@.ignored(IgnoreType::Missing, Some(base@)),
                rows_model(rows@) == first + diff_to_base(cfg@, trees, base@, all, j as int),
            decreases store.locales.len() - j,
        {
            let locale = &store.locales[j];
            assert(all[j as int] == locale@);
            if !same_text(locale, base) {
                push_diff(store, base, locale, &ignore, &mut rows);
            }
            j = j + 1;
            assert(rows_model(rows@) =~= first + diff_to_base(
                cfg@,
                trees,
                base@,
                all,
                j as int,
            ));
        }
    } else {
        assert(first + Seq::<KeyRowV>::empty() =~= first);
    }
    // The two directions can report the same key twice.
    let ghost model = rows_model(rows@);
    let mut keep: Vec<bool> = Vec::new();
    let mut i: usize = 0;
    while i < rows.len()
        invariant
            i <= rows.len(),
            model == rows_model(rows@),
            keep.len() == i,
            forall|j: int| 0 <= j < i ==> #[trigger] keep@[j] == !repeats(model, j),
        decreases rows.len() - i,
    {
        keep.push(!repeats_earlier(&rows, i));
        i = i + 1;
    }
    keep_rows(rows, &keep)
}

/// The rows that are marked, in their order.
fn keep_rows(rows: Vec<KeyRow>, keep: &Vec<bool>) -> (out: Vec<KeyRow>)
    requires
        keep.len() == rows.len(),
        forall|j: int|
            0 <= j < rows.len() ==> #[trigger] keep@[j] == !repeats(rows_model(rows@), j),
    ensures
        rows_model(out@) == first_only(rows_model(rows@), rows.len() as int),
{
    let ghost model = rows_model(rows@);
    let ghost all = rows@;
    let mut rows = rows;
    let mut back: Vec<KeyRow> = Vec::new();
    // The rows are taken from the end, and turned round again.
    while rows.len() > 0
        invariant
            rows.len() <= all.len() == keep.len(),
            rows@ == all.take(rows.len() as int),
            model == rows_model(all),
            forall|j: int| 0 <= j < all.len() ==> #[trigger] keep@[j] == !repeats(model, j),
            rows_model(back@).reverse() =~= kept_after(model, rows.len() as int),
        decreases rows.len(),
    {
        let ghost n = rows.len() as int;
        let ghost before = rows_model(back@);
        if let Some(row) = rows.pop() {
            assert(row == all[n - 1]);
            assert(model[n - 1] == row@);
            if keep[rows.len()] {
                push_row(&mut back, row);
                assert(rows_model(back@).reverse() =~= seq![row@] + before.reverse());
            }
            assert(rows@ =~= all.take(n - 1));
        }
    }
    let mut out: Vec<KeyRow> = Vec::new();
    let ghost total = rows_model(back@).reverse();
    let ghost list = back@;
    while back.len() > 0
        invariant
            back.len() <= list.len(),
            back@ == list.take(back.len() as int),
            total == rows_model(list).reverse(),
            rows_model(out@) == total.take(list.len() - back.len()),
        decreases back.len(),
    {
        let ghost n = back.len() as int;
        if let Some(row) = back.pop() {
            assert(row == list[n - 1]);
            assert(total[list.len() - n] == row@);
            assert(total.take(list.len() - n + 1) =~= total.take(list.len() - n).push(row@));
            push_row(&mut out, row);
            assert(back@ =~= list.take(n - 1));
        }
    }
    proof {
        assert(total.take(list.len() as int) =~= total);
        kept_from_start(model, 0);
    }
    out
}

/// The rows from `n` on without those that repeat an earlier one.
spec fn kept_after(rows: Seq<KeyRowV>, n: int) -> Seq<KeyRowV>
    decreases rows.len() - n,
{
    if n < 0 || n >= rows.len() {
        Seq::empty()
    } else if repeats(rows, n) {
        kept_after(rows, n + 1)
    } else {
        seq![rows[n]] + kept_after(rows, n + 1)
    }
}

proof fn kept_from_start(rows: Seq<KeyRowV>, n: int)
    requires
        0 <= n <= rows.len(),
    ensures
        first_only(rows, n) + kept_after(rows, n) == first_only(rows, rows.len() as int),
    decreases rows.len() - n,
{
    if n < rows.len() {
        kept_from_start(rows, n + 1);
        if !repeats(rows, n) {
            assert(first_only(rows, n) + (seq![rows[n]] + kept_after(rows, n + 1)) =~= first_only(
                rows,
                n + 1,
            ) + kept_after(rows, n + 1));
        }
    } else {
        assert(first_only(rows, n) + Seq::<KeyRowV>::empty() =~= first_only(rows, n));
    }
}

// ----------------------------------------------------------------------- plural

/// The first `n` categories that are not among those present.
pub open spec fn absent_categories(
    required: Seq<Seq<char>>,
    present: Seq<Seq<char>>,
    n: int,
) -> Seq<Seq<char>>
    decreases n,
{
    if n <= 0 {
        Seq::empty()
    } else if present.contains(required[n - 1]) {
        absent_categories(required, present, n - 1)
    } else {
        absent_categories(required, present, n - 1).push(required[n - 1])
    }
}

/// The row of a plural node that lacks a required category.
pub open spec fn plural_row(
    keys: Seq<Seq<char>>,
    required: Seq<Seq<char>>,
    ignore: Seq<Seq<char>>,
    locale: Seq<char>,
    key: Seq<char>,
) -> Option<KeyRowV> {
    let absent = absent_categories(required, children_of(keys, key), required.len() as int);
    if any_accepts(ignore, key) || absent.len() == 0 {
        None
    } else {
        Some(
            KeyRowV {
                locale,
                key,
                value: None,
                reason: Some(ReasonV::Plural { categories: absent }),
            },
        )
    }
}

/// The rows of the first `n` plural nodes.
pub open spec fn plural_nodes_rows(
    keys: Seq<Seq<char>>,
    required: Seq<Seq<char>>,
    ignore: Seq<Seq<char>>,
    locale: Seq<char>,
    nodes: Seq<Seq<char>>,
    n: int,
) -> Seq<KeyRowV>
    decreases n,
{
    if n <= 0 {
        Seq::empty()
    } else {
        with_row(
            plural_nodes_rows(keys, required, ignore, locale, nodes, n - 1),
            plural_row(keys, required, ignore, locale, nodes[n - 1]),
        )
    }
}

/// The rows of type `plural` of the first `n` locales. A locale whose
/// categories are unknown has none.
pub open spec fn plural_rows(
    cfg: ConfigV,
    trees: TreesV,
    locales: Seq<Seq<char>>,
    n: int,
) -> Seq<KeyRowV>
    decreases n,
{
    if n <= 0 {
        Seq::empty()
    } else {
        let before = plural_rows(cfg, trees, locales, n - 1);
        let locale = locales[n - 1];
        match required_categories_of(locale) {
            None => before,
            Some(required) => if trees.own.contains_key(locale) {
                let keys = trees.own[locale].keys();
                let nodes = plural_nodes_in(keys);
                before + plural_nodes_rows(
                    keys,
                    required,
                    cfg.ignored(IgnoreType::Missing, Some(locale)),
                    locale,
                    nodes,
                    nodes.len() as int,
                )
            } else {
                before
            },
        }
    }
}

fn absent(required: &Vec<&'static str>, present: &Vec<String>) -> (out: Vec<&'static str>)
    ensures
        names(out@) == absent_categories(names(required@), texts(present@), required.len() as int),
{
    let ghost model = names(required@);
    let mut out: Vec<&'static str> = Vec::new();
    let mut i: usize = 0;
    assert(names(out@) =~= Seq::empty());
    while i < required.len()
        invariant
            i <= required.len(),
            model == names(required@),
            names(out@) == absent_categories(model, texts(present@), i as int),
        decreases required.len() - i,
    {
        let ghost before = names(out@);
        let category = required[i];
        assert(model[i as int] == category@);
        if !contains_text(present, category) {
            out.push(category);
            assert(names(out@) =~= before.push(category@));
        }
        i = i + 1;
    }
    out
}

/// A plural node missing a required CLDR category.
fn missing_plural(cfg: &Config, store: &Store, locales: &Vec<String>, rows: &mut Vec<KeyRow>)
    requires
        store.wf(),
    ensures
        rows_model(final(rows)@) == rows_model(old(rows)@) + plural_rows(
            cfg@,
            trees_of(store),
            texts(locales@),
            locales.len() as int,
        ),
{
    let ghost trees = trees_of(store);
    let ghost wanted = texts(locales@);
    let ghost start = rows_model(rows@);
    let mut k: usize = 0;
    assert(start + plural_rows(cfg@, trees, wanted, 0) =~= start);
    while k < locales.len()
        invariant
            k <= locales.len(),
            store.wf(),
            trees == trees_of(store),
            wanted == texts(locales@),
            rows_model(rows@) == start + plural_rows(cfg@, trees, wanted, k as int),
        decreases locales.len() - k,
    {
        let locale = &locales[k];
        assert(wanted[k as int] == locale@);
        let ghost before = rows_model(rows@);
        if let Some(required) = required_categories(locale) {
            let ghost categories = names(required@);
            if let Some(tree) = store.tree(locale) {
                let ignore = cfg.ignore_patterns(IgnoreType::Missing, Some(locale.as_str()));
                let nodes = tree.sorted_plural_nodes();
                let ghost keys = tree.keys();
                let ghost list = plural_nodes_in(keys);
                let mut i: usize = 0;
                assert(list.len() == nodes.len());
                assert(before + plural_nodes_rows(keys, categories, ignore@, locale@, list, 0)
                    =~= before);
                while i < nodes.len()
                    invariant
                        i <= nodes.len(),
                        tree.wf(),
                        keys == tree.keys(),
                        list == texts(nodes@),
                        categories == names(required@),
                        rows_model(rows@) == before + plural_nodes_rows(
                            keys,
                            categories,
                            ignore@,
                            locale@,
                            list,
                            i as int,
                        ),
                    decreases nodes.len() - i,
                {
                    let key = &nodes[i];
                    assert(list[i as int] == key@);
                    assert(categories.len() == required.len());
                    if !ignore.is_match(key) {
                        let lacking = absent(&required, &tree.children(key));
                        assert(names(lacking@).len() == lacking.len());
                        if lacking.len() > 0 {
                            push_row(
                                rows,
                                KeyRow {
                                    locale: locale.clone(),
                                    key: key.clone(),
                                    value: None,
                                    reason: Some(Reason::Plural { categories: lacking }),
                                },
                            );
                        }
                    }
                    i = i + 1;
                    assert(rows_model(rows@) =~= before + plural_nodes_rows(
                        keys,
                        categories,
                        ignore@,
                        locale@,
                        list,
                        i as int,
                    ));
                }
            }
        }
        k = k + 1;
        assert(rows_model(rows@) =~= start + plural_rows(cfg@, trees, wanted, k as int));
    }
}

// ------------------------------------------------------------------- the report

/// The rows of the first `n` types.
pub open spec fn missing_rows(
    cfg: ConfigV,
    store: &Store,
    used: &UsedKeys,
    locales: Seq<Seq<char>>,
    types: Seq<MissingType>,
    n: int,
) -> Seq<KeyRowV>
    decreases n,
{
    if n <= 0 {
        Seq::empty()
    } else {
        let trees = trees_of(store);
        missing_rows(cfg, store, used, locales, types, n - 1) + match types[n - 1] {
            MissingType::Used => used_rows(cfg, trees, used, locales, locales.len() as int),
            MissingType::Diff => diff_rows(
                cfg,
                trees,
                store.base_locale@,
                texts(store.locales@),
                locales,
            ),
            MissingType::Plural => plural_rows(cfg, trees, locales, locales.len() as int),
        }
    }
}

/// The missing keys of each type, in the order in which the types are given.
pub fn report(
    cfg: &Config,
    store: &Store,
    used: &UsedKeys,
    locales: &Vec<String>,
    types: &Vec<MissingType>,
) -> (r: MissingReport)
    requires
        store.wf(),
        used.wf(),
    ensures
        rows_model(r.rows@) == missing_rows(
            cfg@,
            store,
            used,
            texts(locales@),
            types@,
            types.len() as int,
        ),
{
    let mut rows: Vec<KeyRow> = Vec::new();
    let ghost wanted = texts(locales@);
    let mut i: usize = 0;
    assert(rows_model(rows@) =~= Seq::empty());
    assert(wanted.len() == locales.len());
    while i < types.len()
        invariant
            i <= types.len(),
            store.wf(),
            used.wf(),
            wanted == texts(locales@),
            wanted.len() == locales.len(),
            rows_model(rows@) == missing_rows(cfg@, store, used, wanted, types@, i as int),
        decreases types.len() - i,
    {
        match types[i] {
            MissingType::Used => {
                missing_used(cfg, store, used, locales, &mut rows);
            },
            MissingType::Diff => {
                let ghost before = rows_model(rows@);
                let mut more = missing_diff(cfg, store, locales);
                let ghost added = rows_model(more@);
                rows.append(&mut more);
                assert(rows_model(rows@) =~= before + added);
            },
            MissingType::Plural => {
                missing_plural(cfg, store, locales, &mut rows);
            },
        }
        i = i + 1;
    }
    MissingReport { rows }
}

/// The cells of a row: locale, key, reason and value.
pub open spec fn missing_cells(rows: Seq<KeyRowV>) -> Seq<Seq<Seq<char>>> {
    Seq::new(
        rows.len(),
        |i: int| seq![rows[i].locale, rows[i].key, rows[i].details(), rows[i].value_text()],
    )
}

fn four(a: &str, b: &str, c: &str, d: &str) -> (out: Vec<String>)
    ensures
        texts(out@) == seq![a@, b@, c@, d@],
        out.len() == 4,
{
    let mut out: Vec<String> = Vec::new();
    out.push(a.to_owned());
    out.push(b.to_owned());
    out.push(c.to_owned());
    out.push(d.to_owned());
    assert(texts(out@) =~= seq![a@, b@, c@, d@]);
    out
}

impl MissingReport {
    /// `Found` where there is a row.
    pub fn outcome(&self) -> (o: Outcome)
        ensures
            o == if self.rows.len() > 0 {
                Outcome::Found
            } else {
                Outcome::Clean
            },
    {
        Outcome::of(self.rows.len() > 0)
    }

    /// The report as a table.
    pub fn to_text(&self) -> (out: String)
        ensures
            out@ == table(
                "Missing keys"@,
                seq!["Locale"@, "Key"@, "Type"@, "Base value"@],
                missing_cells(rows_model(self.rows@)),
            ),
    {
        let mut rows: Vec<Vec<String>> = Vec::new();
        let mut i: usize = 0;
        while i < self.rows.len()
            invariant
                i <= self.rows.len(),
                rows.len() == i,
                forall|j: int|
                    0 <= j < i ==> texts((#[trigger] rows@[j])@) == missing_cells(
                        rows_model(self.rows@),
                    )[j],
            decreases self.rows.len() - i,
        {
            let row = &self.rows[i];
            rows.push(four(&row.locale, &row.key, &row.details(), &row.value_or_empty()));
            i = i + 1;
        }
        assert(cells_model(rows@) =~= missing_cells(rows_model(self.rows@)));
        render_table("Missing keys", &four("Locale", "Key", "Type", "Base value"), &rows)
    }
}

// ------------------------------------------------------------------------ laws

/// A row for the key in the locale.
pub open spec fn names_key(rows: Seq<KeyRowV>, locale: Seq<char>, key: Seq<char>) -> bool {
    exists|i: int| 0 <= i < rows.len() && (#[trigger] rows[i]).locale == locale && rows[i].key == key
}

proof fn concat_names(a: Seq<KeyRowV>, b: Seq<KeyRowV>, locale: Seq<char>, key: Seq<char>)
    ensures
        names_key(a + b, locale, key) <==> names_key(a, locale, key) || names_key(b, locale, key),
{
    let all = a + b;
    if names_key(a, locale, key) {
        let i = choose|i: int|
            0 <= i < a.len() && (#[trigger] a[i]).locale == locale && a[i].key == key;
        assert(all[i] == a[i]);
    }
    if names_key(b, locale, key) {
        let i = choose|i: int|
            0 <= i < b.len() && (#[trigger] b[i]).locale == locale && b[i].key == key;
        assert(all[a.len() + i] == b[i]);
    }
    if names_key(all, locale, key) {
        let i = choose|i: int|
            0 <= i < all.len() && (#[trigger] all[i]).locale == locale && all[i].key == key;
        if i < a.len() {
            assert(a[i] == all[i]);
        } else {
            assert(b[i - a.len()] == all[i]);
        }
    }
}

proof fn used_keys_rows_are_exact(
    trees: TreesV,
    ignore: Seq<Seq<char>>,
    locale: Seq<char>,
    order: Seq<Seq<char>>,
    keys: Map<Seq<char>, Vec<Occurrence>>,
    n: int,
    l: Seq<char>,
    key: Seq<char>,
)
    requires
        0 <= n <= order.len(),
    ensures
        names_key(used_keys_rows(trees, ignore, locale, order, keys, n), l, key) <==> l == locale
            && order.take(n).contains(key) && all_missing(
            trees,
            ignore,
            locale,
            key,
            occurrences_at(keys, key),
        ),
    decreases n,
{
    if n > 0 {
        used_keys_rows_are_exact(trees, ignore, locale, order, keys, n - 1, l, key);
        let before = used_keys_rows(trees, ignore, locale, order, keys, n - 1);
        let last = order[n - 1];
        let row = used_row(trees, ignore, locale, last, occurrences_at(keys, last));
        let one = match row {
            Some(r) => seq![r],
            None => Seq::empty(),
        };
        assert(with_row(before, row) =~= before + one);
        concat_names(before, one, l, key);
        if row is Some && l == locale && key == last {
            assert(one[0].key == key);
        }
        assert(order.take(n) =~= order.take(n - 1).push(last));
        assert(order.take(n).contains(key) <==> order.take(n - 1).contains(key) || key == last) by {
            let a = order.take(n - 1);
            let b = order.take(n);
            if a.contains(key) {
                assert(b[a.index_of(key)] == key);
            }
            if key == last {
                assert(b[n - 1] == key);
            }
            if b.contains(key) && key != last {
                assert(a[b.index_of(key)] == key);
            }
        }
    }
}

proof fn used_rows_are_exact(
    cfg: ConfigV,
    trees: TreesV,
    used: &UsedKeys,
    locales: Seq<Seq<char>>,
    n: int,
    locale: Seq<char>,
    key: Seq<char>,
)
    requires
        0 <= n <= locales.len(),
    ensures
        names_key(used_rows(cfg, trees, used, locales, n), locale, key) <==> locales.take(
            n,
        ).contains(locale) && used.keys.order().contains(key) && all_missing(
            trees,
            cfg.ignored(IgnoreType::Missing, Some(locale)),
            locale,
            key,
            occurrences_at(used.keys@, key),
        ),
    decreases n,
{
    if n > 0 {
        used_rows_are_exact(cfg, trees, used, locales, n - 1, locale, key);
        let last = locales[n - 1];
        let order = used.keys.order();
        let ignore = cfg.ignored(IgnoreType::Missing, Some(last));
        let count = order.len() as int;
        used_keys_rows_are_exact(trees, ignore, last, order, used.keys@, count, locale, key);
        concat_names(
            used_rows(cfg, trees, used, locales, n - 1),
            used_keys_rows(trees, ignore, last, order, used.keys@, count),
            locale,
            key,
        );
        assert(order.take(count) =~= order);
        let a = locales.take(n - 1);
        let b = locales.take(n);
        assert(b =~= a.push(last));
        if a.contains(locale) {
            assert(b[a.index_of(locale)] == locale);
        }
        if locale == last {
            assert(b[n - 1] == locale);
        }
        if b.contains(locale) && locale != last {
            assert(a[b.index_of(locale)] == locale);
        }
    }
}

/// A used key is reported for a locale exactly where none of the keys that its
/// calls may resolve to has a value there, is external or is ignored.
pub proof fn exactly_the_used_keys_without_a_value_are_missing(
    cfg: ConfigV,
    store: &Store,
    used: &UsedKeys,
    locales: Seq<Seq<char>>,
    locale: Seq<char>,
    key: Seq<char>,
)
    ensures
        names_key(
            used_rows(cfg, trees_of(store), used, locales, locales.len() as int),
            locale,
            key,
        ) <==> locales.contains(locale) && used.keys.order().contains(key) && all_missing(
            trees_of(store),
            cfg.ignored(IgnoreType::Missing, Some(locale)),
            locale,
            key,
            occurrences_at(used.keys@, key),
        ),
{
    let n = locales.len() as int;
    used_rows_are_exact(cfg, trees_of(store), used, locales, n, locale, key);
    assert(locales.take(n) =~= locales);
}

/// Every row is of a key that its locale does not have.
pub open spec fn rows_are_missing(cfg: ConfigV, trees: TreesV, rows: Seq<KeyRowV>) -> bool {
    forall|i: int|
        0 <= i < rows.len() ==> is_missing(
            trees,
            cfg.ignored(IgnoreType::Missing, Some((#[trigger] rows[i]).locale)),
            rows[i].locale,
            rows[i].key,
        )
}

proof fn diff_leaves_are_missing(
    cfg: ConfigV,
    trees: TreesV,
    base: Seq<char>,
    locale: Seq<char>,
    source: Seq<char>,
    leaves: Seq<LeafV>,
    n: int,
)
    requires
        0 <= n <= leaves.len(),
    ensures
        rows_are_missing(
            cfg,
            trees,
            diff_leaves(
                trees,
                base,
                cfg.ignored(IgnoreType::Missing, Some(locale)),
                locale,
                source,
                leaves,
                n,
            ),
        ),
    decreases n,
{
    if n > 0 {
        diff_leaves_are_missing(cfg, trees, base, locale, source, leaves, n - 1);
    }
}

proof fn diff_between_is_missing(
    cfg: ConfigV,
    trees: TreesV,
    base: Seq<char>,
    locale: Seq<char>,
    source: Seq<char>,
)
    ensures
        rows_are_missing(
            cfg,
            trees,
            diff_between(
                trees,
                base,
                cfg.ignored(IgnoreType::Missing, Some(locale)),
                locale,
                source,
            ),
        ),
{
    if trees.own.contains_key(source) {
        let leaves = sorted_of(trees.own[source].data());
        diff_leaves_are_missing(cfg, trees, base, locale, source, leaves, leaves.len() as int);
    }
}

proof fn diff_from_base_is_missing(
    cfg: ConfigV,
    trees: TreesV,
    base: Seq<char>,
    locales: Seq<Seq<char>>,
    n: int,
)
    requires
        0 <= n <= locales.len(),
    ensures
        rows_are_missing(cfg, trees, diff_from_base(cfg, trees, base, locales, n)),
    decreases n,
{
    if n > 0 {
        diff_from_base_is_missing(cfg, trees, base, locales, n - 1);
        diff_between_is_missing(cfg, trees, base, locales[n - 1], base);
    }
}

proof fn diff_to_base_is_missing(
    cfg: ConfigV,
    trees: TreesV,
    base: Seq<char>,
    all: Seq<Seq<char>>,
    n: int,
)
    requires
        0 <= n <= all.len(),
    ensures
        rows_are_missing(cfg, trees, diff_to_base(cfg, trees, base, all, n)),
    decreases n,
{
    if n > 0 {
        diff_to_base_is_missing(cfg, trees, base, all, n - 1);
        diff_between_is_missing(cfg, trees, base, base, all[n - 1]);
    }
}

proof fn first_only_keeps_rows(cfg: ConfigV, trees: TreesV, rows: Seq<KeyRowV>, n: int)
    requires
        0 <= n <= rows.len(),
        rows_are_missing(cfg, trees, rows),
    ensures
        rows_are_missing(cfg, trees, first_only(rows, n)),
    decreases n,
{
    if n > 0 {
        first_only_keeps_rows(cfg, trees, rows, n - 1);
    }
}

/// A key that is reported because another locale has it has no value in its
/// own locale, is not external there and is not ignored.
pub proof fn a_reported_difference_has_no_value(
    cfg: ConfigV,
    trees: TreesV,
    base: Seq<char>,
    all: Seq<Seq<char>>,
    locales: Seq<Seq<char>>,
)
    ensures
        rows_are_missing(cfg, trees, diff_rows(cfg, trees, base, all, locales)),
{
    diff_from_base_is_missing(cfg, trees, base, locales, locales.len() as int);
    diff_to_base_is_missing(cfg, trees, base, all, all.len() as int);
    let rows = diff_from_base(cfg, trees, base, locales, locales.len() as int) + if locales.contains(
        base,
    ) {
        diff_to_base(cfg, trees, base, all, all.len() as int)
    } else {
        Seq::empty()
    };
    first_only_keeps_rows(cfg, trees, rows, rows.len() as int);
}

} // verus!
