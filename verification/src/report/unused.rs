//! The report of unused keys.
use crate::config::{Config, ConfigV, IgnoreType};
use crate::data::load::{
    a_tree_is_sorted_whole, below, borrowed_model, children_of, keys_of, plural_node_of, sorted_of,
    LeafV, LocaleTree,
};
use crate::data::store::{holds_key, Store};
use crate::keys::{parent_key, parent_key_of};
use crate::pattern::{accepts, any_accepts, Pattern};
use crate::plural::{depluralize_key, depluralized, keys_in};
use crate::report::eq_base::{value_cells, value_rows};
use crate::report::{
    a_global_rule_holds_everywhere, push_row, render_table, rows_model, table, text_row, KeyRow,
    KeyRowV, Outcome,
};
use crate::scan::{clone_occurrences, occurrences_model, Occurrence, OccurrenceV};
use crate::text::{
    chars_of, concat, decimal, decimal_text, position_from, position_of, push_text, same_text,
    text_between, texts,
};
use crate::textmap::TextMap;
use crate::used::UsedKeys;
use vstd::prelude::*;

verus! {

/// The unused keys, and the calls whose key cannot be verified at all.
pub struct UnusedReport {
    pub rows: Vec<KeyRow>,
    pub opaque: Vec<Occurrence>,
    /// Exact leaves before plural nodes are collapsed for display.
    pub removable_keys: TextMap<TextMap<()>>,
}

// --------------------------------------------------------------------- one key

/// What decides whether the keys of one locale are used.
pub struct UseV {
    pub ignore: Seq<Seq<char>>,
    pub patterns: Seq<Seq<char>>,
    pub used: Set<Seq<char>>,
    pub keys: Seq<Seq<char>>,
    pub base: Option<Seq<Seq<char>>>,
    pub external: Map<Seq<char>, LocaleTree>,
    pub locale: Seq<char>,
}

impl UseV {
    /// Neither ignored, nor reached by an interpolated key, nor used in its
    /// singular form, nor external.
    pub open spec fn unused(self, key: Seq<char>) -> bool {
        &&& !any_accepts(self.ignore, key)
        &&& !any_accepts(self.patterns, key)
        &&& !self.used.contains(depluralized(key, Some(self.keys), self.base))
        &&& !holds_key(self.external, self.locale, key)
    }
}

/// The keys of the first `n` leaves that are unused.
pub open spec fn unused_upto(u: UseV, leaves: Seq<LeafV>, n: int) -> Seq<Seq<char>>
    decreases n,
{
    if n <= 0 {
        Seq::empty()
    } else if u.unused(leaves[n - 1].key) {
        unused_upto(u, leaves, n - 1).push(leaves[n - 1].key)
    } else {
        unused_upto(u, leaves, n - 1)
    }
}

/// The unused keys of a locale, in order.
pub open spec fn unused_keys(u: UseV, data: Seq<LeafV>) -> Seq<Seq<char>> {
    unused_upto(u, sorted_of(data), sorted_of(data).len() as int)
}

// ------------------------------------------------------------------ collapsing

/// Every child of the plural node `parent` is among the keys.
pub open spec fn collapses(keys: Seq<Seq<char>>, hits: Seq<Seq<char>>, parent: Seq<char>) -> bool {
    plural_node_of(keys, parent) && forall|i: int|
        0 <= i < children_of(keys, parent).len() ==> hits.contains(
            below(parent, #[trigger] children_of(keys, parent)[i]),
        )
}

/// An earlier key has the same parent.
pub open spec fn parent_seen(hits: Seq<Seq<char>>, n: int, parent: Seq<char>) -> bool {
    exists|j: int| 0 <= j < n && parent_key_of(#[trigger] hits[j]) == Some(parent)
}

/// The first `n` keys, where the parent stands, once, for a complete set of
/// plural children.
pub open spec fn collapsed_upto(keys: Seq<Seq<char>>, hits: Seq<Seq<char>>, n: int) -> Seq<
    Seq<char>,
>
    decreases n,
{
    if n <= 0 {
        Seq::empty()
    } else {
        let before = collapsed_upto(keys, hits, n - 1);
        match parent_key_of(hits[n - 1]) {
            None => before.push(hits[n - 1]),
            Some(parent) => if !collapses(keys, hits, parent) {
                before.push(hits[n - 1])
            } else if parent_seen(hits, n - 1, parent) {
                before
            } else {
                before.push(parent)
            },
        }
    }
}

/// The keys as the report shows them.
pub open spec fn collapsed(keys: Seq<Seq<char>>, hits: Seq<Seq<char>>) -> Seq<Seq<char>> {
    collapsed_upto(keys, hits, hits.len() as int)
}

/// The row of a key.
pub open spec fn unused_row(tree: LocaleTree, locale: Seq<char>, key: Seq<char>) -> KeyRowV {
    KeyRowV {
        locale,
        key,
        value: match tree.found(key) {
            Some(leaf) => Some(leaf.value.displayed()),
            None => None,
        },
        reason: None,
    }
}

/// The rows of the keys of a locale.
pub open spec fn unused_locale_rows(
    tree: LocaleTree,
    locale: Seq<char>,
    keys: Seq<Seq<char>>,
) -> Seq<KeyRowV> {
    Seq::new(keys.len(), |i: int| unused_row(tree, locale, keys[i]))
}

/// What decides whether the keys of `locale` are used.
pub open spec fn use_in(cfg: ConfigV, store: &Store, used: &UsedKeys, locale: Seq<char>) -> UseV {
    UseV {
        ignore: cfg.ignored(IgnoreType::Unused, None),
        patterns: used.patterns@,
        used: used.keys@.dom(),
        keys: store.trees@[locale].keys(),
        base: if store.trees@.contains_key(store.base_locale@) {
            Some(store.trees@[store.base_locale@].keys())
        } else {
            None
        },
        external: store.external@,
        locale,
    }
}

/// The unused keys of a locale of the store.
pub open spec fn unused_in(cfg: ConfigV, store: &Store, used: &UsedKeys, locale: Seq<char>) -> Seq<
    Seq<char>,
> {
    unused_keys(use_in(cfg, store, used, locale), store.trees@[locale].data())
}

/// The rows of the first `n` locales.
pub open spec fn unused_rows(
    cfg: ConfigV,
    store: &Store,
    used: &UsedKeys,
    locales: Seq<Seq<char>>,
    n: int,
) -> Seq<KeyRowV>
    decreases n,
{
    if n <= 0 {
        Seq::empty()
    } else {
        let before = unused_rows(cfg, store, used, locales, n - 1);
        let locale = locales[n - 1];
        if store.trees@.contains_key(locale) {
            let tree = store.trees@[locale];
            before + unused_locale_rows(
                tree,
                locale,
                collapsed(tree.keys(), unused_in(cfg, store, used, locale)),
            )
        } else {
            before
        }
    }
}

/// The map holds the key under the locale.
pub open spec fn holds(m: Map<Seq<char>, TextMap<()>>, locale: Seq<char>, key: Seq<char>) -> bool {
    m.contains_key(locale) && m[locale]@.contains_key(key)
}

fn contains_all(set: &TextMap<()>, parent: &str, children: &Vec<String>) -> (b: bool)
    ensures
        b == forall|i: int|
            0 <= i < children.len() ==> set@.contains_key(
                below(parent@, #[trigger] texts(children@)[i]),
            ),
{
    let mut i: usize = 0;
    while i < children.len()
        invariant
            i <= children.len(),
            forall|j: int|
                0 <= j < i ==> set@.contains_key(below(parent@, #[trigger] texts(children@)[j])),
        decreases children.len() - i,
    {
        let full = concat(&concat(parent, "."), &children[i]);
        assert(texts(children@)[i as int] == children@[i as int]@);
        assert(full@ == below(parent@, texts(children@)[i as int]));
        if !set.contains(&full) {
            return false;
        }
        i = i + 1;
    }
    true
}

/// Replaces a complete set of unused plural children with their parent.
fn collapse_plural_nodes(tree: &LocaleTree, hits: &Vec<String>, set: &TextMap<()>) -> (out: Vec<
    String,
>)
    requires
        tree.wf(),
        forall|k: Seq<char>| #[trigger] set@.contains_key(k) <==> texts(hits@).contains(k),
    ensures
        texts(out@) == collapsed(tree.keys(), texts(hits@)),
{
    let ghost keys = tree.keys();
    let ghost model = texts(hits@);
    let mut out: Vec<String> = Vec::new();
    let mut done: TextMap<()> = TextMap::new();
    let mut i: usize = 0;
    assert(texts(out@) =~= Seq::empty());
    assert(model.len() == hits.len());
    while i < hits.len()
        invariant
            i <= hits.len(),
            tree.wf(),
            keys == tree.keys(),
            model == texts(hits@),
            forall|k: Seq<char>| #[trigger] set@.contains_key(k) <==> model.contains(k),
            forall|p: Seq<char>| #[trigger]
                done@.contains_key(p) <==> collapses(keys, model, p) && parent_seen(
                    model,
                    i as int,
                    p,
                ),
            texts(out@) == collapsed_upto(keys, model, i as int),
        decreases hits.len() - i,
    {
        let key = &hits[i];
        let ghost was = done@;
        assert(model[i as int] == key@);
        match parent_key(key) {
            None => {
                push_text(&mut out, key.clone());
            },
            Some(parent) => {
                let whole = tree.is_plural_node(parent) && contains_all(
                    set,
                    parent,
                    &tree.children(parent),
                );
                proof {
                    let list = children_of(keys, parent@);
                    assert forall|j: int| 0 <= j < list.len() implies set@.contains_key(
                        below(parent@, #[trigger] list[j]),
                    ) == model.contains(below(parent@, list[j])) by {}
                    assert(whole == collapses(keys, model, parent@)) by {
                        if plural_node_of(keys, parent@) {
                            if whole {
                                assert forall|j: int| 0 <= j < list.len() implies model.contains(
                                    below(parent@, #[trigger] list[j]),
                                ) by {
                                    assert(set@.contains_key(below(parent@, list[j])));
                                }
                            }
                            if collapses(keys, model, parent@) {
                                assert forall|j: int| 0 <= j < list.len() implies set@.contains_key(
                                    below(parent@, #[trigger] list[j]),
                                ) by {
                                    assert(model.contains(below(parent@, list[j])));
                                }
                            }
                        }
                    }
                }
                if !whole {
                    push_text(&mut out, key.clone());
                } else if !done.contains(parent) {
                    done.insert(parent.to_owned(), ());
                    push_text(&mut out, parent.to_owned());
                }
            },
        }
        proof {
            assert forall|p: Seq<char>| #[trigger] done@.contains_key(p) <==> collapses(
                keys,
                model,
                p,
            ) && parent_seen(model, i + 1, p) by {
                assert(was.contains_key(p) <==> collapses(keys, model, p) && parent_seen(
                    model,
                    i as int,
                    p,
                ));
                if parent_seen(model, i + 1, p) {
                    let j = choose|j: int|
                        0 <= j < i + 1 && parent_key_of(#[trigger] model[j]) == Some(p);
                    if j < i {
                        assert(parent_seen(model, i as int, p));
                    }
                }
                if parent_seen(model, i as int, p) {
                    let j = choose|j: int|
                        0 <= j < i && parent_key_of(#[trigger] model[j]) == Some(p);
                    assert(parent_seen(model, i + 1, p));
                }
                if parent_key_of(key@) == Some(p) {
                    assert(parent_key_of(model[i as int]) == Some(p));
                    assert(parent_seen(model, i + 1, p));
                }
            }
        }
        i = i + 1;
    }
    out
}

fn unused_in_locale(
    cfg: &Config,
    store: &Store,
    used: &UsedKeys,
    locale: &str,
    tree: &LocaleTree,
) -> (r: (Vec<String>, TextMap<()>))
    requires
        store.wf(),
        store.trees@.contains_key(locale@),
        *tree == store.trees@[locale@],
    ensures
        texts(r.0@) == unused_in(cfg@, store, used, locale@),
        forall|k: Seq<char>| #[trigger] r.1@.contains_key(k) <==> texts(r.0@).contains(k),
{
    let base = store.tree(&store.base_locale);
    let ignore = cfg.ignore_patterns(IgnoreType::Unused, None);
    let ghost u = use_in(cfg@, store, used, locale@);
    let leaves = tree.sorted_keys();
    let ghost model = sorted_of(tree.data());
    assert(model.len() == leaves.len());
    let mut hits: Vec<String> = Vec::new();
    let mut set: TextMap<()> = TextMap::new();
    let mut i: usize = 0;
    assert(texts(hits@) =~= Seq::empty());
    while i < leaves.len()
        invariant
            i <= leaves.len(),
            store.wf(),
            tree.wf(),
            model == borrowed_model(leaves@),
            u == use_in(cfg@, store, used, locale@),
            ignore@ == u.ignore,
            keys_in(base) == u.base,
            tree.keys() == u.keys,
            base matches Some(t) ==> t.wf(),
            texts(hits@) == unused_upto(u, model, i as int),
            forall|k: Seq<char>| #[trigger] set@.contains_key(k) <==> texts(hits@).contains(k),
        decreases leaves.len() - i,
    {
        let key = &leaves[i].key;
        assert(model[i as int].key == key@);
        let ghost before = texts(hits@);
        let ghost was = set@;
        if !ignore.is_match(key) && !used.patterns.is_match(key) && !used.key_used(
            &depluralize_key(key, Some(tree), base),
        ) && !store.external_has(locale, key) {
            push_text(&mut hits, key.clone());
            set.insert(key.clone(), ());
            proof {
                let now = texts(hits@);
                assert forall|k: Seq<char>| #[trigger] set@.contains_key(k) <==> now.contains(
                    k,
                ) by {
                    assert(was.contains_key(k) <==> before.contains(k));
                    if before.contains(k) {
                        let j = before.index_of(k);
                        assert(now[j] == k);
                    }
                    assert(now[before.len() as int] == key@);
                    if now.contains(k) && k != key@ {
                        let j = now.index_of(k);
                        assert(before[j] == k);
                    }
                }
            }
        }
        i = i + 1;
    }
    (hits, set)
}

/// The keys of each locale that nothing uses.
pub fn report(cfg: &Config, store: &Store, used: &UsedKeys, locales: &Vec<String>) -> (r:
    UnusedReport)
    requires
        store.wf(),
    ensures
        rows_model(r.rows@) == unused_rows(
            cfg@,
            store,
            used,
            texts(locales@),
            locales.len() as int,
        ),
        occurrences_model(r.opaque@) == occurrences_model(used.opaque@),
        forall|l: Seq<char>, k: Seq<char>| #[trigger]
            holds(r.removable_keys@, l, k) <==> texts(locales@).contains(l)
                && store.trees@.contains_key(l) && unused_in(cfg@, store, used, l).contains(k),
{
    let ghost wanted = texts(locales@);
    let mut rows: Vec<KeyRow> = Vec::new();
    let mut removable_keys: TextMap<TextMap<()>> = TextMap::new();
    let mut n: usize = 0;
    assert(rows_model(rows@) =~= Seq::empty());
    while n < locales.len()
        invariant
            n <= locales.len(),
            store.wf(),
            wanted == texts(locales@),
            rows_model(rows@) == unused_rows(cfg@, store, used, wanted, n as int),
            forall|l: Seq<char>, k: Seq<char>| #[trigger]
                holds(removable_keys@, l, k) <==> wanted.take(n as int).contains(l)
                    && store.trees@.contains_key(l) && unused_in(cfg@, store, used, l).contains(k),
        decreases locales.len() - n,
    {
        let locale = &locales[n];
        assert(wanted[n as int] == locale@);
        let ghost start = rows_model(rows@);
        let ghost was = removable_keys@;
        if let Some(tree) = store.tree(locale) {
            let (hits, set) = unused_in_locale(cfg, store, used, locale, tree);
            let shown = collapse_plural_nodes(tree, &hits, &set);
            removable_keys.insert(locale.clone(), set);
            let ghost keys = texts(shown@);
            let ghost all = unused_locale_rows(*tree, locale@, keys);
            let mut i: usize = 0;
            assert(keys.len() == shown.len());
            assert(start + all.take(0) =~= start);
            while i < shown.len()
                invariant
                    i <= shown.len(),
                    tree.wf(),
                    keys == texts(shown@),
                    all == unused_locale_rows(*tree, locale@, keys),
                    rows_model(rows@) == start + all.take(i as int),
                decreases shown.len() - i,
            {
                let key = &shown[i];
                assert(keys[i as int] == key@);
                let value = match tree.get(key) {
                    Some(leaf) => Some(leaf.value.to_display_string()),
                    None => None,
                };
                push_row(
                    &mut rows,
                    KeyRow { locale: locale.clone(), key: key.clone(), value, reason: None },
                );
                assert(all.take(i + 1) =~= all.take(i as int).push(all[i as int]));
                i = i + 1;
                assert(rows_model(rows@) =~= start + all.take(i as int));
            }
            assert(all.take(i as int) =~= all);
        }
        proof {
            let before = wanted.take(n as int);
            let after = wanted.take(n + 1);
            assert(after =~= before.push(locale@));
            assert(after[n as int] == locale@);
            assert forall|l: Seq<char>, k: Seq<char>| #[trigger]
                holds(removable_keys@, l, k) <==> after.contains(l) && store.trees@.contains_key(l)
                    && unused_in(cfg@, store, used, l).contains(k) by {
                if after.contains(l) && l != locale@ {
                    let j = after.index_of(l);
                    assert(before[j] == l);
                }
                if before.contains(l) {
                    let j = before.index_of(l);
                    assert(after[j] == l);
                }
                assert(holds(was, l, k) <==> before.contains(l) && store.trees@.contains_key(l)
                    && unused_in(cfg@, store, used, l).contains(k));
            }
        }
        n = n + 1;
    }
    assert(wanted.take(n as int) =~= wanted);
    UnusedReport { rows, opaque: clone_occurrences(&used.opaque), removable_keys }
}

// -------------------------------------------------------------------- selection

/// The pattern matches the key or a level above it.
pub open spec fn selects(pattern: Seq<char>, key: Seq<char>) -> bool
    decreases key.len(),
{
    accepts(pattern, key) || match parent_key_of(key) {
        Some(parent) => if parent.len() < key.len() {
            selects(pattern, parent)
        } else {
            false
        },
        None => false,
    }
}

/// The key, or a level above it, is shown for the locale.
pub open spec fn shown_above(rows: Seq<KeyRowV>, locale: Seq<char>, key: Seq<char>) -> bool
    decreases key.len(),
{
    shown(rows, locale, key) || match parent_key_of(key) {
        Some(parent) => if parent.len() < key.len() {
            shown_above(rows, locale, parent)
        } else {
            false
        },
        None => false,
    }
}

/// A row shows the key for the locale.
pub open spec fn shown(rows: Seq<KeyRowV>, locale: Seq<char>, key: Seq<char>) -> bool {
    exists|i: int| 0 <= i < rows.len() && (#[trigger] rows[i]).locale == locale && rows[i].key == key
}

/// The first `n` rows that the pattern selects.
pub open spec fn selected_rows(pattern: Seq<char>, rows: Seq<KeyRowV>, n: int) -> Seq<KeyRowV>
    decreases n,
{
    if n <= 0 {
        Seq::empty()
    } else if selects(pattern, rows[n - 1].key) {
        selected_rows(pattern, rows, n - 1).push(rows[n - 1])
    } else {
        selected_rows(pattern, rows, n - 1)
    }
}

proof fn parent_is_shorter(key: Seq<char>)
    ensures
        crate::keys::last_dot(key) < key.len(),
        parent_key_of(key) matches Some(p) ==> p.len() < key.len(),
    decreases key.len(),
{
    if key.len() > 0 && key.last() != '.' {
        parent_is_shorter(key.drop_last());
    }
}

fn is_selected(pattern: &Pattern, key: &str) -> (b: bool)
    ensures
        b == selects(pattern@, key@),
    decreases key@.len(),
{
    if pattern.is_match(key) {
        return true;
    }
    proof {
        parent_is_shorter(key@);
    }
    match parent_key(key) {
        Some(parent) => is_selected(pattern, parent),
        None => false,
    }
}

fn is_shown(rows: &Vec<KeyRow>, locale: &str, key: &str) -> (b: bool)
    ensures
        b == shown_above(rows_model(rows@), locale@, key@),
    decreases key@.len(),
{
    let ghost model = rows_model(rows@);
    let mut i: usize = 0;
    while i < rows.len()
        invariant
            i <= rows.len(),
            model == rows_model(rows@),
            forall|j: int|
                0 <= j < i ==> !((#[trigger] model[j]).locale == locale@ && model[j].key == key@),
        decreases rows.len() - i,
    {
        assert(model[i as int] == rows@[i as int]@);
        if same_text(&rows[i].key, key) && same_text(&rows[i].locale, locale) {
            assert(shown(model, locale@, key@));
            return true;
        }
        i = i + 1;
    }
    proof {
        parent_is_shorter(key@);
    }
    match parent_key(key) {
        Some(parent) => is_shown(rows, locale, parent),
        None => false,
    }
}

impl UnusedReport {
    /// A report without findings.
    pub fn empty() -> (r: UnusedReport)
        ensures
            r.rows.len() == 0,
            r.opaque.len() == 0,
            r.removable_keys@ == Map::<Seq<char>, TextMap<()>>::empty(),
    {
        UnusedReport { rows: Vec::new(), opaque: Vec::new(), removable_keys: TextMap::new() }
    }

    /// Keeps the rows whose key, or a level above it, the pattern matches, and
    /// the removable keys that the kept rows show.
    pub fn select_pattern(&mut self, pattern: &Pattern)
        ensures
            rows_model(final(self).rows@) == selected_rows(
                pattern@,
                rows_model(old(self).rows@),
                old(self).rows.len() as int,
            ),
            final(self).opaque == old(self).opaque,
            forall|l: Seq<char>, k: Seq<char>| #[trigger]
                holds(final(self).removable_keys@, l, k) <==> holds(
                    old(self).removable_keys@,
                    l,
                    k,
                ) && shown_above(rows_model(final(self).rows@), l, k),
    {
        let ghost model = rows_model(self.rows@);
        let ghost kept0 = self.removable_keys@;
        let mut rows: Vec<KeyRow> = Vec::new();
        let mut i: usize = 0;
        assert(rows_model(rows@) =~= Seq::empty());
        while i < self.rows.len()
            invariant
                i <= self.rows.len(),
                self.rows == old(self).rows,
                model == rows_model(self.rows@),
                rows_model(rows@) == selected_rows(pattern@, model, i as int),
            decreases self.rows.len() - i,
        {
            let row = &self.rows[i];
            assert(model[i as int] == row@);
            if is_selected(pattern, &row.key) {
                push_row(&mut rows, row.clone());
            }
            i = i + 1;
        }
        let ghost shown_rows = rows_model(rows@);
        let mut kept: TextMap<TextMap<()>> = TextMap::new();
        let n = self.removable_keys.len();
        let ghost order = self.removable_keys.order();
        let mut a: usize = 0;
        while a < n
            invariant
                a <= n == order.len(),
                order == self.removable_keys.order(),
                kept0 == self.removable_keys@,
                self.removable_keys.ordered(),
                shown_rows == rows_model(rows@),
                forall|l: Seq<char>, k: Seq<char>| #[trigger]
                    holds(kept@, l, k) <==> order.take(a as int).contains(l) && holds(kept0, l, k)
                        && shown_above(shown_rows, l, k),
            decreases n - a,
        {
            let locale = self.removable_keys.key_at(a);
            let keys = self.removable_keys.value_at(a);
            let ghost was = kept@;
            let m = keys.len();
            let ghost inner = keys.order();
            let mut own: TextMap<()> = TextMap::new();
            let mut b: usize = 0;
            while b < m
                invariant
                    b <= m == inner.len(),
                    inner == keys.order(),
                    shown_rows == rows_model(rows@),
                    forall|k: Seq<char>| #[trigger]
                        own@.contains_key(k) <==> inner.take(b as int).contains(k)
                            && shown_above(shown_rows, locale@, k),
                decreases m - b,
            {
                let key = keys.key_at(b);
                let ghost before = own@;
                if is_shown(&rows, locale, key) {
                    own.insert(key.clone(), ());
                }
                proof {
                    let taken = inner.take(b + 1);
                    assert(taken =~= inner.take(b as int).push(key@));
                    assert forall|k: Seq<char>| #[trigger] own@.contains_key(k)
                        <==> taken.contains(k) && shown_above(shown_rows, locale@, k) by {
                        assert(before.contains_key(k) <==> inner.take(b as int).contains(k)
                            && shown_above(shown_rows, locale@, k));
                        if taken.contains(k) && k != key@ {
                            let j = taken.index_of(k);
                            assert(inner.take(b as int)[j] == k);
                        }
                        if inner.take(b as int).contains(k) {
                            let j = inner.take(b as int).index_of(k);
                            assert(taken[j] == k);
                        }
                        assert(taken[b as int] == key@);
                    }
                }
                b = b + 1;
            }
            assert(inner.take(b as int) =~= inner);
            let ghost own_keys = own@;
            kept.insert(locale.clone(), own);
            proof {
                let taken = order.take(a + 1);
                assert(taken =~= order.take(a as int).push(locale@));
                assert forall|l: Seq<char>, k: Seq<char>| #[trigger]
                    holds(kept@, l, k) <==> taken.contains(l) && holds(kept0, l, k)
                        && shown_above(shown_rows, l, k) by {
                    assert(holds(was, l, k) <==> order.take(a as int).contains(l) && holds(
                        kept0,
                        l,
                        k,
                    ) && shown_above(shown_rows, l, k));
                    if taken.contains(l) && l != locale@ {
                        let j = taken.index_of(l);
                        assert(order.take(a as int)[j] == l);
                    }
                    if order.take(a as int).contains(l) {
                        let j = order.take(a as int).index_of(l);
                        assert(taken[j] == l);
                    }
                    assert(taken[a as int] == locale@);
                    if l == locale@ {
                        assert(holds(kept@, l, k) <==> own_keys.contains_key(k));
                        assert(kept0[l]@.contains_key(k) <==> inner.contains(k));
                    }
                }
            }
            a = a + 1;
        }
        proof {
            assert(order.take(a as int) =~= order);
            assert forall|l: Seq<char>, k: Seq<char>| #[trigger] holds(kept@, l, k) <==> holds(
                kept0,
                l,
                k,
            ) && shown_above(shown_rows, l, k) by {
                if holds(kept0, l, k) {
                    assert(kept0.contains_key(l));
                    assert(order.contains(l));
                }
            }
        }
        self.rows = rows;
        self.removable_keys = kept;
    }

    /// Whether any key can be removed.
    pub fn has_removable(&self) -> (b: bool)
        ensures
            b == exists|l: Seq<char>, k: Seq<char>| #[trigger] holds(self.removable_keys@, l, k),
    {
        let n = self.removable_keys.len();
        let ghost order = self.removable_keys.order();
        let mut i: usize = 0;
        while i < n
            invariant
                i <= n == order.len(),
                order == self.removable_keys.order(),
                self.removable_keys.ordered(),
                forall|j: int, k: Seq<char>|
                    0 <= j < i ==> !(#[trigger] holds(self.removable_keys@, order[j], k)),
            decreases n - i,
        {
            let keys = self.removable_keys.value_at(i);
            let size = keys.len();
            if size > 0 {
                let ghost first = keys.order()[0];
                assert(keys.order().contains(first));
                assert(keys@.contains_key(first));
                assert(holds(self.removable_keys@, order[i as int], first));
                return true;
            }
            proof {
                assert forall|k: Seq<char>| !(#[trigger] holds(
                    self.removable_keys@,
                    order[i as int],
                    k,
                )) by {
                    if keys@.contains_key(k) {
                        assert(keys.order().contains(k));
                    }
                }
            }
            i = i + 1;
        }
        proof {
            assert forall|l: Seq<char>, k: Seq<char>| !(#[trigger] holds(
                self.removable_keys@,
                l,
                k,
            )) by {
                if holds(self.removable_keys@, l, k) {
                    assert(self.removable_keys@.contains_key(l));
                    assert(order.contains(l));
                    let j = order.index_of(l);
                    assert(order[j] == l);
                    assert(!holds(self.removable_keys@, order[j], k));
                }
            }
        }
        false
    }

    /// Whether the key of the locale can be removed.
    pub fn removable(&self, locale: &str, key: &str) -> (b: bool)
        ensures
            b == holds(self.removable_keys@, locale@, key@),
    {
        match self.removable_keys.get(locale) {
            Some(keys) => keys.contains(key),
            None => false,
        }
    }

    /// `Found` where there is a row.
    pub fn outcome(&self) -> (o: Outcome)
        ensures
            o == if self.rows.len() > 0 {
                Outcome::Found
            } else {
                Outcome::Clean
            },
    {
        Outcome::of(self.rows.len() > 0)
    }

    /// The report as a table, and then the calls whose key is unknown.
    pub fn to_text(&self) -> (out: String)
        ensures
            out@ == table(
                "Unused keys"@,
                seq!["Locale"@, "Key"@, "Value"@],
                value_cells(rows_model(self.rows@)),
            ) + opaque_note(occurrences_model(self.opaque@)),
    {
        let mut out = render_table(
            "Unused keys",
            &text_row("Locale", "Key", "Value"),
            &value_rows(&self.rows),
        );
        let ghost head = out@;
        let ghost model = occurrences_model(self.opaque@);
        assert(model.len() == self.opaque.len());
        if self.opaque.len() > 0 {
            out.append("\n");
            out.append(&decimal_text(self.opaque.len() as u64));
            out.append(
                " translation call(s) have a key that cannot be determined statically. Keys they reach cannot be verified as used. Add an `# i18n-tasks-use` comment or an `ignore_unused` rule for each.\n",
            );
            let ghost top = out@;
            let mut i: usize = 0;
            assert(top + opaque_calls(model, 0) =~= top);
            while i < self.opaque.len()
                invariant
                    i <= self.opaque.len(),
                    model == occurrences_model(self.opaque@),
                    out@ == top + opaque_calls(model, i as int),
                decreases self.opaque.len() - i,
            {
                let o = &self.opaque[i];
                assert(model[i as int] == o@);
                out.append("  ");
                out.append(&o.path);
                out.append(":");
                out.append(&decimal_text(o.line_num as u64));
                out.append(" ");
                out.append(&first_line(&o.snippet));
                out.append("\n");
                i = i + 1;
                assert(out@ =~= top + opaque_calls(model, i as int));
            }
            assert(out@ =~= head + opaque_note(model));
        } else {
            assert(head + opaque_note(model) =~= head);
        }
        out
    }
}

// ----------------------------------------------------------------- opaque calls

/// The first line of a text, without its line break.
pub open spec fn first_line_of(s: Seq<char>) -> Seq<char> {
    let i = position_of(s, '\n');
    if 0 <= i < s.len() {
        if i > 0 && s[i - 1] == '\r' {
            s.take(i - 1)
        } else {
            s.take(i)
        }
    } else {
        s
    }
}

pub(crate) fn first_line(s: &str) -> (out: String)
    ensures
        out@ == first_line_of(s@),
{
    let v = chars_of(s);
    let i = position_from(&v, '\n', 0);
    assert(v@.skip(0) =~= s@);
    let end: usize = if i < v.len() && i > 0 && v[i - 1] == '\r' {
        i - 1
    } else {
        i
    };
    let out = text_between(&v, 0, end);
    assert(out@ =~= v@.take(end as int));
    assert(v@.take(v.len() as int) =~= v@);
    out
}

/// The lines of the first `n` calls.
pub open spec fn opaque_calls(v: Seq<OccurrenceV>, n: int) -> Seq<char>
    decreases n,
{
    if n <= 0 {
        Seq::empty()
    } else {
        opaque_calls(v, n - 1) + ("  "@ + v[n - 1].path + ":"@ + decimal(v[n - 1].line_num as nat)
            + " "@ + first_line_of(v[n - 1].snippet) + "\n"@)
    }
}

/// The note about calls whose key is unknown, nothing where there is none.
pub open spec fn opaque_note(v: Seq<OccurrenceV>) -> Seq<char> {
    if v.len() == 0 {
        Seq::empty()
    } else {
        "\n"@ + decimal(v.len())
            + " translation call(s) have a key that cannot be determined statically. Keys they reach cannot be verified as used. Add an `# i18n-tasks-use` comment or an `ignore_unused` rule for each.\n"@
            + opaque_calls(v, v.len() as int)
    }
}

// ------------------------------------------------------------------------ laws

proof fn unused_upto_is_exact(u: UseV, leaves: Seq<LeafV>, n: int, key: Seq<char>)
    requires
        0 <= n <= leaves.len(),
    ensures
        unused_upto(u, leaves, n).contains(key) <==> u.unused(key) && exists|i: int|
            0 <= i < n && (#[trigger] leaves[i]).key == key,
    decreases n,
{
    if n > 0 {
        unused_upto_is_exact(u, leaves, n - 1, key);
        let before = unused_upto(u, leaves, n - 1);
        let last = leaves[n - 1].key;
        if u.unused(last) {
            let all = before.push(last);
            if before.contains(key) {
                assert(all[before.index_of(key)] == key);
            }
            if last == key {
                assert(all[before.len() as int] == key);
            }
            if all.contains(key) && last != key {
                assert(before[all.index_of(key)] == key);
            }
        }
    }
}

/// A key is unused exactly where its locale has it and nothing uses it: no call
/// names it or its plural node, no interpolated key reaches it, no rule ignores
/// it, and it is not external.
pub proof fn exactly_the_keys_without_a_use_are_unused(
    cfg: ConfigV,
    store: &Store,
    used: &UsedKeys,
    locale: Seq<char>,
    key: Seq<char>,
)
    requires
        store.wf(),
        store.trees@.contains_key(locale),
    ensures
        unused_in(cfg, store, used, locale).contains(key) <==> store.trees@[locale].keys().contains(
            key,
        ) && use_in(cfg, store, used, locale).unused(key),
{
    let tree = store.trees@[locale];
    let leaves = sorted_of(tree.data());
    a_tree_is_sorted_whole(tree);
    unused_upto_is_exact(use_in(cfg, store, used, locale), leaves, leaves.len() as int, key);
    if tree.keys().contains(key) {
        assert(tree.keys().to_set().contains(key));
        assert(keys_of(leaves).to_set().contains(key));
        let i = keys_of(leaves).index_of(key);
        assert(leaves[i].key == key);
    }
    if exists|i: int| 0 <= i < leaves.len() && (#[trigger] leaves[i]).key == key {
        let i = choose|i: int| 0 <= i < leaves.len() && (#[trigger] leaves[i]).key == key;
        assert(keys_of(leaves)[i] == key);
        assert(keys_of(leaves).to_set().contains(key));
        assert(tree.keys().to_set().contains(key));
    }
}

/// A key that an ignore rule, an interpolated key or the external data covers
/// is never unused, whatever the sources call.
pub proof fn a_covered_key_is_never_unused(
    cfg: ConfigV,
    store: &Store,
    used: &UsedKeys,
    locale: Seq<char>,
    key: Seq<char>,
)
    requires
        store.wf(),
        store.trees@.contains_key(locale),
        any_accepts(cfg.ignore, key) || any_accepts(used.patterns@, key) || holds_key(
            store.external@,
            locale,
            key,
        ),
    ensures
        !unused_in(cfg, store, used, locale).contains(key),
{
    exactly_the_keys_without_a_use_are_unused(cfg, store, used, locale, key);
    if any_accepts(cfg.ignore, key) {
        a_global_rule_holds_everywhere(cfg, IgnoreType::Unused, None, key);
    }
}

} // verus!
