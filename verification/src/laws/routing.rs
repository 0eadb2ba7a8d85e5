//! Which file a key is written to.
use crate::config::{interpolated, interpolated_from, Config, Router, WriteRuleV};
use crate::data::load::LeafV;
use crate::data::route::{
    leaf_of, locale_at, neighbour, pattern_route, replaced, replaced_from, routing, rule_for,
    rules_of, span_text, substituted, substituted_from,
};
use crate::data::store::Store;
use crate::paths::path_under;
use crate::pattern::{accepts, captures_decide_the_match, captures_of, Spans};
use crate::text::{is_digit, occurs_at, texts};
use crate::wildcards::{a_star_matches_any_text, stands_between};
use vstd::prelude::*;

verus! {

// --------------------------------------------------------------------- the rules

/// A write rule takes the key: its pattern matches it, or it has none.
pub open spec fn takes(rule: WriteRuleV, key: Seq<char>) -> bool {
    match rule.pattern {
        Some(p) => accepts(p, key),
        None => true,
    }
}

/// The pattern of a rule; a bare path has one that takes every key.
pub open spec fn pattern_of(rule: WriteRuleV) -> Seq<char> {
    match rule.pattern {
        Some(p) => p,
        None => "*"@,
    }
}

proof fn a_bare_path_takes_all(key: Seq<char>)
    ensures
        accepts("*"@, key),
{
    let none = Seq::<char>::empty();
    reveal_strlit("*");
    a_star_matches_any_text(none, none, key);
    assert(none + "*"@ + none =~= "*"@);
    assert(stands_between(key, none, key, none)) by {
        assert(none + key + none =~= key);
    }
}

proof fn the_first_rule_is_found(write: Seq<WriteRuleV>, key: Seq<char>, from: int)
    requires
        0 <= from <= write.len(),
    ensures
        match rule_for(rules_of(write), key, from) {
            Some(i) => from <= i < write.len() && takes(write[i], key) && forall|j: int|
                from <= j < i ==> !takes(#[trigger] write[j], key),
            None => forall|j: int| from <= j < write.len() ==> !takes(#[trigger] write[j], key),
        },
    decreases write.len() - from,
{
    if from < write.len() {
        a_bare_path_takes_all(key);
        assert(rules_of(write)[from].0 == pattern_of(write[from]));
        if !accepts(rules_of(write)[from].0, key) {
            the_first_rule_is_found(write, key, from + 1);
        }
    }
}

/// The first rule that takes a key decides its file: the path of that rule with
/// the locale and the groups of its pattern filled in.
pub proof fn the_first_rule_that_takes_a_key_decides(
    write: Seq<WriteRuleV>,
    locale: Seq<char>,
    key: Seq<char>,
    i: int,
)
    requires
        0 <= i < write.len(),
        takes(write[i], key),
        forall|j: int| 0 <= j < i ==> !takes(#[trigger] write[j], key),
    ensures
        captures_of(pattern_of(write[i]), key) is Some,
        pattern_route(write, locale, key) == Ok::<Seq<char>, Seq<char>>(
            substituted(
                interpolated(write[i].path, locale),
                key,
                captures_of(pattern_of(write[i]), key)->Some_0,
            ),
        ),
{
    the_first_rule_is_found(write, key, 0);
    a_bare_path_takes_all(key);
    captures_decide_the_match(pattern_of(write[i]), key);
    let k = rule_for(rules_of(write), key, 0)->Some_0;
    if k < i {
        assert(takes(write[k], key));
    }
    if i < k {
        assert(!takes(write[i], key));
    }
}

/// A key cannot be routed exactly where no rule takes it.
pub proof fn a_key_is_unroutable_exactly_where_no_rule_takes_it(
    write: Seq<WriteRuleV>,
    locale: Seq<char>,
    key: Seq<char>,
)
    ensures
        pattern_route(write, locale, key) is Err <==> forall|j: int|
            0 <= j < write.len() ==> !takes(#[trigger] write[j], key),
{
    the_first_rule_is_found(write, key, 0);
}

// ------------------------------------------------------------------- the routers

/// The leaf of the key in a locale of the store.
pub open spec fn leaf_in(store: &Store, locale: Seq<char>, key: Seq<char>, leaf: LeafV) -> bool {
    store.trees@.contains_key(locale) && exists|i: int|
        0 <= i < store.trees@[locale].leaves.len() && #[trigger] store.trees@[locale].leaves@[i]@
            == leaf && leaf.key == key
}

/// No locale but this one, up to the one at `n`, has the key.
pub open spec fn no_other_has(store: &Store, locale: Seq<char>, key: Seq<char>, n: int) -> bool {
    forall|i: int, leaf: LeafV|
        0 <= i < n && store.locales@[i]@ != locale ==> !#[trigger] leaf_in(
            store,
            store.locales@[i]@,
            key,
            leaf,
        )
}

proof fn a_leaf_is_found(store: &Store, locale: Seq<char>, key: Seq<char>)
    requires
        store.wf(),
    ensures
        leaf_of(store.trees@, locale, key) matches Some(leaf) ==> leaf_in(store, locale, key, leaf),
        forall|leaf: LeafV| #[trigger]
            leaf_in(store, locale, key, leaf) ==> leaf_of(store.trees@, locale, key) == Some(leaf),
{
    if store.trees@.contains_key(locale) {
        let tree = store.trees@[locale];
        let keys = tree.keys();
        if keys.contains(key) {
            let j = keys.index_of(key);
            assert(tree.leaves@[j]@ == tree.data()[j]);
            assert(leaf_in(store, locale, key, tree.data()[j]));
        }
        assert forall|leaf: LeafV| #[trigger] leaf_in(store, locale, key, leaf) implies leaf_of(
            store.trees@,
            locale,
            key,
        ) == Some(leaf) by {
            let i = choose|i: int|
                0 <= i < tree.leaves.len() && #[trigger] tree.leaves@[i]@ == leaf && leaf.key == key;
            assert(tree.data()[i] == leaf);
            assert(keys[i] == key);
            let j = keys.index_of(key);
            assert(tree.index@[keys[i]] == i);
            assert(tree.index@[keys[j]] == j);
        }
    }
}

/// A key that its locale has stays in the file that it comes from, unless keys
/// are routed by pattern: because that is asked for, or because the
/// configuration says so.
pub proof fn a_key_stays_unless_keys_are_routed_by_pattern(
    cfg: &Config,
    store: &Store,
    locale: Seq<char>,
    force: bool,
    key: Seq<char>,
    leaf: LeafV,
)
    requires
        store.wf(),
        leaf_in(store, locale, key, leaf),
    ensures
        routing(cfg, store, locale, force).destination(key) == if force || cfg.data.router
            == Router::Pattern {
            match pattern_route(cfg@.data.write, locale, key) {
                Ok(path) => Ok::<Seq<char>, Seq<char>>(path_under(cfg.root@, path)),
                Err(e) => Err(e),
            }
        } else {
            Ok(path_under(cfg.root@, leaf.path))
        },
{
    a_leaf_is_found(store, locale, key);
}

/// A key that its locale lacks goes beside the file of the first other locale
/// that has it: into the same path with the locale replaced.
pub proof fn a_new_key_goes_beside_that_of_another_locale(
    cfg: &Config,
    store: &Store,
    locale: Seq<char>,
    key: Seq<char>,
    i: int,
    leaf: LeafV,
)
    requires
        store.wf(),
        cfg.data.router == Router::Conservative,
        forall|own: LeafV| !#[trigger] leaf_in(store, locale, key, own),
        0 <= i < store.locales.len(),
        store.locales@[i]@ != locale,
        leaf_in(store, store.locales@[i]@, key, leaf),
        no_other_has(store, locale, key, i),
    ensures
        routing(cfg, store, locale, false).destination(key) == Ok::<Seq<char>, Seq<char>>(
            path_under(cfg.root@, replaced(leaf.path, store.locales@[i]@, locale)),
        ),
{
    let all = texts(store.locales@);
    a_leaf_is_found(store, locale, key);
    a_leaf_is_found(store, all[i], key);
    the_first_other_is_found(store, locale, key, 0, i);
}

proof fn the_first_other_is_found(
    store: &Store,
    locale: Seq<char>,
    key: Seq<char>,
    from: int,
    i: int,
)
    requires
        store.wf(),
        0 <= from <= i < store.locales.len(),
        store.locales@[i]@ != locale,
        leaf_of(store.trees@, store.locales@[i]@, key) is Some,
        no_other_has(store, locale, key, i),
    ensures
        neighbour(store.trees@, texts(store.locales@), locale, key, from) == Some(i),
    decreases i - from,
{
    let all = texts(store.locales@);
    if from < i {
        a_leaf_is_found(store, all[from], key);
        if all[from] != locale && leaf_of(store.trees@, all[from], key) is Some {
            assert(!leaf_in(
                store,
                store.locales@[from]@,
                key,
                leaf_of(store.trees@, all[from], key)->Some_0,
            ));
        }
        the_first_other_is_found(store, locale, key, from + 1, i);
    }
}

/// A key that no locale has goes where the rules send it, with either router.
pub proof fn a_key_of_no_locale_goes_where_the_rules_send_it(
    cfg: &Config,
    store: &Store,
    locale: Seq<char>,
    force: bool,
    key: Seq<char>,
)
    requires
        store.wf(),
        forall|own: LeafV| !#[trigger] leaf_in(store, locale, key, own),
        no_other_has(store, locale, key, store.locales.len() as int),
    ensures
        routing(cfg, store, locale, force).destination(key) == match pattern_route(
            cfg@.data.write,
            locale,
            key,
        ) {
            Ok(path) => Ok::<Seq<char>, Seq<char>>(path_under(cfg.root@, path)),
            Err(e) => Err(e),
        },
{
    a_leaf_is_found(store, locale, key);
    no_other_is_found(store, locale, key, 0);
}

proof fn no_other_is_found(store: &Store, locale: Seq<char>, key: Seq<char>, from: int)
    requires
        store.wf(),
        0 <= from <= store.locales.len(),
        no_other_has(store, locale, key, store.locales.len() as int),
    ensures
        neighbour(store.trees@, texts(store.locales@), locale, key, from) is None,
    decreases store.locales.len() - from,
{
    let all = texts(store.locales@);
    if from < store.locales.len() {
        a_leaf_is_found(store, all[from], key);
        if all[from] != locale && leaf_of(store.trees@, all[from], key) is Some {
            assert(!leaf_in(
                store,
                store.locales@[from]@,
                key,
                leaf_of(store.trees@, all[from], key)->Some_0,
            ));
        }
        no_other_is_found(store, locale, key, from + 1);
    }
}

// ----------------------------------------------------------------- filling in paths

/// The text holds no percent sign.
pub open spec fn has_no_percent(s: Seq<char>) -> bool {
    !s.contains('%')
}

proof fn plain_stretch(
    template: Seq<char>,
    i: int,
    j: int,
    locale: Seq<char>,
)
    requires
        0 <= i <= j <= template.len(),
        forall|k: int| i <= k < j ==> #[trigger] template[k] != '%',
    ensures
        interpolated_from(template, i, locale) == template.subrange(i, j) + interpolated_from(
            template,
            j,
            locale,
        ),
    decreases j - i,
{
    if i < j {
        plain_stretch(template, i + 1, j, locale);
        assert(template[i] != '%');
        reveal_strlit("%%");
        reveal_strlit("%{locale}");
        if occurs_at(template, "%%"@, i) {
            assert(template.subrange(i, i + 2)[0] == template[i]);
        }
        if occurs_at(template, "%{locale}"@, i) {
            assert(template.subrange(i, i + 9)[0] == template[i]);
        }
        assert(template.subrange(i, j) =~= seq![template[i]] + template.subrange(i + 1, j));
        assert(interpolated_from(template, i, locale) =~= template.subrange(i, j)
            + interpolated_from(template, j, locale));
    } else {
        assert(template.subrange(i, j) =~= Seq::empty());
        assert(interpolated_from(template, i, locale) =~= template.subrange(i, j)
            + interpolated_from(template, j, locale));
    }
}

/// The locale takes the place of `%{locale}`, wherever that stands, and all else
/// stays.
pub proof fn the_locale_is_filled_in(
    before: Seq<char>,
    after: Seq<char>,
    locale: Seq<char>,
)
    requires
        has_no_percent(before),
    ensures
        interpolated(before + "%{locale}"@ + after, locale) == before + locale + interpolated(
            after,
            locale,
        ),
        interpolated(before, locale) == before,
{
    reveal_strlit("%{locale}");
    reveal_strlit("%%");
    let t = before + "%{locale}"@ + after;
    let n = before.len() as int;
    assert forall|k: int| 0 <= k < n implies #[trigger] t[k] != '%' by {
        assert(before.contains(before[k]));
    }
    plain_stretch(t, 0, n, locale);
    assert(t.subrange(0, n) =~= before);
    assert(t.subrange(n, n + 9) =~= "%{locale}"@);
    assert(occurs_at(t, "%{locale}"@, n));
    if occurs_at(t, "%%"@, n) {
        assert(t.subrange(n, n + 2)[1] == t[n + 1]);
    }
    assert(t.skip(n + 9) =~= after);
    the_rest_is_filled_in(t, n + 9, after, 0, locale);
    assert(before + (locale + interpolated_from(after, 0, locale)) =~= before + locale
        + interpolated_from(after, 0, locale));
    assert forall|k: int| 0 <= k < n implies #[trigger] before[k] != '%' by {
        assert(before.contains(before[k]));
    }
    plain_stretch(before, 0, n, locale);
    assert(before.subrange(0, n) =~= before);
    assert(interpolated(before, locale) =~= before);
}

proof fn the_rest_is_filled_in(
    t: Seq<char>,
    at: int,
    rest: Seq<char>,
    i: int,
    locale: Seq<char>,
)
    requires
        0 <= at,
        0 <= i <= rest.len(),
        t.len() == at + rest.len(),
        t.skip(at) == rest,
    ensures
        interpolated_from(t, at + i, locale) == interpolated_from(rest, i, locale),
    decreases rest.len() - i,
{
    if i < rest.len() {
        assert(t[at + i] == t.skip(at)[i]);
        if i + 2 <= rest.len() {
            the_rest_is_filled_in(t, at, rest, i + 2, locale);
            assert(t.subrange(at + i, at + i + 2) =~= rest.subrange(i, i + 2));
        }
        if i + 9 <= rest.len() {
            the_rest_is_filled_in(t, at, rest, i + 9, locale);
            assert(t.subrange(at + i, at + i + 9) =~= rest.subrange(i, i + 9));
        }
        the_rest_is_filled_in(t, at, rest, i + 1, locale);
        reveal_strlit("%{locale}");
        reveal_strlit("%%");
    }
}

proof fn no_reference_in_a_stretch(
    path: Seq<char>,
    i: int,
    j: int,
    key: Seq<char>,
    caps: Spans,
)
    requires
        0 <= i <= j <= path.len(),
        forall|k: int| i <= k < j ==> #[trigger] path[k] != '\\',
    ensures
        substituted_from(path, i, key, caps) == path.subrange(i, j) + substituted_from(
            path,
            j,
            key,
            caps,
        ),
    decreases j - i,
{
    if i < j {
        no_reference_in_a_stretch(path, i + 1, j, key, caps);
        assert(path[i] != '\\');
        assert(path.subrange(i, j) =~= seq![path[i]] + path.subrange(i + 1, j));
        assert(substituted_from(path, i, key, caps) =~= path.subrange(i, j) + substituted_from(
            path,
            j,
            key,
            caps,
        ));
    } else {
        assert(path.subrange(i, j) =~= Seq::empty());
        assert(substituted_from(path, i, key, caps) =~= path.subrange(i, j) + substituted_from(
            path,
            j,
            key,
            caps,
        ));
    }
}

/// What a group of the pattern stands for takes the place of its number, and
/// what stands around it stays.
pub proof fn a_group_takes_the_place_of_its_number(
    before: Seq<char>,
    digit: char,
    after: Seq<char>,
    key: Seq<char>,
    caps: Spans,
)
    requires
        is_digit(digit),
        !before.contains('\\'),
        !after.contains('\\'),
    ensures
        ({
            let n = digit as int - '0' as int;
            substituted(before + seq!['\\', digit] + after, key, caps) == before + (if 1 <= n
                <= caps.len() && caps[n - 1] is Some {
                span_text(key, caps[n - 1]->Some_0.0, caps[n - 1]->Some_0.1)
            } else {
                Seq::empty()
            }) + after
        }),
        substituted(before, key, caps) == before,
{
    let path = before + seq!['\\', digit] + after;
    let n = before.len() as int;
    let m = path.len() as int;
    assert forall|k: int| 0 <= k < n implies #[trigger] path[k] != '\\' by {
        assert(before.contains(before[k]));
    }
    no_reference_in_a_stretch(path, 0, n, key, caps);
    assert(path.subrange(0, n) =~= before);
    assert(path[n] == '\\' && path[n + 1] == digit);
    assert forall|k: int| n + 2 <= k < m implies #[trigger] path[k] != '\\' by {
        assert(path[k] == after[k - n - 2]);
        assert(after.contains(after[k - n - 2]));
    }
    no_reference_in_a_stretch(path, n + 2, m, key, caps);
    assert(path.subrange(n + 2, m) =~= after);
    let number = digit as int - '0' as int;
    let text = if 1 <= number <= caps.len() && caps[number - 1] is Some {
        span_text(key, caps[number - 1]->Some_0.0, caps[number - 1]->Some_0.1)
    } else {
        Seq::empty()
    };
    assert(substituted_from(path, m, key, caps) =~= Seq::empty());
    assert(substituted_from(path, n + 2, key, caps) =~= after);
    assert(substituted_from(path, n, key, caps) =~= text + after);
    assert(substituted(path, key, caps) =~= before + text + after);
    assert forall|k: int| 0 <= k < n implies #[trigger] before[k] != '\\' by {
        assert(before.contains(before[k]));
    }
    no_reference_in_a_stretch(before, 0, n, key, caps);
    assert(before.subrange(0, n) =~= before);
    assert(substituted(before, key, caps) =~= before);
}

proof fn nothing_to_replace(path: Seq<char>, i: int, j: int, from: Seq<char>, to: Seq<char>)
    requires
        0 <= i <= j <= path.len(),
        forall|k: int| i <= k < j ==> !#[trigger] locale_at(path, k, from),
    ensures
        replaced_from(path, i, from, to) == path.subrange(i, j) + replaced_from(path, j, from, to),
    decreases j - i,
{
    if i < j {
        nothing_to_replace(path, i + 1, j, from, to);
        assert(!locale_at(path, i, from));
        assert(path.subrange(i, j) =~= seq![path[i]] + path.subrange(i + 1, j));
    }
    assert(replaced_from(path, i, from, to) =~= path.subrange(i, j) + replaced_from(
        path,
        j,
        from,
        to,
    ));
}

/// The locale of a path is replaced where it is a part of its own, between a
/// slash, a dot or a hyphen and a slash or a dot, and what stands around it
/// stays.
pub proof fn the_locale_of_a_path_is_replaced(
    path: Seq<char>,
    i: int,
    from: Seq<char>,
    to: Seq<char>,
)
    requires
        from.len() > 0,
        0 <= i < path.len(),
        locale_at(path, i, from),
        forall|k: int| 0 <= k < path.len() && k != i ==> !#[trigger] locale_at(path, k, from),
    ensures
        replaced(path, from, to) == path.take(i) + to + path.skip(i + from.len()),
{
    let end = i + from.len();
    let n = path.len() as int;
    nothing_to_replace(path, 0, i, from, to);
    nothing_to_replace(path, end, n, from, to);
    assert(replaced_from(path, n, from, to) =~= Seq::empty());
    assert(path.subrange(0, i) =~= path.take(i));
    assert(path.subrange(end, n) =~= path.skip(end));
    assert(replaced_from(path, end, from, to) =~= path.skip(end));
    assert(replaced(path, from, to) =~= path.take(i) + to + path.skip(end));
}

} // verus!
