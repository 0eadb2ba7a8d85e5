//! What counts as a plural, and which key stands for all its forms.
use crate::data::load::{
    ancestor, below, children_mean_interior, children_of, children_upto, interior_of,
    lists_plural_nodes, plural_child, plural_node_of, plural_nodes_in, segment_after,
};
use crate::keys::{
    awaited, last_dot, last_key_part_of, last_segments, next_separator, no_separator_before,
    parent_key_of, segments_from, separator_found,
};
use crate::laws::values::{below_is_ancestor, lies_below};
use crate::plural::{
    all_six, alternate_locale_of, depluralized, is_category, is_plural_suffix, one_few_many_other,
    one_few_other, one_other, one_two_few_other, other, plural_lookup, required_categories_of,
    table_entry,
};
use crate::text::{
    distinct, distinct_is_distinct, position_is_first, position_of, split_of, uppercase_of,
};
use vstd::prelude::*;

verus! {

/// The names of the plural forms.
pub open spec fn form_names() -> Seq<Seq<char>> {
    seq!["zero"@, "one"@, "two"@, "few"@, "many"@, "other"@]
}

/// The names of the plural forms, and the two numbers that may stand for one.
pub open spec fn names_a_form(word: Seq<char>) -> bool {
    form_names().contains(word) || word == "0"@ || word == "1"@
}

/// The key is a plural: something lies below it, and all that lies below it
/// names a form, directly.
pub open spec fn is_plural(keys: Seq<Seq<char>>, key: Seq<char>) -> bool {
    &&& exists|i: int| 0 <= i < keys.len() && lies_below(#[trigger] keys[i], key)
    &&& forall|i: int|
        0 <= i < keys.len() && lies_below(#[trigger] keys[i], key) ==> names_a_form(
            keys[i].skip(key.len() as int + 1),
        )
}

/// Something lies below the key.
pub open spec fn has_below(keys: Option<Seq<Seq<char>>>, key: Seq<char>) -> bool {
    keys is Some && exists|i: int|
        0 <= i < keys->Some_0.len() && lies_below(#[trigger] keys->Some_0[i], key)
}

/// The key is a plural of the locale, or of the base locale where the locale
/// has nothing below it.
pub open spec fn counts_as_plural(
    keys: Option<Seq<Seq<char>>>,
    base: Option<Seq<Seq<char>>>,
    key: Seq<char>,
) -> bool {
    if has_below(keys, key) {
        is_plural(keys->Some_0, key)
    } else {
        base is Some && is_plural(base->Some_0, key)
    }
}

// ------------------------------------------------------------------ the words

pub(crate) proof fn forms_are_categories(word: Seq<char>)
    ensures
        form_names().contains(word) <==> is_category(word),
        names_a_form(word) <==> is_plural_suffix(word),
{
    let v = form_names();
    if is_category(word) {
        assert(v[0] == "zero"@ && v[1] == "one"@ && v[2] == "two"@ && v[3] == "few"@ && v[4]
            == "many"@ && v[5] == "other"@);
    }
}

/// A word without dots and brackets.
pub(crate) open spec fn is_word(w: Seq<char>) -> bool {
    w.len() > 0 && forall|i: int|
        #![trigger w[i]]
        0 <= i < w.len() ==> w[i] != '.' && w[i] != '{' && w[i] != '}' && w[i] != '[' && w[i] != ']'
            && w[i] != '(' && w[i] != ')' && w[i] != '<' && w[i] != '>'
}

pub(crate) proof fn suffixes_are_words(w: Seq<char>)
    requires
        is_plural_suffix(w),
    ensures
        is_word(w),
{
    reveal_strlit("zero");
    reveal_strlit("one");
    reveal_strlit("two");
    reveal_strlit("few");
    reveal_strlit("many");
    reveal_strlit("other");
    reveal_strlit("0");
    reveal_strlit("1");
}

// ------------------------------------------------------------- the last segment

proof fn last_part_of_split(head: Seq<char>, word: Seq<char>, all: Seq<char>)
    requires
        is_word(word),
        all == head + "."@ + word,
    ensures
        split_of(all, '.').last() == word,
        split_of(all, '.').len() > 0,
    decreases all.len(),
{
    reveal_strlit(".");
    let i = position_of(all, '.');
    position_is_first(all, '.');
    assert(all[head.len() as int] == '.');
    assert(i <= head.len());
    let rest = all.skip(i + 1);
    if i < head.len() {
        let inner = head.skip(i + 1);
        assert(rest =~= inner + "."@ + word);
        last_part_of_split(inner, word, rest);
    } else {
        assert(rest =~= word);
        position_is_first(word, '.');
        if word.contains('.') {
            let k = word.index_of('.');
            assert(word[k] == '.');
        }
        assert(split_of(word, '.') =~= seq![word]);
    }
    assert(split_of(all, '.') =~= seq![all.take(i)] + split_of(rest, '.'));
}

proof fn awaited_stays(key: Seq<char>, p: int, j: int)
    requires
        0 <= p <= j <= key.len(),
        is_word(key.skip(p + 1)),
        p < key.len(),
        key[p] == '.',
    ensures
        awaited(key, j) == awaited(key, p),
    decreases j - p,
{
    if j > p {
        awaited_stays(key, p, j - 1);
        if j - 1 > p {
            assert(key[j - 1] == key.skip(p + 1)[j - 1 - (p + 1)]);
        }
        match awaited(key, p) {
            Some(want) => {
                awaits_a_bracket(key, p);
            },
            None => {},
        }
    }
}

proof fn awaits_a_bracket(key: Seq<char>, i: int)
    requires
        0 <= i <= key.len(),
    ensures
        awaited(key, i) matches Some(c) ==> c == '}' || c == ']' || c == ')' || c == '>',
    decreases i,
{
    if i > 0 {
        awaits_a_bracket(key, i - 1);
    }
}

proof fn the_word_is_the_last_segment(key: Seq<char>, from: int, count: nat, p: int)
    requires
        0 <= from <= p < key.len(),
        key[p] == '.',
        is_word(key.skip(p + 1)),
    ensures
        segments_from(key, from, count, 0).len() > 0,
        segments_from(key, from, count, 0).last() == key.skip(p + 1),
    decreases key.len() - from,
{
    reveal_strlit(".");
    separator_found(key, from);
    let dot = next_separator(key, from);
    let word = key.skip(p + 1);
    awaited_stays(key, p, key.len() as int);
    if dot >= key.len() {
        no_separator_before(key, from, p);
        let part = key.skip(from);
        let head = key.subrange(from, p);
        assert(part =~= head + "."@ + word);
        last_part_of_split(head, word, part);
    } else if dot < p {
        the_word_is_the_last_segment(key, dot + 1, count + 1, p);
        let tail = segments_from(key, dot + 1, count + 1, 0);
        assert((seq![key.subrange(from, dot)] + tail).last() == tail.last());
    } else if dot == p {
        let rest = segments_from(key, p + 1, count + 1, 0);
        separator_found(key, p + 1);
        let next = next_separator(key, p + 1);
        if next < key.len() {
            assert(key[next] == word[next - (p + 1)]);
        }
        assert(rest =~= seq![word]);
        assert((seq![key.subrange(from, dot)] + rest).last() == word);
    } else {
        assert(key[dot] == word[dot - (p + 1)]);
    }
}

/// A part stands at the end of the text, behind a dot or alone.
spec fn ends_in_part(text: Seq<char>, part: Seq<char>) -> bool {
    part == text || exists|k: int|
        0 <= k < text.len() && #[trigger] text[k] == '.' && text.skip(k + 1) == part
}

proof fn last_of_split_ends(text: Seq<char>)
    ensures
        split_of(text, '.').len() > 0,
        ends_in_part(text, split_of(text, '.').last()),
    decreases text.len(),
{
    position_is_first(text, '.');
    let i = position_of(text, '.');
    if i < text.len() {
        let rest = text.skip(i + 1);
        last_of_split_ends(rest);
        let part = split_of(rest, '.').last();
        if part == rest {
            assert(text[i] == '.');
        } else {
            let k = choose|k: int|
                0 <= k < rest.len() && #[trigger] rest[k] == '.' && rest.skip(k + 1) == part;
            assert(text[i + 1 + k] == '.');
            assert(text.skip(i + 1 + k + 1) =~= part);
        }
        assert(split_of(text, '.') =~= seq![text.take(i)] + split_of(rest, '.'));
    }
}

proof fn the_last_segment_ends_the_key(key: Seq<char>, from: int, count: nat)
    requires
        0 <= from < key.len(),
        from == 0 || key[from - 1] == '.',
        key.last() != '.',
    ensures
        segments_from(key, from, count, 0).len() > 0,
        ends_in_part(key, segments_from(key, from, count, 0).last()),
    decreases key.len() - from,
{
    separator_found(key, from);
    let dot = next_separator(key, from);
    if dot >= key.len() {
        let part = key.skip(from);
        last_of_split_ends(part);
        let last = last_segments(key, from).last();
        assert(ends_in_part(part, last));
        if last == part {
            if from == 0 {
                assert(part =~= key);
            } else {
                assert(key.skip(from - 1 + 1) =~= part);
                assert(key[from - 1] == '.');
            }
        } else {
            let k = choose|k: int|
                0 <= k < part.len() && #[trigger] part[k] == '.' && part.skip(k + 1) == last;
            assert(key[from + k] == '.');
            assert(key.skip(from + k + 1) =~= last);
        }
    } else {
        assert(key[dot] == '.');
        the_last_segment_ends_the_key(key, dot + 1, count + 1);
        let tail = segments_from(key, dot + 1, count + 1, 0);
        assert((seq![key.subrange(from, dot)] + tail).last() == tail.last());
    }
}

proof fn last_dot_before_a_word(key: Seq<char>, p: int)
    requires
        0 <= p < key.len(),
        key[p] == '.',
        forall|i: int| p < i < key.len() ==> #[trigger] key[i] != '.',
    ensures
        last_dot(key) == p,
    decreases key.len(),
{
    if p < key.len() - 1 {
        let shorter = key.drop_last();
        assert(key.last() != '.');
        last_dot_before_a_word(shorter, p);
    }
}

// --------------------------------------------------------------- plural nodes

proof fn children_are_segments(keys: Seq<Seq<char>>, n: int, parent: Seq<char>, c: Seq<char>)
    requires
        0 <= n <= keys.len(),
    ensures
        children_upto(keys, n, parent).contains(c) <==> exists|i: int|
            0 <= i < n && ancestor(parent, #[trigger] keys[i]) && segment_after(parent, keys[i])
                == c,
    decreases n,
{
    if n > 0 {
        children_are_segments(keys, n - 1, parent, c);
        let before = children_upto(keys, n - 1, parent);
        let now = children_upto(keys, n, parent);
        let segment = segment_after(parent, keys[n - 1]);
        if now.len() > before.len() {
            assert(now[before.len() as int] == segment);
            if before.contains(c) {
                assert(now[before.index_of(c)] == c);
            }
            if now.contains(c) && c != segment {
                assert(before[now.index_of(c)] == c);
            }
        }
        if ancestor(parent, keys[n - 1]) && segment == c && before.contains(c) {
            assert(now.contains(c));
        }
    }
}

pub(crate) proof fn plurals_are_plural_nodes(keys: Seq<Seq<char>>, key: Seq<char>)
    ensures
        plural_node_of(keys, key) <==> is_plural(keys, key),
{
    reveal_strlit(".");
    let children = children_of(keys, key);
    children_mean_interior(keys, keys.len() as int, key);
    assert forall|i: int| 0 <= i < keys.len() implies lies_below(#[trigger] keys[i], key)
        == ancestor(key, keys[i]) by {
        below_is_ancestor(keys[i], key);
    }
    if plural_node_of(keys, key) {
        let i = choose|i: int| 0 <= i < keys.len() && ancestor(key, #[trigger] keys[i]);
        assert(lies_below(keys[i], key));
        assert forall|i: int|
            0 <= i < keys.len() && lies_below(#[trigger] keys[i], key) implies names_a_form(
            keys[i].skip(key.len() as int + 1),
        ) by {
            let rest = keys[i].skip(key.len() as int + 1);
            let c = segment_after(key, keys[i]);
            children_are_segments(keys, keys.len() as int, key, c);
            let j = children.index_of(c);
            assert(plural_child(keys, key, children[j]));
            forms_are_categories(c);
            position_is_first(rest, '.');
            let p = position_of(rest, '.');
            if p < rest.len() {
                let child = below(key, c);
                assert(c =~= rest.take(p));
                assert(keys[i].take(child.len() as int) =~= child) by {
                    assert(keys[i].take(key.len() as int) == key);
                    assert forall|k: int| 0 <= k < child.len() implies keys[i][k] == child[k] by {
                        if k < key.len() {
                            assert(keys[i].take(key.len() as int)[k] == keys[i][k]);
                        } else if k > key.len() {
                            assert(rest[k - key.len() - 1] == c[k - key.len() - 1]);
                        }
                    }
                }
                assert(keys[i][child.len() as int] == rest[p]);
                assert(ancestor(child, keys[i]));
                assert(interior_of(keys, child));
            } else {
                assert(c =~= rest);
            }
        }
    }
    if is_plural(keys, key) {
        assert(children.len() > 0);
        assert forall|j: int| 0 <= j < children.len() implies plural_child(
            keys,
            key,
            #[trigger] children[j],
        ) by {
            let c = children[j];
            assert(children.contains(c));
            children_are_segments(keys, keys.len() as int, key, c);
            let i = choose|i: int|
                0 <= i < keys.len() && ancestor(key, #[trigger] keys[i]) && segment_after(
                    key,
                    keys[i],
                ) == c;
            let rest = keys[i].skip(key.len() as int + 1);
            forms_are_categories(rest);
            suffixes_are_words(rest);
            position_is_first(rest, '.');
            if rest.contains('.') {
                let k = rest.index_of('.');
                assert(rest[k] == '.');
            }
            assert(c =~= rest);
            let child = below(key, c);
            assert(keys[i] =~= child) by {
                assert(keys[i].take(key.len() as int) == key);
                assert forall|k: int| 0 <= k < child.len() implies keys[i][k] == child[k] by {
                    if k < key.len() {
                        assert(keys[i].take(key.len() as int)[k] == keys[i][k]);
                    } else if k > key.len() {
                        assert(rest[k - key.len() - 1] == c[k - key.len() - 1]);
                    }
                }
            }
            if interior_of(keys, child) {
                let m = choose|m: int| 0 <= m < keys.len() && ancestor(child, #[trigger] keys[m]);
                let below_it = keys[m].skip(key.len() as int + 1);
                assert(keys[m].take(child.len() as int) == child);
                assert(ancestor(key, keys[m])) by {
                    assert(keys[m][key.len() as int] == keys[m].take(child.len() as int)[key.len() as int]);
                    assert(keys[m].take(key.len() as int) =~= key) by {
                        assert forall|k: int| 0 <= k < key.len() implies keys[m][k] == key[k] by {
                            assert(keys[m].take(child.len() as int)[k] == child[k]);
                        }
                    }
                }
                assert(lies_below(keys[m], key));
                forms_are_categories(below_it);
                suffixes_are_words(below_it);
                assert(below_it[c.len() as int] == keys[m][child.len() as int]);
            }
        }
    }
}

/// The children of a plural are the forms that have a leaf.
pub(crate) proof fn children_name_leaves(keys: Seq<Seq<char>>, key: Seq<char>, form: Seq<char>)
    requires
        is_plural(keys, key),
    ensures
        children_of(keys, key).contains(form) ==> keys.contains(key + "."@ + form),
        names_a_form(form) && keys.contains(key + "."@ + form) ==> children_of(keys, key).contains(
            form,
        ),
{
    reveal_strlit(".");
    let children = children_of(keys, key);
    let full = key + "."@ + form;
    plurals_are_plural_nodes(keys, key);
    if children.contains(form) {
        let j = children.index_of(form);
        assert(plural_child(keys, key, children[j]));
    }
    if names_a_form(form) && keys.contains(full) {
        forms_are_categories(form);
        suffixes_are_words(form);
        let i = keys.index_of(full);
        assert(full.take(key.len() as int) =~= key);
        let rest = full.skip(key.len() as int + 1);
        assert(rest =~= form);
        position_is_first(rest, '.');
        if rest.contains('.') {
            let k = rest.index_of('.');
            assert(rest[k] == '.');
        }
        assert(segment_after(key, keys[i]) =~= form);
        children_are_segments(keys, keys.len() as int, key, form);
    }
}

/// The levels of the first `j` characters of a key that are plural.
spec fn plural_levels(keys: Seq<Seq<char>>, key: Seq<char>, j: int) -> Seq<Seq<char>>
    decreases j,
{
    if j <= 0 {
        Seq::empty()
    } else if plural_node_of(keys, key.take(j - 1)) {
        plural_levels(keys, key, j - 1).push(key.take(j - 1))
    } else {
        plural_levels(keys, key, j - 1)
    }
}

spec fn all_plural_levels(keys: Seq<Seq<char>>, n: int) -> Seq<Seq<char>>
    decreases n,
{
    if n <= 0 {
        Seq::empty()
    } else {
        all_plural_levels(keys, n - 1) + plural_levels(keys, keys[n - 1], keys[n - 1].len() as int)
    }
}

proof fn plural_levels_hold(keys: Seq<Seq<char>>, key: Seq<char>, j: int, k: Seq<char>)
    requires
        0 <= j <= key.len(),
    ensures
        plural_levels(keys, key, j).contains(k) <==> plural_node_of(keys, k) && k.len() < j
            && key.take(k.len() as int) == k,
    decreases j,
{
    if j > 0 {
        plural_levels_hold(keys, key, j - 1, k);
        let before = plural_levels(keys, key, j - 1);
        let now = plural_levels(keys, key, j);
        if now.len() > before.len() {
            assert(now[before.len() as int] == key.take(j - 1));
            if before.contains(k) {
                assert(now[before.index_of(k)] == k);
            }
            if now.contains(k) && k != key.take(j - 1) {
                assert(before[now.index_of(k)] == k);
            }
        }
        assert(key.take(j - 1).len() == j - 1);
    }
}

proof fn all_plural_levels_hold(keys: Seq<Seq<char>>, n: int, k: Seq<char>)
    requires
        0 <= n <= keys.len(),
    ensures
        all_plural_levels(keys, n).contains(k) <==> plural_node_of(keys, k) && exists|i: int|
            0 <= i < n && k.len() < (#[trigger] keys[i]).len() && keys[i].take(k.len() as int) == k,
    decreases n,
{
    if n > 0 {
        all_plural_levels_hold(keys, n - 1, k);
        let before = all_plural_levels(keys, n - 1);
        let own = plural_levels(keys, keys[n - 1], keys[n - 1].len() as int);
        plural_levels_hold(keys, keys[n - 1], keys[n - 1].len() as int, k);
        let now = before + own;
        if before.contains(k) {
            assert(now[before.index_of(k)] == k);
        }
        if own.contains(k) {
            assert(now[before.len() + own.index_of(k)] == k);
        }
        if now.contains(k) && !before.contains(k) {
            let j = now.index_of(k);
            if j < before.len() {
                assert(before[j] == k);
            }
            assert(own[j - before.len()] == k);
        }
    }
}

/// The plurals of a locale are listed, and nothing else.
pub(crate) proof fn the_plurals_are_listed(keys: Seq<Seq<char>>, k: Seq<char>)
    ensures
        plural_nodes_in(keys).contains(k) <==> is_plural(keys, k),
{
    let n = keys.len() as int;
    let all = all_plural_levels(keys, n);
    distinct_is_distinct(all);
    let s = distinct(all);
    assert forall|x: Seq<char>| #[trigger] plural_node_of(keys, x) <==> s.contains(x) by {
        all_plural_levels_hold(keys, n, x);
        assert(s.contains(x) <==> all.contains(x));
        if plural_node_of(keys, x) {
            children_mean_interior(keys, n, x);
            let i = choose|i: int| 0 <= i < n && ancestor(x, #[trigger] keys[i]);
            assert(keys[i].take(x.len() as int) == x);
        }
    }
    assert(lists_plural_nodes(s, keys));
    plurals_are_plural_nodes(keys, k);
    assert(plural_node_of(keys, k) <==> plural_nodes_in(keys).contains(k));
}

// ----------------------------------------------------------------------- laws

proof fn lookups_agree(keys: Option<Seq<Seq<char>>>, parent: Seq<char>)
    ensures
        keys is Some ==> (has_below(keys, parent) <==> plural_lookup(keys->Some_0, parent) is Some),
        keys is Some && has_below(keys, parent) ==> plural_lookup(keys->Some_0, parent) == Some(
            is_plural(keys->Some_0, parent),
        ),
{
    if let Some(v) = keys {
        children_mean_interior(v, v.len() as int, parent);
        assert forall|i: int| 0 <= i < v.len() implies lies_below(#[trigger] v[i], parent)
            == ancestor(parent, v[i]) by {
            below_is_ancestor(v[i], parent);
        }
        if has_below(keys, parent) {
            let i = choose|i: int| 0 <= i < v.len() && lies_below(#[trigger] v[i], parent);
            assert(ancestor(parent, v[i]));
        }
        plurals_are_plural_nodes(v, parent);
    }
}

/// A key that names one form of a plural stands for the plural; where the key
/// above it is no plural, it stands for itself.
pub proof fn a_form_stands_for_its_plural(
    parent: Seq<char>,
    form: Seq<char>,
    keys: Option<Seq<Seq<char>>>,
    base: Option<Seq<Seq<char>>>,
)
    requires
        form_names().contains(form),
    ensures
        depluralized(parent + "."@ + form, keys, base) == if counts_as_plural(keys, base, parent) {
            parent
        } else {
            parent + "."@ + form
        },
{
    reveal_strlit(".");
    forms_are_categories(form);
    suffixes_are_words(form);
    let key = parent + "."@ + form;
    let p = parent.len() as int;
    assert(key.skip(p + 1) =~= form);
    the_word_is_the_last_segment(key, 0, 0, p);
    assert forall|i: int| p < i < key.len() implies #[trigger] key[i] != '.' by {
        assert(key[i] == form[i - p - 1]);
    }
    last_dot_before_a_word(key, p);
    assert(key.take(p) =~= parent);
    lookups_agree(keys, parent);
    lookups_agree(base, parent);
    if base is Some && !has_below(base, parent) {
        assert(!is_plural(base->Some_0, parent));
    }
}

/// A key that names no form of a plural stands for itself.
pub proof fn any_other_key_stands_for_itself(
    key: Seq<char>,
    keys: Option<Seq<Seq<char>>>,
    base: Option<Seq<Seq<char>>>,
)
    requires
        key.len() > 0 ==> key.last() != '.',
        forall|parent: Seq<char>, form: Seq<char>|
            form_names().contains(form) ==> key != #[trigger] (parent + "."@ + form),
    ensures
        depluralized(key, keys, base) == key,
{
    reveal_strlit(".");
    let w = last_key_part_of(key);
    forms_are_categories(w);
    if is_category(w) && key.len() > 0 {
        suffixes_are_words(w);
        the_last_segment_ends_the_key(key, 0, 0);
        if w == key {
            no_dot_no_parent(key);
        } else {
            let k = choose|k: int|
                0 <= k < key.len() && #[trigger] key[k] == '.' && key.skip(k + 1) == w;
            assert(key =~= key.take(k) + "."@ + w);
        }
    }
}

proof fn no_dot_no_parent(key: Seq<char>)
    requires
        forall|i: int| #![trigger key[i]] 0 <= i < key.len() ==> key[i] != '.',
    ensures
        parent_key_of(key) is None,
        last_dot(key) < 0,
    decreases key.len(),
{
    if key.len() > 0 {
        no_dot_no_parent(key.drop_last());
    }
}

proof fn the_table_holds_forms(locale: Seq<char>, form: Seq<char>)
    requires
        table_entry(locale) is Some,
    ensures
        table_entry(locale)->Some_0.contains(form) ==> form_names().contains(form),
        table_entry(locale)->Some_0.contains("other"@),
{
    let v = table_entry(locale)->Some_0;
    assert(v[v.len() - 1] == "other"@);
    if v.contains(form) {
        let i = v.index_of(form);
        forms_are_categories(form);
        assert(is_category(v[i]));
    }
}

/// The forms that a language needs are names of forms, and `other` is always
/// one of them.
pub proof fn every_language_needs_other(locale: Seq<char>, form: Seq<char>)
    requires
        required_categories_of(locale) is Some,
    ensures
        required_categories_of(locale)->Some_0.contains(form) ==> form_names().contains(form),
        required_categories_of(locale)->Some_0.contains("other"@),
{
    if table_entry(locale) is Some && locale.len() > 0 {
        the_table_holds_forms(locale, form);
    } else {
        the_table_holds_forms(alternate_locale_of(locale)->Some_0, form);
    }
}

// ------------------------------------------------------------------- the languages

/// A language with a form of its own for two.
pub open spec fn counts_two(s: Seq<char>) -> bool {
    ||| s == "ar"@
    ||| s == "gd"@
    ||| s == "hsb"@
    ||| s == "sl"@
}

/// A language with a form of its own for a few.
pub open spec fn counts_few(s: Seq<char>) -> bool {
    ||| s == "ar"@
    ||| s == "be"@
    ||| s == "bs"@
    ||| s == "cs"@
    ||| s == "gd"@
    ||| s == "hr"@
    ||| s == "hsb"@
    ||| s == "lt"@
    ||| s == "pl"@
    ||| s == "ro"@
    ||| s == "ru"@
    ||| s == "sk"@
    ||| s == "sl"@
    ||| s == "sr"@
    ||| s == "uk"@
}

/// A language with a form of its own for many.
pub open spec fn counts_many(s: Seq<char>) -> bool {
    ||| s == "ar"@
    ||| s == "be"@
    ||| s == "pl"@
    ||| s == "ru"@
    ||| s == "uk"@
}

/// A language that does not tell one from more.
pub open spec fn counts_nothing(s: Seq<char>) -> bool {
    ||| s == "az"@
    ||| s == "fa"@
    ||| s == "id"@
    ||| s == "ja"@
    ||| s == "km"@
    ||| s == "kn"@
    ||| s == "ko"@
    ||| s == "lo"@
    ||| s == "ms"@
    ||| s == "pap-AW"@
    ||| s == "pap-CW"@
    ||| s == "th"@
    ||| s == "vi"@
    ||| s == "wo"@
    ||| s == "zh-CN"@
    ||| s == "zh-HK"@
    ||| s == "zh-TW"@
    ||| s == "zh-YUE"@
}

proof fn few_forms_are_rare(s: Seq<char>)
    ensures
        counts_few(s) ==> !one_other(s) && !other(s),
        counts_nothing(s) ==> !one_other(s),
        counts_nothing(s) <==> other(s),
        counts_few(s) <==> one_few_other(s) || one_few_many_other(s) || one_two_few_other(s)
            || all_six(s),
{
    reveal_strlit("bg");
    reveal_strlit("bn");
    reveal_strlit("ca");
    reveal_strlit("da");
    reveal_strlit("de");
    reveal_strlit("de-AT");
    reveal_strlit("de-CH");
    reveal_strlit("de-DE");
    reveal_strlit("el");
    reveal_strlit("el-CY");
    reveal_strlit("en");
    reveal_strlit("en-AU");
    reveal_strlit("en-CA");
    reveal_strlit("en-CY");
    reveal_strlit("en-GB");
    reveal_strlit("en-IE");
    reveal_strlit("en-IN");
    reveal_strlit("en-NZ");
    reveal_strlit("en-TT");
    reveal_strlit("en-US");
    reveal_strlit("en-ZA");
    reveal_strlit("eo");
    reveal_strlit("es");
    reveal_strlit("es-419");
    reveal_strlit("es-AR");
    reveal_strlit("es-CL");
    reveal_strlit("es-CO");
    reveal_strlit("es-CR");
    reveal_strlit("es-EC");
    reveal_strlit("es-ES");
    reveal_strlit("es-MX");
    reveal_strlit("es-NI");
    reveal_strlit("es-PA");
    reveal_strlit("es-PE");
    reveal_strlit("es-US");
    reveal_strlit("es-VE");
    reveal_strlit("et");
    reveal_strlit("eu");
    reveal_strlit("fi");
    reveal_strlit("fy");
    reveal_strlit("gl");
    reveal_strlit("he");
    reveal_strlit("hu");
    reveal_strlit("is");
    reveal_strlit("it");
    reveal_strlit("it-CH");
    reveal_strlit("ka");
    reveal_strlit("kk");
    reveal_strlit("mn");
    reveal_strlit("nb");
    reveal_strlit("ne");
    reveal_strlit("nl");
    reveal_strlit("nn");
    reveal_strlit("oc");
    reveal_strlit("pt");
    reveal_strlit("pt-BR");
    reveal_strlit("sc");
    reveal_strlit("st");
    reveal_strlit("sv");
    reveal_strlit("sv-SE");
    reveal_strlit("sw");
    reveal_strlit("ta");
    reveal_strlit("tr");
    reveal_strlit("ur");
    reveal_strlit("fr");
    reveal_strlit("fr-CA");
    reveal_strlit("fr-CH");
    reveal_strlit("fr-FR");
    reveal_strlit("hi");
    reveal_strlit("hi-IN");
    reveal_strlit("mg");
    reveal_strlit("ml");
    reveal_strlit("mr-IN");
    reveal_strlit("or");
    reveal_strlit("pa");
    reveal_strlit("tl");
    reveal_strlit("lv");
    reveal_strlit("mk");
    reveal_strlit("az");
    reveal_strlit("fa");
    reveal_strlit("id");
    reveal_strlit("ja");
    reveal_strlit("km");
    reveal_strlit("kn");
    reveal_strlit("ko");
    reveal_strlit("lo");
    reveal_strlit("ms");
    reveal_strlit("pap-AW");
    reveal_strlit("pap-CW");
    reveal_strlit("th");
    reveal_strlit("vi");
    reveal_strlit("wo");
    reveal_strlit("zh-CN");
    reveal_strlit("zh-HK");
    reveal_strlit("zh-TW");
    reveal_strlit("zh-YUE");
    reveal_strlit("bs");
    reveal_strlit("hr");
    reveal_strlit("sr");
    reveal_strlit("cs");
    reveal_strlit("sk");
    reveal_strlit("ro");
    reveal_strlit("lt");
    reveal_strlit("be");
    reveal_strlit("ru");
    reveal_strlit("uk");
    reveal_strlit("pl");
    reveal_strlit("gd");
    reveal_strlit("hsb");
    reveal_strlit("sl");
    reveal_strlit("ar");
    assert("bg"@.len() == 2 && "bg"@[0] == 'b' && "bg"@[1] == 'g');
    assert("bn"@.len() == 2 && "bn"@[0] == 'b' && "bn"@[1] == 'n');
    assert("ca"@.len() == 2 && "ca"@[0] == 'c' && "ca"@[1] == 'a');
    assert("da"@.len() == 2 && "da"@[0] == 'd' && "da"@[1] == 'a');
    assert("de"@.len() == 2 && "de"@[0] == 'd' && "de"@[1] == 'e');
    assert("de-AT"@.len() == 5 && "de-AT"@[0] == 'd' && "de-AT"@[1] == 'e');
    assert("de-CH"@.len() == 5 && "de-CH"@[0] == 'd' && "de-CH"@[1] == 'e');
    assert("de-DE"@.len() == 5 && "de-DE"@[0] == 'd' && "de-DE"@[1] == 'e');
    assert("el"@.len() == 2 && "el"@[0] == 'e' && "el"@[1] == 'l');
    assert("el-CY"@.len() == 5 && "el-CY"@[0] == 'e' && "el-CY"@[1] == 'l');
    assert("en"@.len() == 2 && "en"@[0] == 'e' && "en"@[1] == 'n');
    assert("en-AU"@.len() == 5 && "en-AU"@[0] == 'e' && "en-AU"@[1] == 'n');
    assert("en-CA"@.len() == 5 && "en-CA"@[0] == 'e' && "en-CA"@[1] == 'n');
    assert("en-CY"@.len() == 5 && "en-CY"@[0] == 'e' && "en-CY"@[1] == 'n');
    assert("en-GB"@.len() == 5 && "en-GB"@[0] == 'e' && "en-GB"@[1] == 'n');
    assert("en-IE"@.len() == 5 && "en-IE"@[0] == 'e' && "en-IE"@[1] == 'n');
    assert("en-IN"@.len() == 5 && "en-IN"@[0] == 'e' && "en-IN"@[1] == 'n');
    assert("en-NZ"@.len() == 5 && "en-NZ"@[0] == 'e' && "en-NZ"@[1] == 'n');
    assert("en-TT"@.len() == 5 && "en-TT"@[0] == 'e' && "en-TT"@[1] == 'n');
    assert("en-US"@.len() == 5 && "en-US"@[0] == 'e' && "en-US"@[1] == 'n');
    assert("en-ZA"@.len() == 5 && "en-ZA"@[0] == 'e' && "en-ZA"@[1] == 'n');
    assert("eo"@.len() == 2 && "eo"@[0] == 'e' && "eo"@[1] == 'o');
    assert("es"@.len() == 2 && "es"@[0] == 'e' && "es"@[1] == 's');
    assert("es-419"@.len() == 6 && "es-419"@[0] == 'e' && "es-419"@[1] == 's');
    assert("es-AR"@.len() == 5 && "es-AR"@[0] == 'e' && "es-AR"@[1] == 's');
    assert("es-CL"@.len() == 5 && "es-CL"@[0] == 'e' && "es-CL"@[1] == 's');
    assert("es-CO"@.len() == 5 && "es-CO"@[0] == 'e' && "es-CO"@[1] == 's');
    assert("es-CR"@.len() == 5 && "es-CR"@[0] == 'e' && "es-CR"@[1] == 's');
    assert("es-EC"@.len() == 5 && "es-EC"@[0] == 'e' && "es-EC"@[1] == 's');
    assert("es-ES"@.len() == 5 && "es-ES"@[0] == 'e' && "es-ES"@[1] == 's');
    assert("es-MX"@.len() == 5 && "es-MX"@[0] == 'e' && "es-MX"@[1] == 's');
    assert("es-NI"@.len() == 5 && "es-NI"@[0] == 'e' && "es-NI"@[1] == 's');
    assert("es-PA"@.len() == 5 && "es-PA"@[0] == 'e' && "es-PA"@[1] == 's');
    assert("es-PE"@.len() == 5 && "es-PE"@[0] == 'e' && "es-PE"@[1] == 's');
    assert("es-US"@.len() == 5 && "es-US"@[0] == 'e' && "es-US"@[1] == 's');
    assert("es-VE"@.len() == 5 && "es-VE"@[0] == 'e' && "es-VE"@[1] == 's');
    assert("et"@.len() == 2 && "et"@[0] == 'e' && "et"@[1] == 't');
    assert("eu"@.len() == 2 && "eu"@[0] == 'e' && "eu"@[1] == 'u');
    assert("fi"@.len() == 2 && "fi"@[0] == 'f' && "fi"@[1] == 'i');
    assert("fy"@.len() == 2 && "fy"@[0] == 'f' && "fy"@[1] == 'y');
    assert("gl"@.len() == 2 && "gl"@[0] == 'g' && "gl"@[1] == 'l');
    assert("he"@.len() == 2 && "he"@[0] == 'h' && "he"@[1] == 'e');
    assert("hu"@.len() == 2 && "hu"@[0] == 'h' && "hu"@[1] == 'u');
    assert("is"@.len() == 2 && "is"@[0] == 'i' && "is"@[1] == 's');
    assert("it"@.len() == 2 && "it"@[0] == 'i' && "it"@[1] == 't');
    assert("it-CH"@.len() == 5 && "it-CH"@[0] == 'i' && "it-CH"@[1] == 't');
    assert("ka"@.len() == 2 && "ka"@[0] == 'k' && "ka"@[1] == 'a');
    assert("kk"@.len() == 2 && "kk"@[0] == 'k' && "kk"@[1] == 'k');
    assert("mn"@.len() == 2 && "mn"@[0] == 'm' && "mn"@[1] == 'n');
    assert("nb"@.len() == 2 && "nb"@[0] == 'n' && "nb"@[1] == 'b');
    assert("ne"@.len() == 2 && "ne"@[0] == 'n' && "ne"@[1] == 'e');
    assert("nl"@.len() == 2 && "nl"@[0] == 'n' && "nl"@[1] == 'l');
    assert("nn"@.len() == 2 && "nn"@[0] == 'n' && "nn"@[1] == 'n');
    assert("oc"@.len() == 2 && "oc"@[0] == 'o' && "oc"@[1] == 'c');
    assert("pt"@.len() == 2 && "pt"@[0] == 'p' && "pt"@[1] == 't');
    assert("pt-BR"@.len() == 5 && "pt-BR"@[0] == 'p' && "pt-BR"@[1] == 't');
    assert("sc"@.len() == 2 && "sc"@[0] == 's' && "sc"@[1] == 'c');
    assert("st"@.len() == 2 && "st"@[0] == 's' && "st"@[1] == 't');
    assert("sv"@.len() == 2 && "sv"@[0] == 's' && "sv"@[1] == 'v');
    assert("sv-SE"@.len() == 5 && "sv-SE"@[0] == 's' && "sv-SE"@[1] == 'v');
    assert("sw"@.len() == 2 && "sw"@[0] == 's' && "sw"@[1] == 'w');
    assert("ta"@.len() == 2 && "ta"@[0] == 't' && "ta"@[1] == 'a');
    assert("tr"@.len() == 2 && "tr"@[0] == 't' && "tr"@[1] == 'r');
    assert("ur"@.len() == 2 && "ur"@[0] == 'u' && "ur"@[1] == 'r');
    assert("fr"@.len() == 2 && "fr"@[0] == 'f' && "fr"@[1] == 'r');
    assert("fr-CA"@.len() == 5 && "fr-CA"@[0] == 'f' && "fr-CA"@[1] == 'r');
    assert("fr-CH"@.len() == 5 && "fr-CH"@[0] == 'f' && "fr-CH"@[1] == 'r');
    assert("fr-FR"@.len() == 5 && "fr-FR"@[0] == 'f' && "fr-FR"@[1] == 'r');
    assert("hi"@.len() == 2 && "hi"@[0] == 'h' && "hi"@[1] == 'i');
    assert("hi-IN"@.len() == 5 && "hi-IN"@[0] == 'h' && "hi-IN"@[1] == 'i');
    assert("mg"@.len() == 2 && "mg"@[0] == 'm' && "mg"@[1] == 'g');
    assert("ml"@.len() == 2 && "ml"@[0] == 'm' && "ml"@[1] == 'l');
    assert("mr-IN"@.len() == 5 && "mr-IN"@[0] == 'm' && "mr-IN"@[1] == 'r');
    assert("or"@.len() == 2 && "or"@[0] == 'o' && "or"@[1] == 'r');
    assert("pa"@.len() == 2 && "pa"@[0] == 'p' && "pa"@[1] == 'a');
    assert("tl"@.len() == 2 && "tl"@[0] == 't' && "tl"@[1] == 'l');
    assert("lv"@.len() == 2 && "lv"@[0] == 'l' && "lv"@[1] == 'v');
    assert("mk"@.len() == 2 && "mk"@[0] == 'm' && "mk"@[1] == 'k');
    assert("az"@.len() == 2 && "az"@[0] == 'a' && "az"@[1] == 'z');
    assert("fa"@.len() == 2 && "fa"@[0] == 'f' && "fa"@[1] == 'a');
    assert("id"@.len() == 2 && "id"@[0] == 'i' && "id"@[1] == 'd');
    assert("ja"@.len() == 2 && "ja"@[0] == 'j' && "ja"@[1] == 'a');
    assert("km"@.len() == 2 && "km"@[0] == 'k' && "km"@[1] == 'm');
    assert("kn"@.len() == 2 && "kn"@[0] == 'k' && "kn"@[1] == 'n');
    assert("ko"@.len() == 2 && "ko"@[0] == 'k' && "ko"@[1] == 'o');
    assert("lo"@.len() == 2 && "lo"@[0] == 'l' && "lo"@[1] == 'o');
    assert("ms"@.len() == 2 && "ms"@[0] == 'm' && "ms"@[1] == 's');
    assert("pap-AW"@.len() == 6 && "pap-AW"@[0] == 'p' && "pap-AW"@[1] == 'a');
    assert("pap-CW"@.len() == 6 && "pap-CW"@[0] == 'p' && "pap-CW"@[1] == 'a');
    assert("th"@.len() == 2 && "th"@[0] == 't' && "th"@[1] == 'h');
    assert("vi"@.len() == 2 && "vi"@[0] == 'v' && "vi"@[1] == 'i');
    assert("wo"@.len() == 2 && "wo"@[0] == 'w' && "wo"@[1] == 'o');
    assert("zh-CN"@.len() == 5 && "zh-CN"@[0] == 'z' && "zh-CN"@[1] == 'h');
    assert("zh-HK"@.len() == 5 && "zh-HK"@[0] == 'z' && "zh-HK"@[1] == 'h');
    assert("zh-TW"@.len() == 5 && "zh-TW"@[0] == 'z' && "zh-TW"@[1] == 'h');
    assert("zh-YUE"@.len() == 6 && "zh-YUE"@[0] == 'z' && "zh-YUE"@[1] == 'h');
    assert("bs"@.len() == 2 && "bs"@[0] == 'b' && "bs"@[1] == 's');
    assert("hr"@.len() == 2 && "hr"@[0] == 'h' && "hr"@[1] == 'r');
    assert("sr"@.len() == 2 && "sr"@[0] == 's' && "sr"@[1] == 'r');
    assert("cs"@.len() == 2 && "cs"@[0] == 'c' && "cs"@[1] == 's');
    assert("sk"@.len() == 2 && "sk"@[0] == 's' && "sk"@[1] == 'k');
    assert("ro"@.len() == 2 && "ro"@[0] == 'r' && "ro"@[1] == 'o');
    assert("lt"@.len() == 2 && "lt"@[0] == 'l' && "lt"@[1] == 't');
    assert("be"@.len() == 2 && "be"@[0] == 'b' && "be"@[1] == 'e');
    assert("ru"@.len() == 2 && "ru"@[0] == 'r' && "ru"@[1] == 'u');
    assert("uk"@.len() == 2 && "uk"@[0] == 'u' && "uk"@[1] == 'k');
    assert("pl"@.len() == 2 && "pl"@[0] == 'p' && "pl"@[1] == 'l');
    assert("gd"@.len() == 2 && "gd"@[0] == 'g' && "gd"@[1] == 'd');
    assert("hsb"@.len() == 3 && "hsb"@[0] == 'h' && "hsb"@[1] == 's');
    assert("sl"@.len() == 2 && "sl"@[0] == 's' && "sl"@[1] == 'l');
    assert("ar"@.len() == 2 && "ar"@[0] == 'a' && "ar"@[1] == 'r');
}

proof fn more_forms_are_rarer(s: Seq<char>)
    ensures
        counts_many(s) ==> !one_few_other(s) && !one_two_few_other(s),
        counts_two(s) ==> !one_few_other(s) && !one_few_many_other(s),
        counts_many(s) <==> one_few_many_other(s) || all_six(s),
        counts_two(s) <==> one_two_few_other(s) || all_six(s),
        all_six(s) ==> !one_few_other(s) && !one_few_many_other(s) && !one_two_few_other(s),
{
    reveal_strlit("bs");
    reveal_strlit("hr");
    reveal_strlit("sr");
    reveal_strlit("cs");
    reveal_strlit("sk");
    reveal_strlit("ro");
    reveal_strlit("lt");
    reveal_strlit("be");
    reveal_strlit("ru");
    reveal_strlit("uk");
    reveal_strlit("pl");
    reveal_strlit("gd");
    reveal_strlit("hsb");
    reveal_strlit("sl");
    reveal_strlit("ar");
    assert("bs"@.len() == 2 && "bs"@[0] == 'b' && "bs"@[1] == 's');
    assert("hr"@.len() == 2 && "hr"@[0] == 'h' && "hr"@[1] == 'r');
    assert("sr"@.len() == 2 && "sr"@[0] == 's' && "sr"@[1] == 'r');
    assert("cs"@.len() == 2 && "cs"@[0] == 'c' && "cs"@[1] == 's');
    assert("sk"@.len() == 2 && "sk"@[0] == 's' && "sk"@[1] == 'k');
    assert("ro"@.len() == 2 && "ro"@[0] == 'r' && "ro"@[1] == 'o');
    assert("lt"@.len() == 2 && "lt"@[0] == 'l' && "lt"@[1] == 't');
    assert("be"@.len() == 2 && "be"@[0] == 'b' && "be"@[1] == 'e');
    assert("ru"@.len() == 2 && "ru"@[0] == 'r' && "ru"@[1] == 'u');
    assert("uk"@.len() == 2 && "uk"@[0] == 'u' && "uk"@[1] == 'k');
    assert("pl"@.len() == 2 && "pl"@[0] == 'p' && "pl"@[1] == 'l');
    assert("gd"@.len() == 2 && "gd"@[0] == 'g' && "gd"@[1] == 'd');
    assert("hsb"@.len() == 3 && "hsb"@[0] == 'h' && "hsb"@[1] == 's');
    assert("sl"@.len() == 2 && "sl"@[0] == 's' && "sl"@[1] == 'l');
    assert("ar"@.len() == 2 && "ar"@[0] == 'a' && "ar"@[1] == 'r');
}

proof fn the_forms_differ()
    ensures
        "zero"@ != "one"@ && "zero"@ != "two"@ && "zero"@ != "few"@ && "zero"@ != "many"@ && "zero"@
            != "other"@,
        "one"@ != "two"@ && "one"@ != "few"@ && "one"@ != "many"@ && "one"@ != "other"@,
        "two"@ != "few"@ && "two"@ != "many"@ && "two"@ != "other"@,
        "few"@ != "many"@ && "few"@ != "other"@ && "many"@ != "other"@,
{
    reveal_strlit("zero");
    reveal_strlit("one");
    reveal_strlit("two");
    reveal_strlit("few");
    reveal_strlit("many");
    reveal_strlit("other");
    assert("one"@[0] == 'o' && "two"@[0] == 't' && "few"@[0] == 'f' && "many"@[0] == 'm'
        && "zero"@[0] == 'z');
    assert("one"@.len() == 3 && "two"@.len() == 3 && "few"@.len() == 3 && "zero"@.len() == 4
        && "many"@.len() == 4 && "other"@.len() == 5);
}

/// Which forms a language needs: each of the forms beside `other` where the
/// language counts by it.
pub proof fn which_forms_a_language_needs(s: Seq<char>)
    requires
        table_entry(s) is Some,
    ensures
        ({
            let forms = table_entry(s)->Some_0;
            &&& forms.contains("zero"@) <==> s == "ar"@
            &&& forms.contains("one"@) <==> !counts_nothing(s)
            &&& forms.contains("two"@) <==> counts_two(s)
            &&& forms.contains("few"@) <==> counts_few(s)
            &&& forms.contains("many"@) <==> counts_many(s)
            &&& forms.contains("other"@)
        }),
{
    few_forms_are_rare(s);
    more_forms_are_rarer(s);
    the_forms_differ();
    let forms = table_entry(s)->Some_0;
    if one_other(s) {
        assert(forms[0] == "one"@ && forms[1] == "other"@);
    } else if other(s) {
        assert(forms[0] == "other"@);
    } else if one_few_other(s) {
        assert(forms[0] == "one"@ && forms[1] == "few"@ && forms[2] == "other"@);
    } else if one_few_many_other(s) {
        assert(forms[0] == "one"@ && forms[1] == "few"@ && forms[2] == "many"@ && forms[3]
            == "other"@);
    } else if one_two_few_other(s) {
        assert(forms[0] == "one"@ && forms[1] == "two"@ && forms[2] == "few"@ && forms[3]
            == "other"@);
    } else {
        assert(forms[0] == "zero"@ && forms[1] == "one"@ && forms[2] == "two"@ && forms[3] == "few"@
            && forms[4] == "many"@ && forms[5] == "other"@);
    }
}

/// A locale is looked up as it is written, and else with its region in capitals;
/// the language alone does not stand for a locale with a region.
pub proof fn how_a_locale_is_looked_up(locale: Seq<char>, language: Seq<char>, region: Seq<char>)
    ensures
        locale.len() > 0 && table_entry(locale) is Some ==> required_categories_of(locale)
            == table_entry(locale),
        !locale.contains('-') && table_entry(locale) is None ==> required_categories_of(locale)
            is None,
        locale == language + seq!['-'] + region && !language.contains('-') && table_entry(locale)
            is None ==> required_categories_of(locale) == table_entry(
            language + seq!['-'] + uppercase_of(region),
        ),
{
    reveal_strlit("-");
    position_is_first(locale, '-');
    let i = position_of(locale, '-');
    if i < locale.len() {
        assert(locale.contains(locale[i]));
    }
    if locale == language + seq!['-'] + region && !language.contains('-') {
        assert(locale[language.len() as int] == '-');
        assert(i == language.len()) by {
            if i < language.len() {
                assert(locale[i] == language[i]);
            }
        }
        assert(locale.take(i) =~= language);
        assert(locale.skip(i + 1) =~= region);
        assert("-"@ =~= seq!['-']);
    }
}

/// A locale whose forms are known.
pub open spec fn is_known(s: Seq<char>) -> bool {
    ||| s == "ar"@
    ||| s == "az"@
    ||| s == "be"@
    ||| s == "bg"@
    ||| s == "bn"@
    ||| s == "bs"@
    ||| s == "ca"@
    ||| s == "cs"@
    ||| s == "da"@
    ||| s == "de"@
    ||| s == "de-AT"@
    ||| s == "de-CH"@
    ||| s == "de-DE"@
    ||| s == "el"@
    ||| s == "el-CY"@
    ||| s == "en"@
    ||| s == "en-AU"@
    ||| s == "en-CA"@
    ||| s == "en-CY"@
    ||| s == "en-GB"@
    ||| s == "en-IE"@
    ||| s == "en-IN"@
    ||| s == "en-NZ"@
    ||| s == "en-TT"@
    ||| s == "en-US"@
    ||| s == "en-ZA"@
    ||| s == "eo"@
    ||| s == "es"@
    ||| s == "es-419"@
    ||| s == "es-AR"@
    ||| s == "es-CL"@
    ||| s == "es-CO"@
    ||| s == "es-CR"@
    ||| s == "es-EC"@
    ||| s == "es-ES"@
    ||| s == "es-MX"@
    ||| s == "es-NI"@
    ||| s == "es-PA"@
    ||| s == "es-PE"@
    ||| s == "es-US"@
    ||| s == "es-VE"@
    ||| s == "et"@
    ||| s == "eu"@
    ||| s == "fa"@
    ||| s == "fi"@
    ||| s == "fr"@
    ||| s == "fr-CA"@
    ||| s == "fr-CH"@
    ||| s == "fr-FR"@
    ||| s == "fy"@
    ||| s == "gd"@
    ||| s == "gl"@
    ||| s == "he"@
    ||| s == "hi"@
    ||| s == "hi-IN"@
    ||| s == "hr"@
    ||| s == "hsb"@
    ||| s == "hu"@
    ||| s == "id"@
    ||| s == "is"@
    ||| s == "it"@
    ||| s == "it-CH"@
    ||| s == "ja"@
    ||| s == "ka"@
    ||| s == "kk"@
    ||| s == "km"@
    ||| s == "kn"@
    ||| s == "ko"@
    ||| s == "lo"@
    ||| s == "lt"@
    ||| s == "lv"@
    ||| s == "mg"@
    ||| s == "mk"@
    ||| s == "ml"@
    ||| s == "mn"@
    ||| s == "mr-IN"@
    ||| s == "ms"@
    ||| s == "nb"@
    ||| s == "ne"@
    ||| s == "nl"@
    ||| s == "nn"@
    ||| s == "oc"@
    ||| s == "or"@
    ||| s == "pa"@
    ||| s == "pap-AW"@
    ||| s == "pap-CW"@
    ||| s == "pl"@
    ||| s == "pt"@
    ||| s == "pt-BR"@
    ||| s == "ro"@
    ||| s == "ru"@
    ||| s == "sc"@
    ||| s == "sk"@
    ||| s == "sl"@
    ||| s == "sr"@
    ||| s == "st"@
    ||| s == "sv"@
    ||| s == "sv-SE"@
    ||| s == "sw"@
    ||| s == "ta"@
    ||| s == "th"@
    ||| s == "tl"@
    ||| s == "tr"@
    ||| s == "uk"@
    ||| s == "ur"@
    ||| s == "vi"@
    ||| s == "wo"@
    ||| s == "zh-CN"@
    ||| s == "zh-HK"@
    ||| s == "zh-TW"@
    ||| s == "zh-YUE"@
}

/// The forms of exactly the known locales are known.
pub proof fn which_locales_are_known(s: Seq<char>)
    ensures
        table_entry(s) is Some <==> is_known(s),
{
}

} // verus!
