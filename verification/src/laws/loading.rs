//! Which leaves a locale has: what its files hold, a later value in the place
//! of an earlier one.
use crate::data::load::{
    a_leaf_put_in_is_found, file_read, files_read, flattened, flattened_upto, keys_of, leaf_at,
    locale_entries, locale_read, seen_before, value_of, with_leaf, Gathered, LeafV, LocaleV,
    SourceFileV, ValueV,
};
use crate::paths::same_path;
use crate::text::{join_of, position_is_first, position_of, split_of};
use crate::yaml::{null_scalar, NodeV};
use vstd::prelude::*;

verus! {

/// A value that a file holds: the names that lead to it, its node, and the
/// file.
pub struct Entry {
    pub names: Seq<Seq<char>>,
    pub node: NodeV,
    pub path: Seq<char>,
}

/// The values that a node holds, in the order in which they are written.
/// Nothing is taken from under a key that is null.
pub open spec fn values_in(node: NodeV, names: Seq<Seq<char>>, path: Seq<char>) -> Seq<Entry>
    decreases node, 0nat,
{
    match node {
        NodeV::Mapping { entries, .. } => values_upto(entries, entries.len(), names, path),
        _ => if names.len() == 0 {
            Seq::empty()
        } else {
            seq![Entry { names, node, path }]
        },
    }
}

/// The values of the first `n` entries.
pub open spec fn values_upto(
    entries: Seq<(NodeV, NodeV)>,
    n: nat,
    names: Seq<Seq<char>>,
    path: Seq<char>,
) -> Seq<Entry>
    decreases entries, n,
{
    if n == 0 || n > entries.len() {
        Seq::empty()
    } else {
        let before = values_upto(entries, (n - 1) as nat, names, path);
        match entries[n - 1].0.text() {
            Some(name) => if null_scalar(entries[n - 1].0) {
                before
            } else {
                before + values_in(entries[n - 1].1, names.push(name), path)
            },
            None => before,
        }
    }
}

/// The values that the first `n` top-level entries hold for the locale.
pub open spec fn locale_values(
    locale: Seq<char>,
    entries: Seq<(NodeV, NodeV)>,
    n: nat,
    path: Seq<char>,
) -> Seq<Entry>
    decreases n,
{
    if n == 0 || n > entries.len() {
        Seq::empty()
    } else {
        let before = locale_values(locale, entries, (n - 1) as nat, path);
        if entries[n - 1].0.text() == Some(locale) {
            before + values_in(entries[n - 1].1, Seq::empty(), path)
        } else {
            before
        }
    }
}

/// The values that a file holds for the locale.
pub open spec fn file_values(locale: Seq<char>, file: SourceFileV) -> Seq<Entry> {
    match file.root {
        Ok(Some(node)) => match node.entries() {
            Some(entries) => locale_values(locale, entries, entries.len(), file.path),
            None => Seq::empty(),
        },
        _ => Seq::empty(),
    }
}

/// A file of the same path comes earlier in the list.
pub open spec fn comes_again(files: Seq<SourceFileV>, i: int) -> bool {
    exists|j: int| 0 <= j < i && same_path((#[trigger] files[j]).path, files[i].path)
}

/// The values that the first `n` files hold for the locale, one file behind the
/// other, each file once.
pub open spec fn all_values(locale: Seq<char>, files: Seq<SourceFileV>, n: nat) -> Seq<Entry>
    decreases n,
{
    if n == 0 || n > files.len() {
        Seq::empty()
    } else {
        let before = all_values(locale, files, (n - 1) as nat);
        if comes_again(files, n - 1) {
            before
        } else {
            before + file_values(locale, files[n - 1])
        }
    }
}

/// The key of a value: its names, joined with dots.
pub open spec fn key_of(e: Entry) -> Seq<char> {
    join_of(e.names, "."@)
}

/// The value at `i` is the last one under its key.
pub open spec fn is_last(list: Seq<Entry>, i: int) -> bool {
    0 <= i < list.len() && forall|j: int|
        i < j < list.len() ==> key_of(#[trigger] list[j]) != key_of(list[i])
}

// --------------------------------------------------------------------- put together

/// The leaves after the first `n` values; nothing where a value is refused.
spec fn put_in(data: Seq<LeafV>, list: Seq<Entry>, n: int) -> Option<Seq<LeafV>>
    decreases n,
{
    if n <= 0 {
        Some(data)
    } else {
        match put_in(data, list, n - 1) {
            None => None,
            Some(now) => match value_of(list[n - 1].node, list[n - 1].path, false) {
                Ok(v) => Some(with_leaf(now, leaf_at(list[n - 1].names, v, list[n - 1].path))),
                Err(_) => None,
            },
        }
    }
}

proof fn put_in_a_part(data: Seq<LeafV>, a: Seq<Entry>, b: Seq<Entry>, n: int)
    requires
        0 <= n <= a.len(),
    ensures
        put_in(data, a + b, n) == put_in(data, a, n),
    decreases n,
{
    if n > 0 {
        put_in_a_part(data, a, b, n - 1);
        assert((a + b)[n - 1] == a[n - 1]);
    }
}

proof fn put_in_both(data: Seq<LeafV>, a: Seq<Entry>, b: Seq<Entry>, n: int)
    requires
        0 <= n <= b.len(),
        put_in(data, a, a.len() as int) is Some,
    ensures
        put_in(data, a + b, a.len() + n) == put_in(
            put_in(data, a, a.len() as int)->Some_0,
            b,
            n,
        ),
    decreases n,
{
    if n > 0 {
        put_in_both(data, a, b, n - 1);
        assert((a + b)[a.len() + n - 1] == b[n - 1]);
    } else {
        put_in_a_part(data, a, b, a.len() as int);
    }
}

proof fn a_node_puts_in_its_values(
    node: NodeV,
    names: Seq<Seq<char>>,
    path: Seq<char>,
    before: Gathered,
)
    requires
        flattened(node, names, path, before) is Ok,
    ensures
        put_in(before.data, values_in(node, names, path), values_in(node, names, path).len() as int)
            == Some(flattened(node, names, path, before)->Ok_0.data),
    decreases node, 0nat,
{
    match node {
        NodeV::Mapping { entries, .. } => {
            entries_put_in_their_values(entries, entries.len(), names, path, before);
        },
        _ => {
            let list = values_in(node, names, path);
            if names.len() > 0 {
                assert(list[0] == Entry { names, node, path });
                assert(put_in(before.data, list, 0) == Some(before.data));
            }
        },
    }
}

proof fn entries_put_in_their_values(
    entries: Seq<(NodeV, NodeV)>,
    n: nat,
    names: Seq<Seq<char>>,
    path: Seq<char>,
    before: Gathered,
)
    requires
        n <= entries.len(),
        flattened_upto(entries, n, names, path, before) is Ok,
    ensures
        put_in(
            before.data,
            values_upto(entries, n, names, path),
            values_upto(entries, n, names, path).len() as int,
        ) == Some(flattened_upto(entries, n, names, path, before)->Ok_0.data),
    decreases entries, n,
{
    if n > 0 {
        entries_put_in_their_values(entries, (n - 1) as nat, names, path, before);
        let now = flattened_upto(entries, (n - 1) as nat, names, path, before)->Ok_0;
        let a = values_upto(entries, (n - 1) as nat, names, path);
        if !null_scalar(entries[n - 1].0) {
            let name = entries[n - 1].0.text()->Some_0;
            let b = values_in(entries[n - 1].1, names.push(name), path);
            a_node_puts_in_its_values(entries[n - 1].1, names.push(name), path, now);
            put_in_both(before.data, a, b, b.len() as int);
        }
    }
}

proof fn a_locale_puts_in_its_values(
    locale: Seq<char>,
    entries: Seq<(NodeV, NodeV)>,
    n: nat,
    path: Seq<char>,
    before: Gathered,
)
    requires
        n <= entries.len(),
        locale_entries(locale, entries, n, path, before) is Ok,
    ensures
        put_in(
            before.data,
            locale_values(locale, entries, n, path),
            locale_values(locale, entries, n, path).len() as int,
        ) == Some(locale_entries(locale, entries, n, path, before)->Ok_0.data),
    decreases n,
{
    if n > 0 {
        a_locale_puts_in_its_values(locale, entries, (n - 1) as nat, path, before);
        let now = locale_entries(locale, entries, (n - 1) as nat, path, before)->Ok_0;
        let a = locale_values(locale, entries, (n - 1) as nat, path);
        if entries[n - 1].0.text() == Some(locale) {
            let b = values_in(entries[n - 1].1, Seq::empty(), path);
            a_node_puts_in_its_values(entries[n - 1].1, Seq::empty(), path, now);
            put_in_both(before.data, a, b, b.len() as int);
        }
    }
}

proof fn a_file_puts_in_its_values(locale: Seq<char>, file: SourceFileV, before: LocaleV)
    requires
        file_read(locale, file, before) is Ok,
    ensures
        put_in(
            before.found.data,
            file_values(locale, file),
            file_values(locale, file).len() as int,
        ) == Some(file_read(locale, file, before)->Ok_0.found.data),
{
    if let Ok(Some(node)) = file.root {
        let entries = node.entries()->Some_0;
        a_locale_puts_in_its_values(locale, entries, entries.len(), file.path, before.found);
    }
}

proof fn files_put_in_their_values(locale: Seq<char>, files: Seq<SourceFileV>, n: nat)
    requires
        n <= files.len(),
        files_read(locale, files, n) is Ok,
    ensures
        put_in(
            Seq::empty(),
            all_values(locale, files, n),
            all_values(locale, files, n).len() as int,
        ) == Some(files_read(locale, files, n)->Ok_0.found.data),
    decreases n,
{
    if n > 0 {
        files_put_in_their_values(locale, files, (n - 1) as nat);
        let now = files_read(locale, files, (n - 1) as nat)->Ok_0;
        let a = all_values(locale, files, (n - 1) as nat);
        assert(comes_again(files, n - 1) == seen_before(files, n - 1));
        if !comes_again(files, n - 1) {
            let b = file_values(locale, files[n - 1]);
            a_file_puts_in_its_values(locale, files[n - 1], now);
            put_in_both(Seq::empty(), a, b, b.len() as int);
        }
    }
}

proof fn what_is_put_in(list: Seq<Entry>, n: int, leaf: LeafV)
    requires
        0 <= n <= list.len(),
        put_in(Seq::empty(), list, n) is Some,
    ensures
        ({
            let data = put_in(Seq::empty(), list, n)->Some_0;
            &&& keys_of(data).no_duplicates()
            &&& data.contains(leaf) <==> exists|i: int|
                is_last(list.take(n), i) && leaf.key == key_of(#[trigger] list[i]) && value_of(
                    list[i].node,
                    list[i].path,
                    false,
                ) == Ok::<ValueV, Seq<char>>(leaf.value) && leaf == leaf_at(
                    list[i].names,
                    leaf.value,
                    list[i].path,
                )
        }),
    decreases n,
{
    let data = put_in(Seq::empty(), list, n)->Some_0;
    let now_list = list.take(n);
    if n <= 0 {
        assert(keys_of(data) =~= Seq::empty());
        assert(!data.contains(leaf));
    } else {
        what_is_put_in(list, n - 1, leaf);
        let before = put_in(Seq::empty(), list, n - 1)->Some_0;
        let prev = list.take(n - 1);
        let last = list[n - 1];
        let v = value_of(last.node, last.path, false)->Ok_0;
        let new = leaf_at(last.names, v, last.path);
        assert(new.key == key_of(last));
        a_leaf_put_in_is_found(before, new, leaf.key);
        assert(now_list =~= prev.push(last));
        assert(is_last(now_list, n - 1));
        assert forall|i: int| 0 <= i < n - 1 implies is_last(now_list, i) == (is_last(prev, i)
            && key_of(list[i]) != key_of(last)) by {
            assert(now_list[i] == list[i] && prev[i] == list[i]);
            if is_last(now_list, i) {
                assert(now_list[n - 1] == last);
                assert forall|j: int| i < j < prev.len() implies key_of(#[trigger] prev[j])
                    != key_of(prev[i]) by {
                    assert(now_list[j] == prev[j]);
                }
            }
            if is_last(prev, i) && key_of(list[i]) != key_of(last) {
                assert forall|j: int| i < j < now_list.len() implies key_of(#[trigger] now_list[j])
                    != key_of(now_list[i]) by {
                    if j < n - 1 {
                        assert(now_list[j] == prev[j]);
                    }
                }
            }
        }
        let found = exists|i: int|
            is_last(now_list, i) && leaf.key == key_of(#[trigger] list[i]) && value_of(
                list[i].node,
                list[i].path,
                false,
            ) == Ok::<ValueV, Seq<char>>(leaf.value) && leaf == leaf_at(
                list[i].names,
                leaf.value,
                list[i].path,
            );
        if leaf.key == key_of(last) {
            if data.contains(leaf) {
                let p = data.index_of(leaf);
                let q = data.index_of(new);
                assert(keys_of(data)[p] == leaf.key && keys_of(data)[q] == leaf.key);
                assert(leaf == new);
                assert(is_last(now_list, n - 1) && leaf.key == key_of(list[n - 1]));
            }
            if found {
                let i = choose|i: int|
                    is_last(now_list, i) && leaf.key == key_of(#[trigger] list[i]) && value_of(
                        list[i].node,
                        list[i].path,
                        false,
                    ) == Ok::<ValueV, Seq<char>>(leaf.value) && leaf == leaf_at(
                        list[i].names,
                        leaf.value,
                        list[i].path,
                    );
                if i < n - 1 {
                    assert(is_last(prev, i) && key_of(list[i]) != key_of(last));
                }
                assert(leaf == new);
            }
        } else {
            let names = keys_of(before);
            let after = keys_of(data);
            if before.contains(leaf) {
                let p = before.index_of(leaf);
                assert(names[p] == leaf.key);
                let q = names.index_of(leaf.key);
                assert(p == q);
                let r = after.index_of(leaf.key);
                assert(data[r] == leaf);
            }
            if data.contains(leaf) {
                let p = data.index_of(leaf);
                assert(after[p] == leaf.key);
                let r = after.index_of(leaf.key);
                assert(p == r);
                let q = names.index_of(leaf.key);
                assert(before[q] == leaf);
            }
            if found {
                let i = choose|i: int|
                    is_last(now_list, i) && leaf.key == key_of(#[trigger] list[i]) && value_of(
                        list[i].node,
                        list[i].path,
                        false,
                    ) == Ok::<ValueV, Seq<char>>(leaf.value) && leaf == leaf_at(
                        list[i].names,
                        leaf.value,
                        list[i].path,
                    );
                assert(i < n - 1);
                assert(is_last(prev, i));
            }
            if before.contains(leaf) {
                let i = choose|i: int|
                    is_last(prev, i) && leaf.key == key_of(#[trigger] list[i]) && value_of(
                        list[i].node,
                        list[i].path,
                        false,
                    ) == Ok::<ValueV, Seq<char>>(leaf.value) && leaf == leaf_at(
                        list[i].names,
                        leaf.value,
                        list[i].path,
                    );
                assert(is_last(now_list, i));
            }
        }
    }
}

// ---------------------------------------------------------------------------- laws

/// A locale has a leaf exactly where it is that of the last value under its key
/// among all the values that its files hold for it; no key comes twice.
pub proof fn a_locale_has_the_last_value_under_each_key(
    locale: Seq<char>,
    files: Seq<SourceFileV>,
    leaf: LeafV,
)
    requires
        locale_read(locale, files) is Ok,
    ensures
        ({
            let data = locale_read(locale, files)->Ok_0.found.data;
            let list = all_values(locale, files, files.len());
            &&& keys_of(data).no_duplicates()
            &&& data.contains(leaf) <==> exists|i: int|
                is_last(list, i) && leaf.key == key_of(#[trigger] list[i]) && value_of(
                    list[i].node,
                    list[i].path,
                    false,
                ) == Ok::<ValueV, Seq<char>>(leaf.value) && leaf == leaf_at(
                    list[i].names,
                    leaf.value,
                    list[i].path,
                )
        }),
{
    let list = all_values(locale, files, files.len());
    let n = list.len() as int;
    files_put_in_their_values(locale, files, files.len());
    what_is_put_in(list, n, leaf);
    assert(list.take(n) =~= list);
}

proof fn split_behind(head: Seq<char>, sep: Seq<char>, c: char, word: Seq<char>)
    requires
        sep == seq![c],
        !word.contains(c),
    ensures
        split_of(head + sep + word, c) == split_of(head, c).push(word),
    decreases head.len(),
{
    let all = head + sep + word;
    position_is_first(head, c);
    position_is_first(all, c);
    position_is_first(word, c);
    let p = position_of(head, c);
    let q = position_of(all, c);
    assert(all[head.len() as int] == c);
    if p < head.len() {
        assert(all[p] == c);
        assert(q == p) by {
            if q < p {
                assert(head[q] == all[q]);
            }
        }
        let rest = head.skip(p + 1);
        split_behind(rest, sep, c, word);
        assert(all.skip(q + 1) =~= rest + sep + word);
        assert(all.take(q) =~= head.take(p));
        assert(split_of(all, c) =~= split_of(head, c).push(word));
    } else {
        assert(q == head.len()) by {
            if q < head.len() {
                assert(head[q] == all[q]);
            }
        }
        assert(all.take(q) =~= head);
        assert(all.skip(q + 1) =~= word);
        assert(split_of(word, c) =~= seq![word]);
        assert(split_of(head, c) =~= seq![head]);
        assert(split_of(all, c) =~= split_of(head, c).push(word));
    }
}

/// Names that were joined are found again where the text is split.
pub proof fn names_are_split_again(names: Seq<Seq<char>>, sep: Seq<char>, c: char)
    requires
        names.len() > 0,
        sep == seq![c],
        forall|i: int| 0 <= i < names.len() ==> !(#[trigger] names[i]).contains(c),
    ensures
        split_of(join_of(names, sep), c) == names,
    decreases names.len(),
{
    if names.len() == 1 {
        position_is_first(names[0], c);
        assert(split_of(names[0], c) =~= names);
    } else {
        let head = names.drop_last();
        assert forall|i: int| 0 <= i < head.len() implies !(#[trigger] head[i]).contains(c) by {
            assert(head[i] == names[i]);
        }
        names_are_split_again(head, sep, c);
        split_behind(join_of(head, sep), sep, c, names.last());
        assert(head.push(names.last()) =~= names);
    }
}

/// A leaf knows the names that lead to it, also where a name holds a dot, and
/// counts them.
pub proof fn a_leaf_knows_its_names(names: Seq<Seq<char>>, value: ValueV, path: Seq<char>)
    requires
        0 < names.len() <= 65535,
    ensures
        ({
            let leaf = leaf_at(names, value, path);
            &&& leaf.segments() == names
            &&& leaf.depth == names.len()
            &&& leaf.key == join_of(names, "."@)
            &&& leaf.value == value
            &&& leaf.path == path
        }),
{
    if !exists|i: int| 0 <= i < names.len() && (#[trigger] names[i]).contains('.') {
        reveal_strlit(".");
        assert("."@ =~= seq!['.']);
        names_are_split_again(names, "."@, '.');
    }
}

/// A quoted scalar is a string, whatever it looks like.
pub proof fn a_quoted_scalar_is_a_string(value: Seq<char>, line: int, path: Seq<char>, inside: bool)
    ensures
        value_of(NodeV::Scalar { value, plain: false, line }, path, inside) == Ok::<
            ValueV,
            Seq<char>,
        >(ValueV::Str(value)),
{
}

/// A file that cannot be read, and one whose document is no mapping, is refused;
/// one without a document adds nothing.
pub proof fn which_files_are_refused(locale: Seq<char>, file: SourceFileV, before: LocaleV)
    ensures
        file.root is Err ==> file_read(locale, file, before) is Err,
        file.root == Ok::<Option<NodeV>, Seq<char>>(None) ==> file_read(locale, file, before) == Ok::<
            LocaleV,
            Seq<char>,
        >(before),
        file.root matches Ok(Some(node)) ==> (!(node is Mapping) ==> file_read(
            locale,
            file,
            before,
        ) is Err),
{
}

} // verus!
