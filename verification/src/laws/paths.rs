//! What a path is made of.
use crate::discover::is_hidden;
use crate::laws::loading::names_are_split_again;
use crate::paths::{
    extension_of, file_name_of, part_names, parts_of, parts_upto, path_key, path_under, same_path,
    seen_from, Part,
};
use crate::text::{join_of, last_position_of, split_of, swap_char_of};
use vstd::prelude::*;

verus! {

/// The name of a file or of a directory.
pub open spec fn is_name(s: Seq<char>) -> bool {
    s.len() > 0 && !s.contains('/') && s != "."@ && s != ".."@
}

/// The names as the parts of a path.
pub open spec fn as_parts(names: Seq<Seq<char>>) -> Seq<Part> {
    Seq::new(names.len(), |i: int| (3int, names[i]))
}

proof fn names_are_parts(names: Seq<Seq<char>>, n: int)
    requires
        0 <= n <= names.len(),
        forall|i: int| 0 <= i < n ==> is_name(#[trigger] names[i]),
    ensures
        parts_upto(names, n) == as_parts(names.take(n)),
    decreases n,
{
    if n > 0 {
        names_are_parts(names, n - 1);
        assert(is_name(names[n - 1]));
        assert(as_parts(names.take(n)) =~= as_parts(names.take(n - 1)).push((3int, names[n - 1])));
    } else {
        assert(as_parts(names.take(n)) =~= Seq::empty());
    }
}

proof fn joined_names_are_split(names: Seq<Seq<char>>)
    requires
        names.len() > 0,
        forall|i: int| 0 <= i < names.len() ==> !(#[trigger] names[i]).contains('/'),
    ensures
        split_of(join_of(names, "/"@), '/') == names,
{
    reveal_strlit("/");
    assert("/"@ =~= seq!['/']);
    names_are_split_again(names, "/"@, '/');
}

/// A path is made of the names between its slashes, and is held under them.
pub proof fn a_path_is_made_of_its_names(names: Seq<Seq<char>>)
    requires
        names.len() > 0,
        forall|i: int| 0 <= i < names.len() ==> is_name(#[trigger] names[i]),
    ensures
        parts_of(join_of(names, "/"@)) == as_parts(names),
        path_key(join_of(names, "/"@)) == join_of(names, "/"@),
        file_name_of(join_of(names, "/"@)) == Some(names.last()),
{
    assert forall|i: int| 0 <= i < names.len() implies !(#[trigger] names[i]).contains('/') by {
        assert(is_name(names[i]));
    }
    joined_names_are_split(names);
    let n = names.len() as int;
    names_are_parts(names, n);
    assert(names.take(n) =~= names);
    assert(part_names(as_parts(names)) =~= names);
    assert(as_parts(names).last() == (3int, names.last()));
}

/// A slash, or a slash and a dot, at the end of a path changes nothing.
pub proof fn a_slash_at_the_end_changes_nothing(names: Seq<Seq<char>>)
    requires
        names.len() > 0,
        forall|i: int| 0 <= i < names.len() ==> is_name(#[trigger] names[i]),
    ensures
        same_path(join_of(names, "/"@) + seq!['/'], join_of(names, "/"@)),
        same_path(join_of(names, "/"@) + seq!['/', '.'], join_of(names, "/"@)),
{
    reveal_strlit("/");
    reveal_strlit(".");
    a_path_is_made_of_its_names(names);
    let path = join_of(names, "/"@);
    let n = names.len() as int;
    let none = Seq::<char>::empty();
    assert("/"@ =~= seq!['/']);
    let a = names.push(none);
    let b = names.push("."@);
    assert(a.drop_last() =~= names && b.drop_last() =~= names);
    assert(join_of(a, "/"@) =~= path + seq!['/']);
    assert(join_of(b, "/"@) =~= path + seq!['/', '.']);
    assert forall|i: int| 0 <= i < a.len() implies !(#[trigger] a[i]).contains('/') by {
        if i < n {
            assert(a[i] == names[i]);
            assert(is_name(names[i]));
        }
    }
    assert forall|i: int| 0 <= i < b.len() implies !(#[trigger] b[i]).contains('/') by {
        if i < n {
            assert(b[i] == names[i]);
            assert(is_name(names[i]));
        }
    }
    joined_names_are_split(a);
    joined_names_are_split(b);
    assert forall|i: int| 0 <= i < n implies is_name(#[trigger] a[i]) by {
        assert(a[i] == names[i]);
    }
    assert forall|i: int| 0 <= i < n implies is_name(#[trigger] b[i]) by {
        assert(b[i] == names[i]);
    }
    names_are_parts(a, n);
    names_are_parts(b, n);
    assert(a.take(n) =~= names);
    assert(b.take(n) =~= names);
    assert(parts_upto(a, n + 1) == parts_upto(a, n));
    assert(parts_upto(b, n + 1) == parts_upto(b, n));
}

proof fn joined_in_two(a: Seq<Seq<char>>, b: Seq<Seq<char>>, sep: Seq<char>)
    requires
        a.len() > 0,
        b.len() > 0,
    ensures
        join_of(a + b, sep) == join_of(a, sep) + sep + join_of(b, sep),
    decreases b.len(),
{
    let all = a + b;
    if b.len() == 1 {
        assert(all.drop_last() =~= a);
        assert(all.last() == b[0]);
    } else {
        let less = b.drop_last();
        joined_in_two(a, less, sep);
        assert(all.drop_last() =~= a + less);
        assert(all.last() == b.last());
        assert(join_of(all, sep) =~= join_of(a, sep) + sep + join_of(b, sep));
    }
}

proof fn joined_ends(names: Seq<Seq<char>>)
    requires
        names.len() > 0,
        forall|i: int| 0 <= i < names.len() ==> is_name(#[trigger] names[i]),
    ensures
        join_of(names, "/"@).len() > 0,
        join_of(names, "/"@)[0] != '/',
        join_of(names, "/"@).last() != '/',
    decreases names.len(),
{
    let last = names[names.len() - 1];
    assert(is_name(last));
    assert(last.contains(last.last()) && last.contains(last[0]));
    if names.len() > 1 {
        let head = names.drop_last();
        assert forall|i: int| 0 <= i < head.len() implies is_name(#[trigger] head[i]) by {
            assert(head[i] == names[i]);
        }
        joined_ends(head);
        let front = join_of(head, "/"@);
        assert(join_of(names, "/"@) == front + "/"@ + last);
    }
}

/// A path behind a directory lies below it, and is seen from there as it was.
pub proof fn a_path_is_seen_from_above(root: Seq<Seq<char>>, names: Seq<Seq<char>>)
    requires
        root.len() > 0,
        names.len() > 0,
        forall|i: int| 0 <= i < root.len() ==> is_name(#[trigger] root[i]),
        forall|i: int| 0 <= i < names.len() ==> is_name(#[trigger] names[i]),
        !join_of(names, "/"@).contains('\\'),
    ensures
        path_under(join_of(root, "/"@), join_of(names, "/"@)) == join_of(root + names, "/"@),
        seen_from(
            path_under(join_of(root, "/"@), join_of(names, "/"@)),
            join_of(root, "/"@),
        ) == join_of(names, "/"@),
{
    reveal_strlit("/");
    let top = join_of(root, "/"@);
    let path = join_of(names, "/"@);
    let all = root + names;
    joined_in_two(root, names, "/"@);
    joined_ends(root);
    joined_ends(names);
    assert(!"/"@.is_prefix_of(path)) by {
        if "/"@.is_prefix_of(path) {
            assert(path.subrange(0, 1)[0] == path[0]);
        }
    }
    assert(!"/"@.is_suffix_of(top)) by {
        if "/"@.is_suffix_of(top) {
            assert(top.subrange(top.len() - 1, top.len() as int)[0] == top.last());
        }
    }
    assert forall|i: int| 0 <= i < all.len() implies is_name(#[trigger] all[i]) by {
        if i < root.len() {
            assert(all[i] == root[i]);
        } else {
            assert(all[i] == names[i - root.len()]);
        }
    }
    a_path_is_made_of_its_names(all);
    a_path_is_made_of_its_names(root);
    let own = as_parts(all);
    let above = as_parts(root);
    let n = root.len() as int;
    assert(own.subrange(0, n) =~= above);
    assert(part_names(own.skip(n)) =~= names);
    let t = swap_char_of(path, '\\', '/');
    assert(t =~= path) by {
        assert forall|i: int| 0 <= i < path.len() implies t[i] == path[i] by {
            assert(path.contains(path[i]));
        }
    }
}

proof fn last_is(s: Seq<char>, i: int, c: char)
    requires
        0 <= i < s.len(),
        s[i] == c,
        !s.skip(i + 1).contains(c),
    ensures
        last_position_of(s, c) == i,
    decreases s.len(),
{
    if i < s.len() - 1 {
        let tail = s.skip(i + 1);
        assert(tail[tail.len() - 1] == s.last());
        assert(s.last() != c);
        let head = s.drop_last();
        let less = head.skip(i + 1);
        if less.contains(c) {
            let k = less.index_of(c);
            assert(tail[k] == c);
        }
        last_is(head, i, c);
    }
}

/// The extension of a file is what follows the last dot of its name, whatever
/// its directories; a dot at the start of a name opens none.
pub proof fn the_extension_follows_the_last_dot(
    dirs: Seq<Seq<char>>,
    stem: Seq<char>,
    ext: Seq<char>,
)
    requires
        forall|i: int| 0 <= i < dirs.len() ==> is_name(#[trigger] dirs[i]),
        !ext.contains('.'),
        is_name(stem + seq!['.'] + ext),
    ensures
        extension_of(join_of(dirs.push(stem + seq!['.'] + ext), "/"@)) == (if stem.len() > 0 {
            Some(ext)
        } else {
            None
        }),
{
    let name = stem + seq!['.'] + ext;
    let names = dirs.push(name);
    assert forall|i: int| 0 <= i < names.len() implies is_name(#[trigger] names[i]) by {
        if i < dirs.len() {
            assert(names[i] == dirs[i]);
        }
    }
    a_path_is_made_of_its_names(names);
    let n = stem.len() as int;
    assert(name.skip(n + 1) =~= ext);
    last_is(name, n, '.');
    assert(name.take(n) =~= stem);
}

/// A file is hidden exactly where its name starts with a dot, whatever its
/// directories.
pub proof fn a_hidden_file_starts_with_a_dot(names: Seq<Seq<char>>)
    requires
        names.len() > 0,
        forall|i: int| 0 <= i < names.len() ==> is_name(#[trigger] names[i]),
    ensures
        is_hidden(join_of(names, "/"@)) <==> names.last()[0] == '.',
{
    reveal_strlit(".");
    a_path_is_made_of_its_names(names);
    let name = names.last();
    assert(is_name(names[names.len() - 1]));
    if name[0] == '.' {
        assert(name.subrange(0, 1) =~= "."@);
    } else if "."@.is_prefix_of(name) {
        assert(name.subrange(0, 1)[0] == name[0]);
    }
}

} // verus!
