//! Slash-separated paths, compared part by part.
use crate::text::{
    concat, ends_with, join, join_of, push_text, same_text, split, split_last, split_last_of,
    split_of, starts_with, swap_char, swap_char_of, text_less, text_lt, text_lt_irreflexive,
    text_lt_total, text_lt_transitive, texts,
};
use vstd::prelude::*;

verus! {

/// One part of a path, as its rank and its text: the root comes before the
/// current directory, that before the parent directory, that before any name.
pub type Part = (int, Seq<char>);

/// The part that a name between two slashes stands for.
pub open spec fn part_of(name: Seq<char>) -> Part {
    if name == "."@ {
        (1, name)
    } else if name == ".."@ {
        (2, name)
    } else {
        (3, name)
    }
}

/// The parts among the first `n` names: an empty name is no part, and a single
/// dot is one only at the very start.
pub open spec fn parts_upto(names: Seq<Seq<char>>, n: int) -> Seq<Part>
    decreases n,
{
    if n <= 0 {
        Seq::empty()
    } else {
        let before = parts_upto(names, n - 1);
        let name = names[n - 1];
        if name.len() == 0 {
            if n == 1 && names.len() > 1 {
                before.push((0, name))
            } else {
                before
            }
        } else if name == "."@ && n > 1 {
            before
        } else {
            before.push(part_of(name))
        }
    }
}

/// The parts of a path. A path that starts with a slash has the root first.
pub open spec fn parts_of(path: Seq<char>) -> Seq<Part> {
    parts_upto(split_of(path, '/'), split_of(path, '/').len() as int)
}

/// One part comes before another.
pub open spec fn part_lt(a: Part, b: Part) -> bool {
    a.0 < b.0 || (a.0 == b.0 && text_lt(a.1, b.1))
}

/// One list of parts comes before another.
pub open spec fn parts_lt(a: Seq<Part>, b: Seq<Part>) -> bool
    decreases a.len(),
{
    if b.len() == 0 {
        false
    } else if a.len() == 0 {
        true
    } else if a[0] != b[0] {
        part_lt(a[0], b[0])
    } else {
        parts_lt(a.skip(1), b.skip(1))
    }
}

/// One path comes before another.
pub open spec fn path_lt(a: Seq<char>, b: Seq<char>) -> bool {
    parts_lt(parts_of(a), parts_of(b))
}

/// Two spellings of one path.
pub open spec fn same_path(a: Seq<char>, b: Seq<char>) -> bool {
    parts_of(a) == parts_of(b)
}

proof fn parts_lt_irreflexive(a: Seq<Part>)
    ensures
        !parts_lt(a, a),
    decreases a.len(),
{
    if a.len() > 0 {
        parts_lt_irreflexive(a.skip(1));
    }
}

proof fn parts_lt_transitive(a: Seq<Part>, b: Seq<Part>, c: Seq<Part>)
    requires
        parts_lt(a, b),
        parts_lt(b, c),
    ensures
        parts_lt(a, c),
    decreases a.len(),
{
    if a.len() > 0 {
        if a[0] == b[0] && b[0] == c[0] {
            parts_lt_transitive(a.skip(1), b.skip(1), c.skip(1));
        } else if a[0] != b[0] && b[0] != c[0] {
            if a[0].0 == b[0].0 && b[0].0 == c[0].0 {
                text_lt_transitive(a[0].1, b[0].1, c[0].1);
            }
            text_lt_irreflexive(a[0].1);
        }
    }
}

proof fn parts_lt_total(a: Seq<Part>, b: Seq<Part>)
    ensures
        parts_lt(a, b) || parts_lt(b, a) || a == b,
    decreases a.len(),
{
    if a.len() == 0 && b.len() == 0 {
        assert(a =~= b);
    } else if a.len() > 0 && b.len() > 0 {
        if a[0] == b[0] {
            parts_lt_total(a.skip(1), b.skip(1));
            if a.skip(1) == b.skip(1) {
                assert(a =~= seq![a[0]] + a.skip(1));
                assert(b =~= seq![b[0]] + b.skip(1));
            }
        } else {
            text_lt_total(a[0].1, b[0].1);
        }
    }
}

/// The order of paths is strict.
pub proof fn path_lt_irreflexive(a: Seq<char>, b: Seq<char>)
    requires
        same_path(a, b),
    ensures
        !path_lt(a, b),
{
    parts_lt_irreflexive(parts_of(a));
}

/// The order of paths is transitive.
pub proof fn path_lt_transitive(a: Seq<char>, b: Seq<char>, c: Seq<char>)
    requires
        path_lt(a, b),
        path_lt(b, c),
    ensures
        path_lt(a, c),
{
    parts_lt_transitive(parts_of(a), parts_of(b), parts_of(c));
}

/// Of two paths one comes first, or they are the same.
pub proof fn path_lt_total(a: Seq<char>, b: Seq<char>)
    ensures
        path_lt(a, b) || path_lt(b, a) || same_path(a, b),
{
    parts_lt_total(parts_of(a), parts_of(b));
}

/// What a list of ranked names holds.
pub open spec fn parts_model(v: Seq<(u8, String)>) -> Seq<Part> {
    Seq::new(v.len(), |i: int| (v[i].0 as int, v[i].1@))
}

fn parts(path: &str) -> (out: Vec<(u8, String)>)
    ensures
        parts_model(out@) == parts_of(path@),
{
    let names = split(path, '/');
    let ghost model = split_of(path@, '/');
    let mut out: Vec<(u8, String)> = Vec::new();
    let mut n: usize = 0;
    assert(model.len() == names.len());
    assert(parts_model(out@) =~= Seq::empty());
    while n < names.len()
        invariant
            n <= names.len(),
            model == texts(names@),
            parts_model(out@) == parts_upto(model, n as int),
        decreases names.len() - n,
    {
        let ghost before = parts_model(out@);
        let name = &names[n];
        assert(model[n as int] == name@);
        if name.as_str().is_empty() {
            if n == 0 && names.len() > 1 {
                out.push((0, String::new()));
                assert(name@ =~= Seq::empty());
                assert(parts_model(out@) =~= before.push((0, name@)));
            }
        } else if same_text(name, ".") {
            if n == 0 {
                out.push((1, name.clone()));
                assert(parts_model(out@) =~= before.push((1, name@)));
            }
        } else if same_text(name, "..") {
            out.push((2, name.clone()));
            assert(parts_model(out@) =~= before.push((2, name@)));
        } else {
            out.push((3, name.clone()));
            assert(parts_model(out@) =~= before.push((3, name@)));
        }
        n = n + 1;
    }
    out
}

/// Whether two paths have the same parts.
pub fn is_same_path(a: &str, b: &str) -> (r: bool)
    ensures
        r == same_path(a@, b@),
{
    if same_text(a, b) {
        return true;
    }
    let x = parts(a);
    let y = parts(b);
    let ghost p = parts_model(x@);
    let ghost q = parts_model(y@);
    if x.len() != y.len() {
        assert(p.len() != q.len());
        return false;
    }
    let mut i: usize = 0;
    while i < x.len()
        invariant
            i <= x.len() == y.len(),
            p == parts_model(x@),
            q == parts_model(y@),
            p == parts_of(a@),
            q == parts_of(b@),
            forall|j: int| 0 <= j < i ==> p[j] == q[j],
        decreases x.len() - i,
    {
        if x[i].0 != y[i].0 || !same_text(&x[i].1, &y[i].1) {
            assert(p[i as int] != q[i as int]);
            return false;
        }
        i = i + 1;
    }
    assert(p =~= q);
    true
}

/// Whether one path comes before another.
pub fn path_less(a: &str, b: &str) -> (r: bool)
    ensures
        r == path_lt(a@, b@),
{
    let x = parts(a);
    let y = parts(b);
    let ghost p = parts_model(x@);
    let ghost q = parts_model(y@);
    let mut i: usize = 0;
    assert(p.skip(0) =~= p);
    assert(q.skip(0) =~= q);
    while i < x.len() && i < y.len()
        invariant
            i <= x.len(),
            i <= y.len(),
            p == parts_model(x@),
            q == parts_model(y@),
            p == parts_of(a@),
            q == parts_of(b@),
            parts_lt(p, q) == parts_lt(p.skip(i as int), q.skip(i as int)),
        decreases x.len() - i,
    {
        let (r, s) = (&x[i], &y[i]);
        assert(p.skip(i as int)[0] == (r.0 as int, r.1@));
        assert(q.skip(i as int)[0] == (s.0 as int, s.1@));
        if r.0 != s.0 {
            return r.0 < s.0;
        }
        if !same_text(&r.1, &s.1) {
            return text_less(&r.1, &s.1);
        }
        assert(p.skip(i as int).skip(1) =~= p.skip(i + 1));
        assert(q.skip(i as int).skip(1) =~= q.skip(i + 1));
        i = i + 1;
    }
    assert(p.len() == x.len() && q.len() == y.len());
    i < y.len()
}

/// Each path comes before every later one.
pub open spec fn paths_sorted(v: Seq<Seq<char>>) -> bool {
    forall|i: int, j: int| 0 <= i < j < v.len() ==> path_lt(#[trigger] v[i], #[trigger] v[j])
}

/// The path behind a directory; an absolute path stands for itself.
pub open spec fn path_under(root: Seq<char>, path: Seq<char>) -> Seq<char> {
    if "/"@.is_prefix_of(path) || root.len() == 0 {
        path
    } else if "/"@.is_suffix_of(root) {
        root + path
    } else {
        root + "/"@ + path
    }
}

/// `Path::join` of std, on the text of a path.
pub fn join_path(root: &str, path: &str) -> (out: String)
    ensures
        out@ == path_under(root@, path@),
{
    if starts_with(path, "/") || root.is_empty() {
        path.to_owned()
    } else if ends_with(root, "/") {
        concat(root, path)
    } else {
        concat(&concat(root, "/"), path)
    }
}

/// The names of parts.
pub open spec fn part_names(v: Seq<Part>) -> Seq<Seq<char>> {
    Seq::new(v.len(), |i: int| v[i].1)
}

/// The path as seen from a directory above it, with forward slashes; a path
/// that is not below the directory stays as it is.
pub open spec fn seen_from(path: Seq<char>, root: Seq<char>) -> Seq<char> {
    let own = parts_of(path);
    let above = parts_of(root);
    swap_char_of(
        if above.is_prefix_of(own) {
            join_of(part_names(own.skip(above.len() as int)), "/"@)
        } else {
            path
        },
        '\\',
        '/',
    )
}

/// The path as seen from a directory above it.
pub fn relative_to(path: &str, root: &str) -> (out: String)
    ensures
        out@ == seen_from(path@, root@),
{
    let own = parts(path);
    let above = parts(root);
    let ghost p = parts_model(own@);
    let ghost q = parts_model(above@);
    assert(p.len() == own.len() && q.len() == above.len());
    if above.len() > own.len() {
        return swap_char(path, '\\', '/');
    }
    let mut i: usize = 0;
    while i < above.len()
        invariant
            i <= above.len() <= own.len(),
            p == parts_model(own@),
            q == parts_model(above@),
            p == parts_of(path@),
            q == parts_of(root@),
            forall|j: int| 0 <= j < i ==> p[j] == q[j],
        decreases above.len() - i,
    {
        if own[i].0 != above[i].0 || !same_text(&own[i].1, &above[i].1) {
            assert(p[i as int] != q[i as int]);
            assert(p.subrange(0, q.len() as int)[i as int] == p[i as int]);
            return swap_char(path, '\\', '/');
        }
        i = i + 1;
    }
    assert(q =~= p.subrange(0, q.len() as int));
    let mut names: Vec<String> = Vec::new();
    let ghost rest = p.skip(q.len() as int);
    assert(texts(names@) =~= part_names(rest).take(0));
    while i < own.len()
        invariant
            above.len() <= i <= own.len(),
            p == parts_model(own@),
            q.len() == above.len(),
            rest == p.skip(q.len() as int),
            texts(names@) == part_names(rest).take(i - above.len()),
        decreases own.len() - i,
    {
        push_text(&mut names, own[i].1.clone());
        assert(rest[i - above.len()] == p[i as int]);
        assert(part_names(rest).take(i + 1 - above.len()) =~= part_names(rest).take(
            i - above.len(),
        ).push(own@[i as int].1@));
        i = i + 1;
    }
    assert(part_names(rest).take(i - above.len()) =~= part_names(rest));
    swap_char(&join(&names, "/"), '\\', '/')
}

/// The parts of a path, joined again: the text under which maps hold a path.
pub open spec fn path_key(path: Seq<char>) -> Seq<char> {
    join_of(part_names(parts_of(path)), "/"@)
}

/// The text under which maps hold a path.
pub fn key_of_path(path: &str) -> (out: String)
    ensures
        out@ == path_key(path@),
{
    let own = parts(path);
    let ghost p = parts_model(own@);
    let mut names: Vec<String> = Vec::new();
    let mut i: usize = 0;
    while i < own.len()
        invariant
            i <= own.len(),
            p == parts_model(own@),
            names.len() == i,
            forall|j: int| 0 <= j < i ==> #[trigger] names@[j]@ == p[j].1,
        decreases own.len() - i,
    {
        names.push(own[i].1.clone());
        i = i + 1;
    }
    assert(texts(names@) =~= part_names(p));
    join(&names, "/")
}

/// The name of the file that a path leads to; none where it ends in a parent
/// directory or is the root.
pub open spec fn file_name_of(path: Seq<char>) -> Option<Seq<char>> {
    let own = parts_of(path);
    if own.len() > 0 && own.last().0 == 3 {
        Some(own.last().1)
    } else {
        None
    }
}

/// `Path::file_name` of std, on the text of a path.
pub fn file_name(path: &str) -> (r: Option<String>)
    ensures
        file_name_of(path@) == match r {
            Some(name) => Some(name@),
            None => None,
        },
{
    let mut own = parts(path);
    let ghost p = parts_model(own@);
    assert(p.len() == own.len());
    match own.pop() {
        None => None,
        Some((rank, name)) => {
            assert(p.last() == (rank as int, name@));
            if rank == 3 {
                Some(name)
            } else {
                None
            }
        },
    }
}

/// What follows the last dot of a file name; none where the name holds no dot
/// but at its start.
pub open spec fn extension_of(path: Seq<char>) -> Option<Seq<char>> {
    match file_name_of(path) {
        None => None,
        Some(name) => match split_last_of(name, '.') {
            None => None,
            Some((stem, ext)) => if stem.len() == 0 {
                None
            } else {
                Some(ext)
            },
        },
    }
}

/// `Path::extension` of std, on the text of a path.
pub fn extension(path: &str) -> (r: Option<String>)
    ensures
        extension_of(path@) == match r {
            Some(ext) => Some(ext@),
            None => None,
        },
{
    match file_name(path) {
        None => None,
        Some(name) => match split_last(&name, '.') {
            None => None,
            Some((stem, ext)) => {
                if stem.as_str().is_empty() {
                    None
                } else {
                    Some(ext)
                }
            },
        },
    }
}

} // verus!
