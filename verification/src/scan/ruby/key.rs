//! Key resolution: the key that a `t` call names, given its scope.
use crate::scan::{
    find_last_part, last_part, lies_under, starts_a_part, trim_slashes, without_slashes,
};
use crate::text::{
    chars_of, concat, join, join_of, push_text, replace, replace_of, split, split_of, strip_prefix,
    swap_char_of, text_between, texts, without_prefix,
};
use crate::data::load::clone_texts;
use vstd::prelude::*;

verus! {

/// What a `t` call inside a scope may do with a key that starts with a dot.
#[derive(Clone, Copy, Debug, PartialEq, Eq, Structural)]
pub struct Caps {
    /// The key may be relative to the scope.
    pub relative: bool,
    /// The key may belong to one of the scopes further out.
    pub candidate: bool,
}

/// What a `t` call needs from the scope around it.
pub struct CallCtx {
    pub path: Vec<String>,
    pub caps: Caps,
}

/// What a [`CallCtx`] holds.
pub struct CallCtxV {
    pub path: Seq<Seq<char>>,
    pub caps: Caps,
}

impl View for CallCtx {
    type V = CallCtxV;

    open spec fn view(&self) -> CallCtxV {
        CallCtxV { path: texts(self.path@), caps: self.caps }
    }
}

impl Clone for CallCtx {
    fn clone(&self) -> (r: CallCtx)
        ensures
            r@ == self@,
    {
        CallCtx { path: clone_texts(&self.path), caps: self.caps }
    }
}

/// Those of the first `n` parts that are not empty.
pub open spec fn filled_parts(parts: Seq<Seq<char>>, n: int) -> Seq<Seq<char>>
    decreases n,
{
    if n <= 0 {
        Seq::empty()
    } else if parts[n - 1].len() == 0 {
        filled_parts(parts, n - 1)
    } else {
        filled_parts(parts, n - 1).push(parts[n - 1])
    }
}

/// The parts of a key joined by dots, without empty parts and double dots.
pub open spec fn joined_key(parts: Seq<Seq<char>>) -> Seq<char> {
    replace_of(join_of(filled_parts(parts, parts.len() as int), "."@), ".."@, "."@)
}

/// Joins the parts of a key by dots, without empty parts and double dots.
pub fn join_key(parts: &Vec<String>) -> (key: String)
    ensures
        key@ == joined_key(texts(parts@)),
{
    let ghost model = texts(parts@);
    assert(model.len() == parts.len());
    let mut filled: Vec<String> = Vec::new();
    let mut i: usize = 0;
    assert(texts(filled@) =~= Seq::empty());
    while i < parts.len()
        invariant
            i <= parts.len(),
            model == texts(parts@),
            texts(filled@) == filled_parts(model, i as int),
        decreases parts.len() - i,
    {
        assert(model[i as int] == parts@[i as int]@);
        if !parts[i].as_str().is_empty() {
            push_text(&mut filled, parts[i].clone());
        }
        i = i + 1;
    }
    proof {
        reveal_strlit("..");
    }
    replace(&join(&filled, "."), "..", ".")
}

/// A scope in front of the parts of a key.
pub open spec fn scoped(scope: Option<Seq<char>>, parts: Seq<Seq<char>>) -> Seq<Seq<char>> {
    match scope {
        Some(s) => seq![s] + parts,
        None => parts,
    }
}

/// The keys that a relative key may stand for: under the first `n` parts of
/// the path down to under the first one.
pub open spec fn candidates_from(
    scope: Option<Seq<char>>,
    path: Seq<Seq<char>>,
    rel: Seq<char>,
    n: int,
) -> Seq<Seq<char>>
    decreases n,
{
    if n <= 0 {
        Seq::empty()
    } else {
        seq![joined_key(scoped(scope, path.take(n).push(rel)))] + candidates_from(
            scope,
            path,
            rel,
            n - 1,
        )
    }
}

/// The keys that a call may stand for, the most specific first; none where it
/// resolves to nothing.
pub open spec fn resolved_keys(
    key: Seq<char>,
    scope: Option<Seq<char>>,
    ctx: CallCtxV,
    receiver_present: bool,
) -> Option<Seq<Seq<char>>> {
    match without_prefix(key, "."@) {
        None => Some(seq![joined_key(scoped(scope, seq![key]))]),
        Some(rel) => if receiver_present {
            Some(seq![joined_key(scoped(scope, seq![rel]))])
        } else if !ctx.caps.relative {
            None
        } else if ctx.caps.candidate {
            if ctx.path.len() == 0 {
                None
            } else {
                Some(candidates_from(scope, ctx.path, rel, ctx.path.len() as int))
            }
        } else {
            Some(seq![joined_key(scoped(scope, ctx.path.push(rel)))])
        },
    }
}

/// The key under a scope and the first `n` parts of a path.
fn key_under(scope: Option<&str>, path: &Vec<String>, n: usize, last: &str) -> (key: String)
    requires
        n <= path.len(),
    ensures
        key@ == joined_key(
            scoped(crate::config::text_in(scope), texts(path@).take(n as int).push(last@)),
        ),
{
    let ghost model = texts(path@);
    let mut parts: Vec<String> = Vec::new();
    if let Some(s) = scope {
        parts.push(s.to_owned());
    }
    let ghost head = texts(parts@);
    let mut i: usize = 0;
    assert(texts(parts@) =~= head + model.take(0));
    while i < n
        invariant
            i <= n <= path.len(),
            model == texts(path@),
            texts(parts@) == head + model.take(i as int),
        decreases n - i,
    {
        assert(model[i as int] == path@[i as int]@);
        push_text(&mut parts, path[i].clone());
        i = i + 1;
        assert(model.take(i as int) =~= model.take(i - 1).push(model[i - 1]));
        assert(texts(parts@) =~= head + model.take(i as int));
    }
    push_text(&mut parts, last.to_owned());
    assert(texts(parts@) =~= scoped(
        crate::config::text_in(scope),
        model.take(n as int).push(last@),
    ));
    join_key(&parts)
}

/// Resolves the key of a call. The candidates come with the most specific
/// first; `None` where the call resolves to nothing.
///
/// A key that starts with a dot is relative to the scope, unless the call names
/// its receiver. A controller action may fall back on the scopes further out,
/// but never on the bare key.
pub fn full_key(key: &str, scope: Option<&str>, ctx: &CallCtx, receiver_present: bool) -> (r:
    Option<Vec<String>>)
    ensures
        match r {
            Some(keys) => resolved_keys(
                key@,
                crate::config::text_in(scope),
                ctx@,
                receiver_present,
            ) == Some(texts(keys@)) && keys.len() > 0,
            None => resolved_keys(
                key@,
                crate::config::text_in(scope),
                ctx@,
                receiver_present,
            ) is None,
        },
{
    let ghost outer = crate::config::text_in(scope);
    let ghost path = texts(ctx.path@);
    assert(path.len() == ctx.path.len());
    let none: Vec<String> = Vec::new();
    let mut out: Vec<String> = Vec::new();
    match strip_prefix(key, ".") {
        None => {
            out.push(key_under(scope, &none, 0, key));
            assert(texts(none@).take(0).push(key@) =~= seq![key@]);
            assert(texts(out@) =~= seq![joined_key(scoped(outer, seq![key@]))]);
            Some(out)
        },
        Some(rel) => {
            if receiver_present {
                out.push(key_under(scope, &none, 0, &rel));
                assert(texts(none@).take(0).push(rel@) =~= seq![rel@]);
                assert(texts(out@) =~= seq![joined_key(scoped(outer, seq![rel@]))]);
                return Some(out);
            }
            if !ctx.caps.relative {
                return None;
            }
            if !ctx.caps.candidate {
                out.push(key_under(scope, &ctx.path, ctx.path.len(), &rel));
                assert(path.take(path.len() as int) =~= path);
                assert(texts(out@) =~= seq![joined_key(scoped(outer, path.push(rel@)))]);
                return Some(out);
            }
            if ctx.path.len() == 0 {
                return None;
            }
            let ghost all = candidates_from(outer, path, rel@, path.len() as int);
            let mut n: usize = ctx.path.len();
            assert(texts(out@) + candidates_from(outer, path, rel@, n as int) =~= all);
            while n > 0
                invariant
                    n <= ctx.path.len(),
                    path == texts(ctx.path@),
                    outer == crate::config::text_in(scope),
                    texts(out@) + candidates_from(outer, path, rel@, n as int) == all,
                    out.len() > 0 || n > 0,
                decreases n,
            {
                let ghost before = texts(out@);
                let ghost rest = candidates_from(outer, path, rel@, n - 1);
                push_text(&mut out, key_under(scope, &ctx.path, n, &rel));
                assert(texts(out@) + rest =~= before + candidates_from(
                    outer,
                    path,
                    rel@,
                    n as int,
                ));
                n = n - 1;
            }
            assert(texts(out@) =~= all);
            Some(out)
        },
    }
}

/// A pattern without a static part: nothing but dots, stars and colons.
pub open spec fn all_wildcard(pattern: Seq<char>) -> bool {
    forall|i: int|
        0 <= i < pattern.len() ==> #[trigger] pattern[i] == '.' || pattern[i] == '*' || pattern[i]
            == ':'
}

/// Whether a pattern has no static part. It would mark every key used.
pub fn is_all_wildcard(pattern: &str) -> (b: bool)
    ensures
        b == all_wildcard(pattern@),
{
    for c in it: pattern.chars()
        invariant
            it.seq() == pattern@,
            forall|i: int|
                0 <= i < it.index() ==> #[trigger] pattern@[i] == '.' || pattern@[i] == '*'
                    || pattern@[i] == ':',
    {
        assert(c == pattern@[it.index()]);
        if c != '.' && c != '*' && c != ':' {
            return false;
        }
    }
    true
}

/// A file name without its extensions and without one underscore at its start.
pub open spec fn template_name(file: Seq<char>) -> Seq<char> {
    let stem = split_of(file, '.')[0];
    match without_prefix(stem, "_"@) {
        Some(rest) => rest,
        None => stem,
    }
}

/// The path of a template under its root, as the parts of a key. A path outside
/// the root has none.
pub open spec fn template_parts(path: Seq<char>, root: Seq<char>) -> Seq<Seq<char>> {
    let marker = without_slashes(root) + "/"@;
    match last_part(path, marker, path.len() as int) {
        None => Seq::empty(),
        Some(i) => {
            let parts = split_of(path.skip(i + marker.len()), '/');
            parts.drop_last().push(template_name(parts.last()))
        },
    }
}

/// The path of a template under its root, as the parts of a key. The file name
/// loses every extension, and a partial one underscore at its start. A path
/// outside the root has no parts.
pub fn template_path(posix_path: &str, root: &str) -> (out: Vec<String>)
    ensures
        texts(out@) == template_parts(posix_path@, root@),
{
    let v = chars_of(posix_path);
    let length = v.len();
    let marker = chars_of(&concat(&trim_slashes(root), "/"));
    let i = match find_last_part(&v, &marker) {
        Some(i) => i,
        None => {
            let out: Vec<String> = Vec::new();
            assert(texts(out@) =~= Seq::empty());
            return out;
        },
    };
    assert(i + marker.len() <= length);
    let rest = text_between(&v, i + marker.len(), length);
    assert(rest@ =~= posix_path@.skip(i + marker.len()));
    let mut parts = split(&rest, '/');
    let ghost model = split_of(rest@, '/');
    assert(model.len() == parts.len());
    if let Some(name) = parts.pop() {
        assert(model.last() == name@);
        assert(texts(parts@) =~= model.drop_last());
        let pieces = split(&name, '.');
        assert(split_of(name@, '.')[0] == pieces@[0]@);
        let stem = pieces[0].clone();
        let stem = match strip_prefix(&stem, "_") {
            Some(rest) => rest,
            None => stem,
        };
        push_text(&mut parts, stem);
    }
    parts
}

// -------------------------------------------------------------------------- laws

/// A relative key never stands for a bare key: every candidate lies under at
/// least one part of the path.
pub proof fn a_relative_key_is_never_bare(
    scope: Option<Seq<char>>,
    path: Seq<Seq<char>>,
    rel: Seq<char>,
    n: int,
    i: int,
)
    requires
        0 <= n <= path.len(),
        0 <= i < candidates_from(scope, path, rel, n).len(),
    ensures
        candidates_from(scope, path, rel, n).len() == n,
        candidates_from(scope, path, rel, n)[i] == joined_key(
            scoped(scope, path.take(n - i).push(rel)),
        ),
        n - i >= 1,
    decreases n,
{
    if n > 0 {
        let rest = candidates_from(scope, path, rel, n - 1);
        if n - 1 > 0 {
            a_relative_key_is_never_bare(
                scope,
                path,
                rel,
                n - 1,
                if i > 0 {
                    i - 1
                } else {
                    0
                },
            );
        } else {
            assert(rest =~= Seq::empty());
        }
        if i > 0 {
            assert(candidates_from(scope, path, rel, n)[i] == rest[i - 1]);
        }
    }
}

/// The last place is found wherever there is one.
proof fn a_part_is_found(path: Seq<char>, text: Seq<char>, from: int, i: int)
    requires
        0 <= i <= from,
        starts_a_part(path, text, i),
    ensures
        last_part(path, text, from) is Some,
    decreases from,
{
    if i < from {
        a_part_is_found(path, text, from - 1, i);
    }
}

proof fn a_found_part_starts_there(path: Seq<char>, text: Seq<char>, from: int)
    requires
        last_part(path, text, from) is Some,
    ensures
        starts_a_part(path, text, last_part(path, text, from)->Some_0),
    decreases from + 1,
{
    if from >= 0 && !starts_a_part(path, text, from) {
        a_found_part_starts_there(path, text, from - 1);
    }
}

/// A file has a path under a root exactly where it lies under it.
pub proof fn a_path_outside_the_root_has_no_template_path(path: Seq<char>, root: Seq<char>)
    ensures
        (template_parts(swap_char_of(path, '\\', '/'), root).len() > 0) == lies_under(path, root),
{
    let posix = swap_char_of(path, '\\', '/');
    let marker = without_slashes(root) + "/"@;
    if lies_under(path, root) {
        let i = choose|i: int| #[trigger] starts_a_part(posix, marker, i);
        a_part_is_found(posix, marker, posix.len() as int, i);
    }
    if last_part(posix, marker, posix.len() as int) is Some {
        a_found_part_starts_there(posix, marker, posix.len() as int);
    }
}

} // verus!
