//! Where a key is split.
use crate::keys::{
    awaited, closing_of, next_separator, segments_from, separates, split_key_max_of, split_key_of,
};
use crate::laws::loading::names_are_split_again;
use crate::text::{join_of, position_is_first, position_of, split_of};
use vstd::prelude::*;

verus! {

/// The text holds none of the brackets that a key may hold.
pub open spec fn has_no_bracket(s: Seq<char>) -> bool {
    forall|i: int|
        0 <= i < s.len() ==> #[trigger] s[i] != '{' && s[i] != '[' && s[i] != '(' && s[i] != '<'
}

proof fn nothing_is_awaited(key: Seq<char>, n: int, i: int)
    requires
        0 <= i <= n <= key.len(),
        forall|k: int| 0 <= k < n ==> closing_of(#[trigger] key[k]) is None,
    ensures
        awaited(key, i) is None,
    decreases i,
{
    if i > 0 {
        nothing_is_awaited(key, n, i - 1);
        assert(closing_of(key[i - 1]) is None);
    }
}

proof fn the_next_dot_separates(key: Seq<char>, from: int, dot: int)
    requires
        0 <= from <= dot <= key.len(),
        forall|k: int| from <= k < dot ==> !#[trigger] separates(key, k),
        dot < key.len() ==> separates(key, dot),
    ensures
        next_separator(key, from) == dot,
    decreases dot - from,
{
    if from < dot {
        assert(!separates(key, from));
        the_next_dot_separates(key, from + 1, dot);
    }
}

proof fn plain_keys_are_split_at_dots(key: Seq<char>, from: int, count: nat)
    requires
        0 <= from < key.len(),
        has_no_bracket(key),
        key.last() != '.',
    ensures
        segments_from(key, from, count, 0) == split_of(key.skip(from), '.'),
    decreases key.len() - from,
{
    let part = key.skip(from);
    let p = position_of(part, '.');
    position_is_first(part, '.');
    assert forall|k: int| 0 <= k < key.len() implies closing_of(#[trigger] key[k]) is None by {
        assert(key[k] != '{');
    }
    let n = key.len() as int;
    assert forall|k: int| from <= k < from + p implies !#[trigger] separates(key, k) by {
        assert(part[k - from] == key[k]);
    }
    if p < part.len() {
        assert(key[from + p] == part[p]);
        nothing_is_awaited(key, n, from + p);
        assert(separates(key, from + p));
        the_next_dot_separates(key, from, from + p);
        assert(from + p + 1 < n) by {
            if from + p + 1 == n {
                assert(key.last() == key[from + p]);
            }
        }
        plain_keys_are_split_at_dots(key, from + p + 1, count + 1);
        assert(key.skip(from + p + 1) =~= part.skip(p + 1));
        assert(key.subrange(from, from + p) =~= part.take(p));
    } else {
        the_next_dot_separates(key, from, n);
        nothing_is_awaited(key, n, n);
        assert(split_of(part, '.') =~= seq![part]);
    }
}

/// Names without dots and brackets that are joined by dots are the segments of
/// their key.
pub proof fn names_are_the_segments_of_their_key(names: Seq<Seq<char>>)
    requires
        names.len() > 0,
        forall|i: int|
            0 <= i < names.len() ==> (#[trigger] names[i]).len() > 0 && !names[i].contains('.')
                && has_no_bracket(names[i]),
    ensures
        split_key_of(join_of(names, "."@)) == names,
{
    reveal_strlit(".");
    let key = join_of(names, "."@);
    joined_names_are_plain(names);
    plain_keys_are_split_at_dots(key, 0, 0);
    assert(key.skip(0) =~= key);
    assert("."@ =~= seq!['.']);
    names_are_split_again(names, "."@, '.');
}

proof fn joined_names_are_plain(names: Seq<Seq<char>>)
    requires
        names.len() > 0,
        forall|i: int|
            0 <= i < names.len() ==> (#[trigger] names[i]).len() > 0 && !names[i].contains('.')
                && has_no_bracket(names[i]),
    ensures
        join_of(names, "."@).len() > 0,
        join_of(names, "."@).last() != '.',
        has_no_bracket(join_of(names, "."@)),
    decreases names.len(),
{
    reveal_strlit(".");
    let key = join_of(names, "."@);
    let last = names[names.len() - 1];
    assert(last.len() > 0 && !last.contains('.') && has_no_bracket(last));
    assert(last.contains(last.last()));
    if names.len() > 1 {
        let head = names.drop_last();
        assert forall|i: int| 0 <= i < head.len() implies (#[trigger] head[i]).len() > 0
            && !head[i].contains('.') && has_no_bracket(head[i]) by {
            assert(head[i] == names[i]);
        }
        joined_names_are_plain(head);
        let front = join_of(head, "."@);
        assert(key == front + "."@ + last);
        assert(key.last() == last.last());
        assert forall|i: int| 0 <= i < key.len() implies #[trigger] key[i] != '{' && key[i] != '['
            && key[i] != '(' && key[i] != '<' by {
            if i < front.len() {
                assert(key[i] == front[i]);
            } else if i > front.len() {
                assert(key[i] == last[i - front.len() - 1]);
            }
        }
    }
}

/// A dot between a bracket and the one that closes it does not separate, and
/// one behind it does.
pub proof fn no_dot_in_brackets_separates(
    before: Seq<char>,
    open: char,
    inner: Seq<char>,
    close: char,
    after: Seq<char>,
    i: int,
)
    requires
        has_no_bracket(before),
        !inner.contains(close),
        (open == '{' && close == '}') || (open == '[' && close == ']') || (open == '(' && close
            == ')') || (open == '<' && close == '>'),
    ensures
        ({
            let key = before + seq![open] + inner + seq![close] + after;
            let from = before.len() as int;
            let to = from + 1 + inner.len();
            &&& from < i <= to ==> !separates(key, i)
            &&& after.len() > 0 && after[0] == '.' ==> separates(key, to + 1)
            &&& 0 <= i < from ==> (separates(key, i) <==> before[i] == '.')
        }),
{
    let key = before + seq![open] + inner + seq![close] + after;
    let from = before.len() as int;
    let to = from + 1 + inner.len();
    assert forall|k: int| 0 <= k < from implies closing_of(#[trigger] key[k]) is None by {
        assert(key[k] == before[k]);
    }
    nothing_is_awaited(key, from, from);
    assert(key[from] == open);
    assert(awaited(key, from + 1) == Some(close));
    inside_it_is_awaited(key, from, to, close, to);
    assert(key[to] == close);
    assert(awaited(key, to + 1) is None);
    if from < i <= to {
        assert(key.subrange(from + 1, to) =~= inner);
        inside_it_is_awaited(key, from, to, close, i);
    }
    if 0 <= i < from {
        nothing_is_awaited(key, from, i);
    }
}

proof fn inside_it_is_awaited(key: Seq<char>, from: int, to: int, close: char, i: int)
    requires
        0 <= from < i <= to <= key.len(),
        awaited(key, from + 1) == Some(close),
        !key.subrange(from + 1, to).contains(close),
    ensures
        awaited(key, i) == Some(close),
    decreases i,
{
    if i > from + 1 {
        inside_it_is_awaited(key, from, to, close, i - 1);
        let inner = key.subrange(from + 1, to);
        assert(inner[i - 2 - from] == key[i - 1]);
        assert(inner.contains(key[i - 1]));
    }
}

/// A key that is split into at most `max` segments keeps all dots of the rest.
pub proof fn the_last_of_a_few_segments_holds_the_rest(first: Seq<char>, rest: Seq<char>)
    requires
        has_no_bracket(first),
        !first.contains('.'),
        rest.len() > 0,
    ensures
        split_key_max_of(first + seq!['.'] + rest, 2) == seq![first, rest],
        split_key_max_of(first + seq!['.'] + rest, 1) == seq![first + seq!['.'] + rest],
{
    let key = first + seq!['.'] + rest;
    let n = first.len() as int;
    assert forall|k: int| 0 <= k < n implies closing_of(#[trigger] key[k]) is None by {
        assert(key[k] == first[k]);
    }
    assert forall|k: int| 0 <= k < n implies !#[trigger] separates(key, k) by {
        assert(key[k] == first[k]);
        assert(first.contains(first[k]));
    }
    nothing_is_awaited(key, n, n);
    assert(key[n] == '.');
    the_next_dot_separates(key, 0, n);
    assert(key.subrange(0, n) =~= first);
    assert(key.skip(n + 1) =~= rest);
}

} // verus!
