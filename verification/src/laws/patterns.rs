//! What a group of alternatives in a pattern stands for.
use crate::laws::loading::names_are_split_again;
use crate::pattern::{
    accepts, alternatives_of, as_items, atom_spans, atoms_from, atoms_span, closing_brace, flush,
    is_plain, item_spans, items_of, items_span, Atom, Item,
};
use crate::text::{
    is_space, join_of, position_is_first, position_of, trim_end_of, trim_of, trim_start_of,
};
use crate::wildcards::{between_in_bytes, bytes_between, literal_spans, plain_stretch};
use vstd::prelude::*;
use vstd::utf8::{encode_utf8, encode_utf8_decode_utf8};

verus! {

/// A plain alternative: without wildcards, commas and braces, and without white
/// space at its ends.
pub open spec fn is_alternative(s: Seq<char>) -> bool {
    &&& s.len() > 0
    &&& is_plain(s)
    &&& !s.contains(',')
    &&& !s.contains('}')
    &&& !is_space(s[0])
    &&& !is_space(s.last())
}

proof fn plain_atoms(src: Seq<char>, i: int, lit: Seq<char>)
    requires
        is_plain(src),
        0 <= i <= src.len(),
        lit == src.take(i),
    ensures
        atoms_from(src, i, lit) == flush(src),
    decreases src.len() - i,
{
    if i < src.len() {
        assert(src[i] != '*' && src[i] != ':');
        assert(src.take(i + 1) =~= lit.push(src[i]));
        plain_atoms(src, i + 1, lit.push(src[i]));
    } else {
        assert(src.take(i) =~= src);
    }
}

proof fn nothing_to_trim(s: Seq<char>)
    requires
        s.len() > 0,
        !is_space(s[0]),
        !is_space(s.last()),
    ensures
        trim_of(s) == s,
{
    assert(trim_start_of(s) == s);
    assert(trim_end_of(s) == s);
}

proof fn joined_ends(alts: Seq<Seq<char>>)
    requires
        alts.len() > 0,
        forall|i: int| 0 <= i < alts.len() ==> is_alternative(#[trigger] alts[i]),
    ensures
        ({
            let body = join_of(alts, ","@);
            &&& body.len() > 0
            &&& !is_space(body[0])
            &&& !is_space(body.last())
            &&& !body.contains('}')
        }),
    decreases alts.len(),
{
    reveal_strlit(",");
    let body = join_of(alts, ","@);
    let last = alts.last();
    assert(is_alternative(alts[alts.len() - 1]));
    if alts.len() > 1 {
        let head = alts.drop_last();
        assert forall|i: int| 0 <= i < head.len() implies is_alternative(#[trigger] head[i]) by {
            assert(head[i] == alts[i]);
        }
        joined_ends(head);
        let front = join_of(head, ","@);
        assert(body == front + ","@ + last);
        assert(body[0] == front[0]);
        assert(body.last() == last.last());
        if body.contains('}') {
            let k = body.index_of('}');
            if k < front.len() {
                assert(front[k] == '}');
            } else if k > front.len() {
                assert(last[k - front.len() - 1] == '}');
            }
        }
    }
}

/// A group between two plain texts matches exactly one of its alternatives
/// between them.
pub proof fn a_group_matches_one_of_its_alternatives(
    p: Seq<char>,
    alts: Seq<Seq<char>>,
    q: Seq<char>,
    key: Seq<char>,
)
    requires
        is_plain(p),
        is_plain(q),
        alts.len() > 0,
        forall|i: int| 0 <= i < alts.len() ==> is_alternative(#[trigger] alts[i]),
    ensures
        accepts(p + seq!['{'] + join_of(alts, ","@) + seq!['}'] + q, key) <==> exists|k: int|
            0 <= k < alts.len() && key == p + #[trigger] alts[k] + q,
{
    reveal_strlit(",");
    let body = join_of(alts, ","@);
    let src = p + seq!['{'] + body + seq!['}'] + q;
    let n = p.len() as int;
    let close = n + 1 + body.len();
    let none = Seq::<char>::empty();
    joined_ends(alts);
    // The items of the pattern.
    assert(src.subrange(0, n) =~= p);
    plain_stretch(src, 0, n, none, 0);
    assert(none + p =~= p);
    let behind = src.skip(n + 1);
    position_is_first(behind, '}');
    assert(behind[body.len() as int] == '}');
    assert(position_of(behind, '}') == body.len()) by {
        let k = position_of(behind, '}');
        if k < body.len() {
            assert(behind[k] == body[k]);
            assert(body.contains('}'));
        }
    }
    assert(closing_brace(src, n) == close);
    assert(src[n] == '{');
    assert(src.subrange(n + 1, close) =~= body);
    assert(src.subrange(close + 1, src.len() as int) =~= q);
    plain_stretch(src, close + 1, src.len() as int, none, 1);
    assert(none + q =~= q);
    let group = Item::Group(0, alternatives_of(body));
    let last = as_items(flush(q));
    let rest = seq![group] + last;
    assert(items_of(src) == as_items(flush(p)) + rest);
    // The alternatives of the group.
    nothing_to_trim(body);
    assert(","@ =~= seq![',']);
    assert forall|i: int| 0 <= i < alts.len() implies !(#[trigger] alts[i]).contains(',') by {
        assert(is_alternative(alts[i]));
    }
    names_are_split_again(alts, ","@, ',');
    let made = alternatives_of(body);
    assert(made.len() == alts.len());
    assert forall|k: int| 0 <= k < alts.len() implies #[trigger] made[k] == seq![
        Atom::Lit(encode_utf8(alts[k])),
    ] by {
        assert(is_alternative(alts[k]));
        nothing_to_trim(alts[k]);
        assert(alts[k].take(0) =~= none);
        plain_atoms(alts[k], 0, none);
    }
    // What they match.
    let s = encode_utf8(key);
    let from = encode_utf8(p).len() as int;
    let nothing = Seq::<Item>::empty();
    literal_spans(p, rest, s, 0);
    assert(rest.skip(1) =~= last);
    assert(last =~= last + nothing);
    if accepts(src, key) {
        let j = choose|j: int|
            #[trigger] item_spans(rest[0], s, from, j) && items_span(rest.skip(1), s, j);
        let k = choose|k: int| 0 <= k < made.len() && #[trigger] atoms_span(made[k], s, from, j);
        assert(made[k] == seq![Atom::Lit(encode_utf8(alts[k]))]);
        let m = choose|m: int|
            #[trigger] atom_spans(made[k][0], s, from, m) && atoms_span(made[k].skip(1), s, m, j);
        assert(made[k].skip(1).len() == 0);
        assert(m == j);
        literal_spans(q, nothing, s, j);
        assert(s.subrange(j, s.len() as int) =~= s.skip(j));
        let middle = between_in_bytes(key, p, q, j);
        encode_utf8_decode_utf8(middle);
        encode_utf8_decode_utf8(alts[k]);
        assert(middle == alts[k]);
        assert(key == p + alts[k] + q);
    }
    if exists|k: int| 0 <= k < alts.len() && key == p + #[trigger] alts[k] + q {
        let k = choose|k: int| 0 <= k < alts.len() && key == p + #[trigger] alts[k] + q;
        bytes_between(key, p, alts[k], q);
        let j = from + encode_utf8(alts[k]).len();
        assert(made[k] == seq![Atom::Lit(encode_utf8(alts[k]))]);
        assert(atom_spans(made[k][0], s, from, j));
        assert(made[k].skip(1).len() == 0);
        assert(atoms_span(made[k].skip(1), s, j, j));
        assert(atoms_span(made[k], s, from, j));
        assert(item_spans(rest[0], s, from, j));
        literal_spans(q, nothing, s, j);
        assert(s.subrange(j, s.len() as int) =~= s.skip(j));
        assert(items_span(last, s, j));
    }
}

} // verus!
