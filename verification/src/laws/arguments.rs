//! What the arguments of a call say: its key and its scope.
use crate::scan::ruby::args::{
    first_named, keywords_upto, part_pattern, parts_pattern, positional_upto, reduced,
    reduced_keywords, reduced_list, scope_of, texts_upto, ArgV,
};
use crate::scan::ruby::key::{joined_key, scoped, CallCtxV};
use crate::scan::ruby::nodes::{is_i18n, CallSiteV, ExprV};
use crate::scan::ruby::{with_call, with_key, with_pattern, FactsV};
use crate::scan::{FileScanV, LocatorV, OccurrenceV};
use crate::text::join_of;
use vstd::prelude::*;

verus! {

/// The expression is a text: a string or a symbol.
pub open spec fn is_text(e: ExprV, s: Seq<char>) -> bool {
    e == ExprV::Str(s) || e == ExprV::Sym(s)
}

/// The keyword at `p` is the first one that is named `scope`; those in front of
/// it have other names.
pub open spec fn first_scope(keywords: Seq<(ExprV, ExprV)>, p: int) -> bool {
    &&& 0 <= p < keywords.len()
    &&& is_text(keywords[p].0, "scope"@)
    &&& forall|i: int|
        0 <= i < p ==> exists|name: Seq<char>| #[trigger]
            is_text((#[trigger] keywords[i]).0, name) && name != "scope"@
}

proof fn keywords_come_in_order(keywords: Seq<(ExprV, ExprV)>, p: int, n: nat)
    requires
        first_scope(keywords, p),
        n <= keywords.len(),
    ensures
        ({
            let v = reduced_keywords(keywords, n);
            &&& n <= p ==> v.len() == n && forall|i: int|
                0 <= i < n ==> (#[trigger] v[i]).0 != "scope"@
            &&& n > p ==> v.len() > p && v[p] == ("scope"@, reduced(keywords[p].1)) && forall|i: int|
                0 <= i < p ==> (#[trigger] v[i]).0 != "scope"@
        }),
    decreases n,
{
    if n > 0 {
        keywords_come_in_order(keywords, p, (n - 1) as nat);
        let e = keywords[n - 1].0;
        if n - 1 < p {
            let name = choose|name: Seq<char>| #[trigger] is_text(e, name) && name != "scope"@;
            assert(is_text(keywords[n - 1].0, name));
            assert(reduced(e) == ArgV::Str(name));
        }
    }
}

proof fn the_first_counts(v: Seq<(Seq<char>, ArgV)>, p: int, from: int)
    requires
        0 <= from <= p < v.len(),
        v[p].0 == "scope"@,
        forall|i: int| 0 <= i < p ==> (#[trigger] v[i]).0 != "scope"@,
    ensures
        first_named(v, "scope"@, from) == Some(v[p].1),
    decreases p - from,
{
    if from < p {
        assert(v[from].0 != "scope"@);
        the_first_counts(v, p, from + 1);
    }
}

proof fn all_texts_are_taken(items: Seq<ExprV>, texts: Seq<Seq<char>>, n: nat)
    requires
        n <= items.len(),
        items.len() == texts.len(),
        forall|i: int| 0 <= i < items.len() ==> is_text(#[trigger] items[i], texts[i]),
    ensures
        reduced_list(items, n).len() == n,
        forall|i: int|
            0 <= i < n ==> #[trigger] reduced_list(items, n)[i] == ArgV::Str(texts[i]),
    decreases n,
{
    if n > 0 {
        all_texts_are_taken(items, texts, (n - 1) as nat);
        assert(is_text(items[n - 1], texts[n - 1]));
        let before = reduced_list(items, (n - 1) as nat);
        let now = reduced_list(items, n);
        assert(reduced(items[n - 1]) == ArgV::Str(texts[n - 1]));
        assert(now == before.push(reduced(items[n - 1])));
        assert forall|i: int| 0 <= i < n implies #[trigger] now[i] == ArgV::Str(texts[i]) by {
            if i < n - 1 {
                assert(now[i] == before[i]);
            }
        }
    }
}

proof fn texts_stay(v: Seq<ArgV>, texts: Seq<Seq<char>>, n: nat)
    requires
        n <= v.len(),
        v.len() == texts.len(),
        forall|i: int| 0 <= i < v.len() ==> #[trigger] v[i] == ArgV::Str(texts[i]),
    ensures
        texts_upto(v, n) == Some(texts.take(n as int)),
    decreases n,
{
    if n > 0 {
        texts_stay(v, texts, (n - 1) as nat);
        assert(v[n - 1] == ArgV::Str(texts[n - 1]));
        assert(texts.take(n as int) =~= texts.take(n - 1).push(texts[n - 1]));
    } else {
        assert(texts.take(0) =~= Seq::empty());
    }
}

/// A call with two arguments, a first one and keywords.
pub open spec fn takes(call: CallSiteV, first: ExprV, keywords: Seq<(ExprV, ExprV)>) -> bool {
    call.arguments == seq![first, ExprV::Keywords(keywords)]
}

proof fn a_call_is_taken_apart(call: CallSiteV, first: ExprV, keywords: Seq<(ExprV, ExprV)>, p: int)
    requires
        takes(call, first, keywords),
        !(first is Keywords),
        first_scope(keywords, p),
    ensures
        positional_upto(call.arguments, 2) == seq![reduced(first)],
        keywords_upto(call.arguments, 2) == reduced_keywords(keywords, keywords.len()),
        first_named(keywords_upto(call.arguments, 2), "scope"@, 0) == Some(reduced(keywords[p].1)),
{
    let args = call.arguments;
    assert(args[0] == first && args[1] == ExprV::Keywords(keywords));
    assert(positional_upto(args, 0) =~= Seq::empty());
    assert(positional_upto(args, 1) =~= seq![reduced(first)]);
    assert(positional_upto(args, 2) =~= seq![reduced(first)]);
    let v = reduced_keywords(keywords, keywords.len());
    keywords_come_in_order(keywords, p, keywords.len());
    the_first_counts(v, p, 0);
}

/// A scope of one text stands in front of the key, and so do the texts of a
/// list, in their order, whatever the other keywords are.
pub proof fn a_scope_stands_in_front_of_the_key(
    f: FactsV,
    loc: LocatorV,
    out: FileScanV,
    call: CallSiteV,
    ctx: CallCtxV,
    first: ExprV,
    key: Seq<char>,
    keywords: Seq<(ExprV, ExprV)>,
    p: int,
    items: Seq<ExprV>,
    texts: Seq<Seq<char>>,
)
    requires
        takes(call, first, keywords),
        is_text(first, key),
        key.len() == 0 || key[0] != '.',
        first_scope(keywords, p),
        call.receiver is None || is_i18n(call.receiver->Some_0),
        items.len() == texts.len(),
        texts.len() > 0,
        forall|i: int| 0 <= i < items.len() ==> is_text(#[trigger] items[i], texts[i]),
        keywords[p].1 == ExprV::Array(items) || (texts.len() == 1 && keywords[p].1 == items[0]),
    ensures
        ({
            let now = with_call(f, loc, out, call, ctx);
            let n = out.keys.len() as int;
            &&& now.keys.len() == n + 1
            &&& now.keys.take(n) == out.keys
            &&& now.keys[n].0 == joined_key(seq![join_of(texts, "."@), key])
            &&& now.keys[n].1.raw_key == key
            &&& now.opaque == out.opaque
        }),
{
    reveal_strlit(".");
    a_call_is_taken_apart(call, first, keywords, p);
    let value = reduced(keywords[p].1);
    let kwargs = keywords_upto(call.arguments, 2);
    all_texts_are_taken(items, texts, items.len());
    let list = reduced_list(items, items.len());
    texts_stay(list, texts, list.len());
    assert(texts.take(texts.len() as int) =~= texts);
    assert(is_text(items[0], texts[0]));
    assert(scope_of(kwargs) == Ok::<Option<Seq<char>>, ()>(Some(join_of(texts, "."@)))) by {
        if keywords[p].1 == ExprV::Array(items) {
            assert(value == ArgV::Arr(list));
        } else {
            assert(value == ArgV::Str(texts[0]));
            assert(seq![texts[0]] =~= texts);
        }
    }
    if "."@.is_prefix_of(key) {
        assert(key.subrange(0, 1)[0] == key[0]);
    }
    let scope = Some(join_of(texts, "."@));
    assert(scoped(scope, seq![key]) =~= seq![join_of(texts, "."@), key]);
    let now = with_call(f, loc, out, call, ctx);
    assert(now.keys.take(out.keys.len() as int) =~= out.keys);
}

/// A call with a scope that is not known adds nothing: one that is no text and
/// no list, a list with an entry that is no text, and an empty list.
pub proof fn an_unknown_scope_drops_the_call(
    f: FactsV,
    loc: LocatorV,
    out: FileScanV,
    call: CallSiteV,
    ctx: CallCtxV,
    first: ExprV,
    keywords: Seq<(ExprV, ExprV)>,
    p: int,
    items: Seq<ExprV>,
    i: int,
)
    requires
        takes(call, first, keywords),
        !(first is Keywords),
        first_scope(keywords, p),
        ({
            let e = keywords[p].1;
            ||| e is LocalRead
            ||| e is InstanceRead
            ||| e is Const
            ||| e is Other
            ||| e is InterpolatedStr
            ||| e is Int
            ||| e == ExprV::Array(Seq::empty())
            ||| e == ExprV::Array(items) && 0 <= i < items.len() && !(items[i] is Str)
                && !(items[i] is Sym) && !(items[i] is Implicit)
        }),
    ensures
        with_call(f, loc, out, call, ctx) == out,
{
    a_call_is_taken_apart(call, first, keywords, p);
    if let ExprV::Array(v) = keywords[p].1 {
        let list = reduced_list(v, v.len());
        if v.len() > 0 {
            a_list_keeps_its_places(v, v.len());
            assert(!(list[i] is Str));
            no_text_no_list(list, list.len(), i);
        } else {
            assert(list =~= Seq::empty());
        }
    }
}

proof fn a_list_keeps_its_places(v: Seq<ExprV>, n: nat)
    requires
        n <= v.len(),
    ensures
        reduced_list(v, n).len() == n,
        forall|i: int| 0 <= i < n ==> #[trigger] reduced_list(v, n)[i] == reduced(v[i]),
    decreases n,
{
    if n > 0 {
        a_list_keeps_its_places(v, (n - 1) as nat);
        let before = reduced_list(v, (n - 1) as nat);
        let now = reduced_list(v, n);
        assert(now == before.push(reduced(v[n - 1])));
        assert forall|i: int| 0 <= i < n implies #[trigger] now[i] == reduced(v[i]) by {
            if i < n - 1 {
                assert(now[i] == before[i]);
            }
        }
    }
}

proof fn no_text_no_list(v: Seq<ArgV>, n: nat, i: int)
    requires
        0 <= i < n <= v.len(),
        !(v[i] is Str),
    ensures
        texts_upto(v, n) is None,
    decreases n,
{
    if i < n - 1 {
        no_text_no_list(v, (n - 1) as nat, i);
    }
}

// ------------------------------------------------------------------------ patterns

/// A key of texts and interpolations stands for the texts with `*:` in each
/// place of an interpolation.
pub proof fn an_interpolation_stands_for_part_of_a_segment(
    parts: Seq<ExprV>,
    before: Seq<char>,
    after: Seq<char>,
    e: ExprV,
)
    requires
        parts == seq![ExprV::Str(before), e, ExprV::Str(after)],
        !(e is Str) && !(e is InterpolatedStr),
    ensures
        parts_pattern(parts, 3) == before + seq!['*', ':'] + after,
        parts_pattern(parts.take(1), 1) == before,
        parts_pattern(parts.push(e), 4) == before + seq!['*', ':'] + after + seq!['*', ':'],
{
    reveal_strlit("*:");
    let none = Seq::<char>::empty();
    assert("*:"@ =~= seq!['*', ':']);
    assert(parts_pattern(parts, 0) == none);
    assert(parts_pattern(parts, 1) =~= before) by {
        assert(part_pattern(ExprV::Str(before)) == before);
    }
    assert(parts_pattern(parts, 2) =~= before + "*:"@) by {
        assert(parts[1] == e);
        assert(part_pattern(e) == "*:"@);
    }
    assert(parts_pattern(parts, 3) =~= before + "*:"@ + after) by {
        assert(part_pattern(ExprV::Str(after)) == after);
    }
    let one = parts.take(1);
    assert(one[0] == ExprV::Str(before));
    assert(parts_pattern(one, 0) == none);
    assert(parts_pattern(one, 1) =~= before);
    let more = parts.push(e);
    assert(more[0] == parts[0] && more[1] == parts[1] && more[2] == parts[2] && more[3] == e);
    assert(parts_pattern(more, 0) == none);
    assert(parts_pattern(more, 1) =~= before);
    assert(parts_pattern(more, 2) =~= before + "*:"@);
    assert(parts_pattern(more, 3) =~= before + "*:"@ + after);
    assert(part_pattern(more[3]) == "*:"@);
    assert(parts_pattern(more, 4) =~= before + "*:"@ + after + "*:"@);
}

/// A pattern with a static part is a use of all that it matches; one without
/// says nothing, and counts as a call with an unknown key.
pub proof fn a_pattern_needs_a_static_part(
    out: FileScanV,
    pattern: Seq<char>,
    occ: OccurrenceV,
    i: int,
)
    ensures
        ({
            let now = with_pattern(out, pattern, occ);
            &&& now.keys == out.keys
            &&& 0 <= i < pattern.len() && pattern[i] != '.' && pattern[i] != '*' && pattern[i]
                != ':' ==> now.patterns == out.patterns.push((pattern, occ)) && now.opaque
                == out.opaque
            &&& (forall|k: int|
                0 <= k < pattern.len() ==> #[trigger] pattern[k] == '.' || pattern[k] == '*'
                    || pattern[k] == ':') ==> now.opaque == out.opaque.push(occ) && now.patterns
                == out.patterns
        }),
{
}

/// A key is a use of itself; where it ends in a dot it is one of all the keys
/// below it, too.
pub proof fn a_key_is_a_use_of_itself(out: FileScanV, key: Seq<char>, occ: OccurrenceV, i: int)
    ensures
        ({
            let now = with_key(out, key, occ);
            &&& now.keys == out.keys.push((key, occ))
            &&& now.opaque == out.opaque
            &&& key.len() == 0 || key.last() != '.' ==> now.patterns == out.patterns
            &&& 0 <= i < key.len() && key[i] != '.' && key[i] != '*' && key[i] != ':' && key.last()
                == '.' ==> now.patterns == out.patterns.push((key + seq!['*', ':'], occ))
        }),
{
    reveal_strlit(".");
    reveal_strlit("*:");
    let n = key.len() as int;
    assert("*:"@ =~= seq!['*', ':']);
    if n > 0 {
        let end = key.subrange(n - 1, n);
        assert(end[0] == key.last());
        if key.last() == '.' {
            assert(end =~= "."@);
        }
    }
    if 0 <= i < key.len() {
        assert((key + "*:"@)[i] == key[i]);
    }
}

} // verus!
